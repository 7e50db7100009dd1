//! A socket buffer as the classifier sees it: the packet bytes from the
//! first byte of the Ethernet header on, and the id of the cgroup that owns
//! it. Loads and stores follow the kernel's `bpf_skb_load_bytes` and
//! `bpf_skb_store_bytes`: they succeed exactly when the requested range lies
//! inside the packet, and fail with `-EFAULT` ([`FAULT`]) otherwise. A store
//! inside the packet can still be refused by the kernel (when it cannot make
//! the packet writable); `store_status` holds its answer.
use vstd::prelude::*;
use crate::token::TOKEN_LEN;

verus! {

/// `-EFAULT`: what a load or store outside the packet returns.
pub const FAULT: i64 = -14;

/// A packet on its way out, with the cgroup that sent it.
pub struct Skb {
    pub data: Vec<u8>,
    pub cgroup_id: u64,
    /// What the kernel answers to a store inside this packet: 0 when it
    /// writes the bytes, a negative error when it refuses.
    pub store_status: i64,
}

impl Skb {
    /// A socket buffer's length is a `u32`.
    pub open spec fn wf(&self) -> bool {
        self.data@.len() <= u32::MAX
    }

    /// The packet length (`skb->len`).
    pub fn len(&self) -> (n: u32)
        requires
            self.wf(),
        ensures
            n == self.data@.len(),
    {
        self.data.len() as u32
    }
}

/// `d` with `bytes` written over it from position `at` on.
pub open spec fn spliced(d: Seq<u8>, at: int, bytes: Seq<u8>) -> Seq<u8> {
    d.subrange(0, at) + bytes + d.subrange(at + bytes.len(), d.len() as int)
}

/// Big-endian value of the two bytes at `at` and `at + 1`.
pub open spec fn be_u16_at(d: Seq<u8>, at: int) -> int {
    d[at] * 256 + d[at + 1]
}

/// Reads the byte at `offset`.
pub fn load_byte(ctx: &Skb, offset: u32) -> (r: Result<u8, i64>)
    ensures
        offset < ctx.data@.len() ==> r == Ok::<u8, i64>(ctx.data@[offset as int]),
        offset >= ctx.data@.len() ==> r == Err::<u8, i64>(FAULT),
{
    if (offset as usize) < ctx.data.len() {
        Ok(ctx.data[offset as usize])
    } else {
        Err(FAULT)
    }
}

/// Reads the big-endian 16-bit value at `offset`.
pub fn load_be_u16(ctx: &Skb, offset: u32) -> (r: Result<u16, i64>)
    requires
        ctx.wf(),
    ensures
        offset + 1 < ctx.data@.len() ==> r == Ok::<u16, i64>(
            be_u16_at(ctx.data@, offset as int) as u16,
        ),
        offset + 1 >= ctx.data@.len() ==> r == Err::<u16, i64>(FAULT),
{
    let high = load_byte(ctx, offset)? as u16;
    let low = load_byte(ctx, offset + 1)? as u16;
    assert((high << 8u16) | low == high * 256 + low) by (bit_vector)
        requires
            high < 256,
            low < 256,
    ;
    Ok((high << 8) | low)
}

/// Reads the `TOKEN_LEN` bytes that start at `offset`.
pub fn load_window(ctx: &Skb, offset: u32) -> (r: Result<[u8; TOKEN_LEN], i64>)
    ensures
        offset + TOKEN_LEN <= ctx.data@.len() ==> r is Ok && r->Ok_0@ == ctx.data@.subrange(
            offset as int,
            offset + TOKEN_LEN,
        ),
        offset + TOKEN_LEN > ctx.data@.len() ==> r == Err::<[u8; TOKEN_LEN], i64>(FAULT),
{
    if (offset as usize) > ctx.data.len() || ctx.data.len() - (offset as usize) < TOKEN_LEN {
        return Err(FAULT);
    }
    let start = offset as usize;
    let mut window = [0u8; TOKEN_LEN];
    let mut j: usize = 0;
    while j < TOKEN_LEN
        invariant
            j <= TOKEN_LEN,
            start + TOKEN_LEN <= ctx.data.len(),
            forall|k: int| 0 <= k < j ==> window@[k] == ctx.data@[start + k],
        decreases TOKEN_LEN - j,
    {
        window[j] = ctx.data[start + j];
        j += 1;
    }
    assert(window@ =~= ctx.data@.subrange(start as int, start + TOKEN_LEN));
    Ok(window)
}

/// Writes `bytes` over the `TOKEN_LEN` bytes that start at `offset`.
pub fn store_window(ctx: &mut Skb, offset: u32, bytes: &[u8; TOKEN_LEN]) -> (r: Result<(), i64>)
    ensures
        final(ctx).cgroup_id == old(ctx).cgroup_id,
        final(ctx).store_status == old(ctx).store_status,
        offset + TOKEN_LEN <= old(ctx).data@.len() && old(ctx).store_status >= 0 ==> r is Ok
            && final(ctx).data@ == spliced(old(ctx).data@, offset as int, bytes@),
        offset + TOKEN_LEN <= old(ctx).data@.len() && old(ctx).store_status < 0 ==> r == Err::<
            (),
            i64,
        >(old(ctx).store_status) && final(ctx).data@ == old(ctx).data@,
        offset + TOKEN_LEN > old(ctx).data@.len() ==> r == Err::<(), i64>(FAULT)
            && final(ctx).data@ == old(ctx).data@,
{
    if (offset as usize) > ctx.data.len() || ctx.data.len() - (offset as usize) < TOKEN_LEN {
        return Err(FAULT);
    }
    if ctx.store_status < 0 {
        return Err(ctx.store_status);
    }
    let start = offset as usize;
    let ghost before = ctx.data@;
    let mut j: usize = 0;
    while j < TOKEN_LEN
        invariant
            j <= TOKEN_LEN,
            start + TOKEN_LEN <= ctx.data.len(),
            ctx.data@.len() == before.len(),
            ctx.cgroup_id == old(ctx).cgroup_id,
            ctx.store_status == old(ctx).store_status,
            before == old(ctx).data@,
            forall|k: int| 0 <= k < before.len() && !(start <= k < start + j) ==> ctx.data@[k] == before[k],
            forall|k: int| 0 <= k < j ==> ctx.data@[start + k] == bytes@[k],
        decreases TOKEN_LEN - j,
    {
        ctx.data.set(start + j, bytes[j]);
        j += 1;
    }
    assert(ctx.data@ =~= spliced(before, start as int, bytes@));
    Ok(())
}

} // verus!
