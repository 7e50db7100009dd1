//! The egress classifier: find the dummy token near the start of a TCP
//! payload of an IPv4 packet from a registered cgroup, and write the real
//! token over it in place.
use vstd::prelude::*;
use crate::token::{TokenPair, TOKEN_LEN};
use crate::skb::{Skb, spliced, be_u16_at, load_byte, load_be_u16, load_window, store_window};
use crate::counters::{
    Counters, bumped, recorded, bump_stat, set_debug, STAT_PACKETS, STAT_CGROUP_ZERO,
    STAT_MAP_HITS, STAT_TCP_PAYLOADS, STAT_TOKEN_FOUND, STAT_REWRITE_OK, DEBUG_LAST_CGROUP_ID,
    DEBUG_LAST_PACKET_LEN, DEBUG_LAST_PAYLOAD_OFFSET, DEBUG_LAST_SCAN_LEN,
};

verus! {

/// Let the packet through.
pub const TC_ACT_OK: i32 = 0;

/// Length of the Ethernet II header that starts the packet.
pub const ETH_HDR_LEN: u32 = 14;
/// Offset of the EtherType field.
pub const ETH_TYPE_OFFSET: u32 = 12;
/// EtherType of IPv4.
pub const ETH_P_IPV4: u16 = 0x0800;
/// Shortest IPv4 header.
pub const IPV4_MIN_HDR_LEN: u32 = 20;
/// Shortest TCP header.
pub const TCP_MIN_HDR_LEN: u32 = 20;
/// Offset of the protocol field in the IPv4 header.
pub const IPV4_PROTOCOL_OFFSET: u32 = 9;
/// Offset of the data-offset byte in the TCP header.
pub const TCP_DATA_OFFSET_BYTE: u32 = 12;
/// IP protocol number of TCP.
pub const IPPROTO_TCP: u8 = 6;
/// How many payload bytes are searched for the dummy token.
pub const PAYLOAD_BUF: usize = 128;

/// Length of the IPv4 header: the IHL nibble, in 32-bit words.
pub open spec fn ipv4_hdr_len(d: Seq<u8>) -> int {
    (d[ETH_HDR_LEN as int] % 16) * 4
}

/// Length of the TCP header: the data-offset nibble, in 32-bit words.
pub open spec fn tcp_hdr_len(d: Seq<u8>) -> int {
    (d[ETH_HDR_LEN + ipv4_hdr_len(d) + TCP_DATA_OFFSET_BYTE] / 16) * 4
}

/// Where the TCP payload starts, for an IPv4 packet carrying TCP whose
/// headers are well formed and leave room for a whole token after them;
/// `None` for any other packet.
pub open spec fn tcp_payload_offset(d: Seq<u8>) -> Option<int> {
    let len = d.len();
    if len < ETH_HDR_LEN + IPV4_MIN_HDR_LEN + TCP_MIN_HDR_LEN + TOKEN_LEN {
        None
    } else if be_u16_at(d, ETH_TYPE_OFFSET as int) != ETH_P_IPV4 {
        None
    } else if d[ETH_HDR_LEN as int] / 16 != 4 {
        None
    } else if ipv4_hdr_len(d) < IPV4_MIN_HDR_LEN {
        None
    } else if d[ETH_HDR_LEN + IPV4_PROTOCOL_OFFSET] != IPPROTO_TCP {
        None
    } else if len < ETH_HDR_LEN + ipv4_hdr_len(d) + TCP_MIN_HDR_LEN + TOKEN_LEN {
        None
    } else if tcp_hdr_len(d) < TCP_MIN_HDR_LEN {
        None
    } else if len < ETH_HDR_LEN + ipv4_hdr_len(d) + tcp_hdr_len(d) + TOKEN_LEN {
        None
    } else {
        Some(ETH_HDR_LEN + ipv4_hdr_len(d) + tcp_hdr_len(d))
    }
}

/// How many payload bytes from `start` on are searched: the whole payload,
/// but at most `PAYLOAD_BUF` bytes.
pub open spec fn scan_len(d: Seq<u8>, start: int) -> int {
    if d.len() - start > PAYLOAD_BUF {
        PAYLOAD_BUF as int
    } else {
        d.len() - start
    }
}

/// Whether `token` occurs in `d` at position `at`.
pub open spec fn token_at(d: Seq<u8>, at: int, token: Seq<u8>) -> bool {
    0 <= at && at + token.len() <= d.len() && d.subrange(at, at + token.len()) == token
}

/// The first position `start + i`, for `i` from `from` on, where a whole
/// `TOKEN_LEN`-byte window inside the first `limit` bytes from `start`
/// equals `token`.
pub open spec fn first_token(d: Seq<u8>, start: int, limit: int, token: Seq<u8>, from: int) -> Option<int>
    decreases limit - from,
{
    if from < 0 || from + TOKEN_LEN > limit {
        None
    } else if d.subrange(start + from, start + from + TOKEN_LEN) == token {
        Some(start + from)
    } else {
        first_token(d, start, limit, token, from + 1)
    }
}

/// Where the dummy token of `pair` is overwritten in `d`, if anywhere: its
/// first occurrence that lies wholly within the scanned part of the payload.
pub open spec fn rewrite_offset(d: Seq<u8>, pair: TokenPair) -> Option<int> {
    match tcp_payload_offset(d) {
        Some(p) => first_token(d, p, scan_len(d, p), pair.dummy_token@, 0),
        None => None,
    }
}

/// Where the dummy token of the packet's pair is overwritten, if the packet
/// comes from a registered cgroup and holds it.
pub open spec fn rewrite_at(d: Seq<u8>, pair: Option<TokenPair>) -> Option<int> {
    match pair {
        Some(pr) => rewrite_offset(d, pr),
        None => None,
    }
}

/// The packet with the real token written in, when there is a rewrite.
pub open spec fn intercepted(d: Seq<u8>, pair: Option<TokenPair>) -> Seq<u8> {
    match pair {
        Some(pr) => match rewrite_offset(d, pr) {
            Some(at) => spliced(d, at, pr.real_token@),
            None => d,
        },
        None => d,
    }
}

/// Whether the kernel refuses the store of the real token: there is a
/// rewrite to make and `store_status` is an error.
pub open spec fn store_refused(d: Seq<u8>, pair: Option<TokenPair>, store_status: i64) -> bool {
    rewrite_at(d, pair) is Some && store_status < 0
}

/// The packet as it leaves the classifier: rewritten, unless the kernel
/// refused the store, in which case it goes on as it came.
pub open spec fn egress_packet(d: Seq<u8>, pair: Option<TokenPair>, store_status: i64) -> Seq<u8> {
    if store_refused(d, pair, store_status) {
        d
    } else {
        intercepted(d, pair)
    }
}

/// What `try_intercept` returns: the kernel's error when it refused the
/// store, else the verdict to let the packet through.
pub open spec fn intercept_result(d: Seq<u8>, pair: Option<TokenPair>, store_status: i64) -> Result<i32, i64> {
    if store_refused(d, pair, store_status) {
        Err(store_status)
    } else {
        Ok(TC_ACT_OK)
    }
}

/// The `STATS` array after one packet has been parsed and scanned, before
/// the store.
pub open spec fn stats_scanned(s: Seq<u64>, d: Seq<u8>, cgroup_id: u64, pair: Option<TokenPair>) -> Seq<u64> {
    let seen = bumped(s, STAT_PACKETS as int);
    let seen = if cgroup_id == 0 {
        bumped(seen, STAT_CGROUP_ZERO as int)
    } else {
        seen
    };
    match pair {
        None => seen,
        Some(pr) => {
            let hit = bumped(seen, STAT_MAP_HITS as int);
            match tcp_payload_offset(d) {
                None => hit,
                Some(p) => {
                    let scanned = bumped(hit, STAT_TCP_PAYLOADS as int);
                    match rewrite_offset(d, pr) {
                        None => scanned,
                        Some(at) => bumped(scanned, STAT_TOKEN_FOUND as int),
                    }
                },
            }
        },
    }
}

/// The `STATS` array after one packet: a rewrite is counted only when the
/// kernel accepted the store.
pub open spec fn stats_after(
    s: Seq<u64>,
    d: Seq<u8>,
    cgroup_id: u64,
    pair: Option<TokenPair>,
    store_status: i64,
) -> Seq<u64> {
    let scanned = stats_scanned(s, d, cgroup_id, pair);
    if rewrite_at(d, pair) is Some && store_status >= 0 {
        bumped(scanned, STAT_REWRITE_OK as int)
    } else {
        scanned
    }
}

/// The `DEBUG_VALUES` array after one packet.
pub open spec fn debug_after(g: Seq<u64>, d: Seq<u8>, cgroup_id: u64, pair: Option<TokenPair>) -> Seq<u64> {
    let seen = recorded(
        recorded(g, DEBUG_LAST_PACKET_LEN as int, d.len() as u64),
        DEBUG_LAST_CGROUP_ID as int,
        cgroup_id,
    );
    match pair {
        None => seen,
        Some(pr) => match tcp_payload_offset(d) {
            None => seen,
            Some(p) => recorded(
                recorded(seen, DEBUG_LAST_PAYLOAD_OFFSET as int, p as u64),
                DEBUG_LAST_SCAN_LEN as int,
                scan_len(d, p) as u64,
            ),
        },
    }
}

/// Whether two tokens are equal byte for byte.
fn same_token(a: &[u8; TOKEN_LEN], b: &[u8; TOKEN_LEN]) -> (r: bool)
    ensures
        r == (a@ == b@),
{
    let mut j: usize = 0;
    while j < TOKEN_LEN
        invariant
            j <= TOKEN_LEN,
            forall|k: int| 0 <= k < j ==> a@[k] == b@[k],
        decreases TOKEN_LEN - j,
    {
        if a[j] != b[j] {
            return false;
        }
        j += 1;
    }
    assert(a@ =~= b@);
    true
}

/// Parses and scans one outgoing packet, counting it: where the real token
/// is to be written, if anywhere. Everything the classifier does before the
/// store.
#[verifier::loop_isolation(false)]
#[verifier::rlimit(50)]
pub fn locate_rewrite(
    ctx: &Skb,
    pair: Option<TokenPair>,
    stats: &mut Counters,
    debug: &mut Counters,
) -> (r: Result<Option<u32>, i64>)
    requires
        ctx.wf(),
    ensures
        r is Ok,
        r->Ok_0 is Some <==> rewrite_at(ctx.data@, pair) is Some,
        r->Ok_0 matches Some(at) ==> rewrite_at(ctx.data@, pair) == Some(at as int),
        final(stats).values@ == stats_scanned(old(stats).values@, ctx.data@, ctx.cgroup_id, pair),
        final(debug).values@ == debug_after(old(debug).values@, ctx.data@, ctx.cgroup_id, pair),
{
    let ghost d = ctx.data@;
    // Identify the cgroup that owns the packet.
    bump_stat(stats, STAT_PACKETS);
    let packet_len = ctx.len();
    set_debug(debug, DEBUG_LAST_PACKET_LEN, packet_len as u64);
    let cgroup_id = ctx.cgroup_id;
    set_debug(debug, DEBUG_LAST_CGROUP_ID, cgroup_id);
    if cgroup_id == 0 {
        bump_stat(stats, STAT_CGROUP_ZERO);
    }
    // Only a registered cgroup is rewritten.
    let pair = match pair {
        Some(p) => p,
        None => return Ok(None),
    };
    bump_stat(stats, STAT_MAP_HITS);

    // Parse the IPv4 and TCP header lengths to find the payload.
    if packet_len < ETH_HDR_LEN + IPV4_MIN_HDR_LEN + TCP_MIN_HDR_LEN + TOKEN_LEN as u32 {
        return Ok(None);
    }
    if load_be_u16(ctx, ETH_TYPE_OFFSET)? != ETH_P_IPV4 {
        return Ok(None);
    }
    let ip_offset = ETH_HDR_LEN;
    let version_ihl = load_byte(ctx, ip_offset)?;
    assert(version_ihl >> 4u8 == version_ihl / 16 && version_ihl & 0x0fu8 == version_ihl % 16)
        by (bit_vector);
    if version_ihl >> 4 != 4 {
        return Ok(None);
    }
    let ip_header_len = ((version_ihl & 0x0f) as u32) * 4;
    if ip_header_len < IPV4_MIN_HDR_LEN {
        return Ok(None);
    }
    if load_byte(ctx, ip_offset + IPV4_PROTOCOL_OFFSET)? != IPPROTO_TCP {
        return Ok(None);
    }
    if packet_len < ip_offset + ip_header_len + TCP_MIN_HDR_LEN + TOKEN_LEN as u32 {
        return Ok(None);
    }
    let tcp_offset = ip_offset + ip_header_len;
    let data_offset = load_byte(ctx, tcp_offset + TCP_DATA_OFFSET_BYTE)?;
    assert(data_offset >> 4u8 == data_offset / 16) by (bit_vector);
    let tcp_header_len = ((data_offset >> 4) as u32) * 4;
    if tcp_header_len < TCP_MIN_HDR_LEN {
        return Ok(None);
    }
    let payload_offset = tcp_offset + tcp_header_len;
    if packet_len < payload_offset + TOKEN_LEN as u32 {
        return Ok(None);
    }
    assert(tcp_payload_offset(d) == Some(payload_offset as int));
    set_debug(debug, DEBUG_LAST_PAYLOAD_OFFSET, payload_offset as u64);

    let payload_len = packet_len - payload_offset;
    let scan_len = if payload_len > PAYLOAD_BUF as u32 {
        PAYLOAD_BUF as u32
    } else {
        payload_len
    };
    set_debug(debug, DEBUG_LAST_SCAN_LEN, scan_len as u64);
    bump_stat(stats, STAT_TCP_PAYLOADS);

    // Search the scanned window for the dummy token, one candidate at a time.
    let ghost scanned = stats.values@;
    let ghost target = pair.dummy_token@;
    let mut found_offset: Option<u32> = None;
    let mut i: usize = 0;
    while i < PAYLOAD_BUF - TOKEN_LEN + 1
        invariant
            i <= PAYLOAD_BUF - TOKEN_LEN + 1,
            found_offset is None,
            stats.values@ == scanned,
            first_token(d, payload_offset as int, scan_len as int, target, 0)
                == first_token(d, payload_offset as int, scan_len as int, target, i as int),
        decreases PAYLOAD_BUF - TOKEN_LEN + 1 - i,
    {
        if i as u32 + TOKEN_LEN as u32 > scan_len {
            break;
        }
        let candidate_offset = payload_offset + i as u32;
        let candidate = match load_window(ctx, candidate_offset) {
            Ok(c) => c,
            Err(_) => return Ok(None),
        };
        if same_token(&candidate, &pair.dummy_token) {
            found_offset = Some(candidate_offset);
            bump_stat(stats, STAT_TOKEN_FOUND);
            break;
        }
        i += 1;
    }
    Ok(found_offset)
}

/// Settles a rewrite once the kernel has answered the store of the real
/// token: its error is passed on, and only an accepted store counts as a
/// rewrite.
pub fn complete_rewrite(store_ret: i64, stats: &mut Counters) -> (r: Result<i32, i64>)
    ensures
        store_ret < 0 ==> r == Err::<i32, i64>(store_ret) && final(stats).values@ == old(
            stats,
        ).values@,
        store_ret >= 0 ==> r == Ok::<i32, i64>(TC_ACT_OK) && final(stats).values@ == bumped(
            old(stats).values@,
            STAT_REWRITE_OK as int,
        ),
{
    if store_ret < 0 {
        return Err(store_ret);
    }
    bump_stat(stats, STAT_REWRITE_OK);
    Ok(TC_ACT_OK)
}

/// Processes one outgoing packet: counts it, and when its cgroup has a token
/// pair and it is an IPv4/TCP packet whose scanned payload holds the dummy
/// token, writes the real token over the first occurrence. When the kernel
/// refuses that store, its error is returned and the packet is unchanged.
pub fn try_intercept(
    ctx: &mut Skb,
    pair: Option<TokenPair>,
    stats: &mut Counters,
    debug: &mut Counters,
) -> (r: Result<i32, i64>)
    requires
        old(ctx).wf(),
    ensures
        r == intercept_result(old(ctx).data@, pair, old(ctx).store_status),
        final(ctx).cgroup_id == old(ctx).cgroup_id,
        final(ctx).store_status == old(ctx).store_status,
        final(ctx).data@ == egress_packet(old(ctx).data@, pair, old(ctx).store_status),
        final(stats).values@ == stats_after(
            old(stats).values@,
            old(ctx).data@,
            old(ctx).cgroup_id,
            pair,
            old(ctx).store_status,
        ),
        final(debug).values@ == debug_after(
            old(debug).values@,
            old(ctx).data@,
            old(ctx).cgroup_id,
            pair,
        ),
{
    let ghost d = ctx.data@;
    let found = locate_rewrite(ctx, pair, stats, debug)?;
    let (write_offset, real_token) = match (found, pair) {
        (Some(o), Some(p)) => (o, p.real_token),
        _ => return Ok(TC_ACT_OK),
    };
    proof {
        crate::laws::lemma_rewrite_offset(d, pair->Some_0);
    }
    // Write the real token over the dummy one.
    let ret: i64 = match store_window(ctx, write_offset, &real_token) {
        Ok(()) => 0,
        Err(e) => e,
    };
    complete_rewrite(ret, stats)
}

/// The classifier's entry point: whatever happens, the packet goes on, as
/// `try_intercept` left it.
pub fn token_rewrite_egress(
    ctx: &mut Skb,
    pair: Option<TokenPair>,
    stats: &mut Counters,
    debug: &mut Counters,
) -> (action: i32)
    requires
        old(ctx).wf(),
    ensures
        action == TC_ACT_OK,
        final(ctx).cgroup_id == old(ctx).cgroup_id,
        final(ctx).store_status == old(ctx).store_status,
        final(ctx).data@ == egress_packet(old(ctx).data@, pair, old(ctx).store_status),
        final(stats).values@ == stats_after(
            old(stats).values@,
            old(ctx).data@,
            old(ctx).cgroup_id,
            pair,
            old(ctx).store_status,
        ),
        final(debug).values@ == debug_after(
            old(debug).values@,
            old(ctx).data@,
            old(ctx).cgroup_id,
            pair,
        ),
{
    match try_intercept(ctx, pair, stats, debug) {
        Ok(ret) => ret,
        Err(_) => TC_ACT_OK,
    }
}

} // verus!
