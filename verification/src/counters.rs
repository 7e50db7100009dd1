//! The classifier's diagnostic arrays: `STATS` counts events, `DEBUG_VALUES`
//! keeps the last value seen of a few packet fields. Each is an array of
//! `u64` slots; an index past the last slot is ignored, as the array map's
//! lookup finds no slot there.
use vstd::prelude::*;
use vstd::wrapping::u64_specs::wrapping_add;

verus! {

/// Number of slots in each diagnostic array.
pub const COUNTER_SLOTS: usize = 8;

/// Packets seen.
pub const STAT_PACKETS: u32 = 0;
/// Packets whose cgroup id was 0.
pub const STAT_CGROUP_ZERO: u32 = 1;
/// Packets from a cgroup that has a token pair.
pub const STAT_MAP_HITS: u32 = 2;
/// IPv4/TCP packets whose payload was scanned.
pub const STAT_TCP_PAYLOADS: u32 = 3;
/// Packets in which the dummy token was found.
pub const STAT_TOKEN_FOUND: u32 = 4;
/// Packets rewritten.
pub const STAT_REWRITE_OK: u32 = 5;

/// Id of the cgroup of the last packet.
pub const DEBUG_LAST_CGROUP_ID: u32 = 0;
/// Length of the last packet.
pub const DEBUG_LAST_PACKET_LEN: u32 = 1;
/// Payload offset of the last scanned packet.
pub const DEBUG_LAST_PAYLOAD_OFFSET: u32 = 2;
/// Number of payload bytes scanned in the last scanned packet.
pub const DEBUG_LAST_SCAN_LEN: u32 = 3;

/// An array of `u64` slots.
pub struct Counters {
    pub values: Vec<u64>,
}

/// `s` with slot `index` raised by one (wrapping), when there is such a slot.
pub open spec fn bumped(s: Seq<u64>, index: int) -> Seq<u64> {
    if 0 <= index < s.len() {
        s.update(index, wrapping_add(s[index], 1))
    } else {
        s
    }
}

/// `s` with slot `index` set to `value`, when there is such a slot.
pub open spec fn recorded(s: Seq<u64>, index: int, value: u64) -> Seq<u64> {
    if 0 <= index < s.len() {
        s.update(index, value)
    } else {
        s
    }
}

/// Raises the counter at `index` by one.
pub fn bump_stat(stats: &mut Counters, index: u32)
    ensures
        final(stats).values@ == bumped(old(stats).values@, index as int),
{
    let i = index as usize;
    if i < stats.values.len() {
        let v = stats.values[i];
        stats.values.set(i, v.wrapping_add(1));
    }
}

/// Records `value` in the slot at `index`.
pub fn set_debug(debug: &mut Counters, index: u32, value: u64)
    ensures
        final(debug).values@ == recorded(old(debug).values@, index as int, value),
{
    let i = index as usize;
    if i < debug.values.len() {
        debug.values.set(i, value);
    }
}

} // verus!
