//! The daemon's summary of the classifier's counters: it reports only when
//! they changed, naming each counter with its value.
use vstd::prelude::*;
use vstd::string::*;
use crate::text::{decimal, push_char, push_decimal};

verus! {

/// How many of the `STATS` slots the daemon reports.
pub const REPORTED_STATS: usize = 6;

/// The name under which the counter in slot `i` is reported.
pub open spec fn stat_name(i: int) -> Seq<char> {
    if i == 0 {
        "packets"@
    } else if i == 1 {
        "cgroup_zero"@
    } else if i == 2 {
        "map_hits"@
    } else if i == 3 {
        "tcp_payloads"@
    } else if i == 4 {
        "token_found"@
    } else {
        "rewrite_ok"@
    }
}

/// `name=value` for slot `i`.
pub open spec fn counter_entry(i: int, value: u64) -> Seq<char> {
    stat_name(i) + "="@ + decimal(value as nat)
}

/// The entries of `values`, in slot order, separated by `", "`.
pub open spec fn counters_text(values: Seq<u64>) -> Seq<char>
    decreases values.len(),
{
    if values.len() == 0 {
        Seq::empty()
    } else if values.len() == 1 {
        counter_entry(0, values[0])
    } else {
        counters_text(values.drop_last()) + ", "@ + counter_entry(
            values.len() - 1,
            values.last(),
        )
    }
}

/// The reported name of the counter in slot `index`.
pub fn stat_name_of(index: usize) -> (name: &'static str)
    requires
        index < REPORTED_STATS,
    ensures
        name@ == stat_name(index as int),
{
    if index == 0 {
        "packets"
    } else if index == 1 {
        "cgroup_zero"
    } else if index == 2 {
        "map_hits"
    } else if index == 3 {
        "tcp_payloads"
    } else if index == 4 {
        "token_found"
    } else {
        "rewrite_ok"
    }
}

/// `packets=…, cgroup_zero=…, …`: every reported counter with its value.
pub fn format_counters(current: &[u64; REPORTED_STATS]) -> (text: String)
    ensures
        text@ == counters_text(current@),
{
    let mut counters = String::new();
    let mut index: usize = 0;
    while index < REPORTED_STATS
        invariant
            index <= REPORTED_STATS,
            counters@ == counters_text(current@.take(index as int)),
        decreases REPORTED_STATS - index,
    {
        let ghost before = counters@;
        if index > 0 {
            counters.append(", ");
        }
        counters.append(stat_name_of(index));
        push_char(&mut counters, '=');
        push_decimal(&mut counters, current[index]);
        proof {
            reveal_strlit("=");
            let taken = current@.take(index + 1);
            assert(taken.drop_last() =~= current@.take(index as int));
            if index > 0 {
                assert(counters@ =~= before + ", "@ + counter_entry(index as int, current@[index as int]));
            } else {
                assert(before =~= Seq::<char>::empty());
                assert(counters@ =~= counter_entry(0, current@[0]));
            }
        }
        index += 1;
    }
    assert(current@.take(REPORTED_STATS as int) =~= current@);
    counters
}

/// Whether the counters moved since the last report; the new values become
/// the last reported ones.
pub fn stats_changed(last: &mut [u64; REPORTED_STATS], current: [u64; REPORTED_STATS]) -> (changed: bool)
    ensures
        changed == (current@ != old(last)@),
        final(last)@ == current@,
{
    let mut i: usize = 0;
    let mut same = true;
    while i < REPORTED_STATS
        invariant
            i <= REPORTED_STATS,
            same == (forall|k: int| 0 <= k < i ==> last@[k] == current@[k]),
        decreases REPORTED_STATS - i,
    {
        if last[i] != current[i] {
            same = false;
        }
        i += 1;
    }
    if same {
        assert(current@ =~= last@);
    }
    *last = current;
    !same
}

/// How many `DEBUG_VALUES` slots the report shows: the last cgroup id,
/// packet length, payload offset and scanned length.
pub const REPORTED_DEBUG: usize = 4;

/// The whole logged line: the counters, then the last values seen.
pub open spec fn stats_line(current: Seq<u64>, debug: Seq<u64>) -> Seq<char> {
    "eBPF stats: "@ + counters_text(current) + "; last_cgroup_id="@ + decimal(debug[0] as nat)
        + ", last_packet_len="@ + decimal(debug[1] as nat) + ", last_payload_offset="@
        + decimal(debug[2] as nat) + ", last_scan_len="@ + decimal(debug[3] as nat)
}

/// The line the daemon logs for a change of the counters.
pub fn format_stats_line(
    current: &[u64; REPORTED_STATS],
    debug: &[u64; REPORTED_DEBUG],
) -> (line: String)
    ensures
        line@ == stats_line(current@, debug@),
{
    let mut line = String::new();
    line.append("eBPF stats: ");
    let counters = format_counters(current);
    line.append(counters.as_str());
    line.append("; last_cgroup_id=");
    push_decimal(&mut line, debug[0]);
    line.append(", last_packet_len=");
    push_decimal(&mut line, debug[1]);
    line.append(", last_payload_offset=");
    push_decimal(&mut line, debug[2]);
    line.append(", last_scan_len=");
    push_decimal(&mut line, debug[3]);
    assert(line@ =~= stats_line(current@, debug@));
    line
}

} // verus!
