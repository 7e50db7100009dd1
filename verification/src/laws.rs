//! What holds of every packet the classifier handles.
use vstd::prelude::*;
use vstd::wrapping::u64_specs::wrapping_add;
use crate::token::{TokenPair, TOKEN_LEN};
use crate::skb::{spliced, be_u16_at};
use crate::counters::{
    STAT_PACKETS, STAT_CGROUP_ZERO, STAT_MAP_HITS, STAT_TCP_PAYLOADS, STAT_TOKEN_FOUND,
    STAT_REWRITE_OK,
};
use crate::text::{is_white_space, trim_start, trim_end, trimmed, decimal, digit_char, lex_lt};
use crate::interfaces::{nonblank_trimmed, split_on, iface_list, candidate_names, active_names};
use crate::intercept::{
    TC_ACT_OK, ETH_HDR_LEN, ETH_TYPE_OFFSET, ETH_P_IPV4, IPV4_PROTOCOL_OFFSET, IPPROTO_TCP, PAYLOAD_BUF,
    tcp_payload_offset, scan_len, token_at, first_token, rewrite_offset, rewrite_at, intercepted,
    store_refused, egress_packet, intercept_result, stats_after, debug_after,
};

verus! {

/// The search finds the first position, at or after `start + from`, where
/// a whole window inside the first `limit` bytes from `start` holds
/// `token`; when it finds none, there is none.
pub proof fn lemma_first_token(d: Seq<u8>, start: int, limit: int, token: Seq<u8>, from: int)
    requires
        0 <= start,
        start + limit <= d.len(),
        0 <= from,
        token.len() == TOKEN_LEN,
    ensures
        match first_token(d, start, limit, token, from) {
            Some(at) => {
                &&& start + from <= at
                &&& at + TOKEN_LEN <= start + limit
                &&& token_at(d, at, token)
                &&& forall|k: int| start + from <= k < at ==> !token_at(d, k, token)
            },
            None => forall|k: int|
                start + from <= k && k + TOKEN_LEN <= start + limit ==> !token_at(d, k, token),
        },
    decreases limit - from,
{
    if from + TOKEN_LEN > limit {
    } else if d.subrange(start + from, start + from + TOKEN_LEN) == token {
    } else {
        lemma_first_token(d, start, limit, token, from + 1);
    }
}

/// Where the scan looks: the payload offset and the scanned length describe
/// a window of at most `PAYLOAD_BUF` bytes that lies inside the packet.
pub proof fn lemma_scan_window(d: Seq<u8>)
    ensures
        tcp_payload_offset(d) matches Some(p) ==> {
            &&& ETH_HDR_LEN <= p
            &&& p + TOKEN_LEN <= d.len()
            &&& TOKEN_LEN <= scan_len(d, p) <= PAYLOAD_BUF
            &&& p + scan_len(d, p) <= d.len()
        },
{
}

/// Where a rewrite happens: at the first occurrence of the dummy token that
/// lies wholly within the first `PAYLOAD_BUF` bytes of the TCP payload.
pub proof fn lemma_rewrite_offset(d: Seq<u8>, pair: TokenPair)
    ensures
        match rewrite_offset(d, pair) {
            Some(at) => {
                let p = tcp_payload_offset(d)->Some_0;
                &&& tcp_payload_offset(d) is Some
                &&& p <= at
                &&& at + TOKEN_LEN <= p + scan_len(d, p)
                &&& token_at(d, at, pair.dummy_token@)
                &&& forall|k: int| p <= k < at ==> !token_at(d, k, pair.dummy_token@)
            },
            None => tcp_payload_offset(d) matches Some(p) ==> forall|k: int|
                p <= k && k + TOKEN_LEN <= p + scan_len(d, p) ==> !token_at(
                    d,
                    k,
                    pair.dummy_token@,
                ),
        },
{
    if let Some(p) = tcp_payload_offset(d) {
        lemma_first_token(d, p, scan_len(d, p), pair.dummy_token@, 0);
    }
}

/// The replacement is in place: a packet keeps its length.
pub proof fn law_length_preserved(d: Seq<u8>, pair: Option<TokenPair>, store_status: i64)
    ensures
        egress_packet(d, pair, store_status).len() == d.len(),
{
    if let Some(pr) = pair {
        lemma_rewrite_offset(d, pr);
    }
}

/// A packet from a cgroup without a token pair leaves unchanged.
pub proof fn law_unregistered_untouched(d: Seq<u8>, store_status: i64)
    ensures
        egress_packet(d, None, store_status) == d,
        intercept_result(d, None, store_status) == Ok::<i32, i64>(TC_ACT_OK),
{
}

/// Traffic that is not IPv4, or IPv4 that does not carry TCP, leaves
/// unchanged.
pub proof fn law_non_tcp_untouched(d: Seq<u8>, pair: Option<TokenPair>, store_status: i64)
    requires
        d.len() > ETH_HDR_LEN + IPV4_PROTOCOL_OFFSET,
        be_u16_at(d, ETH_TYPE_OFFSET as int) != ETH_P_IPV4
            || d[ETH_HDR_LEN as int] / 16 != 4
            || d[ETH_HDR_LEN + IPV4_PROTOCOL_OFFSET] != IPPROTO_TCP,
    ensures
        egress_packet(d, pair, store_status) == d,
{
}

/// A packet whose scanned payload window does not hold the dummy token
/// leaves unchanged.
pub proof fn law_no_token_untouched(d: Seq<u8>, pair: TokenPair, store_status: i64)
    requires
        forall|k: int| #![trigger token_at(d, k, pair.dummy_token@)]
            tcp_payload_offset(d) matches Some(p) && p <= k && k + TOKEN_LEN <= p + scan_len(d, p)
                ==> !token_at(d, k, pair.dummy_token@),
    ensures
        egress_packet(d, Some(pair), store_status) == d,
{
    lemma_rewrite_offset(d, pair);
    if let Some(at) = rewrite_offset(d, pair) {
        assert(token_at(d, at, pair.dummy_token@));
    }
}

/// When a packet is rewritten (the kernel accepts the store), the real
/// token stands where the first dummy token of the scanned window stood,
/// and every other byte is as it was.
pub proof fn law_rewrite_in_place(d: Seq<u8>, pair: TokenPair, store_status: i64)
    requires
        store_status >= 0,
    ensures
        rewrite_offset(d, pair) matches Some(at) ==> {
            let out = egress_packet(d, Some(pair), store_status);
            &&& token_at(d, at, pair.dummy_token@)
            &&& token_at(out, at, pair.real_token@)
            &&& forall|k: int| 0 <= k < d.len() && !(at <= k < at + TOKEN_LEN) ==> out[k] == d[k]
        },
{
    lemma_rewrite_offset(d, pair);
    if let Some(at) = rewrite_offset(d, pair) {
        let out = egress_packet(d, Some(pair), store_status);
        assert(out == spliced(d, at, pair.real_token@));
        assert(out.subrange(at, at + TOKEN_LEN) =~= pair.real_token@);
    }
}

/// Every packet is counted once; "token found" counts the packets whose
/// scanned window holds the dummy token, and "rewrite ok" those of them
/// whose store the kernel accepted.
pub proof fn law_stats_accounting(
    s: Seq<u64>,
    d: Seq<u8>,
    cgroup_id: u64,
    pair: Option<TokenPair>,
    store_status: i64,
)
    requires
        s.len() > STAT_REWRITE_OK,
    ensures
        stats_after(s, d, cgroup_id, pair, store_status)[STAT_PACKETS as int] == wrapping_add(
            s[STAT_PACKETS as int],
            1,
        ),
        stats_after(s, d, cgroup_id, pair, store_status)[STAT_TOKEN_FOUND as int] == if rewrite_at(
            d,
            pair,
        ) is Some {
            wrapping_add(s[STAT_TOKEN_FOUND as int], 1)
        } else {
            s[STAT_TOKEN_FOUND as int]
        },
        stats_after(s, d, cgroup_id, pair, store_status)[STAT_REWRITE_OK as int] == if rewrite_at(
            d,
            pair,
        ) is Some && store_status >= 0 {
            wrapping_add(s[STAT_REWRITE_OK as int], 1)
        } else {
            s[STAT_REWRITE_OK as int]
        },
{
}

/// When the kernel refuses the store of the real token, the packet goes on
/// as it came and the kernel's error is returned.
pub proof fn law_refused_store_untouched(d: Seq<u8>, pair: Option<TokenPair>, store_status: i64)
    requires
        store_refused(d, pair, store_status),
    ensures
        egress_packet(d, pair, store_status) == d,
        intercept_result(d, pair, store_status) == Err::<i32, i64>(store_status),
{
}

/// The counters are ordered: a packet is rewritten only if its token was
/// found, found only if its payload was scanned, scanned only if its cgroup
/// is registered, and each of these, as a zero cgroup id, is a packet.
pub open spec fn counters_ordered(s: Seq<u64>) -> bool {
    &&& s.len() > STAT_REWRITE_OK
    &&& s[STAT_REWRITE_OK as int] <= s[STAT_TOKEN_FOUND as int]
    &&& s[STAT_TOKEN_FOUND as int] <= s[STAT_TCP_PAYLOADS as int]
    &&& s[STAT_TCP_PAYLOADS as int] <= s[STAT_MAP_HITS as int]
    &&& s[STAT_MAP_HITS as int] <= s[STAT_PACKETS as int]
    &&& s[STAT_CGROUP_ZERO as int] <= s[STAT_PACKETS as int]
}

/// The `STATS` array after a run of packets, each given as its bytes, its
/// cgroup id, its cgroup's token pair and the kernel's answer to a store.
pub open spec fn stats_after_run(s: Seq<u64>, run: Seq<(Seq<u8>, u64, Option<TokenPair>, i64)>) -> Seq<u64>
    decreases run.len(),
{
    if run.len() == 0 {
        s
    } else {
        let last = run.last();
        stats_after(stats_after_run(s, run.drop_last()), last.0, last.1, last.2, last.3)
    }
}

/// One packet keeps the counters ordered, as long as the packet counter
/// does not wrap.
pub proof fn law_counters_stay_ordered(
    s: Seq<u64>,
    d: Seq<u8>,
    cgroup_id: u64,
    pair: Option<TokenPair>,
    store_status: i64,
)
    requires
        counters_ordered(s),
        s[STAT_PACKETS as int] < u64::MAX,
    ensures
        counters_ordered(stats_after(s, d, cgroup_id, pair, store_status)),
        stats_after(s, d, cgroup_id, pair, store_status)[STAT_PACKETS as int] == s[STAT_PACKETS as int] + 1,
{
}

/// Over any run of packets that does not wrap the packet counter (from
/// zeroed counters, for one), the counters stay ordered.
pub proof fn law_counters_ordered_over_run(s: Seq<u64>, run: Seq<(Seq<u8>, u64, Option<TokenPair>, i64)>)
    requires
        counters_ordered(s),
        s[STAT_PACKETS as int] + run.len() <= u64::MAX,
    ensures
        counters_ordered(stats_after_run(s, run)),
        stats_after_run(s, run)[STAT_PACKETS as int] == s[STAT_PACKETS as int] + run.len(),
    decreases run.len(),
{
    if run.len() > 0 {
        law_counters_ordered_over_run(s, run.drop_last());
        let last = run.last();
        law_counters_stay_ordered(stats_after_run(s, run.drop_last()), last.0, last.1, last.2, last.3);
    }
}

/// A registered packet whose scanned payload window holds the dummy token
/// is rewritten, at that occurrence or an earlier one.
pub proof fn law_token_in_window_rewritten(d: Seq<u8>, pair: TokenPair, k: int)
    requires
        tcp_payload_offset(d) matches Some(p) && p <= k && k + TOKEN_LEN <= p + scan_len(d, p),
        token_at(d, k, pair.dummy_token@),
    ensures
        rewrite_offset(d, pair) matches Some(at) && at <= k && intercepted(d, Some(pair))
            == spliced(d, at, pair.real_token@),
{
    lemma_rewrite_offset(d, pair);
}

proof fn lemma_trim_start(s: Seq<char>)
    ensures
        trim_start(s).len() > 0 ==> !is_white_space(trim_start(s)[0]),
    decreases s.len(),
{
    if s.len() > 0 && is_white_space(s[0]) {
        lemma_trim_start(s.drop_first());
    }
}

proof fn lemma_trim_end(s: Seq<char>)
    ensures
        trim_end(s).len() <= s.len(),
        trim_end(s) == s.take(trim_end(s).len() as int),
        trim_end(s).len() > 0 ==> !is_white_space(trim_end(s).last()),
    decreases s.len(),
{
    if s.len() > 0 && is_white_space(s.last()) {
        lemma_trim_end(s.drop_last());
        assert(s.drop_last().take(trim_end(s).len() as int) =~= s.take(trim_end(s).len() as int));
    } else {
        assert(s.take(s.len() as int) =~= s);
    }
}

proof fn lemma_nonblank_trimmed(pieces: Seq<Seq<char>>)
    ensures
        forall|i: int| 0 <= i < nonblank_trimmed(pieces).len() ==> {
            let x = #[trigger] nonblank_trimmed(pieces)[i];
            &&& x.len() > 0
            &&& !is_white_space(x[0])
            &&& !is_white_space(x.last())
        },
    decreases pieces.len(),
{
    if pieces.len() > 0 {
        lemma_nonblank_trimmed(pieces.drop_last());
        let t = trimmed(pieces.last());
        lemma_trim_start(pieces.last());
        lemma_trim_end(trim_start(pieces.last()));
        if t.len() > 0 {
            assert(t[0] == trim_start(pieces.last())[0]);
        }
        let init = nonblank_trimmed(pieces.drop_last());
        assert forall|i: int| 0 <= i < nonblank_trimmed(pieces).len() implies {
            let x = #[trigger] nonblank_trimmed(pieces)[i];
            &&& x.len() > 0
            &&& !is_white_space(x[0])
            &&& !is_white_space(x.last())
        } by {
            if i < init.len() {
                assert(nonblank_trimmed(pieces)[i] == init[i]);
            }
        }
    }
}

/// Every interface named in a list is non-empty, and neither starts nor
/// ends with whitespace.
pub proof fn law_iface_names_clean(s: Seq<char>)
    ensures
        forall|i: int| 0 <= i < iface_list(s).len() ==> {
            let x = #[trigger] iface_list(s)[i];
            &&& x.len() > 0
            &&& !is_white_space(x[0])
            &&& !is_white_space(x.last())
        },
{
    lemma_nonblank_trimmed(split_on(s, ','));
}

/// The loopback interface is never chosen.
pub proof fn law_loopback_never_chosen(entries: Seq<(String, String)>)
    ensures
        !candidate_names(entries).contains("lo"@),
        !active_names(entries).contains("lo"@),
{
}

/// Length in bytes of the IPv4 header, read straight from the IHL nibble of
/// byte 14 (the first byte after the Ethernet header).
pub open spec fn frame_ihl(d: Seq<u8>) -> int {
    (d[14] % 16) * 4
}

/// Length in bytes of the TCP header, read straight from the data-offset
/// nibble, byte 12 of the TCP header.
pub open spec fn frame_doff(d: Seq<u8>) -> int {
    (d[14 + frame_ihl(d) + 12] / 16) * 4
}

/// A frame that is Ethernet II carrying IPv4 (version 4, header of at
/// least 20 bytes) carrying TCP (header of at least 20 bytes), with room
/// for a whole token after the headers. Nothing else of the headers counts.
pub open spec fn ipv4_tcp_frame(d: Seq<u8>) -> bool {
    &&& d.len() >= 14 + frame_ihl(d) + frame_doff(d) + 16
    &&& d[12] == 0x08 && d[13] == 0x00
    &&& d[14] / 16 == 4
    &&& frame_ihl(d) >= 20
    &&& d[23] == 6
    &&& frame_doff(d) >= 20
}

/// Where the TCP payload of such a frame starts.
pub open spec fn frame_payload_start(d: Seq<u8>) -> int {
    14 + frame_ihl(d) + frame_doff(d)
}

/// How many payload bytes of such a frame are searched: all of them, up to 128.
pub open spec fn frame_window(d: Seq<u8>) -> int {
    let rest = d.len() - frame_payload_start(d);
    if rest < 128 {
        rest
    } else {
        128
    }
}

/// The payload is found in exactly the IPv4/TCP frames, right after the two
/// headers whose lengths the IHL and data-offset fields give, whatever the
/// other header bytes (flags, fragment field, addresses, ports) hold.
pub proof fn law_payload_offset_exact(d: Seq<u8>)
    ensures
        tcp_payload_offset(d) == if ipv4_tcp_frame(d) {
            Some(frame_payload_start(d))
        } else {
            None::<int>
        },
{
}

/// For a registered IPv4/TCP frame, the last-values array records the
/// cgroup, the length, the payload offset and the searched length, whether
/// or not the dummy token is found; for any other packet, only the cgroup
/// and the length.
pub proof fn law_debug_values(g: Seq<u64>, d: Seq<u8>, cgroup_id: u64, pair: Option<TokenPair>)
    requires
        g.len() >= 4,
    ensures
        debug_after(g, d, cgroup_id, pair).len() == g.len(),
        debug_after(g, d, cgroup_id, pair)[0] == cgroup_id,
        debug_after(g, d, cgroup_id, pair)[1] == d.len() as u64,
        pair is Some && ipv4_tcp_frame(d) ==> {
            &&& debug_after(g, d, cgroup_id, pair)[2] == frame_payload_start(d) as u64
            &&& debug_after(g, d, cgroup_id, pair)[3] == frame_window(d) as u64
        },
        !(pair is Some && ipv4_tcp_frame(d)) ==> {
            &&& debug_after(g, d, cgroup_id, pair)[2] == g[2]
            &&& debug_after(g, d, cgroup_id, pair)[3] == g[3]
        },
        forall|i: int| 4 <= i < g.len() ==> #[trigger] debug_after(g, d, cgroup_id, pair)[i] == g[i],
{
}

/// A registered IPv4/TCP frame whose searched payload bytes hold the dummy
/// token is rewritten at the first such position: the real token is written
/// there when the kernel accepts the store, every other byte is kept, the
/// packet goes through, and the payload, found and rewrite counters move.
pub proof fn law_frame_rewritten(
    d: Seq<u8>,
    pair: TokenPair,
    store_status: i64,
    s: Seq<u64>,
    cgroup_id: u64,
    k: int,
)
    requires
        ipv4_tcp_frame(d),
        frame_payload_start(d) <= k,
        k + 16 <= frame_payload_start(d) + frame_window(d),
        d.subrange(k, k + 16) == pair.dummy_token@,
        s.len() > STAT_REWRITE_OK,
    ensures
        rewrite_at(d, Some(pair)) matches Some(at) && {
            &&& frame_payload_start(d) <= at <= k
            &&& d.subrange(at, at + 16) == pair.dummy_token@
            &&& forall|j: int|
                frame_payload_start(d) <= j < at ==> #[trigger] d.subrange(j, j + 16)
                    != pair.dummy_token@
            &&& store_status >= 0 ==> egress_packet(d, Some(pair), store_status) == d.subrange(0, at)
                + pair.real_token@ + d.subrange(at + 16, d.len() as int)
            &&& store_status < 0 ==> egress_packet(d, Some(pair), store_status) == d
        },
        store_status >= 0 ==> intercept_result(d, Some(pair), store_status) == Ok::<i32, i64>(
            TC_ACT_OK,
        ),
        stats_after(s, d, cgroup_id, Some(pair), store_status)[STAT_TCP_PAYLOADS as int] == wrapping_add(
            s[STAT_TCP_PAYLOADS as int],
            1,
        ),
        stats_after(s, d, cgroup_id, Some(pair), store_status)[STAT_TOKEN_FOUND as int] == wrapping_add(
            s[STAT_TOKEN_FOUND as int],
            1,
        ),
        stats_after(s, d, cgroup_id, Some(pair), store_status)[STAT_REWRITE_OK as int] == if store_status
            >= 0 {
            wrapping_add(s[STAT_REWRITE_OK as int], 1)
        } else {
            s[STAT_REWRITE_OK as int]
        },
{
    law_payload_offset_exact(d);
    lemma_rewrite_offset(d, pair);
    let p = frame_payload_start(d);
    assert(token_at(d, k, pair.dummy_token@));
    let at = rewrite_offset(d, pair)->Some_0;
    assert forall|j: int| p <= j < at implies #[trigger] d.subrange(j, j + 16) != pair.dummy_token@ by {
        if d.subrange(j, j + 16) == pair.dummy_token@ {
            assert(token_at(d, j, pair.dummy_token@));
        }
    }
}

/// A registered IPv4/TCP frame whose searched payload bytes do not hold the
/// dummy token goes through unchanged; its payload is counted as scanned,
/// and nothing as found or rewritten.
pub proof fn law_frame_without_token(d: Seq<u8>, pair: TokenPair, store_status: i64, s: Seq<u64>, cgroup_id: u64)
    requires
        ipv4_tcp_frame(d),
        forall|j: int|
            frame_payload_start(d) <= j && j + 16 <= frame_payload_start(d) + frame_window(d)
                ==> #[trigger] d.subrange(j, j + 16) != pair.dummy_token@,
        s.len() > STAT_REWRITE_OK,
    ensures
        rewrite_at(d, Some(pair)) is None,
        egress_packet(d, Some(pair), store_status) == d,
        intercept_result(d, Some(pair), store_status) == Ok::<i32, i64>(TC_ACT_OK),
        stats_after(s, d, cgroup_id, Some(pair), store_status)[STAT_TCP_PAYLOADS as int]
            == wrapping_add(s[STAT_TCP_PAYLOADS as int], 1),
        stats_after(s, d, cgroup_id, Some(pair), store_status)[STAT_TOKEN_FOUND as int]
            == s[STAT_TOKEN_FOUND as int],
        stats_after(s, d, cgroup_id, Some(pair), store_status)[STAT_REWRITE_OK as int]
            == s[STAT_REWRITE_OK as int],
{
    law_payload_offset_exact(d);
    lemma_rewrite_offset(d, pair);
    if let Some(at) = rewrite_offset(d, pair) {
        assert(token_at(d, at, pair.dummy_token@));
        assert(d.subrange(at, at + 16) == pair.dummy_token@);
    }
}

/// Every interface not named `lo` is a candidate, and only those.
pub proof fn law_candidates_are_non_loopback(entries: Seq<(String, String)>, x: Seq<char>)
    ensures
        candidate_names(entries).contains(x) <==> x != "lo"@ && exists|i: int|
            0 <= i < entries.len() && #[trigger] entries[i].0@ == x,
{
    if x != "lo"@ && exists|i: int| 0 <= i < entries.len() && #[trigger] entries[i].0@ == x {
        let i = choose|i: int| 0 <= i < entries.len() && #[trigger] entries[i].0@ == x;
        assert(crate::interfaces::is_candidate(entries[i]));
    }
}

/// An interface is active exactly when it is not `lo` and its operational
/// state, without surrounding whitespace, reads `up` or `unknown`.
pub proof fn law_active_is_up_or_unknown(entries: Seq<(String, String)>, x: Seq<char>)
    ensures
        active_names(entries).contains(x) <==> x != "lo"@ && exists|i: int|
            0 <= i < entries.len() && #[trigger] entries[i].0@ == x && (trimmed(entries[i].1@)
                == "up"@ || trimmed(entries[i].1@) == "unknown"@),
{
    if x != "lo"@ && exists|i: int|
        0 <= i < entries.len() && #[trigger] entries[i].0@ == x && (trimmed(entries[i].1@) == "up"@
            || trimmed(entries[i].1@) == "unknown"@) {
        let i = choose|i: int|
            0 <= i < entries.len() && #[trigger] entries[i].0@ == x && (trimmed(entries[i].1@)
                == "up"@ || trimmed(entries[i].1@) == "unknown"@);
        assert(crate::interfaces::is_active(entries[i]));
    }
}

proof fn lemma_trim_start_skips(s: Seq<char>)
    ensures
        trim_start(s).len() <= s.len(),
        trim_start(s) == s.skip(s.len() - trim_start(s).len()),
        forall|i: int| 0 <= i < s.len() - trim_start(s).len() ==> is_white_space(#[trigger] s[i]),
    decreases s.len(),
{
    if s.len() > 0 && is_white_space(s[0]) {
        lemma_trim_start_skips(s.drop_first());
        let t = trim_start(s);
        assert(s.drop_first().skip(s.drop_first().len() - t.len()) =~= s.skip(s.len() - t.len()));
        assert forall|i: int| 0 <= i < s.len() - t.len() implies is_white_space(#[trigger] s[i]) by {
            if i > 0 {
                assert(s[i] == s.drop_first()[i - 1]);
            }
        }
    } else {
        assert(s.skip(0) =~= s);
    }
}

/// Trimming keeps the stretch of `s` between its first and last
/// non-whitespace characters: what it drops on either side is whitespace,
/// and what it keeps starts and ends with a non-whitespace character.
pub proof fn law_trimmed_exact(s: Seq<char>)
    ensures
        exists|a: int, b: int|
            {
                &&& 0 <= a <= b <= s.len()
                &&& trimmed(s) == s.subrange(a, b)
                &&& forall|i: int| 0 <= i < a ==> is_white_space(#[trigger] s[i])
                &&& forall|i: int| b <= i < s.len() ==> is_white_space(#[trigger] s[i])
                &&& a < b ==> !is_white_space(s[a]) && !is_white_space(s[b - 1])
            },
{
    lemma_trim_start_skips(s);
    lemma_trim_start(s);
    let t = trim_start(s);
    lemma_trim_end(t);
    let a = s.len() - t.len();
    let b = a + trim_end(t).len();
    assert(trimmed(s) =~= s.subrange(a, b));
    assert forall|i: int| b <= i < s.len() implies is_white_space(#[trigger] s[i]) by {
        lemma_trim_end_drops(t);
        assert(s[i] == t[i - a]);
    }
    if a < b {
        assert(trimmed(s)[0] == t[0]);
    }
}

proof fn lemma_trim_end_drops(s: Seq<char>)
    ensures
        trim_end(s).len() <= s.len(),
        forall|i: int| trim_end(s).len() <= i < s.len() ==> is_white_space(#[trigger] s[i]),
    decreases s.len(),
{
    if s.len() > 0 && is_white_space(s.last()) {
        lemma_trim_end_drops(s.drop_last());
        assert forall|i: int| trim_end(s).len() <= i < s.len() implies is_white_space(#[trigger] s[i]) by {
            if i < s.len() - 1 {
                assert(s[i] == s.drop_last()[i]);
            }
        }
    }
}

/// The pieces put back together with `sep` between them.
pub open spec fn joined(pieces: Seq<Seq<char>>, sep: char) -> Seq<char>
    decreases pieces.len(),
{
    if pieces.len() <= 1 {
        if pieces.len() == 1 {
            pieces[0]
        } else {
            Seq::empty()
        }
    } else {
        joined(pieces.drop_last(), sep).push(sep) + pieces.last()
    }
}

/// Splitting cuts `s` exactly at each `sep`: no piece holds `sep`, and the
/// pieces joined with `sep` give `s` back.
pub proof fn law_split_exact(s: Seq<char>, sep: char)
    ensures
        split_on(s, sep).len() >= 1,
        joined(split_on(s, sep), sep) == s,
        forall|i: int, j: int|
            0 <= i < split_on(s, sep).len() && 0 <= j < split_on(s, sep)[i].len() ==> #[trigger] split_on(
                s,
                sep,
            )[i][j] != sep,
    decreases s.len(),
{
    if s.len() > 0 {
        law_split_exact(s.drop_last(), sep);
        let init = split_on(s.drop_last(), sep);
        let c = s.last();
        if c == sep {
            let ps = init.push(Seq::empty());
            assert(ps.drop_last() =~= init);
            assert(joined(ps, sep) =~= s.drop_last().push(sep));
            assert(s =~= s.drop_last().push(sep));
            assert forall|i: int, j: int| 0 <= i < ps.len() && 0 <= j < ps[i].len() implies #[trigger] ps[i][j] != sep by {
                if i < init.len() {
                    assert(ps[i] == init[i]);
                }
            }
        } else {
            let ps = init.update(init.len() - 1, init.last().push(c));
            assert(s =~= s.drop_last().push(c));
            if init.len() == 1 {
                assert(joined(ps, sep) =~= s);
            } else {
                assert(ps.drop_last() =~= init.drop_last());
                assert(ps.last() == init.last().push(c));
                assert(joined(init, sep) == joined(init.drop_last(), sep).push(sep) + init.last());
                assert(joined(ps, sep) == joined(init.drop_last(), sep).push(sep) + init.last().push(c));
                assert(joined(ps, sep) =~= joined(init, sep).push(c));
            }
            assert forall|i: int, j: int| 0 <= i < ps.len() && 0 <= j < ps[i].len() implies #[trigger] ps[i][j] != sep by {
                if i < init.len() - 1 {
                    assert(ps[i] == init[i]);
                } else if j < init.last().len() {
                    assert(ps[i][j] == init.last()[j]);
                }
            }
        }
    }
}

/// The number that a string of decimal digits spells.
pub open spec fn digits_value(s: Seq<char>) -> int
    decreases s.len(),
{
    if s.len() == 0 {
        0
    } else {
        digits_value(s.drop_last()) * 10 + (s.last() as u32 - 48)
    }
}

proof fn lemma_digit_char(dg: int)
    requires
        0 <= dg <= 9,
    ensures
        digit_char(dg) as u32 == dg + 48,
{
    assert(((dg + 48) as u8) as int == dg + 48);
}

/// Decimal rendering spells `n` in digits, with no leading zero.
pub proof fn law_decimal_exact(n: nat)
    ensures
        decimal(n).len() >= 1,
        forall|i: int| 0 <= i < decimal(n).len() ==> '0' <= #[trigger] decimal(n)[i] <= '9',
        digits_value(decimal(n)) == n,
        decimal(n).len() > 1 ==> decimal(n)[0] != '0',
        n >= 10 ==> decimal(n).len() >= 2,
    decreases n,
{
    if n < 10 {
        lemma_digit_char(n as int);
        let d = decimal(n);
        assert(d.drop_last() =~= Seq::<char>::empty());
        assert(digits_value(d) == digits_value(d.drop_last()) * 10 + (d.last() as u32 - 48));
    } else {
        law_decimal_exact(n / 10);
        lemma_digit_char((n % 10) as int);
        if n / 10 < 10 {
            lemma_digit_char((n / 10) as int);
        }
        let d = decimal(n);
        assert(d.drop_last() =~= decimal(n / 10));
        assert(d[0] == decimal(n / 10)[0]);
        assert(d.last() == digit_char((n % 10) as int));
        assert(digits_value(d) == digits_value(decimal(n / 10)) * 10 + (d.last() as u32 - 48));
        if n / 10 < 10 {
            assert(decimal(n / 10)[0] == digit_char((n / 10) as int));
            assert(d[0] as u32 != '0' as u32);
        }
        assert forall|i: int| 0 <= i < d.len() implies '0' <= #[trigger] d[i] <= '9' by {
            if i < d.len() - 1 {
                assert(d[i] == decimal(n / 10)[i]);
            }
        }
    }
}

/// Names sort as `str` does: `a` before `b` exactly when `a` is a proper
/// prefix of `b`, or at the first position where they differ `a` holds the
/// smaller character.
pub proof fn law_lex_order_exact(a: Seq<char>, b: Seq<char>)
    ensures
        lex_lt(a, b) <==> (a.len() < b.len() && b.take(a.len() as int) == a) || exists|i: int|
            0 <= i < a.len() && i < b.len() && a.take(i) == b.take(i) && #[trigger] a[i] < b[i],
    decreases a.len(),
{
    if a.len() > 0 && b.len() > 0 {
        law_lex_order_exact(a.drop_first(), b.drop_first());
        let a1 = a.drop_first();
        let b1 = b.drop_first();
        if a[0] == b[0] {
            if a1.len() < b1.len() && b1.take(a1.len() as int) == a1 {
                assert(b.take(a.len() as int) =~= seq![b[0]] + b1.take(a1.len() as int));
                assert(a =~= seq![a[0]] + a1);
            }
            if a.len() < b.len() && b.take(a.len() as int) == a {
                assert(b1.take(a1.len() as int) =~= b.take(a.len() as int).drop_first());
            }
            if exists|i: int| 0 <= i < a1.len() && i < b1.len() && a1.take(i) == b1.take(i) && #[trigger] a1[i] < b1[i] {
                let i = choose|i: int| 0 <= i < a1.len() && i < b1.len() && a1.take(i) == b1.take(i) && #[trigger] a1[i] < b1[i];
                assert(a.take(i + 1) =~= seq![a[0]] + a1.take(i));
                assert(b.take(i + 1) =~= seq![b[0]] + b1.take(i));
                assert(a[i + 1] == a1[i] && b[i + 1] == b1[i]);
            }
            if exists|i: int| 0 <= i < a.len() && i < b.len() && a.take(i) == b.take(i) && #[trigger] a[i] < b[i] {
                let i = choose|i: int| 0 <= i < a.len() && i < b.len() && a.take(i) == b.take(i) && #[trigger] a[i] < b[i];
                assert(i > 0);
                assert(a1.take(i - 1) =~= a.take(i).drop_first());
                assert(b1.take(i - 1) =~= b.take(i).drop_first());
                assert(a1[i - 1] == a[i] && b1[i - 1] == b[i]);
            }
        } else {
            assert(a.take(0) =~= b.take(0));
            if a.len() < b.len() && b.take(a.len() as int) == a {
                assert(b.take(a.len() as int)[0] == b[0]);
            }
            if exists|i: int| 0 <= i < a.len() && i < b.len() && a.take(i) == b.take(i) && #[trigger] a[i] < b[i] {
                let i = choose|i: int| 0 <= i < a.len() && i < b.len() && a.take(i) == b.take(i) && #[trigger] a[i] < b[i];
                if i > 0 {
                    assert(a.take(i)[0] == b.take(i)[0]);
                }
            }
        }
    } else if a.len() == 0 {
        assert(b.take(0) =~= a);
    }
}

} // verus!
