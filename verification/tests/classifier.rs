use agent_vault::counters::{bump_stat, set_debug, Counters};
use agent_vault::intercept::{complete_rewrite, locate_rewrite, token_rewrite_egress, try_intercept, TC_ACT_OK};
use agent_vault::skb::{load_be_u16, load_byte, load_window, store_window, Skb, FAULT};
use agent_vault::token::TokenPair;

const DUMMY: &[u8; 16] = b"FAKE_TOKEN_12345";
const REAL: &[u8; 16] = b"REAL_SECRET_9999";

fn pair() -> TokenPair {
    TokenPair { dummy_token: *DUMMY, real_token: *REAL }
}

/// An Ethernet + IPv4 + TCP packet with the given header lengths (in 32-bit
/// words), IP protocol and payload.
fn packet(ihl: u8, protocol: u8, doff: u8, payload: &[u8]) -> Vec<u8> {
    let mut p = vec![0u8; 12];
    p.extend_from_slice(&[0x08, 0x00]);
    let mut ip = vec![0u8; (ihl as usize) * 4];
    ip[0] = 0x40 | ihl;
    ip[8] = 64;
    ip[9] = protocol;
    p.extend_from_slice(&ip);
    let mut tcp = vec![0u8; (doff as usize) * 4];
    tcp[12] = doff << 4;
    p.extend_from_slice(&tcp);
    p.extend_from_slice(payload);
    p
}

fn http_request() -> Vec<u8> {
    b"GET /headers HTTP/1.1\r\nHost: x\r\nAuthorization: Bearer FAKE_TOKEN_12345\r\n\r\n".to_vec()
}

fn counters() -> Counters {
    Counters { values: vec![0; 8] }
}

fn run(data: Vec<u8>, cgroup_id: u64, p: Option<TokenPair>) -> (Vec<u8>, Vec<u64>, Vec<u64>, i32) {
    let mut skb = Skb { data, cgroup_id, store_status: 0 };
    let mut stats = counters();
    let mut debug = counters();
    let action = token_rewrite_egress(&mut skb, p, &mut stats, &mut debug);
    (skb.data, stats.values, debug.values, action)
}

fn replace_first(data: &[u8], from: &[u8], to: &[u8]) -> Vec<u8> {
    let mut out = data.to_vec();
    let at = data.windows(from.len()).position(|w| w == from).unwrap();
    out[at..at + to.len()].copy_from_slice(to);
    out
}

#[test]
fn rewrites_dummy_token_in_http_request() {
    let data = packet(5, 6, 5, &http_request());
    let len = data.len() as u64;
    let (out, stats, debug, action) = run(data.clone(), 7, Some(pair()));
    assert_eq!(action, TC_ACT_OK);
    assert_eq!(out, replace_first(&data, DUMMY, REAL));
    assert_eq!(out.len(), data.len());
    assert_eq!(stats, vec![1, 0, 1, 1, 1, 1, 0, 0]);
    assert_eq!(debug, vec![7, len, 54, len - 54, 0, 0, 0, 0]);
}

#[test]
fn try_intercept_reports_ok() {
    let mut skb = Skb { data: packet(5, 6, 5, &http_request()), cgroup_id: 3, store_status: 0 };
    let mut stats = counters();
    let mut debug = counters();
    assert_eq!(try_intercept(&mut skb, Some(pair()), &mut stats, &mut debug), Ok(TC_ACT_OK));
    assert!(skb.data.windows(16).any(|w| w == REAL));
    assert_eq!(skb.cgroup_id, 3);
}

#[test]
fn unregistered_cgroup_passes_unchanged() {
    let data = packet(5, 6, 5, &http_request());
    let len = data.len() as u64;
    let (out, stats, debug, action) = run(data.clone(), 7, None);
    assert_eq!(action, TC_ACT_OK);
    assert_eq!(out, data);
    assert_eq!(stats, vec![1, 0, 0, 0, 0, 0, 0, 0]);
    assert_eq!(debug, vec![7, len, 0, 0, 0, 0, 0, 0]);
}

#[test]
fn cgroup_zero_is_counted() {
    let data = packet(5, 6, 5, &http_request());
    let (_, stats, _, _) = run(data, 0, None);
    assert_eq!(stats, vec![1, 1, 0, 0, 0, 0, 0, 0]);
}

#[test]
fn non_ipv4_passes_unchanged() {
    let mut data = packet(5, 6, 5, &http_request());
    data[12] = 0x86;
    data[13] = 0xdd;
    let (out, stats, _, _) = run(data.clone(), 7, Some(pair()));
    assert_eq!(out, data);
    assert_eq!(stats, vec![1, 0, 1, 0, 0, 0, 0, 0]);
}

#[test]
fn wrong_ip_version_passes_unchanged() {
    let mut data = packet(5, 6, 5, &http_request());
    data[14] = 0x65;
    let (out, stats, _, _) = run(data.clone(), 7, Some(pair()));
    assert_eq!(out, data);
    assert_eq!(stats, vec![1, 0, 1, 0, 0, 0, 0, 0]);
}

#[test]
fn udp_passes_unchanged() {
    let data = packet(5, 17, 5, &http_request());
    let (out, stats, _, _) = run(data.clone(), 7, Some(pair()));
    assert_eq!(out, data);
    assert_eq!(stats, vec![1, 0, 1, 0, 0, 0, 0, 0]);
}

#[test]
fn short_ipv4_header_length_passes_unchanged() {
    let mut data = packet(5, 6, 5, &http_request());
    data[14] = 0x44;
    let (out, _, _, _) = run(data.clone(), 7, Some(pair()));
    assert_eq!(out, data);
}

#[test]
fn short_tcp_header_length_passes_unchanged() {
    let mut data = packet(5, 6, 5, &http_request());
    data[34 + 12] = 0x40;
    let (out, stats, _, _) = run(data.clone(), 7, Some(pair()));
    assert_eq!(out, data);
    assert_eq!(stats, vec![1, 0, 1, 0, 0, 0, 0, 0]);
}

#[test]
fn packet_too_short_passes_unchanged() {
    let data = packet(5, 6, 5, &DUMMY[..15]);
    assert_eq!(data.len(), 69);
    let (out, stats, _, _) = run(data.clone(), 7, Some(pair()));
    assert_eq!(out, data);
    assert_eq!(stats, vec![1, 0, 1, 0, 0, 0, 0, 0]);
}

#[test]
fn token_filling_whole_minimal_payload_is_rewritten() {
    let data = packet(5, 6, 5, DUMMY);
    assert_eq!(data.len(), 70);
    let (out, _, debug, _) = run(data, 7, Some(pair()));
    assert_eq!(&out[54..], REAL);
    assert_eq!(debug[2], 54);
    assert_eq!(debug[3], 16);
}

#[test]
fn header_options_are_skipped() {
    let data = packet(6, 6, 8, &http_request());
    let (out, _, debug, _) = run(data.clone(), 7, Some(pair()));
    assert_eq!(debug[2], 14 + 24 + 32);
    assert_eq!(out, replace_first(&data, DUMMY, REAL));
}

#[test]
fn only_first_occurrence_is_rewritten() {
    let mut payload = DUMMY.to_vec();
    payload.extend_from_slice(b" and ");
    payload.extend_from_slice(DUMMY);
    let data = packet(5, 6, 5, &payload);
    let (out, _, _, _) = run(data, 7, Some(pair()));
    assert_eq!(&out[54..70], REAL);
    assert_eq!(&out[75..91], DUMMY);
}

#[test]
fn token_at_last_scanned_position_is_rewritten() {
    let mut payload = vec![b'.'; 112];
    payload.extend_from_slice(DUMMY);
    payload.extend_from_slice(b"tail");
    let data = packet(5, 6, 5, &payload);
    let (out, stats, debug, _) = run(data, 7, Some(pair()));
    assert_eq!(&out[54 + 112..54 + 128], REAL);
    assert_eq!(debug[3], 128);
    assert_eq!(stats[5], 1);
}

#[test]
fn token_crossing_scan_window_is_not_rewritten() {
    let mut payload = vec![b'.'; 113];
    payload.extend_from_slice(DUMMY);
    let data = packet(5, 6, 5, &payload);
    let (out, stats, _, _) = run(data.clone(), 7, Some(pair()));
    assert_eq!(out, data);
    assert_eq!(stats, vec![1, 0, 1, 1, 0, 0, 0, 0]);
}

#[test]
fn payload_without_token_is_unchanged() {
    let data = packet(5, 6, 5, b"GET / HTTP/1.1\r\nAuthorization: Bearer FAKE_TOKEN_1234X\r\n");
    let (out, stats, _, _) = run(data.clone(), 7, Some(pair()));
    assert_eq!(out, data);
    assert_eq!(stats, vec![1, 0, 1, 1, 0, 0, 0, 0]);
}

#[test]
fn counters_accumulate_over_packets() {
    let mut stats = counters();
    let mut debug = counters();
    for cgroup in [5u64, 0, 5] {
        let mut skb = Skb { data: packet(5, 6, 5, &http_request()), cgroup_id: cgroup, store_status: 0 };
        token_rewrite_egress(&mut skb, Some(pair()), &mut stats, &mut debug);
    }
    assert_eq!(stats.values, vec![3, 1, 3, 3, 3, 3, 0, 0]);
    assert_eq!(debug.values[0], 5);
}

#[test]
fn loads_inside_and_outside_the_packet() {
    let skb = Skb { data: vec![0x12, 0x34, 0x56], cgroup_id: 1, store_status: 0 };
    assert_eq!(skb.len(), 3);
    assert_eq!(load_byte(&skb, 2), Ok(0x56));
    assert_eq!(load_byte(&skb, 3), Err(FAULT));
    assert_eq!(load_be_u16(&skb, 0), Ok(0x1234));
    assert_eq!(load_be_u16(&skb, 1), Ok(0x3456));
    assert_eq!(load_be_u16(&skb, 2), Err(FAULT));
    assert_eq!(load_be_u16(&skb, u32::MAX), Err(FAULT));
    assert_eq!(FAULT, -14);
}

#[test]
fn window_load_and_store() {
    let mut skb = Skb { data: (0u8..20).collect(), cgroup_id: 1, store_status: 0 };
    let w = load_window(&skb, 4).unwrap();
    assert_eq!(w.to_vec(), (4u8..20).collect::<Vec<u8>>());
    assert_eq!(load_window(&skb, 5), Err(FAULT));
    assert_eq!(store_window(&mut skb, 5, REAL), Err(FAULT));
    assert_eq!(skb.data, (0u8..20).collect::<Vec<u8>>());
    assert_eq!(store_window(&mut skb, 2, REAL), Ok(()));
    let mut expected: Vec<u8> = (0u8..20).collect();
    expected[2..18].copy_from_slice(REAL);
    assert_eq!(skb.data, expected);
    skb.store_status = -12;
    assert_eq!(store_window(&mut skb, 0, DUMMY), Err(-12));
    assert_eq!(skb.data, expected);
}

#[test]
fn counter_slots_bump_and_record() {
    let mut c = Counters { values: vec![0, u64::MAX, 5] };
    bump_stat(&mut c, 0);
    bump_stat(&mut c, 1);
    bump_stat(&mut c, 3);
    assert_eq!(c.values, vec![1, 0, 5]);
    set_debug(&mut c, 2, 99);
    set_debug(&mut c, 7, 42);
    assert_eq!(c.values, vec![1, 0, 99]);
}

#[test]
fn refused_store_passes_packet_unchanged() {
    let data = packet(5, 6, 5, &http_request());
    let mut skb = Skb { data: data.clone(), cgroup_id: 7, store_status: -12 };
    let mut stats = counters();
    let mut debug = counters();
    assert_eq!(try_intercept(&mut skb, Some(pair()), &mut stats, &mut debug), Err(-12));
    assert_eq!(skb.data, data);
    assert_eq!(stats.values, vec![1, 0, 1, 1, 1, 0, 0, 0]);
    let mut skb = Skb { data: data.clone(), cgroup_id: 7, store_status: -12 };
    let action = token_rewrite_egress(&mut skb, Some(pair()), &mut stats, &mut debug);
    assert_eq!(action, TC_ACT_OK);
    assert_eq!(skb.data, data);
    assert_eq!(stats.values, vec![2, 0, 2, 2, 2, 0, 0, 0]);
}

#[test]
fn refusal_does_not_matter_without_a_rewrite() {
    let data = packet(5, 6, 5, b"no token here, nothing to write over........");
    let mut skb = Skb { data: data.clone(), cgroup_id: 7, store_status: -12 };
    let mut stats = counters();
    let mut debug = counters();
    assert_eq!(try_intercept(&mut skb, Some(pair()), &mut stats, &mut debug), Ok(TC_ACT_OK));
    assert_eq!(skb.data, data);
}

#[test]
fn locate_then_complete() {
    let data = packet(5, 6, 5, &http_request());
    let at = data.windows(16).position(|w| w == DUMMY).unwrap() as u32;
    let skb = Skb { data, cgroup_id: 9, store_status: 0 };
    let mut stats = counters();
    let mut debug = counters();
    assert_eq!(locate_rewrite(&skb, Some(pair()), &mut stats, &mut debug), Ok(Some(at)));
    assert_eq!(stats.values, vec![1, 0, 1, 1, 1, 0, 0, 0]);
    assert_eq!(complete_rewrite(-14, &mut stats), Err(-14));
    assert_eq!(stats.values, vec![1, 0, 1, 1, 1, 0, 0, 0]);
    assert_eq!(complete_rewrite(0, &mut stats), Ok(TC_ACT_OK));
    assert_eq!(stats.values, vec![1, 0, 1, 1, 1, 1, 0, 0]);
    assert_eq!(locate_rewrite(&skb, None, &mut stats, &mut debug), Ok(None));
}

#[test]
fn counters_stay_ordered_over_mixed_traffic() {
    let mut stats = counters();
    let mut debug = counters();
    let inputs: Vec<(Vec<u8>, u64, Option<TokenPair>, i64)> = vec![
        (packet(5, 6, 5, &http_request()), 7, Some(pair()), 0),
        (packet(5, 17, 5, &http_request()), 7, Some(pair()), 0),
        (packet(5, 6, 5, &http_request()), 0, None, 0),
        (packet(5, 6, 5, &http_request()), 7, Some(pair()), -14),
        (packet(5, 6, 5, b"plain payload without any token at all"), 7, Some(pair()), 0),
    ];
    for (data, cgroup_id, p, status) in inputs {
        let mut skb = Skb { data, cgroup_id, store_status: status };
        token_rewrite_egress(&mut skb, p, &mut stats, &mut debug);
        let s = &stats.values;
        assert!(s[5] <= s[4] && s[4] <= s[3] && s[3] <= s[2] && s[2] <= s[0] && s[1] <= s[0]);
    }
    assert_eq!(stats.values, vec![5, 1, 4, 3, 2, 1, 0, 0]);
}
