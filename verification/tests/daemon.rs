use agent_vault::interfaces::{choose_egress_interfaces, clsact_setup, parse_iface_list, ClsactSetup, EEXIST};
use agent_vault::report::{format_counters, format_stats_line, stat_name_of, stats_changed};
use agent_vault::text::{push_decimal, str_eq, str_less, trim};

fn entries(list: &[(&str, &str)]) -> Vec<(String, String)> {
    list.iter().map(|(n, s)| (n.to_string(), s.to_string())).collect()
}

#[test]
fn counters_line_names_every_counter() {
    let line = format_counters(&[12, 0, 3, 2, 1, 1]);
    assert_eq!(
        line,
        "packets=12, cgroup_zero=0, map_hits=3, tcp_payloads=2, token_found=1, rewrite_ok=1"
    );
    let big = format_counters(&[u64::MAX, 10, 100, 9, 0, 1000]);
    assert_eq!(
        big,
        "packets=18446744073709551615, cgroup_zero=10, map_hits=100, tcp_payloads=9, token_found=0, rewrite_ok=1000"
    );
    assert_eq!(stat_name_of(5), "rewrite_ok");
}

#[test]
fn decimal_rendering() {
    let mut s = String::from("n=");
    push_decimal(&mut s, 0);
    push_decimal(&mut s, 907);
    assert_eq!(s, "n=0907");
}

#[test]
fn counters_reported_only_when_changed() {
    let mut last = [0u64; 6];
    assert!(!stats_changed(&mut last, [0; 6]));
    assert!(stats_changed(&mut last, [1, 0, 0, 0, 0, 0]));
    assert_eq!(last, [1, 0, 0, 0, 0, 0]);
    assert!(!stats_changed(&mut last, [1, 0, 0, 0, 0, 0]));
    assert!(stats_changed(&mut last, [1, 0, 0, 0, 0, 2]));
}

#[test]
fn iface_list_is_split_and_trimmed() {
    assert_eq!(parse_iface_list("wlp8s0"), vec!["wlp8s0"]);
    assert_eq!(parse_iface_list(" wlp8s0 , enp7s0,,  \t"), vec!["wlp8s0", "enp7s0"]);
    assert_eq!(parse_iface_list("eth0,\u{3000}eth1\u{a0}"), vec!["eth0", "eth1"]);
    assert!(parse_iface_list("").is_empty());
    assert!(parse_iface_list(" , ,").is_empty());
}

#[test]
fn active_interfaces_preferred_sorted_and_unique() {
    let e = entries(&[
        ("wlp8s0", "up\n"),
        ("lo", "unknown\n"),
        ("enp7s0", "down\n"),
        ("docker0", "unknown\n"),
        ("wlp8s0", "up\n"),
    ]);
    assert_eq!(choose_egress_interfaces(&e), Some(vec!["docker0".to_string(), "wlp8s0".to_string()]));
}

#[test]
fn all_non_loopback_interfaces_when_none_active() {
    let e = entries(&[("lo", "up"), ("eth1", "down"), ("eth0", ""), ("eth1", "dormant")]);
    assert_eq!(choose_egress_interfaces(&e), Some(vec!["eth0".to_string(), "eth1".to_string()]));
}

#[test]
fn no_interface_besides_loopback() {
    assert_eq!(choose_egress_interfaces(&entries(&[("lo", "unknown")])), None);
    assert_eq!(choose_egress_interfaces(&Vec::new()), None);
}

#[test]
fn clsact_outcomes() {
    assert_eq!(clsact_setup(Ok(())), ClsactSetup::Added);
    assert_eq!(clsact_setup(Err(Some(EEXIST))), ClsactSetup::AlreadyPresent);
    assert_eq!(clsact_setup(Err(Some(1))), ClsactSetup::Failed);
    assert_eq!(clsact_setup(Err(None)), ClsactSetup::Failed);
}

#[test]
fn text_order_and_trim() {
    assert!(str_less("eth0", "eth1"));
    assert!(str_less("eth", "eth0"));
    assert!(!str_less("eth0", "eth0"));
    assert!(str_less("Z", "a"));
    assert!(str_less("z", "\u{e9}"));
    assert!(str_eq("lo", "lo"));
    assert!(!str_eq("lo", "lo0"));
    assert_eq!(trim("  up\n"), "up");
}

#[test]
fn whole_stats_line() {
    let mut last = [0u64; 6];
    let current = [3, 0, 1, 1, 1, 1];
    assert!(stats_changed(&mut last, current));
    assert_eq!(last, current);
    assert_eq!(
        format_stats_line(&current, &[42, 90, 54, 36]),
        "eBPF stats: packets=3, cgroup_zero=0, map_hits=1, tcp_payloads=1, token_found=1, rewrite_ok=1; last_cgroup_id=42, last_packet_len=90, last_payload_offset=54, last_scan_len=36"
    );
}

#[test]
fn trim_removes_unicode_white_space_only() {
    assert_eq!(trim("\u{3000}\u{85} eth0\u{2028}\t"), "eth0");
    assert_eq!(trim("\u{200b}x"), "\u{200b}x");
    assert_eq!(trim(" \n "), "");
    assert_eq!(trim("a b"), "a b");
}
