# agent-vault

A credential injector for AI agents: an agent sends a dummy token, and an
eBPF TC egress classifier writes the real credential over it in the TCP
payload before the packet leaves the host.

- `src/` is the verified library. `intercept` holds the classifier's packet
  logic over a byte-level model of the socket buffer (`skb`, including the
  kernel's answer to a store), with its
  diagnostic counters (`counters`); `laws` states what holds of every packet.
  `report`, `interfaces` and `text` hold the daemon's decisions: the counter
  summary, the choice of egress interfaces, and the text helpers they use.
- `app/` is the daemon (loading the program with `aya`, the cgroup, the
  interface attachment, the Ctrl-C loop) and, in `classifier.rs`, the
  classifier's helper calls and maps (`aya-ebpf`) around the library's
  `locate_rewrite` and `complete_rewrite`. That file is compiled into the
  host daemon; it does not build for the BPF target as it stands, since the
  library it calls allocates. The daemon loads the classifier object from
  `target/bpfel-unknown-none/release/agent-vault-ebpf`, which this crate does
  not build.
- `tests/` exercises the library on concrete packets and inputs.
