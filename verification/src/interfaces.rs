//! Which network interfaces the daemon attaches the classifier to: the
//! list an operator names, or else the host's non-loopback interfaces,
//! preferring those that are up.
use vstd::prelude::*;
use vstd::string::*;
use crate::text::{trimmed, trim, lex_lt, lemma_lex_order, lemma_lex_transitive, str_less, str_eq};

verus! {

/// The character sequences that a list of strings holds, in order.
pub open spec fn texts(l: Seq<String>) -> Seq<Seq<char>> {
    l.map_values(|s: String| s@)
}

/// Each element sorts strictly before every later one: sorted, and no
/// element occurs twice.
pub open spec fn strictly_sorted(l: Seq<Seq<char>>) -> bool {
    forall|i: int, j: int| 0 <= i < j < l.len() ==> lex_lt(#[trigger] l[i], #[trigger] l[j])
}

/// The pieces of `s` between occurrences of `sep` (there is always at least
/// one piece).
pub open spec fn split_on(s: Seq<char>, sep: char) -> Seq<Seq<char>>
    decreases s.len(),
{
    if s.len() == 0 {
        seq![Seq::empty()]
    } else {
        let init = split_on(s.drop_last(), sep);
        if s.last() == sep {
            init.push(Seq::empty())
        } else {
            init.update(init.len() - 1, init.last().push(s.last()))
        }
    }
}

/// Each piece without surrounding whitespace, leaving out blank pieces.
pub open spec fn nonblank_trimmed(pieces: Seq<Seq<char>>) -> Seq<Seq<char>>
    decreases pieces.len(),
{
    if pieces.len() == 0 {
        Seq::empty()
    } else {
        let init = nonblank_trimmed(pieces.drop_last());
        let t = trimmed(pieces.last());
        if t.len() > 0 {
            init.push(t)
        } else {
            init
        }
    }
}

/// The interfaces named by a comma-separated list.
pub open spec fn iface_list(s: Seq<char>) -> Seq<Seq<char>> {
    nonblank_trimmed(split_on(s, ','))
}

proof fn lemma_split_nonempty(s: Seq<char>, sep: char)
    ensures
        split_on(s, sep).len() >= 1,
    decreases s.len(),
{
    if s.len() > 0 {
        lemma_split_nonempty(s.drop_last(), sep);
    }
}

/// The interface names in a comma-separated list, each without surrounding
/// whitespace, leaving out empty entries.
pub fn parse_iface_list(value: &str) -> (ifaces: Vec<String>)
    ensures
        texts(ifaces@) == iface_list(value@),
{
    let n = value.unicode_len();
    let mut ifaces: Vec<String> = Vec::new();
    let mut start: usize = 0;
    let mut i: usize = 0;
    assert(value@.take(0) =~= Seq::<char>::empty());
    assert(split_on(value@.take(0), ',').drop_last() =~= Seq::<Seq<char>>::empty());
    while i < n
        invariant
            n == value@.len(),
            start <= i <= n,
            split_on(value@.take(i as int), ',').len() >= 1,
            split_on(value@.take(i as int), ',').last() == value@.subrange(start as int, i as int),
            texts(ifaces@) == nonblank_trimmed(split_on(value@.take(i as int), ',').drop_last()),
        decreases n - i,
    {
        let ghost sp = split_on(value@.take(i as int), ',');
        let c = value.get_char(i);
        assert(value@.take(i + 1).drop_last() =~= value@.take(i as int));
        assert(value@.take(i + 1).last() == c);
        proof {
            lemma_split_nonempty(value@.take(i + 1), ',');
        }
        if c == ',' {
            let piece = value.substring_char(start, i);
            let t = trim(piece);
            let ghost before = ifaces@;
            if !t.is_empty() {
                ifaces.push(t.to_owned());
                assert(texts(ifaces@) =~= texts(before).push(t@));
            }
            assert(split_on(value@.take(i + 1), ',') == sp.push(Seq::empty()));
            assert(split_on(value@.take(i + 1), ',').drop_last() =~= sp);
            assert(sp =~= sp.drop_last().push(sp.last()));
            start = i + 1;
            i += 1;
            assert(value@.subrange(start as int, i as int) =~= Seq::<char>::empty());
        } else {
            let ghost next = split_on(value@.take(i + 1), ',');
            assert(next == sp.update(sp.len() - 1, sp.last().push(c)));
            assert(next.drop_last() =~= sp.drop_last());
            assert(next.last() =~= value@.subrange(start as int, i + 1));
            i += 1;
        }
    }
    assert(value@.take(n as int) =~= value@);
    let ghost sp = split_on(value@, ',');
    let piece = value.substring_char(start, n);
    let t = trim(piece);
    let ghost before = ifaces@;
    if !t.is_empty() {
        ifaces.push(t.to_owned());
        assert(texts(ifaces@) =~= texts(before).push(t@));
    }
    assert(sp =~= sp.drop_last().push(sp.last()));
    ifaces
}

/// An interface that is not the loopback one.
pub open spec fn is_candidate(entry: (String, String)) -> bool {
    entry.0@ != "lo"@
}

/// A non-loopback interface whose operational state reads `up` or
/// `unknown`.
pub open spec fn is_active(entry: (String, String)) -> bool {
    &&& is_candidate(entry)
    &&& (trimmed(entry.1@) == "up"@ || trimmed(entry.1@) == "unknown"@)
}

/// The names of the entries that `keep` selects.
pub open spec fn names_with(
    entries: Seq<(String, String)>,
    keep: spec_fn((String, String)) -> bool,
) -> Set<Seq<char>> {
    Set::new(
        |x: Seq<char>|
            exists|i: int| 0 <= i < entries.len() && keep(#[trigger] entries[i]) && entries[i].0@ == x,
    )
}

/// The names of the non-loopback interfaces among `entries`.
pub open spec fn candidate_names(entries: Seq<(String, String)>) -> Set<Seq<char>> {
    names_with(entries, |e: (String, String)| is_candidate(e))
}

/// The names of the active non-loopback interfaces among `entries`.
pub open spec fn active_names(entries: Seq<(String, String)>) -> Set<Seq<char>> {
    names_with(entries, |e: (String, String)| is_active(e))
}

/// One more entry adds its name to the selected names exactly when `keep`
/// selects it.
proof fn lemma_names_with_step(
    entries: Seq<(String, String)>,
    keep: spec_fn((String, String)) -> bool,
    i: int,
)
    requires
        0 <= i < entries.len(),
    ensures
        names_with(entries.take(i + 1), keep) == if keep(entries[i]) {
            names_with(entries.take(i), keep).insert(entries[i].0@)
        } else {
            names_with(entries.take(i), keep)
        },
{
    let prefix = entries.take(i);
    let next = entries.take(i + 1);
    let grown = if keep(entries[i]) {
        names_with(prefix, keep).insert(entries[i].0@)
    } else {
        names_with(prefix, keep)
    };
    assert forall|x: Seq<char>| names_with(next, keep).contains(x) implies grown.contains(x) by {
        let k = choose|k: int| 0 <= k < next.len() && keep(#[trigger] next[k]) && next[k].0@ == x;
        if k < i {
            assert(prefix[k] == next[k]);
        }
    }
    assert forall|x: Seq<char>| grown.contains(x) implies names_with(next, keep).contains(x) by {
        if keep(entries[i]) && x == entries[i].0@ {
            assert(next[i] == entries[i]);
        } else {
            let k = choose|k: int| 0 <= k < prefix.len() && keep(#[trigger] prefix[k]) && prefix[k].0@ == x;
            assert(next[k] == prefix[k]);
        }
    }
    assert(names_with(next, keep) =~= grown);
}

/// Adds `name` to a strictly sorted list, keeping it strictly sorted; a
/// name already present is not added again.
fn insert_sorted(list: &mut Vec<String>, name: &String)
    requires
        strictly_sorted(texts(old(list)@)),
    ensures
        strictly_sorted(texts(final(list)@)),
        texts(final(list)@).to_set() == texts(old(list)@).to_set().insert(name@),
{
    let ghost before = texts(list@);
    let mut k: usize = 0;
    while k < list.len() && str_less(list[k].as_str(), name.as_str())
        invariant
            k <= list@.len(),
            texts(list@) == before,
            forall|j: int| 0 <= j < k ==> lex_lt(#[trigger] before[j], name@),
        decreases list@.len() - k,
    {
        k += 1;
    }
    if k < list.len() && str_eq(list[k].as_str(), name.as_str()) {
        assert(texts(list@).to_set() =~= before.to_set().insert(name@)) by {
            assert(before[k as int] == name@);
        }
        return;
    }
    proof {
        if k < before.len() {
            lemma_lex_order(before[k as int], name@);
        }
    }
    list.insert(k, name.clone());
    let ghost after = texts(list@);
    assert(after =~= before.take(k as int).push(name@) + before.skip(k as int));
    assert forall|i: int, j: int| 0 <= i < j < after.len() implies lex_lt(after[i], after[j]) by {
        if j < k {
            assert(after[i] == before[i] && after[j] == before[j]);
        } else if j == k {
            assert(after[i] == before[i]);
        } else if i == k {
            assert(after[j] == before[j - 1]);
            if j - 1 > k {
                lemma_lex_transitive(name@, before[k as int], before[j - 1]);
            }
        } else if i < k {
            assert(after[i] == before[i] && after[j] == before[j - 1]);
        } else {
            assert(after[i] == before[i - 1] && after[j] == before[j - 1]);
        }
    }
    assert forall|x: Seq<char>| after.contains(x) <==> before.contains(x) || x == name@ by {
        if after.contains(x) {
            let i = choose|i: int| 0 <= i < after.len() && after[i] == x;
            if i < k {
                assert(before[i] == x);
            } else if i > k {
                assert(before[i - 1] == x);
            }
        }
        if before.contains(x) {
            let i = choose|i: int| 0 <= i < before.len() && before[i] == x;
            if i < k {
                assert(after[i] == x);
            } else {
                assert(after[i + 1] == x);
            }
        }
        if x == name@ {
            assert(after[k as int] == x);
        }
    }
    assert(after.to_set() =~= before.to_set().insert(name@));
}

/// From each interface's name and operational state (the contents of its
/// `operstate` file), the interfaces to attach to: the active non-loopback
/// ones if there are any, else every non-loopback one; sorted, each once.
/// `None` when there is no non-loopback interface.
pub fn choose_egress_interfaces(entries: &Vec<(String, String)>) -> (chosen: Option<Vec<String>>)
    ensures
        match chosen {
            Some(l) => {
                &&& strictly_sorted(texts(l@))
                &&& l@.len() > 0
                &&& texts(l@).to_set() == if active_names(entries@).is_empty() {
                    candidate_names(entries@)
                } else {
                    active_names(entries@)
                }
            },
            None => candidate_names(entries@).is_empty(),
        },
{
    let mut active: Vec<String> = Vec::new();
    let mut fallback: Vec<String> = Vec::new();
    let mut i: usize = 0;
    while i < entries.len()
        invariant
            i <= entries@.len(),
            strictly_sorted(texts(active@)),
            strictly_sorted(texts(fallback@)),
            texts(active@).to_set() == active_names(entries@.take(i as int)),
            texts(fallback@).to_set() == candidate_names(entries@.take(i as int)),
        decreases entries@.len() - i,
    {
        proof {
            lemma_names_with_step(entries@, |e: (String, String)| is_candidate(e), i as int);
            lemma_names_with_step(entries@, |e: (String, String)| is_active(e), i as int);
        }
        let name = &entries[i].0;
        if !str_eq(name.as_str(), "lo") {
            insert_sorted(&mut fallback, name);
            let state = trim(entries[i].1.as_str());
            if str_eq(state, "up") || str_eq(state, "unknown") {
                insert_sorted(&mut active, name);
            }
        }
        i += 1;
    }
    assert(entries@.take(entries@.len() as int) =~= entries@);
    if active.len() > 0 {
        assert(texts(active@).to_set().contains(texts(active@)[0]));
        return Some(active);
    }
    assert(texts(active@).to_set() =~= Set::empty());
    if fallback.len() > 0 {
        assert(texts(fallback@).to_set().contains(texts(fallback@)[0]));
        return Some(fallback);
    }
    assert(texts(fallback@).to_set() =~= Set::empty());
    None
}

/// `EEXIST`: what adding a `clsact` qdisc reports when one is already there.
pub const EEXIST: i32 = 17;

/// How setting up the `clsact` qdisc on an interface went.
#[derive(Clone, Copy, Debug, PartialEq, Eq, Structural)]
pub enum ClsactSetup {
    /// The qdisc was added.
    Added,
    /// The qdisc was already there; the interface can be used as it is.
    AlreadyPresent,
    /// The qdisc could not be added; the interface is skipped.
    Failed,
}

/// Classifies the outcome of adding a `clsact` qdisc, given the OS error
/// code of a failure when it has one.
pub fn clsact_setup(outcome: Result<(), Option<i32>>) -> (setup: ClsactSetup)
    ensures
        outcome is Ok ==> setup == ClsactSetup::Added,
        outcome == Err::<(), Option<i32>>(Some(EEXIST)) ==> setup == ClsactSetup::AlreadyPresent,
        outcome is Err && outcome != Err::<(), Option<i32>>(Some(EEXIST)) ==> setup
            == ClsactSetup::Failed,
{
    match outcome {
        Ok(()) => ClsactSetup::Added,
        Err(Some(code)) if code == EEXIST => ClsactSetup::AlreadyPresent,
        Err(_) => ClsactSetup::Failed,
    }
}

} // verus!
