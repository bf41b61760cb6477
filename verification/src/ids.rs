//! Lists and sets of ids: membership, first mentions, concatenation.
use std::collections::HashSet;
use vstd::prelude::*;

verus! {

/// The first mentions among the first `k` entries of `s` that `keep` accepts, in order.
pub open spec fn first_mentions(s: Seq<usize>, keep: spec_fn(usize) -> bool, k: nat) -> Seq<usize>
    decreases k,
{
    if k == 0 {
        Seq::empty()
    } else {
        let rest = first_mentions(s, keep, (k - 1) as nat);
        if keep(s[k - 1]) && !rest.contains(s[k - 1]) {
            rest.push(s[k - 1])
        } else {
            rest
        }
    }
}

/// First mentions are distinct, and they are exactly the accepted entries.
pub proof fn lemma_first_mentions(s: Seq<usize>, keep: spec_fn(usize) -> bool, k: nat)
    requires
        k <= s.len(),
    ensures
        first_mentions(s, keep, k).no_duplicates(),
        forall|x: usize| #[trigger] first_mentions(s, keep, k).contains(x) <==> keep(x) && s.take(k as int).contains(x),
    decreases k,
{
    if k > 0 {
        let rest = first_mentions(s, keep, (k - 1) as nat);
        let all = first_mentions(s, keep, k);
        lemma_first_mentions(s, keep, (k - 1) as nat);
        let shorter = s.take(k - 1);
        let longer = s.take(k as int);
        assert(longer =~= shorter.push(s[k - 1]));
        lemma_push_contains(shorter, s[k - 1]);
        lemma_push_contains(rest, s[k - 1]);
        assert forall|x: usize| #[trigger] all.contains(x) <==> keep(x) && longer.contains(x) by {
            assert(rest.contains(x) <==> keep(x) && shorter.contains(x));
        }
    }
}

/// A longer list holds what it held before and what was added.
pub proof fn lemma_push_contains(s: Seq<usize>, x: usize)
    ensures
        forall|y: usize| #[trigger] s.push(x).contains(y) <==> s.contains(y) || y == x,
{
    let longer = s.push(x);
    assert forall|y: usize| #[trigger] longer.contains(y) <==> s.contains(y) || y == x by {
        if longer.contains(y) {
            let i = choose|i: int| 0 <= i < longer.len() && longer[i] == y;
            if i < s.len() {
                assert(s[i] == y);
            }
        }
        if s.contains(y) {
            let i = choose|i: int| 0 <= i < s.len() && s[i] == y;
            assert(longer[i] == y);
        }
        assert(longer[s.len() as int] == x);
    }
}

/// The ids as a set.
pub fn set_of(ids: &[usize]) -> (set: HashSet<usize>)
    ensures
        forall|x: usize| #[trigger] set@.contains(x) <==> ids@.contains(x),
{
    broadcast use vstd::std_specs::hash::group_hash_axioms;

    let mut set: HashSet<usize> = HashSet::new();
    let mut i: usize = 0;
    while i < ids.len()
        invariant
            i <= ids@.len(),
            forall|x: usize| #[trigger] set@.contains(x) <==> ids@.take(i as int).contains(x),
        decreases ids@.len() - i,
    {
        set.insert(ids[i]);
        proof {
            assert(ids@.take(i + 1) =~= ids@.take(i as int).push(ids@[i as int]));
            lemma_push_contains(ids@.take(i as int), ids@[i as int]);
        }
        i = i + 1;
    }
    assert(ids@.take(i as int) =~= ids@);
    set
}

/// Collects the first mentions of the flagged entries.
pub(crate) fn collect_first_mentions(s: &Vec<usize>, flags: &Vec<bool>, Ghost(keep): Ghost<spec_fn(usize) -> bool>) -> (found:
    Vec<usize>)
    requires
        flags.len() == s.len(),
        forall|i: int| 0 <= i < s.len() ==> #[trigger] flags@[i] == keep(s@[i]),
    ensures
        found@ == first_mentions(s@, keep, s@.len()),
{
    broadcast use vstd::std_specs::hash::group_hash_axioms;

    let mut found: Vec<usize> = Vec::new();
    let mut seen: HashSet<usize> = HashSet::new();
    let mut i: usize = 0;
    while i < s.len()
        invariant
            i <= s.len(),
            flags.len() == s.len(),
            forall|i: int| 0 <= i < s.len() ==> #[trigger] flags@[i] == keep(s@[i]),
            found@ == first_mentions(s@, keep, i as nat),
            forall|x: usize| #[trigger] seen@.contains(x) <==> found@.contains(x),
        decreases s.len() - i,
    {
        let x: usize = s[i];
        if flags[i] && !seen.contains(&x) {
            proof {
                lemma_push_contains(found@, x);
            }
            seen.insert(x);
            found.push(x);
        }
        i = i + 1;
    }
    found
}

/// Whether every listed id is in the set.
pub fn all_in(ids: &[usize], set: &HashSet<usize>) -> (yes: bool)
    ensures
        yes <==> forall|i: int| 0 <= i < ids@.len() ==> set@.contains(#[trigger] ids@[i]),
{
    broadcast use vstd::std_specs::hash::group_hash_axioms;

    let mut i: usize = 0;
    while i < ids.len()
        invariant
            i <= ids@.len(),
            forall|j: int| 0 <= j < i ==> set@.contains(#[trigger] ids@[j]),
        decreases ids@.len() - i,
    {
        if !set.contains(&ids[i]) {
            assert(!set@.contains(ids@[i as int]));
            return false;
        }
        i = i + 1;
    }
    true
}

/// Whether the id is listed.
pub fn is_listed(ids: &Vec<usize>, x: usize) -> (yes: bool)
    ensures
        yes == ids@.contains(x),
{
    let mut i: usize = 0;
    while i < ids.len()
        invariant
            i <= ids.len(),
            forall|j: int| 0 <= j < i ==> ids@[j] != x,
        decreases ids.len() - i,
    {
        if ids[i] == x {
            assert(ids@[i as int] == x);
            return true;
        }
        i = i + 1;
    }
    false
}

/// The listed ids, each once.
pub fn distinct(ids: &[usize]) -> (found: Vec<usize>)
    ensures
        found@.no_duplicates(),
        forall|x: usize| #[trigger] found@.contains(x) <==> ids@.contains(x),
{
    broadcast use vstd::std_specs::hash::group_hash_axioms;

    let mut found: Vec<usize> = Vec::new();
    let mut seen: HashSet<usize> = HashSet::new();
    let mut i: usize = 0;
    while i < ids.len()
        invariant
            i <= ids@.len(),
            found@.no_duplicates(),
            forall|x: usize| #[trigger] found@.contains(x) <==> ids@.take(i as int).contains(x),
            forall|x: usize| #[trigger] seen@.contains(x) <==> found@.contains(x),
        decreases ids@.len() - i,
    {
        let x: usize = ids[i];
        proof {
            assert(ids@.take(i + 1) =~= ids@.take(i as int).push(x));
            lemma_push_contains(ids@.take(i as int), x);
            lemma_push_contains(found@, x);
        }
        if !seen.contains(&x) {
            seen.insert(x);
            found.push(x);
        }
        i = i + 1;
    }
    assert(ids@.take(i as int) =~= ids@);
    found
}

/// What two lists hold together.
pub proof fn lemma_concat_contains(a: Seq<usize>, b: Seq<usize>, x: usize)
    ensures
        (a + b).contains(x) <==> a.contains(x) || b.contains(x),
{
    let all = a + b;
    if all.contains(x) {
        let i = choose|i: int| 0 <= i < all.len() && all[i] == x;
        if i < a.len() {
            assert(a[i] == x);
        } else {
            assert(b[i - a.len()] == x);
        }
    }
    if a.contains(x) {
        let i = choose|i: int| 0 <= i < a.len() && a[i] == x;
        assert(all[i] == x);
    }
    if b.contains(x) {
        let i = choose|i: int| 0 <= i < b.len() && b[i] == x;
        assert(all[i + a.len()] == x);
    }
}

/// A set with the same ids.
pub fn copy_set(set: &HashSet<usize>) -> (copy: HashSet<usize>)
    ensures
        copy@ == set@,
{
    broadcast use vstd::std_specs::hash::group_hash_axioms;

    let mut copy: HashSet<usize> = HashSet::new();
    let ghost all = vstd::std_specs::iter::IteratorSpec::remaining(&set.iter()).unref();
    for x in it: set.iter()
        invariant
            all == it.seq().unref(),
            all.to_set() == set@,
            copy@ == all.take(it.index() as int).to_set(),
    {
        let ghost k = it.index() as int;
        assert(all[k] == *x);
        proof {
            assert(all.take(k + 1) =~= all.take(k).push(*x));
            lemma_push_contains(all.take(k), *x);
        }
        copy.insert(*x);
        assert(copy@ =~= all.take(k + 1).to_set());
    }
    assert(all.take(all.len() as int) =~= all);
    copy
}

} // verus!
