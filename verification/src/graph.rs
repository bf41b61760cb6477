//! Directed graphs on the vertices `0..n`, given by successor lists.
//!
//! The scheduler looks at its operations through three questions: in which order
//! can they run, how long is the longest chain, and which of them hang together.
//! This module answers each of them once, on bare successor lists.
use vstd::prelude::*;

verus! {

/// The successor lists as sequences.
pub open spec fn lists(g: Seq<Vec<usize>>) -> Seq<Seq<usize>> {
    Seq::new(g.len(), |i: int| g[i]@)
}

/// Every listed successor is a vertex.
pub open spec fn is_graph(g: Seq<Seq<usize>>) -> bool {
    forall|u: int, k: int| 0 <= u < g.len() && 0 <= k < g[u].len() ==> (#[trigger] g[u][k]) < g.len()
}

/// There is an edge from `u` to `v`.
pub open spec fn edge(g: Seq<Seq<usize>>, u: usize, v: usize) -> bool {
    u < g.len() && g[u as int].contains(v)
}

/// Every predecessor of `v` lies in `done`.
pub open spec fn ready(g: Seq<Seq<usize>>, done: Set<usize>, v: usize) -> bool {
    forall|u: usize| #[trigger] edge(g, u, v) ==> done.contains(u)
}

/// The vertices below `m` without predecessors, ascending.
pub open spec fn sources(g: Seq<Seq<usize>>, m: nat) -> Seq<usize>
    decreases m,
{
    if m == 0 {
        Seq::empty()
    } else {
        let rest = sources(g, (m - 1) as nat);
        if ready(g, Set::empty(), (m - 1) as usize) {
            rest.push((m - 1) as usize)
        } else {
            rest
        }
    }
}

/// Entry `k` in the successor list of `u` is its last mention there, and `u` was
/// the last predecessor of that entry which `done` lacked.
pub open spec fn releases(g: Seq<Seq<usize>>, done: Set<usize>, u: usize, k: int) -> bool {
    let list = g[u as int];
    &&& !list.skip(k + 1).contains(list[k])
    &&& ready(g, done.insert(u), list[k])
}

/// What the first `m` entries in the successor list of `u` release, in list order.
pub open spec fn released(g: Seq<Seq<usize>>, done: Set<usize>, u: usize, m: nat) -> Seq<usize>
    decreases m,
{
    if m == 0 {
        Seq::empty()
    } else {
        let rest = released(g, done, u, (m - 1) as nat);
        if releases(g, done, u, m - 1) {
            rest.push(g[u as int][m - 1])
        } else {
            rest
        }
    }
}

/// The sources in ascending order, followed by what each of the first `m` entries
/// of the growing sequence releases in turn.
pub open spec fn grown(g: Seq<Seq<usize>>, m: nat) -> Seq<usize>
    decreases m,
{
    if m == 0 {
        sources(g, g.len())
    } else {
        let q = grown(g, (m - 1) as nat);
        if m - 1 < q.len() {
            let u = q[m - 1];
            q + released(g, q.take(m - 1).to_set(), u, g[u as int].len())
        } else {
            q
        }
    }
}

/// The vertices that can be put in order, first come first served: a vertex joins
/// when its last predecessor has been taken up.
pub open spec fn release_order(g: Seq<Seq<usize>>) -> Seq<usize> {
    grown(g, g.len())
}

/// Number of entries of `s` that equal `x`.
pub open spec fn occurrences(s: Seq<usize>, x: usize) -> nat
    decreases s.len(),
{
    if s.len() == 0 {
        0
    } else {
        occurrences(s.drop_last(), x) + if s.last() == x { 1nat } else { 0nat }
    }
}

/// Number of edges into `v` from the vertices below `m` that `done` lacks.
spec fn pending(g: Seq<Seq<usize>>, done: Set<usize>, v: usize, m: nat) -> nat
    decreases m,
{
    if m == 0 {
        0
    } else {
        pending(g, done, v, (m - 1) as nat) + if done.contains((m - 1) as usize) {
            0nat
        } else {
            occurrences(g[m - 1], v)
        }
    }
}

/// A value occurs exactly when it is listed.
pub proof fn lemma_occurrences_zero(s: Seq<usize>, x: usize)
    ensures
        occurrences(s, x) == 0 <==> !s.contains(x),
        occurrences(s, x) <= s.len(),
    decreases s.len(),
{
    if s.len() > 0 {
        lemma_occurrences_zero(s.drop_last(), x);
        if s.contains(x) {
            let i = choose|i: int| 0 <= i < s.len() && s[i] == x;
            if i < s.len() - 1 {
                assert(s.drop_last()[i] == x);
            }
        } else {
            assert forall|i: int| 0 <= i < s.drop_last().len() implies s.drop_last()[i] != x by {
                assert(s[i] != x);
            }
            assert(s[s.len() - 1] != x);
        }
    }
}

/// The occurrences before and after a cut add up.
proof fn lemma_occurrences_split(s: Seq<usize>, x: usize, k: int)
    requires
        0 <= k <= s.len(),
    ensures
        occurrences(s, x) == occurrences(s.take(k), x) + occurrences(s.skip(k), x),
    decreases s.len(),
{
    if k == s.len() {
        assert(s.take(k) =~= s);
        assert(s.skip(k).len() == 0);
    } else {
        lemma_occurrences_split(s.drop_last(), x, k);
        assert(s.drop_last().take(k) =~= s.take(k));
        assert(s.drop_last().skip(k) =~= s.skip(k).drop_last());
        assert(s.skip(k).last() == s.last());
    }
}

proof fn lemma_pending_zero(g: Seq<Seq<usize>>, done: Set<usize>, v: usize, m: nat)
    requires
        m <= g.len() <= usize::MAX,
    ensures
        pending(g, done, v, m) == 0 <==> (forall|u: usize| u < m && edge(g, u, v) ==> done.contains(u)),
    decreases m,
{
    if m > 0 {
        lemma_pending_zero(g, done, v, (m - 1) as nat);
        lemma_occurrences_zero(g[m - 1], v);
        let last = (m - 1) as usize;
        if pending(g, done, v, m) == 0 {
            assert forall|u: usize| u < m && edge(g, u, v) implies done.contains(u) by {
                if u == last {
                    assert(g[m - 1].contains(v));
                }
            }
        } else {
            if pending(g, done, v, (m - 1) as nat) == 0 {
                assert(edge(g, last, v) && !done.contains(last));
            } else {
                let u = choose|u: usize| u < m - 1 && edge(g, u, v) && !done.contains(u);
                assert(u < m && edge(g, u, v) && !done.contains(u));
            }
        }
    }
}

/// Adding a vertex removes exactly its own edges from the pending ones.
proof fn lemma_pending_insert(g: Seq<Seq<usize>>, done: Set<usize>, u: usize, v: usize, m: nat)
    requires
        m <= g.len() <= usize::MAX,
        !done.contains(u),
    ensures
        pending(g, done, v, m) == pending(g, done.insert(u), v, m) + if u < m {
            occurrences(g[u as int], v)
        } else {
            0
        },
    decreases m,
{
    if m > 0 {
        lemma_pending_insert(g, done, u, v, (m - 1) as nat);
    }
}

proof fn lemma_ready_pending(g: Seq<Seq<usize>>, done: Set<usize>, v: usize)
    requires
        g.len() <= usize::MAX,
    ensures
        ready(g, done, v) <==> pending(g, done, v, g.len()) == 0,
{
    lemma_pending_zero(g, done, v, g.len());
}

/// There are fewer pending edges than `u128` can count.
proof fn lemma_pending_bound(g: Seq<Vec<usize>>, done: Set<usize>, v: usize, m: nat)
    requires
        m <= g.len(),
    ensures
        pending(lists(g), done, v, m) <= m * usize::MAX,
    decreases m,
{
    if m > 0 {
        lemma_pending_bound(g, done, v, (m - 1) as nat);
        lemma_occurrences_zero(lists(g)[m - 1], v);
        assert(g[m - 1]@.len() == g[m - 1].len());
        assert(m * usize::MAX == (m - 1) * usize::MAX + usize::MAX) by (nonlinear_arith);
    }
}

/// The number of edges into each vertex.
fn count_incoming(g: &Vec<Vec<usize>>) -> (incoming: Vec<u128>)
    requires
        is_graph(lists(g@)),
    ensures
        incoming.len() == g.len(),
        forall|v: int|
            0 <= v < g.len() ==> #[trigger] incoming[v] == pending(lists(g@), Set::empty(), v as usize, g.len() as nat),
{
    let n: usize = g.len();
    let mut incoming: Vec<u128> = Vec::new();
    let mut i: usize = 0;
    while i < n
        invariant
            i <= n,
            incoming.len() == i,
            forall|v: int| 0 <= v < i ==> incoming[v] == 0,
        decreases n - i,
    {
        incoming.push(0);
        i = i + 1;
    }
    let ghost gs = lists(g@);
    let mut u: usize = 0;
    while u < n
        invariant
            u <= n,
            n == g.len(),
            gs == lists(g@),
            is_graph(gs),
            incoming.len() == n,
            forall|v: int| 0 <= v < n ==> #[trigger] incoming[v] == pending(gs, Set::empty(), v as usize, u as nat),
        decreases n - u,
    {
        let mut k: usize = 0;
        let len: usize = g[u].len();
        while k < len
            invariant
                k <= len,
                u < n,
                n == g.len(),
                len == g[u as int].len(),
                gs == lists(g@),
                is_graph(gs),
                incoming.len() == n,
                forall|v: int|
                    0 <= v < n ==> #[trigger] incoming[v] == pending(gs, Set::empty(), v as usize, u as nat)
                        + occurrences(gs[u as int].take(k as int), v as usize),
            decreases len - k,
        {
            let v: usize = g[u][k];
            assert(v == gs[u as int][k as int]);
            assert(v < n);
            proof {
                lemma_pending_bound(g@, Set::empty(), v, u as nat);
                lemma_occurrences_zero(gs[u as int].take(k as int), v);
                assert(incoming[v as int] + 1 <= u128::MAX) by {
                    assert(u * usize::MAX + usize::MAX <= u128::MAX - 1) by (nonlinear_arith)
                        requires
                            u < n,
                            n <= usize::MAX,
                    ;
                }
                assert(gs[u as int].take(k + 1).drop_last() =~= gs[u as int].take(k as int));
            }
            incoming.set(v, incoming[v] + 1);
            k = k + 1;
        }
        proof {
            assert(gs[u as int].take(len as int) =~= gs[u as int]);
        }
        u = u + 1;
    }
    incoming
}

proof fn lemma_sources(g: Seq<Seq<usize>>, m: nat)
    requires
        m <= g.len() <= usize::MAX,
    ensures
        sources(g, m).no_duplicates(),
        forall|v: usize| #[trigger] sources(g, m).contains(v) <==> v < m && ready(g, Set::empty(), v),
    decreases m,
{
    if m > 0 {
        let rest = sources(g, (m - 1) as nat);
        lemma_sources(g, (m - 1) as nat);
        let last = (m - 1) as usize;
        assert(!rest.contains(last));
        let all = sources(g, m);
        assert forall|v: usize| #[trigger] all.contains(v) <==> v < m && ready(g, Set::empty(), v) by {
            if all.contains(v) {
                let i = choose|i: int| 0 <= i < all.len() && all[i] == v;
                if i < rest.len() {
                    assert(rest[i] == v);
                    assert(rest.contains(v));
                }
            }
            if v < m && ready(g, Set::empty(), v) {
                if v < m - 1 {
                    assert(rest.contains(v));
                    let i = choose|i: int| 0 <= i < rest.len() && rest[i] == v;
                    assert(all[i] == v);
                } else {
                    assert(all[all.len() - 1] == v);
                }
            }
        }
    }
}

/// A vertex is released exactly when it is a successor of `u` that becomes ready.
proof fn lemma_released(g: Seq<Seq<usize>>, done: Set<usize>, u: usize, m: nat)
    requires
        u < g.len(),
        m <= g[u as int].len(),
    ensures
        released(g, done, u, m).no_duplicates(),
        forall|v: usize| #[trigger]
            released(g, done, u, m).contains(v) <==> (exists|k: int|
                0 <= k < m && g[u as int][k] == v && #[trigger] releases(g, done, u, k)),
    decreases m,
{
    if m > 0 {
        let list = g[u as int];
        let rest = released(g, done, u, (m - 1) as nat);
        let all = released(g, done, u, m);
        lemma_released(g, done, u, (m - 1) as nat);
        if releases(g, done, u, m - 1) && rest.contains(list[m - 1]) {
            let k = choose|k: int| 0 <= k < m - 1 && list[k] == list[m - 1] && #[trigger] releases(g, done, u, k);
            assert(list.skip(k + 1)[m - 1 - (k + 1)] == list[k]);
        }
        assert forall|v: usize| #[trigger] all.contains(v) <==> (exists|k: int|
            0 <= k < m && list[k] == v && #[trigger] releases(g, done, u, k)) by {
            if all.contains(v) {
                let i = choose|i: int| 0 <= i < all.len() && all[i] == v;
                if i < rest.len() {
                    assert(rest[i] == v);
                    assert(rest.contains(v));
                } else {
                    assert(releases(g, done, u, m - 1));
                }
            }
            if exists|k: int| 0 <= k < m && list[k] == v && #[trigger] releases(g, done, u, k) {
                let k = choose|k: int| 0 <= k < m && list[k] == v && #[trigger] releases(g, done, u, k);
                if k < m - 1 {
                    assert(rest.contains(v));
                    let i = choose|i: int| 0 <= i < rest.len() && rest[i] == v;
                    assert(all[i] == v);
                } else {
                    assert(all[all.len() - 1] == v);
                }
            }
        }
    }
}

/// A listed value has a last mention.
proof fn lemma_last_mention(s: Seq<usize>, x: usize) -> (k: int)
    requires
        s.contains(x),
    ensures
        0 <= k < s.len(),
        s[k] == x,
        !s.skip(k + 1).contains(x),
    decreases s.len(),
{
    if s.last() == x {
        assert(s.skip(s.len() as int).len() == 0);
        s.len() - 1
    } else {
        let i = choose|i: int| 0 <= i < s.len() && s[i] == x;
        assert(s.drop_last()[i] == x);
        let k = lemma_last_mention(s.drop_last(), x);
        let tail = s.skip(k + 1);
        let shorter = s.drop_last().skip(k + 1);
        assert forall|j: int| 0 <= j < tail.len() implies tail[j] != x by {
            if j < shorter.len() {
                assert(shorter[j] == tail[j]);
                assert(shorter.contains(shorter[j]));
            }
        }
        k
    }
}

/// Every predecessor of entry `i` stands before it.
pub open spec fn preceded(g: Seq<Seq<usize>>, q: Seq<usize>, i: int) -> bool {
    forall|u: usize| #[trigger] edge(g, u, q[i]) ==> q.take(i).contains(u)
}

/// The state of the growing order after `m` steps: its entries are distinct
/// vertices, each after its predecessors, and they are exactly the vertices whose
/// predecessors have all been taken up.
pub proof fn lemma_grown(g: Seq<Seq<usize>>, m: nat)
    requires
        is_graph(g),
        g.len() <= usize::MAX,
    ensures
        grown(g, m).no_duplicates(),
        forall|i: int| 0 <= i < grown(g, m).len() ==> #[trigger] grown(g, m)[i] < g.len(),
        forall|i: int| 0 <= i < grown(g, m).len() ==> #[trigger] preceded(g, grown(g, m), i),
        forall|v: usize| #[trigger]
            grown(g, m).contains(v) <==> v < g.len() && ready(
                g,
                grown(g, m).take(vstd::math::min(m as int, grown(g, m).len() as int)).to_set(),
                v,
            ),
    decreases m,
{
    let q = grown(g, m);
    if m == 0 {
        lemma_sources(g, g.len());
        assert(q.take(0).to_set() =~= Set::<usize>::empty());
        assert forall|i: int| 0 <= i < q.len() implies #[trigger] q[i] < g.len() by {
            assert(q.contains(q[i]));
        }
        assert forall|i: int| 0 <= i < q.len() implies #[trigger] preceded(g, q, i) by {
            assert(q.contains(q[i]));
        }
    } else {
        let p = grown(g, (m - 1) as nat);
        lemma_grown(g, (m - 1) as nat);
        if m - 1 < p.len() {
            let u = p[m - 1];
            let head = p.take(m - 1);
            let done = head.to_set();
            let list = g[u as int];
            let fresh = released(g, done, u, list.len());
            lemma_released(g, done, u, list.len());
            assert(q == p + fresh);
            assert(q.take(m as int) =~= p.take(m as int));
            assert(p.take(m as int) =~= head.push(u));
            let done2 = q.take(m as int).to_set();
            assert(done2 =~= done.insert(u)) by {
                assert forall|x: usize| done2.contains(x) <==> done.insert(u).contains(x) by {
                    if p.take(m as int).contains(x) {
                        let i = choose|i: int| 0 <= i < m && p.take(m as int)[i] == x;
                        if i < m - 1 {
                            assert(head[i] == x);
                        }
                    }
                    if head.contains(x) {
                        let i = choose|i: int| 0 <= i < m - 1 && head[i] == x;
                        assert(p.take(m as int)[i] == x);
                    }
                    assert(p.take(m as int)[m - 1] == u);
                }
            }
            assert(!done.contains(u)) by {
                if head.contains(u) {
                    let i = choose|i: int| 0 <= i < m - 1 && head[i] == u;
                    assert(p[i] == p[m - 1]);
                }
            }
            // What is released was not ready before, so it is new.
            assert forall|v: usize| #[trigger] fresh.contains(v) implies edge(g, u, v) && v < g.len() && !p.contains(v)
                && ready(g, done2, v) by {
                let k = choose|k: int| 0 <= k < list.len() && list[k] == v && #[trigger] releases(g, done, u, k);
                assert(list.contains(v));
                assert(edge(g, u, v));
            }
            assert forall|v: usize| #[trigger] q.contains(v) <==> v < g.len() && ready(g, done2, v) by {
                if q.contains(v) {
                    let i = choose|i: int| 0 <= i < q.len() && q[i] == v;
                    if i < p.len() {
                        assert(p[i] == v);
                        assert(p.contains(v));
                        assert(ready(g, done, v));
                    } else {
                        assert(fresh[i - p.len()] == v);
                        assert(fresh.contains(v));
                    }
                }
                if v < g.len() && ready(g, done2, v) {
                    if ready(g, done, v) {
                        assert(p.contains(v));
                        let i = choose|i: int| 0 <= i < p.len() && p[i] == v;
                        assert(q[i] == v);
                    } else {
                        let x = choose|x: usize| edge(g, x, v) && !done.contains(x);
                        assert(x == u);
                        let k = lemma_last_mention(list, v);
                        assert(releases(g, done, u, k));
                        assert(fresh.contains(v));
                        let i = choose|i: int| 0 <= i < fresh.len() && fresh[i] == v;
                        assert(q[p.len() + i] == v);
                    }
                }
            }
            assert(q.no_duplicates()) by {
                assert forall|i: int, j: int| 0 <= i < j < q.len() implies q[i] != q[j] by {
                    if i < p.len() && j >= p.len() {
                        assert(fresh.contains(fresh[j - p.len()]));
                        assert(p.contains(p[i]));
                    }
                }
            }
            assert forall|i: int| 0 <= i < q.len() implies #[trigger] q[i] < g.len() by {
                assert(q.contains(q[i]));
            }
            assert forall|i: int| 0 <= i < q.len() implies #[trigger] preceded(g, q, i) by {
                if i < p.len() {
                    assert(preceded(g, p, i));
                    assert(q.take(i) =~= p.take(i));
                } else {
                    assert(fresh.contains(fresh[i - p.len()]));
                    assert forall|x: usize| #[trigger] edge(g, x, q[i]) implies q.take(i).contains(x) by {
                        assert(done2.contains(x));
                        let j = choose|j: int| 0 <= j < m && q.take(m as int)[j] == x;
                        assert(q.take(i)[j] == x);
                    }
                }
            }
        } else {
            assert(q == p);
        }
    }
}

/// Distinct values below `n` are at most `n` many.
pub proof fn lemma_distinct_below(q: Seq<usize>, n: nat)
    requires
        q.no_duplicates(),
        forall|i: int| 0 <= i < q.len() ==> #[trigger] q[i] < n,
    ensures
        q.len() <= n,
    decreases n,
{
    if n == 0 {
        if q.len() > 0 {
            assert(q[0] < n);
        }
    } else if exists|i: int| 0 <= i < q.len() && q[i] == n - 1 {
        let i = choose|i: int| 0 <= i < q.len() && q[i] == n - 1;
        let rest = q.remove(i);
        assert forall|j: int| 0 <= j < rest.len() implies #[trigger] rest[j] < n - 1 by {
            let from = if j < i { j } else { j + 1 };
            assert(rest[j] == q[from]);
            assert(q[from] != q[i]);
        }
        assert(rest.no_duplicates()) by {
            assert forall|a: int, b: int| 0 <= a < b < rest.len() implies rest[a] != rest[b] by {
                let a2 = if a < i { a } else { a + 1 };
                let b2 = if b < i { b } else { b + 1 };
                assert(rest[a] == q[a2] && rest[b] == q[b2]);
            }
        }
        lemma_distinct_below(rest, (n - 1) as nat);
    } else {
        assert forall|j: int| 0 <= j < q.len() implies #[trigger] q[j] < n - 1 by {
            assert(q[j] != n - 1);
        }
        lemma_distinct_below(q, (n - 1) as nat);
    }
}

/// Nothing is added once every entry has been taken up.
proof fn lemma_grown_stable(g: Seq<Seq<usize>>, m: nat, more: nat)
    requires
        grown(g, m).len() <= m,
        m <= more,
    ensures
        grown(g, more) == grown(g, m),
    decreases more,
{
    if more > m {
        lemma_grown_stable(g, m, (more - 1) as nat);
    }
}

/// After as many steps as there are vertices every entry has been taken up.
proof fn lemma_order_final(g: Seq<Seq<usize>>)
    requires
        is_graph(g),
        g.len() <= usize::MAX,
    ensures
        release_order(g).len() <= g.len(),
{
    lemma_grown(g, g.len());
    lemma_distinct_below(release_order(g), g.len());
}

/// Orders the vertices by releasing each when its last predecessor has been taken up.
pub fn order_vertices(g: &Vec<Vec<usize>>) -> (order: Vec<usize>)
    requires
        is_graph(lists(g@)),
    ensures
        order@ == release_order(lists(g@)),
{
    let n: usize = g.len();
    let ghost gs = lists(g@);
    let mut open_edges: Vec<u128> = count_incoming(g);
    let mut order: Vec<usize> = Vec::new();
    let mut v: usize = 0;
    while v < n
        invariant
            v <= n,
            n == g.len(),
            n == gs.len(),
            gs == lists(g@),
            open_edges.len() == n,
            forall|x: int|
                0 <= x < n ==> #[trigger] open_edges[x] == pending(gs, Set::empty(), x as usize, n as nat),
            order@ == sources(gs, v as nat),
        decreases n - v,
    {
        proof {
            lemma_ready_pending(gs, Set::empty(), v);
            assert(open_edges[v as int] == pending(gs, Set::empty(), v, n as nat));
        }
        if open_edges[v] == 0 {
            order.push(v);
        }
        v = v + 1;
    }
    let mut head: usize = 0;
    proof {
        assert(order@.take(0).to_set() =~= Set::<usize>::empty());
        lemma_grown(gs, 0);
        lemma_distinct_below(order@, n as nat);
    }
    while head < order.len()
        invariant
            head <= order.len() <= n,
            n == g.len(),
            n == gs.len(),
            gs == lists(g@),
            is_graph(gs),
            open_edges.len() == n,
            order@ == grown(gs, head as nat),
            forall|x: int|
                0 <= x < n ==> #[trigger] open_edges[x] == pending(
                    gs,
                    order@.take(head as int).to_set(),
                    x as usize,
                    n as nat,
                ),
        decreases n - head,
    {
        let ghost before = order@;
        let ghost done = before.take(head as int).to_set();
        proof {
            lemma_grown(gs, head as nat);
        }
        let u: usize = order[head];
        assert(u < n);
        let ghost list = gs[u as int];
        let len: usize = g[u].len();
        proof {
            assert(!done.contains(u)) by {
                let first = before.take(head as int);
                if first.contains(u) {
                    let i = choose|i: int| 0 <= i < first.len() && first[i] == u;
                    assert(before[i] == before[head as int]);
                }
            }
            assert forall|x: int| 0 <= x < n implies #[trigger] open_edges[x] == pending(
                gs,
                done.insert(u),
                x as usize,
                n as nat,
            ) + occurrences(list.skip(0), x as usize) by {
                lemma_pending_insert(gs, done, u, x as usize, n as nat);
                assert(list.skip(0) =~= list);
            }
        }
        let mut k: usize = 0;
        while k < len
            invariant
                k <= len,
                u < n,
                n == g.len(),
                n == gs.len(),
                gs == lists(g@),
                is_graph(gs),
                list == gs[u as int],
                list == g[u as int]@,
                len == list.len(),
                open_edges.len() == n,
                order@ == before + released(gs, done, u, k as nat),
                forall|x: int|
                    0 <= x < n ==> #[trigger] open_edges[x] == pending(gs, done.insert(u), x as usize, n as nat)
                        + occurrences(list.skip(k as int), x as usize),
            decreases len - k,
        {
            let next: usize = g[u][k];
            assert(next == list[k as int]);
            assert(next == gs[u as int][k as int]);
            proof {
                assert forall|x: usize|
                    occurrences(list.skip(k as int), x) == occurrences(list.skip(k + 1), x) + (if x == next {
                        1nat
                    } else {
                        0nat
                    }) by {
                    lemma_occurrences_split(list.skip(k as int), x, 1);
                    assert(list.skip(k as int).skip(1) =~= list.skip(k + 1));
                    let first = list.skip(k as int).take(1);
                    assert(first.last() == next);
                    assert(occurrences(first.drop_last(), x) == 0);
                }
                lemma_ready_pending(gs, done.insert(u), next);
                lemma_occurrences_zero(list.skip(k + 1), next);
                assert(open_edges[next as int] == pending(gs, done.insert(u), next, n as nat) + occurrences(
                    list.skip(k + 1),
                    next,
                ) + 1);
                assert(releases(gs, done, u, k as int) <==> open_edges[next as int] == 1);
            }
            let left: u128 = open_edges[next] - 1;
            open_edges.set(next, left);
            if left == 0 {
                order.push(next);
                assert(order@ =~= before + released(gs, done, u, (k + 1) as nat));
            }
            k = k + 1;
        }
        proof {
            assert(order@ == grown(gs, (head + 1) as nat));
            lemma_grown(gs, (head + 1) as nat);
            lemma_distinct_below(order@, n as nat);
            assert(order@.take(head + 1).to_set() =~= done.insert(u)) by {
                let longer = order@.take(head + 1);
                let first = before.take(head as int);
                assert(longer =~= first.push(u));
                assert forall|x: usize| longer.contains(x) <==> first.contains(x) || x == u by {
                    if first.contains(x) {
                        let i = choose|i: int| 0 <= i < first.len() && first[i] == x;
                        assert(longer[i] == x);
                    }
                    if longer.contains(x) {
                        let i = choose|i: int| 0 <= i < longer.len() && longer[i] == x;
                        if i < head {
                            assert(first[i] == x);
                        }
                    }
                    assert(longer[head as int] == u);
                }
            }
            assert(list.skip(len as int).len() == 0);
        }
        head = head + 1;
    }
    proof {
        lemma_grown_stable(gs, head as nat, n as nat);
    }
    order
}

/// `rank` grows along every edge.
pub open spec fn ranks(g: Seq<Seq<usize>>, rank: Seq<nat>) -> bool {
    &&& rank.len() == g.len()
    &&& forall|u: usize, v: usize| #[trigger] edge(g, u, v) && v < g.len() ==> rank[u as int] < rank[v as int]
}

/// Some ranking grows along every edge, so there is no cycle.
pub open spec fn acyclic(g: Seq<Seq<usize>>) -> bool {
    exists|rank: Seq<nat>| ranks(g, rank)
}

/// The order lists distinct vertices, each after all its predecessors.
pub proof fn order_is_topological(g: Seq<Seq<usize>>)
    requires
        is_graph(g),
        g.len() <= usize::MAX,
    ensures
        release_order(g).no_duplicates(),
        release_order(g).len() <= g.len(),
        forall|i: int| 0 <= i < release_order(g).len() ==> #[trigger] release_order(g)[i] < g.len(),
        forall|i: int| 0 <= i < release_order(g).len() ==> #[trigger] preceded(g, release_order(g), i),
{
    lemma_grown(g, g.len());
    lemma_order_final(g);
}

/// The order stops only when nothing is left that could still follow: the vertices
/// in it are exactly those whose predecessors are all in it.
pub proof fn order_is_maximal(g: Seq<Seq<usize>>, v: usize)
    requires
        is_graph(g),
        g.len() <= usize::MAX,
    ensures
        release_order(g).contains(v) <==> v < g.len() && ready(g, release_order(g).to_set(), v),
{
    lemma_grown(g, g.len());
    lemma_order_final(g);
    let q = release_order(g);
    assert(q.take(q.len() as int) =~= q);
}

proof fn lemma_ranked_vertex_in_order(g: Seq<Seq<usize>>, rank: Seq<nat>, v: usize)
    requires
        is_graph(g),
        g.len() <= usize::MAX,
        ranks(g, rank),
        v < g.len(),
    ensures
        release_order(g).contains(v),
    decreases rank[v as int],
{
    order_is_maximal(g, v);
    let q = release_order(g);
    assert forall|u: usize| #[trigger] edge(g, u, v) implies q.to_set().contains(u) by {
        lemma_ranked_vertex_in_order(g, rank, u);
    }
}

/// Distinct values that cover everything below `n` are exactly `n` many.
pub proof fn lemma_covering_len(q: Seq<usize>, n: nat)
    requires
        q.no_duplicates(),
        forall|i: int| 0 <= i < q.len() ==> #[trigger] q[i] < n,
        forall|v: usize| v < n ==> #[trigger] q.contains(v),
        n <= usize::MAX,
    ensures
        q.len() == n,
    decreases n,
{
    lemma_distinct_below(q, n);
    if n > 0 {
        let last = (n - 1) as usize;
        assert(q.contains(last));
        let i = choose|i: int| 0 <= i < q.len() && q[i] == last;
        let rest = q.remove(i);
        assert forall|j: int| 0 <= j < rest.len() implies #[trigger] rest[j] < n - 1 by {
            let from = if j < i { j } else { j + 1 };
            assert(rest[j] == q[from]);
            assert(q[from] != q[i]);
        }
        assert(rest.no_duplicates()) by {
            assert forall|a: int, b: int| 0 <= a < b < rest.len() implies rest[a] != rest[b] by {
                let a2 = if a < i { a } else { a + 1 };
                let b2 = if b < i { b } else { b + 1 };
                assert(rest[a] == q[a2] && rest[b] == q[b2]);
            }
        }
        assert forall|v: usize| v < n - 1 implies #[trigger] rest.contains(v) by {
            assert(q.contains(v));
            let j = choose|j: int| 0 <= j < q.len() && q[j] == v;
            if j < i {
                assert(rest[j] == v);
            } else {
                assert(rest[j - 1] == v);
            }
        }
        lemma_covering_len(rest, (n - 1) as nat);
    }
}

/// Without a cycle every vertex is in the order.
pub proof fn acyclic_order_is_complete(g: Seq<Seq<usize>>)
    requires
        is_graph(g),
        g.len() <= usize::MAX,
        acyclic(g),
    ensures
        forall|v: usize| v < g.len() ==> #[trigger] release_order(g).contains(v),
        release_order(g).len() == g.len(),
{
    let rank = choose|rank: Seq<nat>| ranks(g, rank);
    assert forall|v: usize| v < g.len() implies #[trigger] release_order(g).contains(v) by {
        lemma_ranked_vertex_in_order(g, rank, v);
    }
    order_is_topological(g);
    lemma_covering_len(release_order(g), g.len());
}

/// `p` follows edges from each of its entries to the next.
pub open spec fn is_path(g: Seq<Seq<usize>>, p: Seq<usize>) -> bool {
    &&& p.len() > 0
    &&& forall|i: int| 0 <= i < p.len() ==> #[trigger] p[i] < g.len()
    &&& forall|i: int| 0 <= i < p.len() - 1 ==> edge(g, #[trigger] p[i], p[i + 1])
}

/// `p` is a path that ends in `v` and runs through `via` before that.
pub open spec fn path_to(g: Seq<Seq<usize>>, via: Set<usize>, v: usize, p: Seq<usize>) -> bool {
    &&& is_path(g, p)
    &&& p.last() == v
    &&& forall|i: int| 0 <= i < p.len() - 1 ==> via.contains(#[trigger] p[i])
}

/// `len` is the length of the longest path that ends in `v` and runs through `via` before that.
pub open spec fn longest_to(g: Seq<Seq<usize>>, via: Set<usize>, v: usize, len: int) -> bool {
    &&& exists|p: Seq<usize>| #[trigger] path_to(g, via, v, p) && p.len() == len
    &&& forall|p: Seq<usize>| #[trigger] path_to(g, via, v, p) ==> p.len() <= len
}

/// `len` is the length of the longest path that ends among the entries of `ends`, and 0 if there is none.
pub open spec fn longest_path(g: Seq<Seq<usize>>, ends: Seq<usize>, len: int) -> bool {
    &&& forall|p: Seq<usize>| #[trigger] is_path(g, p) && ends.contains(p.last()) ==> p.len() <= len
    &&& if ends.len() == 0 {
        len == 0
    } else {
        exists|p: Seq<usize>| #[trigger] is_path(g, p) && ends.contains(p.last()) && p.len() == len
    }
}

/// `q` lists distinct vertices, each after all its predecessors.
pub open spec fn is_topological(g: Seq<Seq<usize>>, q: Seq<usize>) -> bool {
    &&& q.no_duplicates()
    &&& forall|i: int| 0 <= i < q.len() ==> #[trigger] q[i] < g.len()
    &&& forall|i: int| 0 <= i < q.len() ==> #[trigger] preceded(g, q, i)
}

/// A path that ends in entry `j` of a topological order runs through earlier entries before that.
proof fn lemma_path_precedes(g: Seq<Seq<usize>>, q: Seq<usize>, j: int, p: Seq<usize>)
    requires
        is_topological(g, q),
        0 <= j < q.len(),
        is_path(g, p),
        p.last() == q[j],
    ensures
        forall|i: int| 0 <= i < p.len() - 1 ==> q.take(j).contains(#[trigger] p[i]),
    decreases p.len(),
{
    if p.len() > 1 {
        let w = p[p.len() - 2];
        assert(preceded(g, q, j));
        assert(edge(g, w, p[p.len() - 2 + 1]));
        assert(edge(g, w, q[j]));
        let head = q.take(j);
        let k = choose|k: int| 0 <= k < head.len() && head[k] == w;
        let shorter = p.drop_last();
        assert(is_path(g, shorter)) by {
            assert forall|i: int| 0 <= i < shorter.len() implies #[trigger] shorter[i] < g.len() by {
                assert(shorter[i] == p[i]);
            }
            assert forall|i: int| 0 <= i < shorter.len() - 1 implies edge(g, #[trigger] shorter[i], shorter[i + 1]) by {
                assert(shorter[i] == p[i] && shorter[i + 1] == p[i + 1]);
            }
        }
        assert(shorter.last() == q[k]);
        lemma_path_precedes(g, q, k, shorter);
        assert forall|i: int| 0 <= i < p.len() - 1 implies q.take(j).contains(#[trigger] p[i]) by {
            if i < p.len() - 2 {
                assert(shorter[i] == p[i]);
                let earlier = q.take(k);
                let a = choose|a: int| 0 <= a < earlier.len() && earlier[a] == p[i];
                assert(head[a] == p[i]);
            } else {
                assert(head[k] == w);
            }
        }
    }
}

/// How taking up entry `h` of a topological order lengthens the longest path to `v`.
proof fn lemma_longest_step(g: Seq<Seq<usize>>, q: Seq<usize>, h: int, v: usize, to_v: int, to_u: int)
    requires
        is_topological(g, q),
        0 <= h < q.len(),
        v < g.len(),
        longest_to(g, q.take(h).to_set(), v, to_v),
        longest_to(g, q.take(h).to_set(), q[h], to_u),
    ensures
        longest_to(
            g,
            q.take(h + 1).to_set(),
            v,
            if edge(g, q[h], v) && to_u + 1 > to_v {
                to_u + 1
            } else {
                to_v
            },
        ),
{
    let u = q[h];
    let head = q.take(h);
    let via = head.to_set();
    let wider = q.take(h + 1);
    let via2 = wider.to_set();
    let len = if edge(g, u, v) && to_u + 1 > to_v {
        to_u + 1
    } else {
        to_v
    };
    assert forall|x: usize| via.contains(x) implies via2.contains(x) by {
        let i = choose|i: int| 0 <= i < head.len() && head[i] == x;
        assert(wider[i] == x);
    }
    assert(wider[h] == u);
    assert(via2.contains(u));
    let p_v = choose|p: Seq<usize>| #[trigger] path_to(g, via, v, p) && p.len() == to_v;
    assert(path_to(g, via2, v, p_v));
    if edge(g, u, v) {
        let p_u = choose|p: Seq<usize>| #[trigger] path_to(g, via, u, p) && p.len() == to_u;
        let longer = p_u.push(v);
        assert(path_to(g, via2, v, longer)) by {
            assert forall|i: int| 0 <= i < longer.len() implies #[trigger] longer[i] < g.len() by {
                if i < p_u.len() {
                    assert(longer[i] == p_u[i]);
                }
            }
            assert forall|i: int| 0 <= i < longer.len() - 1 implies edge(g, #[trigger] longer[i], longer[i + 1]) by {
                assert(longer[i] == p_u[i]);
                if i < p_u.len() - 1 {
                    assert(longer[i + 1] == p_u[i + 1]);
                }
            }
            assert forall|i: int| 0 <= i < longer.len() - 1 implies via2.contains(#[trigger] longer[i]) by {
                assert(longer[i] == p_u[i]);
            }
        }
    }
    assert forall|p: Seq<usize>| #[trigger] path_to(g, via2, v, p) implies p.len() <= len by {
        if p.len() == 1 {
            assert(path_to(g, via, v, p));
        } else {
            let w = p[p.len() - 2];
            let shorter = p.drop_last();
            assert(is_path(g, shorter)) by {
                assert forall|i: int| 0 <= i < shorter.len() implies #[trigger] shorter[i] < g.len() by {
                    assert(shorter[i] == p[i]);
                }
                assert forall|i: int| 0 <= i < shorter.len() - 1 implies edge(
                    g,
                    #[trigger] shorter[i],
                    shorter[i + 1],
                ) by {
                    assert(shorter[i] == p[i] && shorter[i + 1] == p[i + 1]);
                }
            }
            assert(via2.contains(w));
            let k = choose|k: int| 0 <= k < wider.len() && wider[k] == w;
            assert(q[k] == w);
            assert(edge(g, w, p[p.len() - 2 + 1]));
            lemma_path_precedes(g, q, k, shorter);
            assert forall|i: int| 0 <= i < shorter.len() - 1 implies via.contains(#[trigger] shorter[i]) by {
                let earlier = q.take(k);
                let a = choose|a: int| 0 <= a < earlier.len() && earlier[a] == shorter[i];
                assert(head[a] == shorter[i]);
            }
            if k == h {
                assert(path_to(g, via, u, shorter));
            } else {
                assert forall|i: int| 0 <= i < p.len() - 1 implies via.contains(#[trigger] p[i]) by {
                    if i < p.len() - 2 {
                        assert(shorter[i] == p[i]);
                    } else {
                        assert(head[k] == w);
                    }
                }
                assert(path_to(g, via, v, p));
            }
        }
    }
}

/// A vertex that is not yet behind entry `h` leaves room for one more step.
proof fn lemma_room_behind(g: Seq<Seq<usize>>, q: Seq<usize>, h: int, v: usize)
    requires
        is_topological(g, q),
        0 <= h < q.len(),
        v < g.len(),
        edge(g, q[h], v),
    ensures
        v != q[h],
        h + 2 <= g.len(),
{
    let first = q.take(h + 1);
    assert(!first.contains(v)) by {
        if first.contains(v) {
            let j = choose|j: int| 0 <= j < first.len() && first[j] == v;
            assert(preceded(g, q, j));
            let head = q.take(j);
            let k = choose|k: int| 0 <= k < head.len() && head[k] == q[h];
            assert(q[k] == q[h]);
        }
    }
    assert(first[h] == q[h]);
    let all = first.push(v);
    assert forall|i: int| 0 <= i < all.len() implies #[trigger] all[i] < g.len() by {
        if i < h + 1 {
            assert(all[i] == q[i]);
        }
    }
    assert(all.no_duplicates()) by {
        assert forall|a: int, b: int| 0 <= a < b < all.len() implies all[a] != all[b] by {
            if b == h + 1 {
                assert(first.contains(first[a]));
            }
        }
    }
    lemma_distinct_below(all, g.len());
}

/// The number of vertices on the longest path that ends in the given topological order.
pub fn longest_chain(g: &Vec<Vec<usize>>, order: &Vec<usize>) -> (depth: usize)
    requires
        is_graph(lists(g@)),
        is_topological(lists(g@), order@),
    ensures
        longest_path(lists(g@), order@, depth as int),
{
    let n: usize = g.len();
    let ghost gs = lists(g@);
    let ghost q = order@;
    let mut level: Vec<usize> = Vec::new();
    let mut v: usize = 0;
    while v < n
        invariant
            v <= n,
            level.len() == v,
            forall|x: int| 0 <= x < v ==> level[x] == 1,
        decreases n - v,
    {
        level.push(1);
        v = v + 1;
    }
    proof {
        assert forall|x: int| 0 <= x < n implies longest_to(gs, q.take(0).to_set(), x as usize, #[trigger] level[x] as int) by {
            let single = seq![x as usize];
            assert(path_to(gs, q.take(0).to_set(), x as usize, single));
            assert forall|p: Seq<usize>| #[trigger] path_to(gs, q.take(0).to_set(), x as usize, p) implies p.len()
                <= 1 by {
                if p.len() > 1 {
                    assert(q.take(0).to_set().contains(p[0]));
                }
            }
        }
    }
    let mut deepest: usize = 0;
    let mut head: usize = 0;
    while head < order.len()
        invariant
            head <= order.len(),
            n == g.len(),
            n == gs.len(),
            gs == lists(g@),
            q == order@,
            is_graph(gs),
            is_topological(gs, q),
            level.len() == n,
            forall|x: int|
                0 <= x < n ==> longest_to(gs, q.take(head as int).to_set(), x as usize, #[trigger] level[x] as int)
                    && level[x] <= head + 1,
            forall|i: int| 0 <= i < head ==> level[#[trigger] q[i] as int] <= deepest,
            head == 0 ==> deepest == 0,
            head > 0 ==> exists|i: int| 0 <= i < head && level[#[trigger] q[i] as int] == deepest,
        decreases order.len() - head,
    {
        let u: usize = order[head];
        assert(u == q[head as int]);
        let here: usize = level[u];
        let ghost before = level@;
        let ghost deepest0 = deepest;
        if here > deepest {
            deepest = here;
        }
        let len: usize = g[u].len();
        let ghost list = gs[u as int];
        let mut k: usize = 0;
        while k < len
            invariant
                k <= len,
                u < n,
                n == g.len(),
                n == gs.len(),
                gs == lists(g@),
                head < q.len(),
                u == q[head as int],
                is_graph(gs),
                is_topological(gs, q),
                list == gs[u as int],
                list == g[u as int]@,
                len == list.len(),
                level.len() == n,
                before.len() == n,
                here == before[u as int],
                here <= head + 1,
                forall|x: int|
                    0 <= x < n ==> #[trigger] level[x] == if list.take(k as int).contains(x as usize) && here + 1
                        > before[x] {
                        (here + 1) as usize
                    } else {
                        before[x]
                    },
            decreases len - k,
        {
            let next: usize = g[u][k];
            assert(next == gs[u as int][k as int]);
            proof {
                assert(list.contains(list[k as int]));
                assert(edge(gs, u, next));
                lemma_room_behind(gs, q, head as int, next);
                assert(list.take(k + 1) =~= list.take(k as int).push(next));
                assert forall|x: usize| list.take(k + 1).contains(x) <==> list.take(k as int).contains(x) || x == next by {
                    let a = list.take(k as int);
                    let b = list.take(k + 1);
                    if a.contains(x) {
                        let i = choose|i: int| 0 <= i < a.len() && a[i] == x;
                        assert(b[i] == x);
                    }
                    if b.contains(x) {
                        let i = choose|i: int| 0 <= i < b.len() && b[i] == x;
                        if i < k {
                            assert(a[i] == x);
                        }
                    }
                    assert(b[k as int] == next);
                }
            }
            if level[next] < here + 1 {
                level.set(next, here + 1);
            }
            k = k + 1;
        }
        proof {
            assert(list.take(len as int) =~= list);
            assert forall|x: int| 0 <= x < n implies longest_to(
                gs,
                q.take(head + 1).to_set(),
                x as usize,
                #[trigger] level[x] as int,
            ) && level[x] <= head + 2 by {
                assert(longest_to(gs, q.take(head as int).to_set(), x as usize, before[x] as int));
                assert(longest_to(gs, q.take(head as int).to_set(), u, before[u as int] as int));
                lemma_longest_step(gs, q, head as int, x as usize, before[x] as int, here as int);
                if edge(gs, u, x as usize) {
                    lemma_room_behind(gs, q, head as int, x as usize);
                }
            }
            // What has been taken up is not a successor of `u`, so its level stays.
            assert forall|i: int| 0 <= i <= head implies level[#[trigger] q[i] as int] == before[q[i] as int] by {
                if edge(gs, u, q[i]) {
                    assert(preceded(gs, q, i));
                    let earlier = q.take(i);
                    let a = choose|a: int| 0 <= a < earlier.len() && earlier[a] == u;
                    assert(q[a] == q[head as int]);
                }
            }
            assert forall|i: int| 0 <= i < head + 1 implies level[#[trigger] q[i] as int] <= deepest by {
                if i < head {
                    assert(before[q[i] as int] <= deepest0);
                }
            }
            if here > deepest0 {
                assert(level[q[head as int] as int] == deepest);
            } else if head > 0 {
                let i = choose|i: int| 0 <= i < head && before[#[trigger] q[i] as int] == deepest0;
                assert(level[q[i] as int] == deepest);
            } else {
                let p = choose|p: Seq<usize>|
                    #[trigger] path_to(gs, q.take(head as int).to_set(), u, p) && p.len() == here;
                assert(here >= 1);
            }
        }
        head = head + 1;
    }
    proof {
        let via = q.take(head as int).to_set();
        assert(q.take(head as int) =~= q);
        assert forall|p: Seq<usize>| #[trigger] is_path(gs, p) && q.contains(p.last()) implies p.len() <= deepest by {
            let j = choose|j: int| 0 <= j < q.len() && q[j] == p.last();
            lemma_path_precedes(gs, q, j, p);
            assert forall|i: int| 0 <= i < p.len() - 1 implies via.contains(#[trigger] p[i]) by {
                let earlier = q.take(j);
                let a = choose|a: int| 0 <= a < earlier.len() && earlier[a] == p[i];
                assert(q[a] == p[i]);
            }
            assert(longest_to(gs, via, q[j], level[q[j] as int] as int));
            assert(path_to(gs, via, q[j], p));
        }
        if q.len() > 0 {
            let i = choose|i: int| 0 <= i < q.len() && level[#[trigger] q[i] as int] == deepest;
            assert(longest_to(gs, via, q[i], level[q[i] as int] as int));
            let p = choose|p: Seq<usize>| #[trigger] path_to(gs, via, q[i], p) && p.len() == deepest;
            assert(is_path(gs, p));
            assert(q.contains(p.last()));
        }
    }
    deepest
}

} // verus!
