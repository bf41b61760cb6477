//! Connected components of graphs whose edges come in both directions.
use vstd::prelude::*;
use crate::graph;

verus! {

/// `p` is a path from `a` to `b`.
pub open spec fn joins(g: Seq<Seq<usize>>, a: usize, b: usize, p: Seq<usize>) -> bool {
    graph::is_path(g, p) && p[0] == a && p.last() == b
}

/// Some path leads from `a` to `b`.
pub open spec fn connected(g: Seq<Seq<usize>>, a: usize, b: usize) -> bool {
    exists|p: Seq<usize>| joins(g, a, b, p)
}

/// Edges come in both directions.
pub open spec fn symmetric(g: Seq<Seq<usize>>) -> bool {
    forall|a: usize, b: usize| #[trigger] graph::edge(g, a, b) ==> graph::edge(g, b, a)
}

/// Every vertex hangs together with itself.
pub proof fn lemma_connected_refl(g: Seq<Seq<usize>>, a: usize)
    requires
        a < g.len(),
    ensures
        connected(g, a, a),
{
    assert(joins(g, a, a, seq![a]));
}

/// A path can be extended by an edge.
proof fn lemma_connected_step(g: Seq<Seq<usize>>, a: usize, b: usize, c: usize)
    requires
        graph::is_graph(g),
        connected(g, a, b),
        graph::edge(g, b, c),
    ensures
        connected(g, a, c),
        c < g.len(),
{
    let p = choose|p: Seq<usize>| joins(g, a, b, p);
    let q = p.push(c);
    let k = choose|k: int| 0 <= k < g[b as int].len() && g[b as int][k] == c;
    assert(g[b as int][k] < g.len());
    assert forall|i: int| 0 <= i < q.len() implies #[trigger] q[i] < g.len() by {
        if i < p.len() {
            assert(q[i] == p[i]);
        }
    }
    assert forall|i: int| 0 <= i < q.len() - 1 implies graph::edge(g, #[trigger] q[i], q[i + 1]) by {
        assert(q[i] == p[i]);
        if i < p.len() - 1 {
            assert(q[i + 1] == p[i + 1]);
        }
    }
    assert(joins(g, a, c, q));
}

proof fn lemma_connected_trans(g: Seq<Seq<usize>>, a: usize, b: usize, c: usize)
    requires
        connected(g, a, b),
        connected(g, b, c),
    ensures
        connected(g, a, c),
{
    let p = choose|p: Seq<usize>| joins(g, a, b, p);
    let q = choose|q: Seq<usize>| joins(g, b, c, q);
    let r = p + q.skip(1);
    assert forall|i: int| 0 <= i < r.len() implies #[trigger] r[i] < g.len() by {
        if i < p.len() {
            assert(r[i] == p[i]);
        } else {
            assert(r[i] == q[i - p.len() + 1]);
        }
    }
    assert forall|i: int| 0 <= i < r.len() - 1 implies graph::edge(g, #[trigger] r[i], r[i + 1]) by {
        if i < p.len() - 1 {
            assert(r[i] == p[i] && r[i + 1] == p[i + 1]);
        } else {
            assert(r[i] == q[i - p.len() + 1] && r[i + 1] == q[i - p.len() + 1 + 1]);
        }
    }
    if q.len() == 1 {
        assert(r =~= p);
    } else {
        assert(r.last() == q.last());
    }
    assert(joins(g, a, c, r));
}

proof fn lemma_connected_sym(g: Seq<Seq<usize>>, a: usize, b: usize)
    requires
        symmetric(g),
        connected(g, a, b),
    ensures
        connected(g, b, a),
{
    let p = choose|p: Seq<usize>| joins(g, a, b, p);
    let r = p.reverse();
    assert forall|i: int| 0 <= i < r.len() implies #[trigger] r[i] < g.len() by {
        assert(r[i] == p[p.len() - 1 - i]);
    }
    assert forall|i: int| 0 <= i < r.len() - 1 implies graph::edge(g, #[trigger] r[i], r[i + 1]) by {
        let j = p.len() - 2 - i;
        assert(r[i] == p[j + 1] && r[i + 1] == p[j]);
        assert(graph::edge(g, p[j], p[j + 1]));
    }
    assert(joins(g, b, a, r));
}

/// A set of vertices that no edge leaves holds every path from one of its members.
pub proof fn lemma_closed_holds_path(g: Seq<Seq<usize>>, inside: Set<usize>, p: Seq<usize>, i: int)
    requires
        graph::is_path(g, p),
        inside.contains(p[0]),
        forall|a: usize, b: usize| #[trigger] graph::edge(g, a, b) && inside.contains(a) && b < g.len() ==> inside.contains(b),
        0 <= i < p.len(),
    ensures
        inside.contains(p[i]),
    decreases i,
{
    if i > 0 {
        lemma_closed_holds_path(g, inside, p, i - 1);
        assert(graph::edge(g, p[i - 1], p[i - 1 + 1]));
    }
}

/// The labels tell components apart: labelled vertices share a label exactly when
/// they are connected, and nothing connected to one is unlabelled. Labels are below
/// `count`; `label.len()` marks a vertex without one.
spec fn labels_components(g: Seq<Seq<usize>>, label: Seq<usize>, count: int) -> bool {
    &&& label.len() == g.len()
    &&& forall|a: usize| a < g.len() ==> #[trigger] label[a as int] < count || label[a as int] == g.len()
    &&& forall|a: usize, b: usize|
        a < g.len() && b < g.len() && label[a as int] < count ==> (#[trigger] connected(g, a, b) <==> label[b as int]
            == label[a as int])
}

/// `roots[k]` is the least vertex with label `k`.
spec fn least_labelled(label: Seq<usize>, roots: Seq<usize>) -> bool {
    &&& forall|i: int, j: int| 0 <= i < j < roots.len() ==> roots[i] < roots[j]
    &&& forall|k: int| 0 <= k < roots.len() ==> (#[trigger] roots[k]) < label.len() && label[roots[k] as int] == k
    &&& forall|v: int, k: int|
        0 <= v < label.len() && 0 <= k < roots.len() && #[trigger] label[v] == k ==> #[trigger] roots[k] <= v
}

/// Gives label `mark` to everything connected to `start`.
fn label_from(g: &Vec<Vec<usize>>, label: &mut Vec<usize>, start: usize, mark: usize)
    requires
        graph::is_graph(graph::lists(g@)),
        symmetric(graph::lists(g@)),
        labels_components(graph::lists(g@), old(label)@, mark as int),
        start < g.len(),
        mark < g.len(),
        old(label)@[start as int] == g.len(),
    ensures
        labels_components(graph::lists(g@), final(label)@, mark + 1),
        forall|v: int|
            0 <= v < g.len() ==> #[trigger] final(label)@[v] == if connected(graph::lists(g@), start, v as usize) {
                mark
            } else {
                old(label)@[v]
            },
{
    let n: usize = g.len();
    let ghost gs = graph::lists(g@);
    let ghost prior = label@;
    let mut work: Vec<usize> = Vec::new();
    work.push(start);
    label.set(start, mark);
    let mut head: usize = 0;
    proof {
        lemma_connected_refl(gs, start);
        assert(work@.no_duplicates());
        graph::lemma_distinct_below(work@, n as nat);
        assert forall|v: usize| v < n implies (#[trigger] work@.contains(v) <==> label@[v as int] == mark) by {
            assert(work@[0] == start);
            if v != start {
                assert(label@[v as int] == prior[v as int]);
            }
        }
    }
    while head < work.len()
        invariant
            head <= work.len() <= n,
            n == g.len(),
            n == gs.len(),
            gs == graph::lists(g@),
            graph::is_graph(gs),
            symmetric(gs),
            mark < n,
            start < n,
            label.len() == n,
            prior.len() == n,
            prior[start as int] == n,
            labels_components(gs, prior, mark as int),
            work@.no_duplicates(),
            forall|i: int| 0 <= i < work.len() ==> #[trigger] work@[i] < n,
            work.len() > 0,
            work@[0] == start,
            forall|v: usize| v < n ==> (#[trigger] work@.contains(v) <==> label@[v as int] == mark),
            forall|i: int| 0 <= i < work.len() ==> connected(gs, start, #[trigger] work@[i]),
            forall|v: int| 0 <= v < n && label@[v] != mark ==> #[trigger] label@[v] == prior[v],
            forall|i: int, b: usize|
                0 <= i < head && b < n && #[trigger] graph::edge(gs, #[trigger] work@[i], b) ==> label@[b as int] == mark,
        decreases n - head,
    {
        let u: usize = work[head];
        let len: usize = g[u].len();
        let ghost list = gs[u as int];
        let mut k: usize = 0;
        while k < len
            invariant
                k <= len,
                u < n,
                head < work.len() <= n,
                u == work@[head as int],
                n == g.len(),
                n == gs.len(),
                gs == graph::lists(g@),
                graph::is_graph(gs),
                symmetric(gs),
                mark < n,
                start < n,
                list == gs[u as int],
                list == g[u as int]@,
                len == list.len(),
                label.len() == n,
                prior.len() == n,
                prior[start as int] == n,
                labels_components(gs, prior, mark as int),
                work@.no_duplicates(),
                forall|i: int| 0 <= i < work.len() ==> #[trigger] work@[i] < n,
                work.len() > 0,
                work@[0] == start,
                forall|v: usize| v < n ==> (#[trigger] work@.contains(v) <==> label@[v as int] == mark),
                forall|i: int| 0 <= i < work.len() ==> connected(gs, start, #[trigger] work@[i]),
                forall|v: int| 0 <= v < n && label@[v] != mark ==> #[trigger] label@[v] == prior[v],
                forall|i: int, b: usize|
                    0 <= i < head && b < n && #[trigger] graph::edge(gs, #[trigger] work@[i], b) ==> label@[b as int] == mark,
                forall|j: int| 0 <= j < k ==> label@[#[trigger] list[j] as int] == mark,
            decreases len - k,
        {
            let next: usize = g[u][k];
            assert(next == gs[u as int][k as int]);
            assert(list.contains(list[k as int]));
            assert(graph::edge(gs, u, next));
            if label[next] == n {
                let ghost old_work = work@;
                let ghost old_label = label@;
                label.set(next, mark);
                work.push(next);
                proof {
                    lemma_connected_step(gs, start, u, next);
                    assert(!old_work.contains(next));
                    assert forall|v: usize| v < n implies (#[trigger] work@.contains(v) <==> label@[v as int] == mark) by {
                        if work@.contains(v) {
                            let i = choose|i: int| 0 <= i < work@.len() && work@[i] == v;
                            if i < old_work.len() {
                                assert(old_work[i] == v);
                                assert(old_work.contains(v));
                            }
                        }
                        if label@[v as int] == mark {
                            if v == next {
                                assert(work@[old_work.len() as int] == v);
                            } else {
                                assert(old_work.contains(v));
                                let i = choose|i: int| 0 <= i < old_work.len() && old_work[i] == v;
                                assert(work@[i] == v);
                            }
                        }
                    }
                    graph::lemma_distinct_below(work@, n as nat);
                }
            } else if label[next] != mark {
                proof {
                    // An older label would have reached `start` too.
                    assert(prior[next as int] < mark);
                    lemma_connected_step(gs, start, u, next);
                    lemma_connected_sym(gs, start, next);
                    assert(prior[start as int] == prior[next as int]);
                    assert(false);
                }
            }
            k = k + 1;
        }
        proof {
            assert forall|i: int, b: usize|
                0 <= i < head + 1 && b < n && #[trigger] graph::edge(gs, #[trigger] work@[i], b) implies label@[b as int]
                == mark by {
                if i == head {
                    let j = choose|j: int| 0 <= j < list.len() && list[j] == b;
                    assert(label@[list[j] as int] == mark);
                }
            }
        }
        head = head + 1;
    }
    proof {
        let inside = Set::new(|v: usize| v < n && label@[v as int] == mark);
        assert forall|a: usize, b: usize| #[trigger] graph::edge(gs, a, b) && inside.contains(a) && b < gs.len() implies
            inside.contains(b) by {
            assert(work@.contains(a));
            let i = choose|i: int| 0 <= i < work@.len() && work@[i] == a;
            assert(graph::edge(gs, work@[i], b));
        }
        assert(work@.contains(work@[0]));
        assert forall|v: int| 0 <= v < n implies (#[trigger] label@[v] == mark <==> connected(gs, start, v as usize)) by {
            if label@[v] == mark {
                assert(work@.contains(v as usize));
                let i = choose|i: int| 0 <= i < work@.len() && work@[i] == v as usize;
                assert(connected(gs, start, work@[i]));
            }
            if connected(gs, start, v as usize) {
                let x = v as usize;
                let p = choose|p: Seq<usize>| joins(gs, start, x, p);
                lemma_closed_holds_path(gs, inside, p, p.len() - 1);
            }
        }
        assert forall|a: usize, b: usize| a < gs.len() && b < gs.len() && label@[a as int] < mark + 1 implies (
        #[trigger] connected(gs, a, b) <==> label@[b as int] == label@[a as int]) by {
            if label@[a as int] == mark {
                assert(connected(gs, start, a));
                if connected(gs, a, b) {
                    lemma_connected_trans(gs, start, a, b);
                }
                if label@[b as int] == mark {
                    assert(connected(gs, start, b));
                    lemma_connected_sym(gs, start, a);
                    lemma_connected_trans(gs, a, start, b);
                }
            } else {
                assert(prior[a as int] == label@[a as int]);
                if connected(gs, a, b) {
                    if label@[b as int] == mark {
                        assert(connected(gs, start, b));
                        lemma_connected_sym(gs, a, b);
                        lemma_connected_trans(gs, start, b, a);
                    }
                }
                if label@[b as int] == label@[a as int] {
                    assert(prior[b as int] == label@[b as int]);
                }
            }
        }
        assert forall|a: usize| a < gs.len() implies #[trigger] label@[a as int] < mark + 1 || label@[a as int]
            == gs.len() by {
            if label@[a as int] != mark {
                assert(prior[a as int] == label@[a as int]);
            }
        }
    }
}

/// The entries grow from each to the next.
pub open spec fn ascending(s: Seq<usize>) -> bool {
    forall|i: int, j: int| 0 <= i < j < s.len() ==> s[i] < s[j]
}

/// Some part holds `v`.
pub open spec fn in_some_part(parts: Seq<Vec<usize>>, v: usize) -> bool {
    exists|i: int| 0 <= i < parts.len() && #[trigger] parts[i]@.contains(v)
}

/// `parts` are the connected components of `g`: each lists its vertices in ascending
/// order, a part with `a` holds exactly what is connected to `a`, and every vertex
/// is in a part.
pub open spec fn are_components(g: Seq<Seq<usize>>, parts: Seq<Vec<usize>>) -> bool {
    &&& forall|i: int| 0 <= i < parts.len() ==> (#[trigger] parts[i])@.len() > 0 && ascending(parts[i]@)
    &&& forall|i: int, a: usize|
        0 <= i < parts.len() && #[trigger] parts[i]@.contains(a) ==> a < g.len() && (forall|b: usize| #[trigger]
            parts[i]@.contains(b) <==> b < g.len() && connected(g, a, b))
    &&& forall|v: usize| v < g.len() ==> #[trigger] in_some_part(parts, v)
    &&& forall|i: int, j: int, v: usize|
        0 <= i < parts.len() && 0 <= j < parts.len() && #[trigger] parts[i]@.contains(v)
            && #[trigger] parts[j]@.contains(v) ==> i == j
}

/// The vertices below `m` with label `k`, ascending.
spec fn labelled(label: Seq<usize>, k: int, m: nat) -> Seq<usize>
    decreases m,
{
    if m == 0 {
        Seq::empty()
    } else if label[m - 1] == k {
        labelled(label, k, (m - 1) as nat).push((m - 1) as usize)
    } else {
        labelled(label, k, (m - 1) as nat)
    }
}

proof fn lemma_labelled(label: Seq<usize>, k: int, m: nat)
    requires
        m <= label.len() <= usize::MAX,
    ensures
        ascending(labelled(label, k, m)),
        forall|v: usize| #[trigger] labelled(label, k, m).contains(v) <==> v < m && label[v as int] == k,
    decreases m,
{
    if m > 0 {
        let rest = labelled(label, k, (m - 1) as nat);
        let all = labelled(label, k, m);
        lemma_labelled(label, k, (m - 1) as nat);
        assert forall|i: int, j: int| 0 <= i < j < all.len() implies all[i] < all[j] by {
            assert(rest.contains(rest[i]));
        }
        assert forall|v: usize| #[trigger] all.contains(v) <==> v < m && label[v as int] == k by {
            if all.contains(v) {
                let i = choose|i: int| 0 <= i < all.len() && all[i] == v;
                if i < rest.len() {
                    assert(rest[i] == v);
                    assert(rest.contains(v));
                }
            }
            if v < m && label[v as int] == k {
                if v < m - 1 {
                    assert(rest.contains(v));
                    let i = choose|i: int| 0 <= i < rest.len() && rest[i] == v;
                    assert(all[i] == v);
                } else {
                    assert(all[all.len() - 1] == v);
                }
            }
        }
    }
}

/// The connected components, in ascending order of their least vertices.
pub fn components(g: &Vec<Vec<usize>>) -> (parts: Vec<Vec<usize>>)
    requires
        graph::is_graph(graph::lists(g@)),
        symmetric(graph::lists(g@)),
    ensures
        are_components(graph::lists(g@), parts@),
        forall|i: int, j: int| 0 <= i < j < parts.len() ==> #[trigger] parts@[i]@[0] < #[trigger] parts@[j]@[0],
{
    let n: usize = g.len();
    let ghost gs = graph::lists(g@);
    let mut label: Vec<usize> = Vec::new();
    let mut v: usize = 0;
    while v < n
        invariant
            v <= n,
            label.len() == v,
            forall|x: int| 0 <= x < v ==> label@[x] == n,
        decreases n - v,
    {
        label.push(n);
        v = v + 1;
    }
    let mut count: usize = 0;
    let ghost mut roots: Seq<usize> = Seq::empty();
    let mut start: usize = 0;
    while start < n
        invariant
            start <= n,
            n == g.len(),
            n == gs.len(),
            gs == graph::lists(g@),
            graph::is_graph(gs),
            symmetric(gs),
            labels_components(gs, label@, count as int),
            count <= start,
            count == roots.len(),
            least_labelled(label@, roots),
            forall|k: int| 0 <= k < roots.len() ==> #[trigger] roots[k] < start,
            forall|x: int| 0 <= x < start ==> #[trigger] label@[x] < count,
        decreases n - start,
    {
        if label[start] == n {
            let ghost prior = label@;
            label_from(g, &mut label, start, count);
            proof {
                lemma_connected_refl(gs, start);
                let old_roots = roots;
                roots = roots.push(start);
                assert forall|x: int| 0 <= x < start implies #[trigger] label@[x] < count + 1 by {
                    assert(prior[x] < count);
                }
                assert forall|k: int| 0 <= k < roots.len() implies (#[trigger] roots[k]) < label@.len()
                    && label@[roots[k] as int] == k && roots[k] < start + 1 by {
                    if k < count {
                        assert(roots[k] == old_roots[k]);
                        let r = old_roots[k];
                        if connected(gs, start, r) {
                            lemma_connected_sym(gs, start, r);
                            assert(prior[start as int] == prior[r as int]);
                        }
                    }
                }
                assert forall|x: int, k: int|
                    0 <= x < label@.len() && 0 <= k < roots.len() && #[trigger] label@[x] == k implies #[trigger] roots[k]
                    <= x by {
                    if k < count {
                        assert(prior[x] == k);
                        assert(roots[k] == old_roots[k]);
                    } else {
                        if x < start {
                            assert(prior[x] < count);
                            if connected(gs, start, x as usize) {
                                lemma_connected_sym(gs, start, x as usize);
                                assert(prior[start as int] == prior[x]);
                            }
                        }
                    }
                }
            }
            count = count + 1;
        } else {
            assert(label@[start as int] < count);
        }
        start = start + 1;
    }
    let mut parts: Vec<Vec<usize>> = Vec::new();
    let mut k: usize = 0;
    while k < count
        invariant
            k <= count,
            parts.len() == k,
            forall|i: int| 0 <= i < k ==> (#[trigger] parts@[i])@ == Seq::<usize>::empty(),
        decreases count - k,
    {
        parts.push(Vec::new());
        k = k + 1;
    }
    let mut x: usize = 0;
    while x < n
        invariant
            x <= n,
            label.len() == n,
            parts.len() == count,
            forall|v: int| 0 <= v < n ==> #[trigger] label@[v] < count,
            forall|i: int| 0 <= i < count ==> (#[trigger] parts@[i])@ == labelled(label@, i, x as nat),
        decreases n - x,
    {
        let l: usize = label[x];
        assert(label@[x as int] < count);
        parts[l].push(x);
        x = x + 1;
    }
    proof {
        assert forall|i: int| 0 <= i < parts.len() implies (#[trigger] parts@[i])@.len() > 0 && ascending(parts@[i]@)
            && parts@[i]@[0] == roots[i] by {
            lemma_labelled(label@, i, n as nat);
            assert(parts@[i]@.contains(roots[i]));
            let first = parts@[i]@[0];
            assert(parts@[i]@.contains(first));
            let j = choose|j: int| 0 <= j < parts@[i]@.len() && parts@[i]@[j] == roots[i];
            assert(label@[first as int] == i);
        }
        assert forall|i: int, a: usize| 0 <= i < parts.len() && #[trigger] parts@[i]@.contains(a) implies a < gs.len() && (
        forall|b: usize| #[trigger] parts@[i]@.contains(b) <==> b < gs.len() && connected(gs, a, b)) by {
            lemma_labelled(label@, i, n as nat);
            assert(label@[a as int] == i);
            assert forall|b: usize| #[trigger] parts@[i]@.contains(b) <==> b < gs.len() && connected(gs, a, b) by {
                if b < gs.len() {
                    assert(connected(gs, a, b) <==> label@[b as int] == label@[a as int]);
                }
            }
        }
        assert forall|v: usize| v < gs.len() implies #[trigger] in_some_part(parts@, v) by {
            let i = label@[v as int] as int;
            lemma_labelled(label@, i, n as nat);
            assert(parts@[i]@.contains(v));
        }
        assert forall|i: int, j: int, v: usize|
            0 <= i < parts.len() && 0 <= j < parts.len() && #[trigger] parts@[i]@.contains(v)
                && #[trigger] parts@[j]@.contains(v) implies i == j by {
            lemma_labelled(label@, i, n as nat);
            lemma_labelled(label@, j, n as nat);
        }
        assert forall|i: int, j: int| 0 <= i < j < parts.len() implies #[trigger] parts@[i]@[0]
            < #[trigger] parts@[j]@[0] by {
            assert(parts@[i]@.len() > 0 && parts@[j]@.len() > 0);
        }
    }
    parts
}

/// `owner` is the least eligible vertex below `m` from which a path leads to `v`, and
/// `none` if there is no such vertex.
pub open spec fn is_owner(
    g: Seq<Seq<usize>>,
    eligible: Seq<bool>,
    m: int,
    v: usize,
    owner: usize,
    none: usize,
) -> bool {
    if owner == none {
        forall|s: usize| s < m && eligible[s as int] ==> !#[trigger] connected(g, s, v)
    } else {
        &&& owner < m
        &&& eligible[owner as int]
        &&& connected(g, owner, v)
        &&& forall|s: usize| s < owner && eligible[s as int] ==> !#[trigger] connected(g, s, v)
    }
}

/// An owner owns itself.
pub proof fn lemma_owner_owns_itself(
    g: Seq<Seq<usize>>,
    eligible: Seq<bool>,
    m: int,
    v: usize,
    owner: usize,
    none: usize,
)
    requires
        m <= g.len(),
        owner != none,
        is_owner(g, eligible, m, v, owner, none),
    ensures
        is_owner(g, eligible, m, owner, owner, none),
{
    lemma_connected_refl(g, owner);
    assert forall|s: usize| s < owner && eligible[s as int] implies !#[trigger] connected(g, s, owner) by {
        if connected(g, s, owner) {
            lemma_connected_trans(g, s, owner, v);
        }
    }
}

/// Gives `start` everything that it reaches and that nobody owns yet.
fn claim_from(g: &Vec<Vec<usize>>, owner: &mut Vec<usize>, start: usize, Ghost(eligible): Ghost<Seq<bool>>)
    requires
        graph::is_graph(graph::lists(g@)),
        start < g.len(),
        eligible.len() == g.len(),
        eligible[start as int],
        old(owner).len() == g.len(),
        old(owner)@[start as int] == g.len(),
        forall|v: usize|
            v < g.len() ==> #[trigger] is_owner(
                graph::lists(g@),
                eligible,
                start as int,
                v,
                old(owner)@[v as int],
                g.len(),
            ),
    ensures
        final(owner).len() == g.len(),
        forall|v: usize|
            v < g.len() ==> #[trigger] is_owner(
                graph::lists(g@),
                eligible,
                start + 1,
                v,
                final(owner)@[v as int],
                g.len(),
            ),
{
    let n: usize = g.len();
    let ghost gs = graph::lists(g@);
    let ghost prior = owner@;
    let mut work: Vec<usize> = Vec::new();
    work.push(start);
    owner.set(start, start);
    let mut head: usize = 0;
    proof {
        lemma_connected_refl(gs, start);
        graph::lemma_distinct_below(work@, n as nat);
        assert forall|v: usize| v < n implies (#[trigger] work@.contains(v) <==> owner@[v as int] == start) by {
            assert(work@[0] == start);
            if v != start {
                assert(is_owner(gs, eligible, start as int, v, prior[v as int], n));
            }
        }
    }
    while head < work.len()
        invariant
            head <= work.len() <= n,
            n == g.len(),
            n == gs.len(),
            gs == graph::lists(g@),
            graph::is_graph(gs),
            start < n,
            owner.len() == n,
            prior.len() == n,
            eligible.len() == n,
            forall|v: usize|
                v < n ==> #[trigger] is_owner(gs, eligible, start as int, v, prior[v as int], n),
            work@.no_duplicates(),
            forall|i: int| 0 <= i < work.len() ==> #[trigger] work@[i] < n,
            work.len() > 0,
            work@[0] == start,
            forall|v: usize| v < n ==> (#[trigger] work@.contains(v) <==> owner@[v as int] == start),
            forall|i: int|
                0 <= i < work.len() ==> connected(gs, start, #[trigger] work@[i]) && prior[work@[i] as int] == n,
            forall|v: int| 0 <= v < n && owner@[v] != start ==> #[trigger] owner@[v] == prior[v],
            forall|i: int, b: usize|
                0 <= i < head && b < n && #[trigger] graph::edge(gs, #[trigger] work@[i], b) ==> owner@[b as int] != n,
        decreases n - head,
    {
        let u: usize = work[head];
        let len: usize = g[u].len();
        let ghost list = gs[u as int];
        let mut k: usize = 0;
        while k < len
            invariant
                k <= len,
                u < n,
                head < work.len() <= n,
                u == work@[head as int],
                n == g.len(),
                n == gs.len(),
                gs == graph::lists(g@),
                graph::is_graph(gs),
                start < n,
                list == gs[u as int],
                list == g[u as int]@,
                len == list.len(),
                owner.len() == n,
                prior.len() == n,
                work@.no_duplicates(),
                forall|i: int| 0 <= i < work.len() ==> #[trigger] work@[i] < n,
                work.len() > 0,
                work@[0] == start,
                forall|v: usize| v < n ==> (#[trigger] work@.contains(v) <==> owner@[v as int] == start),
                forall|i: int|
                    0 <= i < work.len() ==> connected(gs, start, #[trigger] work@[i]) && prior[work@[i] as int] == n,
                forall|v: int| 0 <= v < n && owner@[v] != start ==> #[trigger] owner@[v] == prior[v],
                forall|i: int, b: usize|
                    0 <= i < head && b < n && #[trigger] graph::edge(gs, #[trigger] work@[i], b) ==> owner@[b as int]
                        != n,
                forall|j: int| 0 <= j < k ==> owner@[#[trigger] list[j] as int] != n,
            decreases len - k,
        {
            let next: usize = g[u][k];
            assert(next == gs[u as int][k as int]);
            assert(list.contains(list[k as int]));
            assert(graph::edge(gs, u, next));
            if owner[next] == n {
                let ghost old_work = work@;
                owner.set(next, start);
                work.push(next);
                proof {
                    lemma_connected_step(gs, start, u, next);
                    assert(!old_work.contains(next));
                    crate::ids::lemma_push_contains(old_work, next);
                    assert forall|v: usize| v < n implies (#[trigger] work@.contains(v) <==> owner@[v as int] == start) by {
                        assert(old_work.contains(v) || !old_work.contains(v));
                    }
                    graph::lemma_distinct_below(work@, n as nat);
                }
            }
            k = k + 1;
        }
        proof {
            assert forall|i: int, b: usize|
                0 <= i < head + 1 && b < n && #[trigger] graph::edge(gs, #[trigger] work@[i], b) implies owner@[b as int]
                != n by {
                if i == head {
                    let j = choose|j: int| 0 <= j < list.len() && list[j] == b;
                    assert(owner@[list[j] as int] != n);
                }
            }
        }
        head = head + 1;
    }
    proof {
        // Whatever is owned leads only to what is owned.
        let inside = Set::new(|v: usize| v < n && owner@[v as int] != n);
        assert forall|a: usize, b: usize| #[trigger] graph::edge(gs, a, b) && inside.contains(a) && b < gs.len() implies
            inside.contains(b) by {
            if owner@[a as int] == start {
                assert(work@.contains(a));
                let i = choose|i: int| 0 <= i < work@.len() && work@[i] == a;
                assert(graph::edge(gs, work@[i], b));
            } else {
                let s = prior[a as int];
                assert(is_owner(gs, eligible, start as int, a, s, n));
                lemma_connected_step(gs, s, a, b);
                assert(is_owner(gs, eligible, start as int, b, prior[b as int], n));
                assert(prior[b as int] != n);
                if owner@[b as int] == start {
                    assert(work@.contains(b));
                    let i = choose|i: int| 0 <= i < work@.len() && work@[i] == b;
                    assert(prior[work@[i] as int] == n);
                }
            }
        }
        assert forall|v: usize| v < n implies #[trigger] is_owner(gs, eligible, start + 1, v, owner@[v as int], n) by {
            assert(is_owner(gs, eligible, start as int, v, prior[v as int], n));
            if owner@[v as int] == start {
                assert(work@.contains(v));
                let i = choose|i: int| 0 <= i < work@.len() && work@[i] == v;
                assert(connected(gs, start, work@[i]));
            } else if owner@[v as int] == n {
                assert forall|s: usize| s < start + 1 && eligible[s as int] implies !#[trigger] connected(gs, s, v) by {
                    if s == start && connected(gs, start, v) {
                        let p = choose|p: Seq<usize>| joins(gs, start, v, p);
                        assert(work@.contains(work@[0]));
                        lemma_closed_holds_path(gs, inside, p, p.len() - 1);
                    }
                }
            }
        }
    }
}

/// For each vertex the least eligible one from which a path leads to it.
pub fn find_owners(g: &Vec<Vec<usize>>, eligible: &Vec<bool>) -> (owner: Vec<usize>)
    requires
        graph::is_graph(graph::lists(g@)),
        eligible.len() == g.len(),
    ensures
        owner.len() == g.len(),
        forall|v: usize|
            v < g.len() ==> #[trigger] is_owner(
                graph::lists(g@),
                eligible@,
                g.len() as int,
                v,
                owner@[v as int],
                g.len(),
            ),
{
    let n: usize = g.len();
    let ghost gs = graph::lists(g@);
    let mut owner: Vec<usize> = Vec::new();
    let mut i: usize = 0;
    while i < n
        invariant
            i <= n,
            owner.len() == i,
            forall|x: int| 0 <= x < i ==> owner@[x] == n,
        decreases n - i,
    {
        owner.push(n);
        i = i + 1;
    }
    let mut start: usize = 0;
    while start < n
        invariant
            start <= n,
            n == g.len(),
            n == gs.len(),
            gs == graph::lists(g@),
            graph::is_graph(gs),
            eligible.len() == n,
            owner.len() == n,
            forall|v: usize|
                v < n ==> #[trigger] is_owner(gs, eligible@, start as int, v, owner@[v as int], n),
        decreases n - start,
    {
        if eligible[start] && owner[start] == n {
            claim_from(g, &mut owner, start, Ghost(eligible@));
        } else {
            proof {
                assert forall|v: usize| v < n implies #[trigger] is_owner(
                    gs,
                    eligible@,
                    start + 1,
                    v,
                    owner@[v as int],
                    n,
                ) by {
                    assert(is_owner(gs, eligible@, start as int, v, owner@[v as int], n));
                    if owner@[v as int] == n && eligible@[start as int] && connected(gs, start, v) {
                        let s = owner@[start as int];
                        assert(is_owner(gs, eligible@, start as int, start, s, n));
                        lemma_connected_trans(gs, s, start, v);
                    }
                }
            }
        }
        start = start + 1;
    }
    owner
}

} // verus!
