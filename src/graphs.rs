//! Searches over directed graphs given by adjacency lists (for each vertex,
//! the vertices its edges lead to) or by adjacency matrices (an entry is
//! `true` where an edge leads from the row's vertex to the column's).
use std::collections::VecDeque;
use vstd::prelude::*;

verus! {

/// Every edge leads to a vertex of the graph.
pub open spec fn well_formed(g: Seq<Vec<usize>>) -> bool {
    forall|v: int, j: int| 0 <= v < g.len() && 0 <= j < g[v]@.len() ==> #[trigger] g[v]@[j] < g.len()
}

/// An edge leads from `a` to `b`.
pub open spec fn has_edge(g: Seq<Vec<usize>>, a: usize, b: usize) -> bool {
    a < g.len() && g[a as int]@.contains(b)
}

/// `p` is a walk along edges of `g` from `from` to `to`.
pub open spec fn is_walk(g: Seq<Vec<usize>>, p: Seq<usize>, from: usize, to: usize) -> bool {
    &&& p.len() > 0
    &&& p[0] == from
    &&& p.last() == to
    &&& forall|i: int| 0 <= i < p.len() - 1 ==> has_edge(g, #[trigger] p[i], p[i + 1])
}

/// The number of vertices not yet seen.
pub open spec fn unseen(s: Seq<bool>) -> nat
    decreases s.len(),
{
    if s.len() == 0 {
        0
    } else {
        unseen(s.drop_last()) + if s.last() {
            0nat
        } else {
            1nat
        }
    }
}

proof fn lemma_unseen_mono(a: Seq<bool>, b: Seq<bool>)
    requires
        a.len() == b.len(),
        forall|i: int| 0 <= i < a.len() && #[trigger] a[i] ==> b[i],
    ensures
        unseen(b) <= unseen(a),
    decreases a.len(),
{
    if a.len() > 0 {
        lemma_unseen_mono(a.drop_last(), b.drop_last());
    }
}

proof fn lemma_unseen_mark(s: Seq<bool>, i: int)
    requires
        0 <= i < s.len(),
        !s[i],
    ensures
        unseen(s.update(i, true)) + 1 == unseen(s),
    decreases s.len(),
{
    if i < s.len() - 1 {
        assert(s.update(i, true).drop_last() =~= s.drop_last().update(i, true));
        lemma_unseen_mark(s.drop_last(), i);
    } else {
        assert(s.update(i, true).drop_last() =~= s.drop_last());
    }
}

/// Searches depth first for a walk from `curr` to `target` that enters no
/// vertex already marked in `seen`, trying the edges of each vertex in turn.
/// Every vertex entered is marked. On success the walk is added to `path`;
/// otherwise `path` is left as it was.
pub fn depth_first_search(
    g: &Vec<Vec<usize>>,
    curr: usize,
    target: usize,
    seen: &mut Vec<bool>,
    path: &mut Vec<usize>,
) -> (r: bool)
    requires
        well_formed(g@),
        curr < g.len(),
        old(seen).len() == g.len(),
    ensures
        final(seen).len() == old(seen).len(),
        forall|i: int| 0 <= i < old(seen).len() && #[trigger] old(seen)@[i] ==> final(seen)@[i],
        r ==> exists|p: Seq<usize>|
            is_walk(g@, p, curr, target) && final(path)@ == old(path)@ + p,
        !r ==> final(path)@ == old(path)@,
        !r ==> final(seen)@[curr as int],
        !r ==> closed_beyond(g@, old(seen)@, final(seen)@, target),
        !r ==> forall|p: Seq<usize>| #[trigger] is_walk(g@, p, curr, target) ==> !avoids(p, old(seen)@),
    decreases unseen(old(seen)@),
{
    if seen[curr] {
        proof {
            assert forall|p: Seq<usize>| #[trigger] is_walk(g@, p, curr, target) implies !avoids(
                p,
                old(seen)@,
            ) by {
                assert(p[0] == curr);
            }
        }
        return false;
    }
    let ghost marked = seen@.update(curr as int, true);
    proof {
        lemma_unseen_mark(seen@, curr as int);
    }
    seen.set(curr, true);
    path.push(curr);
    if curr == target {
        proof {
            assert(is_walk(g@, seq![curr], curr, target));
            assert(path@ =~= old(path)@ + seq![curr]);
        }
        return true;
    }
    let edges = &g[curr];
    let mut j: usize = 0;
    while j < edges.len()
        invariant
            well_formed(g@),
            curr < g.len(),
            edges == &g@[curr as int],
            seen.len() == old(seen).len(),
            seen.len() == g.len(),
            seen@[curr as int],
            forall|i: int| 0 <= i < old(seen).len() && #[trigger] old(seen)@[i] ==> seen@[i],
            unseen(seen@) < unseen(old(seen)@),
            path@ == old(path)@.push(curr),
            curr != target,
            forall|jj: int| 0 <= jj < j ==> seen@[#[trigger] edges@[jj] as int],
            closed_beyond(g@, marked, seen@, target),
            marked.len() == seen@.len(),
            forall|i: int| 0 <= i < marked.len() && #[trigger] marked[i] ==> seen@[i],
            forall|i: int| 0 <= i < old(seen).len() && !old(seen)@[i] && #[trigger] marked[i] ==> i == curr,
        decreases edges.len() - j,
    {
        let next = edges[j];
        proof {
            assert(next < g.len());
        }
        let ghost path_before = path@;
        let ghost seen_before = seen@;
        if depth_first_search(g, next, target, seen, path) {
            proof {
                let p = choose|p: Seq<usize>| is_walk(g@, p, next, target) && path@ == path_before + p;
                let full = seq![curr] + p;
                assert(g@[curr as int]@[j as int] == next);
                assert(has_edge(g@, curr, next));
                assert forall|i: int| 0 <= i < full.len() - 1 implies has_edge(
                    g@,
                    #[trigger] full[i],
                    full[i + 1],
                ) by {
                    if i > 0 {
                        assert(full[i] == p[i - 1]);
                    }
                }
                assert(full.last() == p.last());
                assert(is_walk(g@, full, curr, target));
                assert(path@ =~= old(path)@ + full);
            }
            return true;
        }
        proof {
            lemma_unseen_mono(seen_before, seen@);
            assert(seen@[next as int]);
            assert forall|jj: int| 0 <= jj < j + 1 implies seen@[#[trigger] edges@[jj] as int] by {
                if jj < j {
                    assert(seen_before[edges@[jj] as int]);
                }
            }
            assert forall|v: int|
                0 <= v < seen@.len() && seen@[v] && !marked[v] implies v != target && forall|b: usize|
                    has_edge(g@, v as usize, b) ==> b < seen@.len() && #[trigger] seen@[b as int] by {
                if seen_before[v] {
                    assert forall|b: usize| has_edge(g@, v as usize, b) implies b < seen@.len()
                        && #[trigger] seen@[b as int] by {
                        assert(seen_before[b as int]);
                    }
                }
            }
            assert forall|i: int| 0 <= i < marked.len() && #[trigger] marked[i] implies seen@[i] by {
                assert(seen_before[i]);
            }
            assert(seen_before[curr as int]);
            assert forall|i: int| 0 <= i < old(seen).len() && #[trigger] old(seen)@[i] implies seen@[i] by {
                assert(seen_before[i]);
            }
        }
        j = j + 1;
    }
    path.pop();
    proof {
        assert(path@ =~= old(path)@);
        assert forall|v: int|
            0 <= v < seen@.len() && seen@[v] && !old(seen)@[v] implies v != target && forall|b: usize|
                has_edge(g@, v as usize, b) ==> b < seen@.len() && #[trigger] seen@[b as int] by {
            if v == curr {
                assert forall|b: usize| has_edge(g@, v as usize, b) implies b < seen@.len()
                    && #[trigger] seen@[b as int] by {
                    let jj = choose|jj: int| 0 <= jj < edges@.len() && edges@[jj] == b;
                    assert(seen@[edges@[jj] as int]);
                }
            } else {
                assert(!marked[v]);
            }
        }
        assert forall|p: Seq<usize>| #[trigger] is_walk(g@, p, curr, target) implies !avoids(
            p,
            old(seen)@,
        ) by {
            lemma_search_failure(g@, old(seen)@, seen@, curr, target, p);
        }
    }
    false
}

/// Every vertex marked in `after` but not in `before` is not `target`, and
/// all the vertices its edges lead to are marked in `after`.
pub open spec fn closed_beyond(g: Seq<Vec<usize>>, before: Seq<bool>, after: Seq<bool>, target: usize) -> bool {
    forall|v: int|
        0 <= v < after.len() && after[v] && !before[v] ==> v != target && forall|b: usize|
            has_edge(g, v as usize, b) ==> b < after.len() && #[trigger] after[b as int]
}

/// A walk whose vertices are none of them marked in `s`.
pub open spec fn avoids(p: Seq<usize>, s: Seq<bool>) -> bool {
    forall|i: int| 0 <= i < p.len() ==> #[trigger] p[i] < s.len() && !s[p[i] as int]
}

/// When the search from `curr` fails, no walk from `curr` that avoids the
/// vertices marked beforehand reaches `target`.
proof fn lemma_search_failure(
    g: Seq<Vec<usize>>,
    before: Seq<bool>,
    after: Seq<bool>,
    curr: usize,
    target: usize,
    p: Seq<usize>,
)
    requires
        before.len() == after.len(),
        curr < after.len() && after[curr as int],
        closed_beyond(g, before, after, target),
        is_walk(g, p, curr, target),
    ensures
        !avoids(p, before),
{
    if avoids(p, before) {
        lemma_walk_marked(g, before, after, target, p, p.len() - 1);
        assert(p[p.len() - 1] == target);
    }
}

proof fn lemma_walk_marked(
    g: Seq<Vec<usize>>,
    before: Seq<bool>,
    after: Seq<bool>,
    target: usize,
    p: Seq<usize>,
    k: int,
)
    requires
        before.len() == after.len(),
        p.len() > 0,
        p[0] < after.len() && after[p[0] as int],
        closed_beyond(g, before, after, target),
        avoids(p, before),
        forall|i: int| 0 <= i < p.len() - 1 ==> has_edge(g, #[trigger] p[i], p[i + 1]),
        0 <= k < p.len(),
    ensures
        after[p[k] as int] && !before[p[k] as int] && p[k] != target,
    decreases k,
{
    assert(p[0] < before.len() && !before[p[0] as int]);
    if k > 0 {
        lemma_walk_marked(g, before, after, target, p, k - 1);
        assert(has_edge(g, p[k - 1], p[k]));
        assert(p[k] < before.len() && !before[p[k] as int]);
    }
    assert(p[k] < before.len() && !before[p[k] as int]);
}


/// Each row of `m` has one entry per vertex.
pub open spec fn is_square(m: Seq<Vec<bool>>) -> bool {
    forall|v: int| 0 <= v < m.len() ==> #[trigger] m[v]@.len() == m.len()
}

/// An edge of the matrix leads from `a` to `b`.
pub open spec fn matrix_edge(m: Seq<Vec<bool>>, a: usize, b: usize) -> bool {
    a < m.len() && b < m[a as int]@.len() && m[a as int]@[b as int]
}

/// `p` is a walk along edges of the matrix from `from` to `to`.
pub open spec fn is_matrix_walk(m: Seq<Vec<bool>>, p: Seq<usize>, from: usize, to: usize) -> bool {
    &&& p.len() > 0
    &&& p[0] == from
    &&& p.last() == to
    &&& forall|i: int| 0 <= i < p.len() - 1 ==> matrix_edge(m, #[trigger] p[i], p[i + 1])
}

/// Some walk leads from `from` to `to`.
pub open spec fn reachable(m: Seq<Vec<bool>>, from: usize, to: usize) -> bool {
    exists|p: Seq<usize>| is_matrix_walk(m, p, from, to)
}

/// A set of vertices that holds `from` and is closed under edges holds the
/// end of every walk from `from`.
proof fn lemma_closed_holds_walks(m: Seq<Vec<bool>>, s: Seq<bool>, p: Seq<usize>, from: usize, k: int)
    requires
        is_matrix_walk(m, p, from, p.last()),
        s.len() == m.len(),
        from < s.len() && s[from as int],
        forall|a: usize, b: usize| a < s.len() && s[a as int] && #[trigger] matrix_edge(m, a, b) ==> b < s.len() && s[b as int],
        0 <= k < p.len(),
    ensures
        p[k] < s.len() && s[p[k] as int],
    decreases k,
{
    if k > 0 {
        lemma_closed_holds_walks(m, s, p, from, k - 1);
        assert(matrix_edge(m, p[k - 1], p[k]));
    }
}

/// Searches breadth first from `source` and returns the way found to
/// `target`, from `target` back to `source`. Where `target` cannot be
/// reached, or is `source`, the result is `target` alone.
pub fn breadth_first_search(matrix: &Vec<Vec<bool>>, source: usize, target: usize) -> (r: Vec<usize>)
    requires
        is_square(matrix@),
        source < matrix.len(),
        target < matrix.len(),
    ensures
        r@.len() > 0,
        r@[0] == target,
        r@.len() > 1 ==> is_matrix_walk(matrix@, r@.reverse(), source, target),
        r@.len() == 1 && target != source ==> !reachable(matrix@, source, target),
{
    let n = matrix.len();
    let mut seen: Vec<bool> = Vec::new();
    let mut prev: Vec<Option<usize>> = Vec::new();
    let mut k: usize = 0;
    while k < n
        invariant
            k <= n,
            seen@.len() == k,
            prev@.len() == k,
            forall|v: int| 0 <= v < k ==> !#[trigger] seen@[v],
            forall|v: int| 0 <= v < k ==> #[trigger] prev@[v] is None,
        decreases n - k,
    {
        seen.push(false);
        prev.push(None);
        k = k + 1;
    }
    // how many steps from `source` each seen vertex was reached in
    let ghost mut dist: Seq<nat> = Seq::new(n as nat, |v: int| 0nat);
    let mut queue: VecDeque<usize> = VecDeque::new();
    proof {
        assert(prev@[source as int] is None);
    }
    seen.set(source, true);
    queue.push_front(source);
    proof {
        assert(queue@[0] == source);
        assert forall|a: usize| a < n && seen@[a as int] implies queue@.contains(a) by {
            assert(a == source);
        }
    }
    let mut found = false;
    while queue.len() > 0
        invariant_except_break
            !found,
        invariant
            is_square(matrix@),
            n == matrix.len(),
            source < n,
            target < n,
            seen@.len() == n,
            prev@.len() == n,
            dist.len() == n,
            seen@[source as int],
            prev@[source as int] is None,
            forall|j: int| 0 <= j < queue@.len() ==> #[trigger] queue@[j] < n && seen@[queue@[j] as int],
            forall|v: int| 0 <= v < n && v != source && #[trigger] seen@[v] ==> prev@[v] is Some,
            forall|v: int|
                0 <= v < n && #[trigger] prev@[v] is Some ==> {
                    let u = prev@[v]->0;
                    &&& u < n
                    &&& seen@[v]
                    &&& seen@[u as int]
                    &&& matrix_edge(matrix@, u, v as usize)
                    &&& dist[u as int] < dist[v]
                },
            found ==> seen@[target as int],
            !found ==> forall|a: usize, b: usize|
                a < n && seen@[a as int] && !queue@.contains(a) && #[trigger] matrix_edge(
                    matrix@,
                    a,
                    b,
                ) ==> seen@[b as int],
            queue@.no_duplicates(),
        ensures
            found || queue@.len() == 0,
        decreases unseen(seen@) + queue@.len(),
    {
        let ghost q_before = queue@;
        let curr = queue.pop_front().unwrap();
        proof {
            assert(q_before[0] == curr);
            assert(seen@[curr as int]);
            assert(queue@ =~= q_before.drop_first());
            assert forall|a: usize| a != curr && !queue@.contains(a) implies !q_before.contains(a) by {
                if q_before.contains(a) {
                    let j = choose|j: int| 0 <= j < q_before.len() && q_before[j] == a;
                    assert(queue@[j - 1] == a);
                }
            }
            assert(!queue@.contains(curr)) by {
                if queue@.contains(curr) {
                    let j = choose|j: int| 0 <= j < queue@.len() && queue@[j] == curr;
                    assert(q_before[j + 1] == curr);
                }
            }
        }
        if curr == target {
            found = true;
            break;
        }
        let ghost measure = unseen(seen@) + queue@.len();
        let row = &matrix[curr];
        let mut i: usize = 0;
        while i < row.len()
            invariant
                is_square(matrix@),
                n == matrix.len(),
                curr < n,
                row == &matrix@[curr as int],
                row@.len() == n,
                source < n,
                seen@.len() == n,
                prev@.len() == n,
                dist.len() == n,
                seen@[source as int],
                seen@[curr as int],
                prev@[source as int] is None,
                i <= row.len(),
                unseen(seen@) + queue@.len() == measure,
                forall|j: int| 0 <= j < queue@.len() ==> #[trigger] queue@[j] < n && seen@[queue@[j] as int],
                forall|v: int| 0 <= v < n && v != source && #[trigger] seen@[v] ==> prev@[v] is Some,
                forall|v: int|
                    0 <= v < n && #[trigger] prev@[v] is Some ==> {
                        let u = prev@[v]->0;
                        &&& u < n
                        &&& seen@[v]
                        &&& seen@[u as int]
                        &&& matrix_edge(matrix@, u, v as usize)
                        &&& dist[u as int] < dist[v]
                    },
                forall|a: usize, b: usize|
                    a < n && a != curr && seen@[a as int] && !queue@.contains(a)
                        && #[trigger] matrix_edge(matrix@, a, b) ==> seen@[b as int],
                forall|b: usize| b < i && #[trigger] matrix_edge(matrix@, curr, b) ==> seen@[b as int],
                queue@.no_duplicates(),
                !queue@.contains(curr),
            decreases row.len() - i,
        {
            if row[i] && !seen[i] {
                let ghost q0 = queue@;
                let ghost s0 = seen@;
                let ghost p0 = prev@;
                let ghost d0 = dist;
                proof {
                    lemma_unseen_mark(seen@, i as int);
                    dist = dist.update(i as int, dist[curr as int] + 1);
                    assert(!q0.contains(i)) by {
                        if q0.contains(i) {
                            let j = choose|j: int| 0 <= j < q0.len() && q0[j] == i;
                        }
                    }
                }
                seen.set(i, true);
                prev.set(i, Some(curr));
                queue.push_back(i);
                proof {
                    assert(queue@ == q0.push(i));
                    assert forall|a: usize| #[trigger] queue@.contains(a) <==> q0.contains(a) || a == i by {
                        if queue@.contains(a) {
                            let j = choose|j: int| 0 <= j < queue@.len() && queue@[j] == a;
                            if j < q0.len() {
                                assert(q0[j] == a);
                            }
                        }
                        if q0.contains(a) {
                            let j = choose|j: int| 0 <= j < q0.len() && q0[j] == a;
                            assert(queue@[j] == a);
                        }
                        if a == i {
                            assert(queue@[q0.len() as int] == a);
                        }
                    }
                    assert forall|v: int|
                        0 <= v < n && #[trigger] prev@[v] is Some implies prev@[v]->0 < n && seen@[v]
                            && seen@[prev@[v]->0 as int] && matrix_edge(matrix@, prev@[v]->0, v as usize)
                            && dist[prev@[v]->0 as int] < dist[v] by {
                        if v != i {
                            assert(p0[v] is Some);
                            let u = p0[v]->0;
                            assert(s0[u as int]);
                            assert(u != i);
                            assert(d0[u as int] < d0[v]);
                        }
                    }
                }
            }
            i = i + 1;
        }
    }
    let mut path: Vec<usize> = Vec::new();
    path.push(target);
    let mut cur = target;
    loop
        invariant
            n == matrix.len(),
            cur < n,
            prev@.len() == n,
            dist.len() == n,
            path@.len() > 0,
            path@[0] == target,
            path@.last() == cur,
            path@.len() > 1 ==> seen@[cur as int],
            seen@.len() == n,
            forall|v: int| 0 <= v < n && v != source && #[trigger] seen@[v] ==> prev@[v] is Some,
            forall|v: int|
                0 <= v < n && #[trigger] prev@[v] is Some ==> {
                    let u = prev@[v]->0;
                    &&& u < n
                    &&& seen@[v]
                    &&& seen@[u as int]
                    &&& matrix_edge(matrix@, u, v as usize)
                    &&& dist[u as int] < dist[v]
                },
            forall|j: int| 0 <= j < path@.len() - 1 ==> matrix_edge(matrix@, #[trigger] path@[j + 1], path@[j]),
        ensures
            prev@[cur as int] is None,
        decreases dist[cur as int],
    {
        match prev[cur] {
            None => {
                break;
            },
            Some(u) => {
                path.push(u);
                cur = u;
            },
        }
    }
    proof {
        let p = path@;
        let w = p.reverse();
        if p.len() > 1 {
            assert(cur == source);
            assert forall|i: int| 0 <= i < w.len() - 1 implies matrix_edge(matrix@, #[trigger] w[i], w[i + 1]) by {
                assert(w[i] == p[p.len() - 1 - i]);
                assert(w[i + 1] == p[p.len() - 2 - i]);
                assert(matrix_edge(matrix@, p[(p.len() - 2 - i) + 1], p[p.len() - 2 - i]));
            }
            assert(is_matrix_walk(matrix@, w, source, target));
        } else if target != source {
            assert(!seen@[target as int]);
            assert(!found);
            assert(queue@.len() == 0);
            if reachable(matrix@, source, target) {
                let q = choose|q: Seq<usize>| is_matrix_walk(matrix@, q, source, target);
                assert forall|a: usize, b: usize|
                    a < seen@.len() && seen@[a as int] && #[trigger] matrix_edge(matrix@, a, b) implies b
                    < seen@.len() && seen@[b as int] by {
                    assert(!queue@.contains(a));
                }
                lemma_closed_holds_walks(matrix@, seen@, q, source, q.len() - 1);
            }
        }
    }
    path
}
} // verus!
