//! The commit graph walker.
//!
//! From a start commit it produces every commit reachable over parent
//! edges (through merge commits as well), each exactly once, ordered by
//! non-increasing commit time. Ties keep discovery order; no partial
//! progress is kept across calls.

use vstd::prelude::*;
use vstd::seq_lib::group_to_multiset_ensures;
use crate::repo::RepoModel;

verus! {

/// `p` is a recorded parent of `c` in the model.
pub open spec fn parent_edge(m: RepoModel, c: usize, p: usize) -> bool {
    (c as int) < m.commits@.len() && m.commits@[c as int].parents@.contains(p)
}

/// Consecutive elements are connected child-to-parent.
pub open spec fn is_chain(m: RepoModel, ch: Seq<usize>) -> bool {
    forall|k: int| #![trigger ch[k]] 0 <= k < ch.len() - 1 ==> parent_edge(m, ch[k], ch[k + 1])
}

/// `x` is reachable from `s`: some chain of parent edges starts at `s`
/// and ends at `x` (the one-element chain makes every commit reachable
/// from itself).
pub open spec fn reachable(m: RepoModel, s: usize, x: usize) -> bool {
    exists|ch: Seq<usize>|
        ch.len() > 0 && ch.first() == s && ch.last() == x && is_chain(m, ch)
}

/// The recorded commit time of commit `x`.
pub open spec fn time_of(m: RepoModel, x: usize) -> int {
    m.commits@[x as int].timestamp as int
}

/// Commit times never increase along the sequence.
pub open spec fn sorted_by_time_desc(m: RepoModel, s: Seq<usize>) -> bool {
    forall|i: int, j: int| 0 <= i < j < s.len() ==> time_of(m, s[i]) >= time_of(m, s[j])
}

/// What a finished walk guarantees: exactly the reachable set, each
/// commit once, in non-increasing commit-time order, every id in range.
pub open spec fn walk_post(m: RepoModel, start: usize, ids: Seq<usize>) -> bool {
    &&& ids.no_duplicates()
    &&& forall|x: usize| ids.contains(x) <==> reachable(m, start, x)
    &&& sorted_by_time_desc(m, ids)
    &&& forall|k: int| 0 <= k < ids.len() ==> (ids[k] as int) < m.commits@.len()
}

proof fn lemma_reachable_self(m: RepoModel, s: usize)
    ensures
        reachable(m, s, s),
{
    let ch: Seq<usize> = seq![s];
    assert(ch.len() > 0 && ch.first() == s && ch.last() == s && is_chain(m, ch));
}

proof fn lemma_reachable_step(m: RepoModel, s: usize, c: usize, p: usize)
    requires
        reachable(m, s, c),
        parent_edge(m, c, p),
    ensures
        reachable(m, s, p),
{
    let ch = choose|ch: Seq<usize>|
        ch.len() > 0 && ch.first() == s && ch.last() == c && is_chain(m, ch);
    let ch2 = ch.push(p);
    assert forall|k: int| 0 <= k < ch2.len() - 1 implies #[trigger] parent_edge(m, ch2[k], ch2[k + 1]) by {
        if k < ch.len() - 1 {
            assert(ch2[k] == ch[k]);
            assert(ch2[k + 1] == ch[k + 1]);
        } else {
            assert(ch2[k] == ch.last());
            assert(ch2[k + 1] == p);
        }
    }
    assert(ch2.len() > 0 && ch2.first() == s && ch2.last() == p && is_chain(m, ch2));
}

/// A visited table that contains the start and is closed under parent
/// edges covers everything reachable from the start. Induction over the
/// witnessing chain.
proof fn lemma_chain_visited(m: RepoModel, vis: Seq<bool>, ch: Seq<usize>)
    requires
        vis.len() == m.commits@.len(),
        ch.len() > 0,
        (ch.first() as int) < vis.len(),
        vis[ch.first() as int],
        is_chain(m, ch),
        forall|c2: int, b: int| #![trigger m.commits@[c2].parents@[b]]
            0 <= c2 < vis.len() && vis[c2] && 0 <= b < m.commits@[c2].parents@.len()
                ==> (m.commits@[c2].parents@[b] as int) < vis.len()
                    && vis[m.commits@[c2].parents@[b] as int],
    ensures
        (ch.last() as int) < vis.len(),
        vis[ch.last() as int],
    decreases ch.len(),
{
    if ch.len() > 1 {
        assert(parent_edge(m, ch[0], ch[1]));
        let parents = m.commits@[ch[0] as int].parents@;
        assert(parents.contains(ch[1]));
        let b = choose|b: int| 0 <= b < parents.len() && parents[b] == ch[1];
        assert(vis[m.commits@[ch[0] as int].parents@[b] as int]);
        let ch2 = ch.drop_first();
        assert forall|k: int| 0 <= k < ch2.len() - 1 implies #[trigger] parent_edge(m, ch2[k], ch2[k + 1]) by {
            assert(ch2[k] == ch[k + 1]);
            assert(ch2[k + 1] == ch[k + 2]);
            assert(parent_edge(m, ch[k + 1], ch[k + 2]));
        }
        assert(ch2.first() == ch[1]);
        assert(ch2.last() == ch.last());
        lemma_chain_visited(m, vis, ch2);
    }
}

/// A duplicate-free sequence of indices below `n` has at most `n`
/// elements.
proof fn lemma_distinct_bounded(s: Seq<usize>, n: nat)
    requires
        s.no_duplicates(),
        forall|k: int| 0 <= k < s.len() ==> (s[k] as nat) < n,
    ensures
        s.len() <= n,
{
    let t = s.map_values(|x: usize| x as int);
    assert forall|i: int, j: int| 0 <= i < j < t.len() implies t[i] != t[j] by {
        assert(s[i] != s[j]);
    }
    assert(t.no_duplicates());
    t.unique_seq_to_set();
    let rng = vstd::set_lib::set_int_range(0, n as int);
    vstd::set_lib::lemma_int_range(0, n as int);
    assert forall|e: int| t.to_set().contains(e) implies rng.contains(e) by {
        assert(t.contains(e));
        let k = choose|k: int| 0 <= k < t.len() && t[k] == e;
        assert((s[k] as nat) < n);
    }
    assert(t.to_set().subset_of(rng));
    vstd::set_lib::lemma_len_subset(t.to_set(), rng);
}

/// Inserting anywhere adds exactly one occurrence.
proof fn lemma_insert_to_multiset(s: Seq<usize>, pos: int, elt: usize)
    requires
        0 <= pos <= s.len(),
    ensures
        s.insert(pos, elt).to_multiset() == s.to_multiset().insert(elt),
{
    broadcast use group_to_multiset_ensures;

    let t = s.insert(pos, elt);
    assert(t.remove(pos) =~= s);
    assert(t[pos] == elt);
    assert(t.to_multiset().remove(elt) == s.to_multiset());
    assert(t.contains(elt));
    assert(t.to_multiset().count(elt) > 0);
    assert forall|a: usize| #[trigger] t.to_multiset().count(a)
        == s.to_multiset().insert(elt).count(a) by {
        if a == elt {
            assert(t.to_multiset().remove(elt).count(a) == t.to_multiset().count(a) - 1);
        } else {
            assert(t.to_multiset().remove(elt).count(a) == t.to_multiset().count(a));
        }
    }
    assert(t.to_multiset() =~= s.to_multiset().insert(elt));
}

/// Collects every commit reachable from `start`, each exactly once, by a
/// worklist traversal of parent edges.
fn collect_reachable(m: &RepoModel, start: usize) -> (r: Vec<usize>)
    requires
        m.wf(),
        (start as int) < m.commits@.len(),
    ensures
        r@.no_duplicates(),
        forall|x: usize| r@.contains(x) <==> reachable(*m, start, x),
        forall|k: int| 0 <= k < r@.len() ==> (r@[k] as int) < m.commits@.len(),
{
    let n = m.commits.len();
    let mut visited: Vec<bool> = Vec::new();
    let mut f: usize = 0;
    while f < n
        invariant
            f <= n,
            visited@.len() == f as nat,
            forall|k: int| 0 <= k < f ==> !visited@[k],
        decreases n - f,
    {
        visited.push(false);
        f = f + 1;
    }
    let mut order: Vec<usize> = Vec::new();
    let mut queue: Vec<usize> = Vec::new();
    visited.set(start, true);
    order.push(start);
    queue.push(start);
    proof {
        lemma_reachable_self(*m, start);
        assert(order@[0] == start);
        assert(order@.contains(start));
        assert(queue@[0] == start);
        assert(queue@.contains(start));
        assert forall|x: int| 0 <= x < n && visited@[x] implies order@.contains(x as usize) by {
            assert(x == start as int);
        }
        assert forall|c2: int, b: int| #![trigger m.commits@[c2].parents@[b]]
            0 <= c2 < n && visited@[c2] && !queue@.contains(c2 as usize)
                && 0 <= b < m.commits@[c2].parents@.len()
            implies visited@[m.commits@[c2].parents@[b] as int] by {
            assert(c2 == start as int);
            assert(queue@.contains(c2 as usize));
        }
    }
    while queue.len() > 0
        invariant
            n == m.commits@.len(),
            m.wf(),
            (start as int) < n,
            visited@.len() == n as nat,
            visited@[start as int],
            order@.no_duplicates(),
            order@.len() <= n,
            forall|k: int| 0 <= k < order@.len() ==> (order@[k] as int) < n && visited@[order@[k] as int],
            forall|x: int| 0 <= x < n && visited@[x] ==> order@.contains(x as usize),
            forall|x: int| 0 <= x < n && visited@[x] ==> reachable(*m, start, x as usize),
            queue@.no_duplicates(),
            forall|k: int| 0 <= k < queue@.len()
                ==> (queue@[k] as int) < n && visited@[queue@[k] as int],
            forall|c2: int, b: int| #![trigger m.commits@[c2].parents@[b]]
                0 <= c2 < n && visited@[c2] && !queue@.contains(c2 as usize)
                    && 0 <= b < m.commits@[c2].parents@.len()
                    ==> visited@[m.commits@[c2].parents@[b] as int],
        decreases n - order@.len(), queue@.len(),
    {
        let ghost old_queue = queue@;
        let ghost old_order = order@;
        let c = queue.pop().unwrap();
        proof {
            assert(old_queue =~= queue@.push(c));
            assert forall|y: usize| old_queue.contains(y)
                implies queue@.contains(y) || y == c by {
                let k = choose|k: int| 0 <= k < old_queue.len() && old_queue[k] == y;
                if k < old_queue.len() - 1 {
                    assert(queue@[k] == y);
                }
            }
            assert forall|y: usize| queue@.contains(y) implies old_queue.contains(y) by {
                let k = choose|k: int| 0 <= k < queue@.len() && queue@[k] == y;
                assert(old_queue[k] == y);
            }
            // c occurs nowhere else in the worklist
            assert(!queue@.contains(c)) by {
                if queue@.contains(c) {
                    let k = choose|k: int| 0 <= k < queue@.len() && queue@[k] == c;
                    assert(old_queue[k] == old_queue[old_queue.len() - 1]);
                }
            }
        }
        let num_parents = m.commits[c].parents.len();
        let mut j: usize = 0;
        while j < num_parents
            invariant
                n == m.commits@.len(),
                m.wf(),
                (start as int) < n,
                (c as int) < n,
                visited@[c as int],
                num_parents == m.commits@[c as int].parents@.len(),
                j <= num_parents,
                visited@.len() == n as nat,
                visited@[start as int],
                order@.no_duplicates(),
                order@.len() <= n,
                forall|k: int| 0 <= k < order@.len()
                    ==> (order@[k] as int) < n && visited@[order@[k] as int],
                forall|x: int| 0 <= x < n && visited@[x] ==> order@.contains(x as usize),
                forall|x: int| 0 <= x < n && visited@[x] ==> reachable(*m, start, x as usize),
                queue@.no_duplicates(),
                !queue@.contains(c),
                forall|k: int| 0 <= k < queue@.len()
                    ==> (queue@[k] as int) < n && visited@[queue@[k] as int],
                forall|b: int| 0 <= b < j
                    ==> visited@[m.commits@[c as int].parents@[b] as int],
                order@.len() + old_queue.len() == old_order.len() + queue@.len() + 1,
                old_order.len() <= order@.len(),
                forall|c2: int, b: int| #![trigger m.commits@[c2].parents@[b]]
                    0 <= c2 < n && visited@[c2] && !queue@.contains(c2 as usize) && c2 != c as int
                        && 0 <= b < m.commits@[c2].parents@.len()
                        ==> visited@[m.commits@[c2].parents@[b] as int],
            decreases num_parents - j,
        {
            let p = m.commits[c].parents[j];
            proof {
                assert((p as int) < n);
            }
            if !visited[p] {
                proof {
                    assert(m.commits@[c as int].parents@.contains(p));
                    assert(parent_edge(*m, c, p));
                    assert(reachable(*m, start, c));
                    lemma_reachable_step(*m, start, c, p);
                    assert(!order@.contains(p));
                    assert(!queue@.contains(p));
                }
                let ghost pre_queue = queue@;
                let ghost pre_order = order@;
                visited.set(p, true);
                order.push(p);
                queue.push(p);
                proof {
                    assert(queue@[queue@.len() - 1] == p);
                    assert(queue@.contains(p));
                    assert forall|y: usize| queue@.contains(y)
                        implies pre_queue.contains(y) || y == p by {
                        let k = choose|k: int| 0 <= k < queue@.len() && queue@[k] == y;
                        if k < pre_queue.len() {
                            assert(pre_queue[k] == y);
                        }
                    }
                    assert forall|y: usize| pre_queue.contains(y)
                        implies queue@.contains(y) by {
                        let k = choose|k: int| 0 <= k < pre_queue.len() && pre_queue[k] == y;
                        assert(queue@[k] == y);
                    }
                    assert forall|x: int| 0 <= x < n && visited@[x]
                        implies order@.contains(x as usize) by {
                        if x == p as int {
                            assert(order@[order@.len() - 1] == p);
                        } else {
                            assert(pre_order.contains(x as usize));
                            let k = choose|k: int|
                                0 <= k < pre_order.len() && pre_order[k] == x as usize;
                            assert(order@[k] == x as usize);
                        }
                    }
                    lemma_distinct_bounded(order@, n as nat);
                }
            }
            j = j + 1;
        }
        proof {
            // with every parent of c now visited, closure holds for c too
            assert forall|c2: int, b: int| #![trigger m.commits@[c2].parents@[b]]
                0 <= c2 < n && visited@[c2] && !queue@.contains(c2 as usize)
                    && 0 <= b < m.commits@[c2].parents@.len()
                implies visited@[m.commits@[c2].parents@[b] as int] by {
                if c2 == c as int {
                    assert(visited@[m.commits@[c2].parents@[b] as int]);
                }
            }
        }
    }
    proof {
        assert forall|x: usize| order@.contains(x) <==> reachable(*m, start, x) by {
            if order@.contains(x) {
                let k = choose|k: int| 0 <= k < order@.len() && order@[k] == x;
                assert(visited@[x as int]);
                assert(reachable(*m, start, x));
            }
            if reachable(*m, start, x) {
                let ch = choose|ch: Seq<usize>|
                    ch.len() > 0 && ch.first() == start && ch.last() == x && is_chain(*m, ch);
                lemma_chain_visited(*m, visited@, ch);
                assert(visited@[x as int]);
                assert(order@.contains(x));
            }
        }
    }
    order
}

/// Stable insertion sort of commit ids by non-increasing commit time.
fn sort_by_time(m: &RepoModel, ids: Vec<usize>) -> (r: Vec<usize>)
    requires
        forall|k: int| 0 <= k < ids@.len() ==> (ids@[k] as int) < m.commits@.len(),
    ensures
        r@.to_multiset() == ids@.to_multiset(),
        sorted_by_time_desc(*m, r@),
        r@.len() == ids@.len(),
        forall|x: usize| r@.contains(x) <==> ids@.contains(x),
        ids@.no_duplicates() ==> r@.no_duplicates(),
        forall|k: int| 0 <= k < r@.len() ==> (r@[k] as int) < m.commits@.len(),
{
    broadcast use group_to_multiset_ensures;

    let n = ids.len();
    let mut r: Vec<usize> = Vec::new();
    let mut i: usize = 0;
    while i < n
        invariant
            n == ids@.len(),
            i <= n,
            forall|k: int| 0 <= k < ids@.len() ==> (ids@[k] as int) < m.commits@.len(),
            r@.len() == i as nat,
            r@.to_multiset() == ids@.subrange(0, i as int).to_multiset(),
            sorted_by_time_desc(*m, r@),
            forall|k: int| 0 <= k < r@.len() ==> (r@[k] as int) < m.commits@.len(),
        decreases n - i,
    {
        let x = ids[i];
        let mut j: usize = r.len();
        while j > 0 && m.commits[r[j - 1]].timestamp < m.commits[x].timestamp
            invariant
                j <= r@.len(),
                (x as int) < m.commits@.len(),
                forall|k: int| 0 <= k < r@.len() ==> (r@[k] as int) < m.commits@.len(),
                sorted_by_time_desc(*m, r@),
                forall|k: int| j <= k < r@.len() ==> time_of(*m, r@[k]) < time_of(*m, x),
            decreases j,
        {
            j = j - 1;
        }
        let ghost pre = r@;
        r.insert(j, x);
        proof {
            lemma_insert_to_multiset(pre, j as int, x);
            assert(ids@.subrange(0, i as int + 1) =~= ids@.subrange(0, i as int).push(ids@[i as int]));
            vstd::seq_lib::to_multiset_build(ids@.subrange(0, i as int), ids@[i as int]);
            pre.insert_ensures(j as int, x);
            assert forall|a: int, b: int| 0 <= a < b < r@.len()
                implies time_of(*m, r@[a]) >= time_of(*m, r@[b]) by {
                if a < j && b == j {
                    assert(r@[a] == pre[a]);
                    assert(time_of(*m, pre[j - 1]) >= time_of(*m, x));
                    if a < j - 1 {
                        assert(time_of(*m, pre[a]) >= time_of(*m, pre[j - 1]));
                    }
                } else if a < j && b > j {
                    assert(r@[a] == pre[a]);
                    assert(r@[b] == pre[b - 1]);
                } else if a == j && b > j {
                    assert(r@[b] == pre[b - 1]);
                    assert(time_of(*m, pre[b - 1]) < time_of(*m, x));
                } else if a > j {
                    assert(r@[a] == pre[a - 1]);
                    assert(r@[b] == pre[b - 1]);
                } else if a < j && b < j {
                    assert(r@[a] == pre[a]);
                    assert(r@[b] == pre[b]);
                }
            }
        }
        i = i + 1;
    }
    proof {
        assert(ids@.subrange(0, n as int) =~= ids@);
        assert forall|x: usize| r@.contains(x) <==> ids@.contains(x) by {
            assert(r@.contains(x) <==> r@.to_multiset().count(x) > 0);
            assert(ids@.contains(x) <==> ids@.to_multiset().count(x) > 0);
        }
        if ids@.no_duplicates() {
            ids@.lemma_multiset_has_no_duplicates();
            r@.lemma_multiset_has_no_duplicates_conv();
        }
        assert forall|k: int| 0 <= k < r@.len()
            implies (r@[k] as int) < m.commits@.len() by {
            assert(r@.contains(r@[k]));
            let w = choose|w: int| 0 <= w < ids@.len() && ids@[w] == r@[k];
        }
    }
    r
}

/// Walks the graph from an explicit start commit.
pub fn walk_from(m: &RepoModel, start: usize) -> (r: Vec<usize>)
    requires
        m.wf(),
        (start as int) < m.commits@.len(),
    ensures
        walk_post(*m, start, r@),
{
    let order = collect_reachable(m, start);
    sort_by_time(m, order)
}

/// Walks the graph from the model's head reference. An empty or unborn
/// repository (no head) yields the empty sequence: a valid, non-error
/// outcome.
pub fn walk(m: &RepoModel) -> (r: Vec<usize>)
    requires
        m.wf(),
    ensures
        m.head matches Some(h) ==> walk_post(*m, h, r@),
        m.head is None ==> r@.len() == 0,
{
    match m.head {
        Some(h) => walk_from(m, h),
        None => Vec::new(),
    }
}

} // verus!
