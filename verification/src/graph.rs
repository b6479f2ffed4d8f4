//! The topological scheduler: orders entry identifiers so that every entry
//! stands after all entries it depends on, and, where that is impossible,
//! exhibits a complete dependency cycle.

use vstd::prelude::*;

verus! {

broadcast use vstd::set::group_set_axioms;

/// Well-formedness of a dependency table for `n` nodes: one dependency list
/// per node, every target a node.
pub open spec fn wf_deps(deps: Seq<Seq<usize>>, n: int) -> bool {
    &&& deps.len() == n
    &&& forall|i: int, k: int|
        0 <= i < deps.len() && 0 <= k < deps[i].len() ==> deps[i][k] < n
}

/// Whether `order` is a valid topological order for `deps`: a permutation of
/// the nodes in which every node stands strictly after each of its
/// dependencies.
pub open spec fn valid_topo(deps: Seq<Seq<usize>>, order: Seq<usize>) -> bool {
    &&& order.len() == deps.len()
    &&& forall|k: int| 0 <= k < order.len() ==> order[k] < deps.len()
    &&& forall|k1: int, k2: int|
        0 <= k1 < k2 < order.len() ==> order[k1] != order[k2]
    &&& forall|k: int, d: int|
        #![trigger deps[order[k] as int][d]]
        0 <= k < order.len() && 0 <= d < deps[order[k] as int].len() ==> order.take(k).contains(
            deps[order[k] as int][d],
        )
}

/// Whether `cyc` is a complete dependency cycle in `deps`: each node of the
/// sequence depends on the next, and the last depends on the first.
pub open spec fn is_cycle(deps: Seq<Seq<usize>>, cyc: Seq<usize>) -> bool {
    &&& cyc.len() >= 1
    &&& forall|k: int| 0 <= k < cyc.len() ==> cyc[k] < deps.len()
    &&& forall|k: int| 0 <= k < cyc.len() - 1 ==> deps[cyc[k] as int].contains(cyc[k + 1])
    &&& deps[cyc.last() as int].contains(cyc[0])
}

/// A graph with a dependency cycle has no valid topological order: along the
/// cycle each node would have to stand strictly later than the next, which
/// closes into a contradiction.
pub proof fn lemma_cycle_excludes_topo(deps: Seq<Seq<usize>>, cyc: Seq<usize>, order: Seq<usize>)
    requires
        is_cycle(deps, cyc),
        order.len() <= usize::MAX as int,
    ensures
        !valid_topo(deps, order),
{
    if valid_topo(deps, order) {
    let pos = |x: usize| choose|k: int| 0 <= k < order.len() && order[k] == x;
    assert forall|x: usize| order.contains(x) implies 0 <= pos(x) < order.len() && order[pos(x)]
        == x by {
        let k = choose|k: int| 0 <= k < order.len() && order[k] == x;
        assert(0 <= k < order.len() && order[k] == x);
    }
    assert forall|a: usize, b: usize|
        order.contains(a) && deps[a as int].contains(b) implies order.contains(b) && pos(b) < pos(
        a,
    ) by {
        let ka = pos(a);
        let d = choose|d: int| 0 <= d < deps[a as int].len() && deps[a as int][d] == b;
        assert(order[ka] == a);
        assert(deps[order[ka] as int][d] == b);
        assert(order.take(ka).contains(b));
        let k2 = choose|k2: int| 0 <= k2 < order.take(ka).len() && order.take(ka)[k2] == b;
        assert(order[k2] == b);
        assert(0 <= k2 < ka && order[k2] == b);
        assert(order.contains(b));
        assert(pos(b) == k2 || order[pos(b)] == order[k2]);
        if pos(b) != k2 {
            assert(order[pos(b)] == b);
        }
        assert(pos(b) < ka) by {
            if pos(b) > k2 {
                if pos(b) >= ka {
                    if pos(b) == ka {
                        assert(order[ka] == a);
                        assert(order[pos(b)] == b);
                        assert(deps[a as int][d] == b);
                        assert(a == b);
                        assert(pos(a) < pos(a));
                    } else {
                        assert(order[k2] != order[pos(b)]);
                    }
                }
            }
        };
    }
    // every cycle node is in the order, because the order is a permutation
    assert forall|x: usize| x < order.len() implies order.contains(x) by {
        lemma_permutation_complete(order, x);
    }
    // positions strictly decrease along the cycle, hence decrease from the
    // first node around to itself
    assert forall|k: int| #![trigger cyc[k]] 0 <= k < cyc.len() implies pos(cyc[k]) <= pos(
        cyc[0],
    ) - k by {
        lemma_cycle_pos_decreases(deps, cyc, order, pos, k);
    }
    let last = cyc.len() - 1;
    assert(pos(cyc[last]) <= pos(cyc[0]) - last);
    assert(deps[cyc[last] as int].contains(cyc[0]));
    assert(pos(cyc[0]) < pos(cyc[last]));
    }
}

proof fn lemma_cycle_pos_decreases(
    deps: Seq<Seq<usize>>,
    cyc: Seq<usize>,
    order: Seq<usize>,
    pos: spec_fn(usize) -> int,
    k: int,
)
    requires
        is_cycle(deps, cyc),
        valid_topo(deps, order),
        0 <= k < cyc.len(),
        forall|x: usize| x < order.len() ==> order.contains(x),
        forall|x: usize|
            order.contains(x) ==> 0 <= #[trigger] pos(x) < order.len() && order[pos(x)] == x,
        forall|a: usize, b: usize|
            order.contains(a) && deps[a as int].contains(b) ==> order.contains(b) && #[trigger] pos(
                b,
            ) < #[trigger] pos(a),
    ensures
        pos(cyc[k]) <= pos(cyc[0]) - k,
    decreases k,
{
    if k > 0 {
        lemma_cycle_pos_decreases(deps, cyc, order, pos, k - 1);
        assert(deps[cyc[k - 1] as int].contains(cyc[k]));
        assert(order.contains(cyc[k - 1]));
    }
}

/// In a permutation of `0..n`, every node below `n` occurs: the `x` missing
/// from a duplicate-free sequence over `0..n` would leave too few values.
pub proof fn lemma_permutation_complete(order: Seq<usize>, x: usize)
    requires
        order.len() <= usize::MAX as int,
        forall|k: int| 0 <= k < order.len() ==> order[k] < order.len(),
        forall|k1: int, k2: int| 0 <= k1 < k2 < order.len() ==> order[k1] != order[k2],
        x < order.len(),
    ensures
        order.contains(x),
{
    let opts = Set::new(|v: usize| v < order.len() && v != x);
    assert(opts.subset_of(Set::new(|v: usize| v < order.len())));
    lemma_usize_range_card(order.len() as nat);
    assert(opts.insert(x) =~= Set::new(|v: usize| v < order.len()));
    if !order.contains(x) {
        let f = |k: int| order[k];
        assert forall|k: int| 0 <= k < order.len() implies opts.contains(#[trigger] order[k]) by {
            assert(order[k] != x);
        }
        lemma_distinct_seq_card(order, opts);
        assert(opts.insert(x).len() == opts.len() + 1);
        assert(opts.finite());
    }
}

/// A duplicate-free sequence whose elements all lie in a finite set is no
/// longer than the set's cardinality.
proof fn lemma_distinct_seq_card(s: Seq<usize>, opts: Set<usize>)
    requires
        opts.finite(),
        forall|k1: int, k2: int| 0 <= k1 < k2 < s.len() ==> s[k1] != s[k2],
        forall|k: int| 0 <= k < s.len() ==> opts.contains(s[k]),
    ensures
        s.len() <= opts.len(),
    decreases s.len(),
{
    if s.len() > 0 {
        let rest = s.drop_last();
        let rem = opts.remove(s.last());
        assert forall|k: int| 0 <= k < rest.len() implies rem.contains(rest[k]) by {
            assert(s[k] != s[s.len() - 1]);
        }
        lemma_distinct_seq_card(rest, rem);
        assert(opts.contains(s.last()));
        assert(rem.len() == opts.len() - 1);
    }
}

/// The number of values below `n` is `n`.
proof fn lemma_usize_range_card(n: nat)
    requires
        n <= usize::MAX as nat,
    ensures
        Set::new(|v: usize| v < n).finite(),
        Set::new(|v: usize| v < n).len() == n,
    decreases n,
{
    if n == 0 {
        assert(Set::new(|v: usize| v < 0nat) =~= Set::<usize>::empty());
    } else {
        lemma_usize_range_card((n - 1) as nat);
        assert(Set::new(|v: usize| v < n) =~= Set::new(|v: usize| v < (n - 1) as nat).insert(
            ((n - 1) as nat) as usize,
        ));
    }
}

/// The number of `true` entries of a boolean sequence.
pub open spec fn count_true(s: Seq<bool>) -> int
    decreases s.len(),
{
    if s.len() == 0 {
        0
    } else {
        count_true(s.drop_last()) + if s.last() {
            1int
        } else {
            0int
        }
    }
}

proof fn lemma_count_true_bounds(s: Seq<bool>)
    ensures
        0 <= count_true(s) <= s.len(),
    decreases s.len(),
{
    if s.len() > 0 {
        lemma_count_true_bounds(s.drop_last());
    }
}

proof fn lemma_count_true_update(s: Seq<bool>, i: int)
    requires
        0 <= i < s.len(),
        !s[i],
    ensures
        count_true(s.update(i, true)) == count_true(s) + 1,
    decreases s.len(),
{
    let u = s.update(i, true);
    if i == s.len() - 1 {
        assert(u.drop_last() =~= s.drop_last());
    } else {
        assert(u.drop_last() =~= s.drop_last().update(i, true));
        lemma_count_true_update(s.drop_last(), i);
        assert(u.last() == s.last());
    }
}

proof fn lemma_count_true_lt(s: Seq<bool>, i: int)
    requires
        0 <= i < s.len(),
        !s[i],
    ensures
        count_true(s) < s.len(),
    decreases s.len(),
{
    lemma_count_true_bounds(s.drop_last());
    if i < s.len() - 1 {
        lemma_count_true_lt(s.drop_last(), i);
    }
}

fn all_deps_placed(deps: &Vec<Vec<usize>>, placed: &Vec<bool>, i: usize) -> (r: bool)
    requires
        wf_deps(deps.deep_view(), placed@.len() as int),
        i < deps@.len(),
    ensures
        r <==> forall|k: int|
            0 <= k < deps@[i as int]@.len() ==> placed@[deps@[i as int]@[k] as int],
{
    let row = &deps[i];
    let m = row.len();
    let mut k: usize = 0;
    while k < m
        invariant
            m == row@.len(),
            row == deps@[i as int],
            i < deps@.len(),
            wf_deps(deps.deep_view(), placed@.len() as int),
            0 <= k <= m,
            forall|j: int| 0 <= j < k ==> placed@[row@[j] as int],
        decreases m - k,
    {
        proof {
            assert(deps.deep_view()[i as int][k as int] == row@[k as int]);
        }
        if !placed[row[k]] {
            return false;
        }
        k = k + 1;
    }
    true
}

fn find_unplaced_dep(deps: &Vec<Vec<usize>>, placed: &Vec<bool>, i: usize) -> (d: usize)
    requires
        wf_deps(deps.deep_view(), placed@.len() as int),
        i < deps@.len(),
        exists|k: int|
            0 <= k < deps@[i as int]@.len() && !placed@[(#[trigger] deps@[i as int]@[k]) as int],
    ensures
        d < placed@.len(),
        !placed@[d as int],
        deps@[i as int]@.contains(d),
{
    let row = &deps[i];
    let m = row.len();
    let mut k: usize = 0;
    while k < m
        invariant
            m == row@.len(),
            row == deps@[i as int],
            i < deps@.len(),
            wf_deps(deps.deep_view(), placed@.len() as int),
            exists|j: int| 0 <= j < row@.len() && !placed@[(#[trigger] row@[j]) as int],
            0 <= k <= m,
            forall|j: int| 0 <= j < k ==> placed@[row@[j] as int],
        decreases m - k,
    {
        proof {
            assert(deps.deep_view()[i as int][k as int] == row@[k as int]);
        }
        if !placed[row[k]] {
            let d = row[k];
            proof {
                assert(row@[k as int] == d);
            }
            return d;
        }
        k = k + 1;
    }
    proof {
        assert(false);
    }
    unreached()
}

fn extract_cycle(deps: &Vec<Vec<usize>>, placed: &Vec<bool>, start: usize) -> (cyc: Vec<usize>)
    requires
        wf_deps(deps.deep_view(), placed@.len() as int),
        deps@.len() == placed@.len(),
        start < placed@.len(),
        !placed@[start as int],
        forall|i: int|
            0 <= i < placed@.len() && !placed@[i] ==> exists|k: int|
                0 <= k < deps@[i]@.len() && !placed@[(#[trigger] deps@[i]@[k]) as int],
    ensures
        is_cycle(deps.deep_view(), cyc@),
{
    let n = placed.len();
    let mut visited: Vec<bool> = Vec::new();
    let mut z: usize = 0;
    while z < n
        invariant
            0 <= z <= n,
            visited@.len() == z,
            forall|j: int| 0 <= j < z ==> !visited@[j],
        decreases n - z,
    {
        visited.push(false);
        z = z + 1;
    }
    let mut trail: Vec<usize> = Vec::new();
    trail.push(start);
    let ghost v0 = visited@;
    proof {
        lemma_count_all_false(v0);
        lemma_count_true_update(v0, start as int);
    }
    visited[start] = true;
    proof {
        assert(visited@ =~= v0.update(start as int, true));
        assert(trail@[0] == start);
        assert(trail@.contains(start));
    }
    let mut cur: usize = start;
    loop
        invariant
            wf_deps(deps.deep_view(), n as int),
            deps@.len() == n,
            placed@.len() == n,
            visited@.len() == n,
            forall|i: int|
                0 <= i < n && !placed@[i] ==> exists|k: int|
                    0 <= k < deps@[i]@.len() && !placed@[(#[trigger] deps@[i]@[k]) as int],
            trail@.len() >= 1,
            count_true(visited@) == trail@.len(),
            forall|k: int| 0 <= k < trail@.len() ==> trail@[k] < n && !placed@[trail@[k] as int],
            forall|k: int| 0 <= k < trail@.len() ==> visited@[trail@[k] as int],
            forall|x: int| 0 <= x < n && visited@[x] ==> trail@.contains(x as usize),
            forall|k1: int, k2: int| 0 <= k1 < k2 < trail@.len() ==> trail@[k1] != trail@[k2],
            forall|k: int|
                0 <= k < trail@.len() - 1 ==> deps.deep_view()[trail@[k] as int].contains(
                    trail@[k + 1],
                ),
            cur == trail@.last(),
        decreases n - trail@.len(),
    {
        let d = find_unplaced_dep(deps, placed, cur);
        proof {
            assert(deps.deep_view()[cur as int] =~= deps@[cur as int]@);
            let k = choose|k: int| 0 <= k < deps@[cur as int]@.len() && deps@[cur as int]@[k] == d;
            assert(deps.deep_view()[cur as int][k] == d);
        }
        if visited[d] {
            // the trail closes: the cycle is the part of the trail from the
            // first occurrence of `d` onward
            let mut p: usize = 0;
            let tl = trail.len();
            while p < tl && trail[p] != d
                invariant
                    tl == trail@.len(),
                    0 <= p <= tl,
                    forall|j: int| 0 <= j < p ==> trail@[j] != d,
                decreases tl - p,
            {
                p = p + 1;
            }
            proof {
                assert(trail@.contains(d as usize));
                let w = choose|w: int| 0 <= w < trail@.len() && trail@[w] == d;
                assert(p < tl);
            }
            let mut cyc: Vec<usize> = Vec::new();
            let mut q: usize = p;
            while q < tl
                invariant
                    tl == trail@.len(),
                    p <= q <= tl,
                    cyc@ =~= trail@.subrange(p as int, q as int),
                decreases tl - q,
            {
                cyc.push(trail[q]);
                proof {
                    assert(cyc@ =~= trail@.subrange(p as int, q + 1));
                }
                q = q + 1;
            }
            proof {
                assert(cyc@ =~= trail@.subrange(p as int, tl as int));
                assert(cyc@.len() >= 1);
                assert forall|k: int| 0 <= k < cyc@.len() - 1 implies deps.deep_view()[cyc@[k] as int].contains(
                    cyc@[k + 1],
                ) by {
                    assert(cyc@[k] == trail@[p + k]);
                    assert(cyc@[k + 1] == trail@[p + k + 1]);
                }
                assert(cyc@.last() == trail@.last());
                assert(cyc@[0] == trail@[p as int]);
                assert(deps.deep_view()[cur as int].contains(d));
            }
            return cyc;
        }
        let ghost vis0 = visited@;
        let ghost trail0 = trail@;
        proof {
            lemma_count_true_lt(vis0, d as int);
            lemma_count_true_update(vis0, d as int);
        }
        visited[d] = true;
        trail.push(d);
        proof {
            assert(visited@ =~= vis0.update(d as int, true));
            assert(trail@.drop_last() =~= trail0);
            assert(trail@.last() == d);
            assert(deps.deep_view()[cur as int].contains(d));
            assert forall|x: int| 0 <= x < n && visited@[x] implies trail@.contains(x as usize) by {
                if x == d as int {
                    assert(trail@[trail@.len() - 1] == d);
                } else {
                    assert(vis0[x]);
                    assert(trail0.contains(x as usize));
                    let w = choose|w: int| 0 <= w < trail0.len() && trail0[w] == x as usize;
                    assert(trail@[w] == x as usize);
                }
            }
            assert forall|k: int|
                0 <= k < trail@.len() - 1 implies deps.deep_view()[trail@[k] as int].contains(
                trail@[k + 1],
            ) by {
                if k < trail0.len() - 1 {
                    assert(trail@[k] == trail0[k]);
                    assert(trail@[k + 1] == trail0[k + 1]);
                } else {
                    assert(trail@[k] == cur);
                }
            }
        }
        cur = d;
    }
}

proof fn lemma_count_all_false(s: Seq<bool>)
    requires
        forall|j: int| 0 <= j < s.len() ==> !s[j],
    ensures
        count_true(s) == 0,
    decreases s.len(),
{
    if s.len() > 0 {
        lemma_count_all_false(s.drop_last());
    }
}

/// Orders the nodes of `deps` so that every node stands after all its
/// dependencies, or exhibits a complete dependency cycle where none exists.
pub fn topo_order(deps: &Vec<Vec<usize>>) -> (r: Result<Vec<usize>, Vec<usize>>)
    requires
        wf_deps(deps.deep_view(), deps@.len() as int),
    ensures
        match r {
            Ok(order) => valid_topo(deps.deep_view(), order@),
            Err(cyc) => is_cycle(deps.deep_view(), cyc@),
        },
{
    let n = deps.len();
    let mut placed: Vec<bool> = Vec::new();
    let mut z: usize = 0;
    while z < n
        invariant
            0 <= z <= n,
            placed@.len() == z,
            forall|j: int| 0 <= j < z ==> !placed@[j],
        decreases n - z,
    {
        placed.push(false);
        z = z + 1;
    }
    proof {
        lemma_count_all_false(placed@);
    }
    let mut order: Vec<usize> = Vec::new();
    while order.len() < n
        invariant
            wf_deps(deps.deep_view(), n as int),
            deps@.len() == n,
            placed@.len() == n,
            count_true(placed@) == order@.len(),
            order@.len() <= n,
            forall|k: int| 0 <= k < order@.len() ==> order@[k] < n,
            forall|k1: int, k2: int| 0 <= k1 < k2 < order@.len() ==> order@[k1] != order@[k2],
            forall|x: int| 0 <= x < n ==> (placed@[x] <==> order@.contains(x as usize)),
            forall|k: int, d: int|
                #![trigger deps.deep_view()[order@[k] as int][d]]
                0 <= k < order@.len() && 0 <= d < deps.deep_view()[order@[k] as int].len()
                    ==> order@.take(k).contains(deps.deep_view()[order@[k] as int][d]),
        decreases n - order@.len(),
    {
        let ghost olen0 = order@.len();
        let mut i: usize = 0;
        let mut progress: bool = false;
        while i < n && !progress
            invariant
                olen0 <= order@.len(),
                progress ==> order@.len() > olen0,
                !progress ==> order@.len() == olen0,
                wf_deps(deps.deep_view(), n as int),
                deps@.len() == n,
                placed@.len() == n,
                count_true(placed@) == order@.len(),
                order@.len() <= n,
                forall|k: int| 0 <= k < order@.len() ==> order@[k] < n,
                forall|k1: int, k2: int| 0 <= k1 < k2 < order@.len() ==> order@[k1] != order@[k2],
                forall|x: int| 0 <= x < n ==> (placed@[x] <==> order@.contains(x as usize)),
                forall|k: int, d: int|
                    #![trigger deps.deep_view()[order@[k] as int][d]]
                    0 <= k < order@.len() && 0 <= d < deps.deep_view()[order@[k] as int].len()
                        ==> order@.take(k).contains(deps.deep_view()[order@[k] as int][d]),
                !progress ==> order@.len() < n,
                0 <= i <= n,
                !progress ==> forall|j: int|
                    0 <= j < i ==> placed@[j] || exists|k: int|
                        0 <= k < deps@[j]@.len() && !placed@[(#[trigger] deps@[j]@[k]) as int],
                progress ==> order@.len() >= 1,
            decreases n - i,
        {
            if !placed[i] && all_deps_placed(deps, &placed, i) {
                let ghost placed0 = placed@;
                let ghost order0 = order@;
                proof {
                    lemma_count_true_update(placed0, i as int);
                }
                placed[i] = true;
                order.push(i);
                proof {
                    lemma_count_true_bounds(placed@);
                    assert(placed@ =~= placed0.update(i as int, true));
                    assert(order@.drop_last() =~= order0);
                    assert(order@.last() == i);
                    assert(!order0.contains(i));
                    assert forall|x: int|
                        0 <= x < n implies (placed@[x] <==> order@.contains(x as usize)) by {
                        if x == i as int {
                            assert(order@[order@.len() - 1] == i);
                        } else {
                            if order0.contains(x as usize) {
                                let w = choose|w: int|
                                    0 <= w < order0.len() && order0[w] == x as usize;
                                assert(order@[w] == x as usize);
                            } else {
                                if order@.contains(x as usize) {
                                    let w = choose|w: int|
                                        0 <= w < order@.len() && order@[w] == x as usize;
                                    assert(w == order@.len() - 1);
                                    assert(false);
                                }
                            }
                        }
                    }
                    assert forall|k: int, d: int|
                        #![trigger deps.deep_view()[order@[k] as int][d]]
                        0 <= k < order@.len() && 0 <= d < deps.deep_view()[order@[k] as int].len()
                            implies order@.take(k).contains(
                        deps.deep_view()[order@[k] as int][d],
                    ) by {
                        if k < order0.len() {
                            assert(order@[k] == order0[k]);
                            assert(order@.take(k) =~= order0.take(k));
                            assert(order0.take(k).contains(
                                deps.deep_view()[order0[k] as int][d],
                            ));
                        } else {
                            assert(order@[k] == i);
                            let t: usize = deps@[i as int]@[d];
                            assert(deps.deep_view()[i as int][d] == t);
                            assert(placed0[t as int]);
                            assert(order0.contains(t));
                            assert(order@.take(k) =~= order0);
                        }
                    }
                }
                progress = true;
            }
            i = i + 1;
        }
        if !progress {
            // no node is ready: every unplaced node has an unplaced
            // dependency, so a cycle must exist among the unplaced nodes
            proof {
                lemma_count_true_bounds(placed@);
            }
            let mut s: usize = 0;
            while s < n && placed[s]
                invariant
                    placed@.len() == n,
                    0 <= s <= n,
                    forall|j: int| 0 <= j < s ==> placed@[j],
                decreases n - s,
            {
                s = s + 1;
            }
            proof {
                assert(exists|x: int| 0 <= x < n && !placed@[x]) by {
                    lemma_exists_false(placed@);
                }
                let x = choose|x: int| 0 <= x < n && !placed@[x];
                assert(s < n);
            }
            let cyc = extract_cycle(deps, &placed, s);
            return Err(cyc);
        }
    }
    Ok(order)
}

proof fn lemma_exists_false(s: Seq<bool>)
    requires
        count_true(s) < s.len(),
    ensures
        exists|x: int| 0 <= x < s.len() && !s[x],
    decreases s.len(),
{
    if s.len() > 0 {
        if s.last() {
            lemma_count_true_bounds(s.drop_last());
            lemma_exists_false(s.drop_last());
            let x = choose|x: int| 0 <= x < s.len() - 1 && !s.drop_last()[x];
            assert(!s[x]);
        } else {
            assert(!s[s.len() - 1]);
        }
    }
}

} // verus!
