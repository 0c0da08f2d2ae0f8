//! Dominator tree and dominance frontiers.

use crate::cfg::{lemma_entry_path_reachable, lemma_reach_path, lemma_dominates_basics, lemma_dominates_iff_unavoidable, lemma_dominates_pred, lemma_dominates_trans, lemma_dominator_reachable, lemma_dominators_ordered, lemma_filter_all_false, lemma_filter_true_set, lemma_closed_contains_reachable, lemma_push_contains, lemma_push_no_duplicates, lemma_reachable_step, BlockId, CfgModel, ControlFlowGraph};
use vstd::prelude::*;
use vstd::set_lib::*;

verus! {

// ---------------------------------------------------------------------------
// Public model of an immediate-dominator map
// ---------------------------------------------------------------------------

/// One step up an immediate-dominator map: the recorded parent of `x`, or `x`
/// itself when `x` has no entry.
pub open spec fn idom_step(idom: Seq<Option<usize>>, x: int) -> int {
    if 0 <= x < idom.len() && idom[x] is Some {
        idom[x]->0 as int
    } else {
        x
    }
}

/// `k` steps up an immediate-dominator map, starting at `x`.
pub open spec fn idom_iter(idom: Seq<Option<usize>>, x: int, k: nat) -> int
    decreases k,
{
    if k == 0 {
        x
    } else {
        idom_iter(idom, idom_step(idom, x), (k - 1) as nat)
    }
}

/// `y` is `x` or lies above `x` on its chain of immediate dominators.
pub open spec fn tree_anc(idom: Seq<Option<usize>>, x: int, y: int) -> bool {
    exists|k: nat| idom_iter(idom, x, k) == y
}

/// `x` has a parent other than itself and its chain of parents returns to `x`.
pub open spec fn on_idom_cycle(idom: Seq<Option<usize>>, x: int) -> bool {
    &&& 0 <= x < idom.len()
    &&& idom[x] is Some
    &&& idom[x]->0 != x
    &&& exists|k: nat| k >= 1 && idom_iter(idom, x, k) == x
}

/// The immediate-dominator relation has no cycle (self-links of roots aside).
pub open spec fn idom_acyclic(idom: Seq<Option<usize>>) -> bool {
    forall|x: int| !on_idom_cycle(idom, x)
}

/// Number of entries of `ps` that are flagged in `mask`.
pub open spec fn count_flagged(ps: Seq<usize>, mask: Seq<bool>) -> nat
    decreases ps.len(),
{
    if ps.len() == 0 {
        0
    } else {
        count_flagged(ps.drop_last(), mask) + if 0 <= ps.last() < mask.len()
            && mask[ps.last() as int] {
            1nat
        } else {
            0nat
        }
    }
}

/// `b` is in the dominance frontier of `x`: `b` is a reachable block with at
/// least two reachable predecessors, and `x` lies on the chain of immediate
/// dominators from one of them up to, but not including, the immediate
/// dominator of `b`.
pub open spec fn frontier_of(m: CfgModel, idom: Seq<Option<usize>>, reach: Seq<bool>, x: int, b: int) -> bool {
    &&& 0 <= b < m.n()
    &&& reach[b]
    &&& count_flagged(m.preds[b], reach) >= 2
    &&& exists|j: int|
        0 <= j < m.preds[b].len() && reach[m.preds[b][j] as int] && #[trigger] tree_anc(
            idom,
            m.preds[b][j] as int,
            x,
        ) && !tree_anc(idom, idom_step(idom, b), x)
}

/// `b` is in the dominance frontier of `x`, stated over the graph: `b` is a
/// reachable block with at least two reachable predecessors, `x` dominates one
/// of them, and `x` does not strictly dominate `b` (the entry block, which
/// nothing strictly dominates, is left out of its own frontier).
pub open spec fn dominance_frontier_of(m: CfgModel, x: int, b: int) -> bool {
    &&& 0 <= b < m.n()
    &&& m.reachable(b)
    &&& count_reachable(m, m.preds[b]) >= 2
    &&& exists|j: int|
        0 <= j < m.preds[b].len() && m.reachable(m.preds[b][j] as int) && #[trigger] m.dominates(
            x,
            m.preds[b][j] as int,
        )
    &&& !(m.dominates(x, b) && (x != b || b == m.entry))
}

/// Number of entries of `ps` that are reachable blocks of `m`.
pub open spec fn count_reachable(m: CfgModel, ps: Seq<usize>) -> nat
    decreases ps.len(),
{
    if ps.len() == 0 {
        0
    } else {
        count_reachable(m, ps.drop_last()) + if m.reachable(ps.last() as int) {
            1nat
        } else {
            0nat
        }
    }
}

// ---------------------------------------------------------------------------
// Private model: the tree as ordered by the DFS numbering
// ---------------------------------------------------------------------------

/// Parent of `x` (itself when it has none).
spec fn par(idom: Seq<Option<usize>>, x: int) -> int {
    match idom[x] {
        Some(p) => p as int,
        None => x,
    }
}

/// DFS number of `x`, 0 when unnumbered.
spec fn ord(order: Seq<Option<usize>>, x: int) -> nat {
    match order[x] {
        Some(o) => o as nat,
        None => 0,
    }
}

/// The parent links form a tree rooted at `entry` over the reachable blocks,
/// each parent numbered strictly below its child.
#[verifier::opaque]
spec fn tree_ok(idom: Seq<Option<usize>>, order: Seq<Option<usize>>, reach: Seq<bool>, entry: int) -> bool {
    let n = reach.len() as int;
    &&& n <= usize::MAX
    &&& idom.len() == n
    &&& order.len() == n
    &&& 0 <= entry < n
    &&& reach[entry]
    &&& idom[entry] == Some(entry as usize)
    &&& order[entry] == Some(0usize)
    &&& forall|x: int| 0 <= x < n ==> (#[trigger] reach[x] <==> idom[x] is Some)
    &&& forall|x: int| 0 <= x < n ==> (#[trigger] reach[x] <==> order[x] is Some)
    &&& forall|x: int|
        0 <= x < n && #[trigger] reach[x] ==> 0 <= par(idom, x) < n && reach[par(idom, x)]
    &&& forall|x: int|
        0 <= x < n && #[trigger] reach[x] && x != entry ==> ord(order, par(idom, x)) < ord(
            order,
            x,
        )
    &&& forall|x: int, y: int|
        0 <= x < n && 0 <= y < n && #[trigger] reach[x] && #[trigger] reach[y] && ord(order, x)
            == ord(order, y) ==> x == y
}

/// Shape facts of a tree that do not involve a particular block.
proof fn lemma_tree_shape(
    idom: Seq<Option<usize>>,
    order: Seq<Option<usize>>,
    reach: Seq<bool>,
    entry: int,
)
    requires
        tree_ok(idom, order, reach, entry),
    ensures
        reach.len() <= usize::MAX,
        idom.len() == reach.len(),
        order.len() == reach.len(),
        0 <= entry < reach.len(),
        reach[entry],
        idom[entry] == Some(entry as usize),
        order[entry] == Some(0usize),
        par(idom, entry) == entry,
        ord(order, entry) == 0,
{
    reveal(tree_ok);
}

/// Facts of a tree about one block `x`.
proof fn lemma_tree_at(
    idom: Seq<Option<usize>>,
    order: Seq<Option<usize>>,
    reach: Seq<bool>,
    entry: int,
    x: int,
)
    requires
        tree_ok(idom, order, reach, entry),
        0 <= x < reach.len(),
    ensures
        idom.len() == reach.len(),
        order.len() == reach.len(),
        0 <= entry < reach.len(),
        reach[entry],
        idom[entry] == Some(entry as usize),
        par(idom, entry) == entry,
        ord(order, entry) == 0,
        reach[x] <==> idom[x] is Some,
        reach[x] <==> order[x] is Some,
        reach[x] ==> 0 <= par(idom, x) < reach.len() && reach[par(idom, x)],
        reach[x] && x != entry ==> ord(order, par(idom, x)) < ord(order, x),
        reach[x] && x != entry ==> ord(order, x) > 0,
{
    reveal(tree_ok);
    if reach[x] && x != entry {
        assert(reach[entry]);
        if ord(order, x) == 0 {
            assert(ord(order, x) == ord(order, entry));
        }
    }
}


/// Ancestors of `x` (including `x`), following parents while the numbering decreases.
spec fn anc(idom: Seq<Option<usize>>, order: Seq<Option<usize>>, entry: int, x: int) -> Set<int>
    decreases ord(order, x),
{
    if x == entry {
        set![entry]
    } else if ord(order, par(idom, x)) < ord(order, x) {
        anc(idom, order, entry, par(idom, x)).insert(x)
    } else {
        set![x]
    }
}

proof fn lemma_anc_unfold(
    idom: Seq<Option<usize>>,
    order: Seq<Option<usize>>,
    reach: Seq<bool>,
    entry: int,
    x: int,
)
    requires
        tree_ok(idom, order, reach, entry),
        0 <= x < reach.len(),
        reach[x],
        x != entry,
    ensures
        anc(idom, order, entry, x) == anc(idom, order, entry, par(idom, x)).insert(x),
{
    lemma_tree_at(idom, order, reach, entry, x);
}

/// Basic facts about ancestor sets.
proof fn lemma_anc_facts(
    idom: Seq<Option<usize>>,
    order: Seq<Option<usize>>,
    reach: Seq<bool>,
    entry: int,
    x: int,
)
    requires
        tree_ok(idom, order, reach, entry),
        0 <= x < reach.len(),
        reach[x],
    ensures
        anc(idom, order, entry, x).contains(x),
        anc(idom, order, entry, x).contains(entry),
        anc(idom, order, entry, x).finite(),
        anc(idom, order, entry, x).subset_of(set_int_range(0, reach.len() as int)),
        forall|y: int|
            #[trigger] anc(idom, order, entry, x).contains(y) ==> 0 <= y < reach.len() && reach[y]
                && ord(order, y) <= ord(order, x) && (y != x ==> ord(order, y) < ord(order, x)),
    decreases ord(order, x),
{
    lemma_tree_at(idom, order, reach, entry, x);
    if x != entry {
        let p = par(idom, x);
        lemma_anc_facts(idom, order, reach, entry, p);
        lemma_anc_unfold(idom, order, reach, entry, x);
    }
}

/// Ancestors of an ancestor are ancestors.
proof fn lemma_anc_trans(
    idom: Seq<Option<usize>>,
    order: Seq<Option<usize>>,
    reach: Seq<bool>,
    entry: int,
    x: int,
    y: int,
)
    requires
        tree_ok(idom, order, reach, entry),
        0 <= x < reach.len(),
        reach[x],
        anc(idom, order, entry, x).contains(y),
    ensures
        anc(idom, order, entry, y).subset_of(anc(idom, order, entry, x)),
    decreases ord(order, x),
{
    lemma_tree_at(idom, order, reach, entry, x);
    if x != entry {
        lemma_anc_unfold(idom, order, reach, entry, x);
        if y != x {
            lemma_anc_trans(idom, order, reach, entry, par(idom, x), y);
        }
    }
}

/// Ancestor sets coincide with the chains of the public model.
proof fn lemma_anc_is_tree_anc(
    idom: Seq<Option<usize>>,
    order: Seq<Option<usize>>,
    reach: Seq<bool>,
    entry: int,
    x: int,
    y: int,
)
    requires
        tree_ok(idom, order, reach, entry),
        0 <= x < reach.len(),
        reach[x],
    ensures
        anc(idom, order, entry, x).contains(y) <==> tree_anc(idom, x, y),
    decreases ord(order, x),
{
    lemma_tree_at(idom, order, reach, entry, x);
    if x == entry {
        if tree_anc(idom, x, y) {
            let k = choose|k: nat| idom_iter(idom, x, k) == y;
            lemma_iter_root(idom, entry, k);
        }
        assert(idom_iter(idom, x, 0) == x);
    } else {
        let p = par(idom, x);
        lemma_anc_unfold(idom, order, reach, entry, x);
        lemma_anc_is_tree_anc(idom, order, reach, entry, p, y);
        assert(idom_step(idom, x) == p);
        if anc(idom, order, entry, x).contains(y) {
            if y == x {
                assert(idom_iter(idom, x, 0) == y);
            } else {
                let k = choose|k: nat| idom_iter(idom, p, k) == y;
                assert(idom_iter(idom, x, k + 1) == y);
            }
        }
        if tree_anc(idom, x, y) {
            let k = choose|k: nat| idom_iter(idom, x, k) == y;
            if k > 0 {
                assert(idom_iter(idom, p, (k - 1) as nat) == y);
            }
        }
    }
}

/// The root stays put.
proof fn lemma_iter_root(idom: Seq<Option<usize>>, r: int, k: nat)
    requires
        idom_step(idom, r) == r,
    ensures
        idom_iter(idom, r, k) == r,
    decreases k,
{
    if k > 0 {
        lemma_iter_root(idom, r, (k - 1) as nat);
    }
}

/// Walking up a tree never returns to a non-root block.
proof fn lemma_iter_descends(
    idom: Seq<Option<usize>>,
    order: Seq<Option<usize>>,
    reach: Seq<bool>,
    entry: int,
    x: int,
    k: nat,
)
    requires
        tree_ok(idom, order, reach, entry),
        0 <= x < reach.len(),
        reach[x],
        x != entry,
        k >= 1,
    ensures
        idom_iter(idom, x, k) != x,
{
    lemma_tree_at(idom, order, reach, entry, x);
    lemma_anc_facts(idom, order, reach, entry, par(idom, x));
    let p = par(idom, x);
    assert(idom_step(idom, x) == p);
    lemma_anc_is_tree_anc(idom, order, reach, entry, p, idom_iter(idom, p, (k - 1) as nat));
    lemma_anc_facts(idom, order, reach, entry, p);
}

/// A tree is acyclic in the public sense.
proof fn lemma_tree_acyclic(
    idom: Seq<Option<usize>>,
    order: Seq<Option<usize>>,
    reach: Seq<bool>,
    entry: int,
)
    requires
        tree_ok(idom, order, reach, entry),
    ensures
        idom_acyclic(idom),
{
    assert forall|x: int| !on_idom_cycle(idom, x) by {
        if on_idom_cycle(idom, x) {
            let k = choose|k: nat| k >= 1 && idom_iter(idom, x, k) == x;
            lemma_tree_shape(idom, order, reach, entry);
            lemma_tree_at(idom, order, reach, entry, x);
            if x == entry {
            } else {
                lemma_iter_descends(idom, order, reach, entry, x, k);
            }
        }
    }
}




/// Every reachable block other than the entry has a reachable predecessor numbered below it.
spec fn order_ok(m: CfgModel, order: Seq<Option<usize>>, reach: Seq<bool>) -> bool {
    &&& order.len() == m.n()
    &&& reach.len() == m.n()
    &&& forall|x: int| 0 <= x < m.n() ==> (#[trigger] reach[x] <==> order[x] is Some)
    &&& order[m.entry] == Some(0usize)
    &&& forall|x: int, y: int|
        0 <= x < m.n() && 0 <= y < m.n() && #[trigger] reach[x] && #[trigger] reach[y] && ord(
            order,
            x,
        ) == ord(order, y) ==> x == y
    &&& forall|x: int|
        0 <= x < m.n() && #[trigger] reach[x] && x != m.entry ==> exists|j: int|
            0 <= j < m.preds[x].len() && reach[m.preds[x][j] as int] && ord(
                order,
                #[trigger] m.preds[x][j] as int,
            ) < ord(order, x)
}

/// DFS numbering of the reachable blocks, starting at the entry block.
fn compute_block_order(cfg: &ControlFlowGraph, reachable: &Vec<bool>) -> (order: Vec<Option<usize>>)
    requires
        cfg.wf(),
        reachable@.len() == cfg@.n(),
        forall|b: int| 0 <= b < cfg@.n() ==> reachable@[b] == cfg@.reachable(b),
    ensures
        order_ok(cfg@, order@, reachable@),
{
    let ghost m = cfg@;
    let n = cfg.block_count();
    let mut order: Vec<Option<usize>> = Vec::new();
    let mut i: usize = 0;
    while i < n
        invariant
            i <= n,
            n == m.n(),
            order@.len() == i,
            forall|j: int| 0 <= j < i ==> order@[j] is None,
        decreases n - i,
    {
        order.push(None);
        i = i + 1;
    }
    let entry = cfg.entry();
    let mut stack: Vec<BlockId> = Vec::new();
    stack.push(entry);
    let mut idx: usize = 0;
    while stack.len() > 0
        invariant
            m == cfg@,
            m.wf(),
            n == m.n(),
            entry == m.entry,
            reachable@.len() == n,
            forall|b: int| 0 <= b < n ==> reachable@[b] == m.reachable(b),
            order@.len() == n,
            idx <= n,
            forall|x: int| 0 <= x < n && (#[trigger] order@[x]) is Some ==> reachable@[x],
            forall|x: int| 0 <= x < n && (#[trigger] order@[x]) is Some ==> order@[x]->0 < idx,
            forall|v: int| 0 <= v < idx ==> #[trigger] num_used(order@, n as int, v),
            forall|x: int, y: int|
                0 <= x < n && 0 <= y < n && (#[trigger] order@[x]) is Some && order@[x]
                    == #[trigger] order@[y] ==> x == y,
            idx == 0 ==> stack@ == seq![entry],
            idx == 0 ==> forall|x: int| 0 <= x < n ==> (#[trigger] order@[x]) is None,
            idx > 0 ==> order@[entry as int] == Some(0usize),
            forall|j: int| 0 <= j < stack@.len() ==> (#[trigger] stack@[j]) < n,
            forall|j: int|
                0 <= j < stack@.len() && #[trigger] stack@[j] != entry ==> exists|q: int|
                    0 <= q < n && order@[q] is Some && m.edge(q, stack@[j] as int),
            forall|x: int|
                0 <= x < n && (#[trigger] order@[x]) is Some && x != entry ==> exists|j: int|
                    0 <= j < m.preds[x].len() && order@[m.preds[x][j] as int] is Some
                        && ord(order@, #[trigger] m.preds[x][j] as int) < ord(order@, x),
            forall|a: int, c: int|
                0 <= a < n && order@[a] is Some && #[trigger] m.edge(a, c) && reachable@[c]
                    ==> order@[c] is Some || stack@.contains(c as usize),
        decreases n - idx, stack@.len(),
    {
        let ghost old_stack = stack@;
        let block = stack.pop().unwrap();
        proof {
            assert(m.reach_within(0, m.entry));
            assert(m.reachable(m.entry));
            assert(old_stack =~= stack@.push(block));
            assert(old_stack[old_stack.len() - 1] == block);
            if idx == 0 {
                assert(block == entry);
                assert(reachable@[entry as int]);
            }
            assert forall|x: usize| old_stack.contains(x) && x != block implies stack@.contains(x) by {
                let j = choose|j: int| 0 <= j < old_stack.len() && old_stack[j] == x;
                assert(stack@[j] == x);
            }
        }
        if reachable[block] && order[block].is_none() {
            proof {
                if idx == n {
                    // every number below n is taken, so `block` would already be numbered
                    lemma_numbering_full(order@, n as int, block as int);
                }
            }
            let ghost before = order@;
            order.set(block, Some(idx));
            proof {
                if block != entry {
                    let q = choose|q: int| 0 <= q < n && before[q] is Some && m.edge(q, block as int);
                    assert(m.preds[block as int].contains(q as usize));
                    let j = choose|j: int| 0 <= j < m.preds[block as int].len() && m.preds[block as int][j] == q as usize;
                    assert(order@[m.preds[block as int][j] as int] is Some);
                }
                assert forall|v: int| 0 <= v < idx + 1 implies #[trigger] num_used(order@, n as int, v) by {
                    if v == idx {
                        assert(order@[block as int] == Some(v as usize));
                    } else {
                        assert(num_used(before, n as int, v));
                        let x = choose|x: int| 0 <= x < n && before[x] == Some(v as usize);
                        assert(order@[x] == Some(v as usize));
                    }
                }
            }
            idx = idx + 1;
            let succs = cfg.successors(block);
            let mut k: usize = 0;
            while k < succs.len()
                invariant
                    m == cfg@,
                    m.wf(),
                    n == m.n(),
                    entry == m.entry,
                    block < n,
                    succs@ == m.succs[block as int],
                    k <= succs@.len(),
                    reachable@.len() == n,
                    forall|b: int| 0 <= b < n ==> reachable@[b] == m.reachable(b),
                    order@.len() == n,
                    idx <= n,
                    idx > 0,
                    order@[block as int] is Some,
                    order@[entry as int] == Some(0usize),
                    forall|x: int| 0 <= x < n && (#[trigger] order@[x]) is Some ==> reachable@[x],
                    forall|j: int| 0 <= j < stack@.len() ==> (#[trigger] stack@[j]) < n,
                    forall|j: int|
                        0 <= j < stack@.len() && #[trigger] stack@[j] != entry ==> exists|q: int|
                            0 <= q < n && order@[q] is Some && m.edge(q, stack@[j] as int),
                    forall|a: int, c: int|
                        0 <= a < n && order@[a] is Some && a != block && #[trigger] m.edge(a, c)
                            && reachable@[c] ==> order@[c] is Some || stack@.contains(c as usize),
                    forall|j: int|
                        0 <= j < k && reachable@[#[trigger] succs@[j] as int] ==> order@[succs@[j] as int] is Some
                            || stack@.contains(succs@[j]),
                decreases succs@.len() - k,
            {
                let s = succs[k];
                proof {
                    assert(m.succs[block as int][k as int] < m.n());
                    assert(m.succs[block as int].contains(s));
                }
                if reachable[s] && order[s].is_none() {
                    let ghost os = stack@;
                    stack.push(s);
                    proof {
                        assert forall|x: usize| os.contains(x) implies stack@.contains(x) by {
                            let j = choose|j: int| 0 <= j < os.len() && os[j] == x;
                            assert(stack@[j] == x);
                        }
                        assert(stack@[os.len() as int] == s);
                        assert(m.edge(block as int, s as int));
                    }
                }
                k = k + 1;
            }
            proof {
                assert forall|a: int, c: int|
                    0 <= a < n && order@[a] is Some && #[trigger] m.edge(a, c) && reachable@[c]
                        implies order@[c] is Some || stack@.contains(c as usize) by {
                    if a == block {
                        let j = choose|j: int| 0 <= j < succs@.len() && succs@[j] == c as usize;
                        assert(reachable@[succs@[j] as int]);
                    }
                }
            }
        }
    }
    proof {
        assert forall|b: int| 0 <= b < n implies (#[trigger] reachable@[b] <==> order@[b] is Some) by {
            if reachable@[b] {
                let mark = Seq::new(n as nat, |x: int| order@[x] is Some);
                assert forall|a: int, c: int|
                    0 <= a < m.n() && mark[a] && #[trigger] m.edge(a, c) implies mark[c] by {
                    lemma_reachable_step(m, a, c);
                    assert(!stack@.contains(c as usize));
                }
                assert(m.reach_within(0, m.entry));
                let k = choose|k: nat| m.reach_within(k, b);
                lemma_closed_contains_reachable(m, mark, k, b);
            }
        }
        assert forall|x: int, y: int|
            0 <= x < n && 0 <= y < n && #[trigger] reachable@[x] && #[trigger] reachable@[y] && ord(order@, x)
                == ord(order@, y) implies x == y by {
            assert(order@[x] == order@[y]);
        }
        assert forall|x: int|
            0 <= x < n && #[trigger] reachable@[x] && x != m.entry implies exists|j: int|
                0 <= j < m.preds[x].len() && reachable@[m.preds[x][j] as int] && ord(
                    order@,
                    #[trigger] m.preds[x][j] as int,
                ) < ord(order@, x) by {
            let j = choose|j: int|
                0 <= j < m.preds[x].len() && order@[m.preds[x][j] as int] is Some
                    && ord(order@, #[trigger] m.preds[x][j] as int) < ord(order@, x);
            assert(m.preds[x][j] < n);
        }
        if idx == 0 {
            // the entry block is reachable, so it was numbered
            assert(m.reach_within(0, m.entry));
        }
    }
    order
}

/// Some block below `n` carries the number `v`.
spec fn num_used(order: Seq<Option<usize>>, n: int, v: int) -> bool {
    exists|x: int| 0 <= x < n && order[x] == Some(v as usize)
}

/// Lemma: if the numbers `0..n` are all used by blocks below `n`, every block is numbered.
proof fn lemma_numbering_full(order: Seq<Option<usize>>, n: int, b: int)
    requires
        n <= usize::MAX,
        order.len() == n,
        0 <= b < n,
        forall|v: int| 0 <= v < n ==> #[trigger] num_used(order, n, v),
        forall|x: int, y: int|
            0 <= x < n && 0 <= y < n && (#[trigger] order[x]) is Some && order[x]
                == #[trigger] order[y] ==> x == y,
        forall|x: int| 0 <= x < n && (#[trigger] order[x]) is Some ==> order[x]->0 < n,
    ensures
        order[b] is Some,
{
    if order[b] is None {
        // numbers 0..n are held by the n - 1 blocks other than b
        let f = |v: int| choose|x: int| 0 <= x < n && order[x] == Some(v as usize);
        let nums = set_int_range(0, n);
        let others = set_int_range(0, n).remove(b);
        lemma_int_range(0, n);
        assert forall|v: int| nums.contains(v) implies others.contains(f(v)) by {
            assert(num_used(order, n, v));
            let x = f(v);
            assert(order[x] == Some(v as usize));
        }
        assert forall|v1: int, v2: int| nums.contains(v1) && nums.contains(v2) && f(v1) == f(v2) implies v1 == v2 by {
            assert(num_used(order, n, v1));
            assert(num_used(order, n, v2));
            assert(order[f(v1)] == Some(v1 as usize));
            assert(order[f(v2)] == Some(v2 as usize));
        }
        lemma_map_injective_len(nums, others, f);
    }
}

/// Lemma: an injective map of a finite set into another finite set needs room.
proof fn lemma_map_injective_len(a: Set<int>, b: Set<int>, f: spec_fn(int) -> int)
    requires
        a.finite(),
        b.finite(),
        forall|v: int| a.contains(v) ==> b.contains(f(v)),
        forall|v1: int, v2: int| a.contains(v1) && a.contains(v2) && f(v1) == f(v2) ==> v1 == v2,
    ensures
        a.len() <= b.len(),
{
    let img = a.map(f);
    assert(img.subset_of(b));
    lemma_len_subset(img, b);
    assert forall|v1: int, v2: int| a.contains(v1) && a.contains(v2) && f(v1) == f(v2) implies v1 == v2 by {}
    lemma_map_size(a, img, f);
}

/// Lemma: an injective map preserves the size of a finite set.
proof fn lemma_map_size(a: Set<int>, img: Set<int>, f: spec_fn(int) -> int)
    requires
        a.finite(),
        img == a.map(f),
        forall|v1: int, v2: int| a.contains(v1) && a.contains(v2) && f(v1) == f(v2) ==> v1 == v2,
    ensures
        img.finite(),
        img.len() == a.len(),
    decreases a.len(),
{
    if a.len() == 0 {
        assert(a =~= Set::<int>::empty());
        assert(img =~= Set::<int>::empty());
    } else {
        let v = a.choose();
        let a2 = a.remove(v);
        lemma_map_size(a2, a2.map(f), f);
        assert(img =~= a2.map(f).insert(f(v)));
        assert(!a2.map(f).contains(f(v)));
    }
}



/// DFS number of a block (0 when unnumbered).
fn order_num(order: &Vec<Option<usize>>, b: BlockId) -> (o: usize)
    requires
        b < order@.len(),
    ensures
        o == ord(order@, b as int),
{
    match order[b] {
        Some(o) => o,
        None => 0,
    }
}





/// Every reachable predecessor of a reachable non-entry block has that block's parent above it.
spec fn post_ok(m: CfgModel, idom: Seq<Option<usize>>, order: Seq<Option<usize>>, reach: Seq<bool>, entry: int) -> bool {
    forall|c: int, j: int|
        0 <= c < m.n() && reach[c] && c != entry && 0 <= j < m.preds[c].len() && reach[m.preds[c][j] as int]
            ==> #[trigger] anc(idom, order, entry, m.preds[c][j] as int).contains(par(idom, c))
}



/// `i` is the immediate dominator of `b`: a strict dominator of `b` numbered
/// at least as high as every other strict dominator of `b`.
spec fn is_idom(m: CfgModel, order: Seq<Option<usize>>, b: int, i: int) -> bool {
    &&& i != b
    &&& m.dominates(i, b)
    &&& forall|x: int| x != b && #[trigger] m.dominates(x, b) ==> ord(order, x) <= ord(order, i)
}

/// A dominator of a reachable block is numbered no higher than the block.
proof fn lemma_dominator_order(m: CfgModel, order: Seq<Option<usize>>, reach: Seq<bool>, d: int, b: int)
    requires
        m.wf(),
        order_ok(m, order, reach),
        forall|x: int| 0 <= x < m.n() ==> reach[x] == m.reachable(x),
        0 <= b < m.n(),
        reach[b],
        m.dominates(d, b),
    ensures
        ord(order, d) <= ord(order, b),
    decreases ord(order, b),
{
    lemma_dominates_basics(m, b, d);
    if b != m.entry && d != b {
        let j = choose|j: int|
            0 <= j < m.preds[b].len() && reach[m.preds[b][j] as int] && ord(
                order,
                #[trigger] m.preds[b][j] as int,
            ) < ord(order, b);
        let p = m.preds[b][j] as int;
        assert(m.preds[b][j] < m.n());
        assert(m.preds[b].contains(p as usize));
        assert(m.edge(p, b));
        lemma_dominates_pred(m, d, b, p);
        lemma_dominator_order(m, order, reach, d, p);
    }
}

/// In a tree whose parents are immediate dominators, the ancestors of a
/// reachable block are exactly its dominators.
proof fn lemma_anc_is_dominance(
    m: CfgModel,
    idom: Seq<Option<usize>>,
    order: Seq<Option<usize>>,
    reach: Seq<bool>,
    x: int,
    y: int,
)
    requires
        m.wf(),
        order_ok(m, order, reach),
        forall|z: int| 0 <= z < m.n() ==> reach[z] == m.reachable(z),
        tree_ok(idom, order, reach, m.entry),
        forall|z: int| 0 <= z < m.n() && #[trigger] reach[z] && z != m.entry ==> is_idom(m, order, z, par(idom, z)),
        0 <= x < m.n(),
        reach[x],
    ensures
        anc(idom, order, m.entry, x).contains(y) <==> m.dominates(y, x),
    decreases ord(order, x),
{
    let e = m.entry;
    lemma_tree_at(idom, order, reach, e, x);
    lemma_dominates_basics(m, x, y);
    if x != e {
        let i = par(idom, x);
        lemma_anc_unfold(idom, order, reach, e, x);
        lemma_anc_is_dominance(m, idom, order, reach, i, y);
        if y != x {
            if m.dominates(y, i) {
                lemma_dominates_trans(m, y, i, x);
            }
            if m.dominates(y, x) {
                lemma_dominators_ordered(m, y, i, x);
                if m.dominates(i, y) && i != y {
                    lemma_dominator_reachable(m, y, x);
                    lemma_dominator_order(m, order, reach, i, y);
                    assert(ord(order, y) <= ord(order, i));
                    assert(ord(order, y) == ord(order, i));
                    assert(reach[i] && reach[y]);
                }
                lemma_dominates_basics(m, i, y);
            }
        }
    }
}

/// Counting the flagged predecessors counts the reachable ones when the flags
/// are the reachability of the graph.
proof fn lemma_count_flagged_reachable(m: CfgModel, reach: Seq<bool>, ps: Seq<usize>)
    requires
        reach.len() == m.n(),
        forall|z: int| 0 <= z < m.n() ==> reach[z] == m.reachable(z),
        forall|j: int| 0 <= j < ps.len() ==> #[trigger] ps[j] < m.n(),
    ensures
        count_flagged(ps, reach) == count_reachable(m, ps),
    decreases ps.len(),
{
    if ps.len() > 0 {
        let pre = ps.drop_last();
        assert forall|j: int| 0 <= j < pre.len() implies #[trigger] pre[j] < m.n() by {
            assert(pre[j] == ps[j]);
        }
        lemma_count_flagged_reachable(m, reach, pre);
        assert(ps.last() == ps[ps.len() - 1]);
    }
}

/// Over a tree whose chains are exactly the dominators, the frontier stated
/// over the tree is the frontier stated over the graph.
proof fn lemma_frontier_in_graph(m: CfgModel, idom: Seq<Option<usize>>, reach: Seq<bool>, x: int, b: int)
    requires
        m.wf(),
        m.n() <= usize::MAX,
        idom_acyclic(idom),
        idom.len() == m.n(),
        reach.len() == m.n(),
        forall|z: int| 0 <= z < m.n() ==> reach[z] == m.reachable(z),
        forall|z: int| 0 <= z < m.n() ==> (idom[z] is Some <==> reach[z]),
        idom[m.entry] == Some(m.entry as usize),
        forall|z: int|
            0 <= z < m.n() && reach[z] && z != m.entry ==> idom[z]->0 != z && idom[z]->0 < m.n(),
        forall|z: int, y: int|
            0 <= z < m.n() && reach[z] ==> (tree_anc(idom, z, y) <==> m.dominates(y, z)),
    ensures
        frontier_of(m, idom, reach, x, b) <==> dominance_frontier_of(m, x, b),
{
    let e = m.entry;
    if 0 <= b < m.n() && reach[b] {
        let ps = m.preds[b];
        assert forall|j: int| 0 <= j < ps.len() implies #[trigger] ps[j] < m.n() by {}
        lemma_count_flagged_reachable(m, reach, ps);
        assert forall|j: int| 0 <= j < ps.len() && reach[ps[j] as int] implies (#[trigger] tree_anc(idom, ps[j] as int, x)
            <==> m.dominates(x, ps[j] as int)) by {
            assert(ps[j] < m.n());
        }
        // the cut at the parent of `b`
        lemma_dominates_basics(m, b, x);
        if b == e {
            assert(idom_step(idom, e) == e);
            if tree_anc(idom, e, x) {
                let k = choose|k: nat| idom_iter(idom, e, k) == x;
                lemma_iter_root(idom, e, k);
            }
            assert(idom_iter(idom, e, 0) == e);
        } else {
            let i = idom_step(idom, b);
            assert(i == idom[b]->0 as int);
            if tree_anc(idom, i, x) {
                let k = choose|k: nat| idom_iter(idom, i, k) == x;
                assert(idom_iter(idom, b, k + 1) == x);
                assert(tree_anc(idom, b, x));
                if x == b {
                    assert(on_idom_cycle(idom, b));
                }
            }
            if m.dominates(x, b) && x != b {
                assert(tree_anc(idom, b, x));
                let k = choose|k: nat| idom_iter(idom, b, k) == x;
                assert(k != 0);
                assert(idom_iter(idom, i, (k - 1) as nat) == x);
            }
        }
        if frontier_of(m, idom, reach, x, b) {
            let j = choose|j: int|
                0 <= j < ps.len() && reach[ps[j] as int] && #[trigger] tree_anc(idom, ps[j] as int, x)
                    && !tree_anc(idom, idom_step(idom, b), x);
            assert(m.dominates(x, ps[j] as int));
        }
        if dominance_frontier_of(m, x, b) {
            let j = choose|j: int|
                0 <= j < ps.len() && m.reachable(ps[j] as int) && #[trigger] m.dominates(x, ps[j] as int);
            assert(ps[j] < m.n());
            assert(reach[ps[j] as int]);
            assert(tree_anc(idom, ps[j] as int, x));
        }
    }
}

/// Parent links of the dominator tree: each reachable block other than the
/// entry gets its strict dominator numbered highest.
fn compute_idom(cfg: &ControlFlowGraph, reachable: &Vec<bool>, block_order: &Vec<Option<usize>>) -> (idom: Vec<Option<BlockId>>)
    requires
        cfg.wf(),
        reachable@.len() == cfg@.n(),
        forall|b: int| 0 <= b < cfg@.n() ==> reachable@[b] == cfg@.reachable(b),
        order_ok(cfg@, block_order@, reachable@),
    ensures
        tree_ok(idom@, block_order@, reachable@, cfg@.entry),
        post_ok(cfg@, idom@, block_order@, reachable@, cfg@.entry),
        forall|z: int|
            0 <= z < cfg@.n() && #[trigger] reachable@[z] && z != cfg@.entry ==> is_idom(cfg@, block_order@, z, par(idom@, z)),
{
    let ghost m = cfg@;
    let n = cfg.block_count();
    let entry = cfg.entry();
    // blocks reachable without passing through each block
    let mut avoid: Vec<Vec<bool>> = Vec::new();
    let mut d: usize = 0;
    while d < n
        invariant
            m == cfg@,
            m.wf(),
            n == m.n(),
            d <= n,
            avoid@.len() == d,
            forall|x: int| 0 <= x < d ==> (#[trigger] avoid@[x])@.len() == n,
            forall|x: int, y: int| 0 <= x < d && 0 <= y < n ==> #[trigger] avoid@[x]@[y] == m.reachable_avoiding(x, y),
        decreases n - d,
    {
        let row = cfg.reachable_avoiding(d);
        let ghost prev = avoid@;
        avoid.push(row);
        proof {
            assert forall|x: int, y: int| 0 <= x < d + 1 && 0 <= y < n implies #[trigger] avoid@[x]@[y] == m.reachable_avoiding(x, y) by {
                if x < d {
                    assert(avoid@[x] == prev[x]);
                }
            }
        }
        d = d + 1;
    }
    // the parent of each block is its strict dominator numbered highest
    let mut idom: Vec<Option<BlockId>> = Vec::new();
    let mut b: usize = 0;
    while b < n
        invariant
            m == cfg@,
            m.wf(),
            n == m.n(),
            entry == m.entry,
            b <= n,
            reachable@.len() == n,
            forall|x: int| 0 <= x < n ==> reachable@[x] == m.reachable(x),
            order_ok(m, block_order@, reachable@),
            avoid@.len() == n,
            forall|x: int| 0 <= x < n ==> (#[trigger] avoid@[x])@.len() == n,
            forall|x: int, y: int| 0 <= x < n && 0 <= y < n ==> #[trigger] avoid@[x]@[y] == m.reachable_avoiding(x, y),
            idom@.len() == b,
            forall|x: int| 0 <= x < b ==> (#[trigger] idom@[x] is Some <==> reachable@[x]),
            idom@.len() > entry ==> idom@[entry as int] == Some(entry),
            forall|x: int|
                0 <= x < b && #[trigger] reachable@[x] && x != entry ==> is_idom(m, block_order@, x, idom@[x]->0 as int),
        decreases n - b,
    {
        if !reachable[b] {
            idom.push(None);
        } else if b == entry {
            idom.push(Some(entry));
        } else {
            let mut best: BlockId = entry;
            let mut best_ord: usize = 0;
            let mut c: usize = 0;
            proof {
                lemma_dominates_basics(m, b as int, b as int);
            }
            while c < n
                invariant
                    m == cfg@,
                    n == m.n(),
                    entry == m.entry,
                    b < n,
                    b != entry,
                    c <= n,
                    reachable@.len() == n,
                    reachable@[b as int],
                    forall|x: int| 0 <= x < n ==> reachable@[x] == m.reachable(x),
                    order_ok(m, block_order@, reachable@),
                    avoid@.len() == n,
                    forall|x: int| 0 <= x < n ==> (#[trigger] avoid@[x])@.len() == n,
                    forall|x: int, y: int| 0 <= x < n && 0 <= y < n ==> #[trigger] avoid@[x]@[y] == m.reachable_avoiding(x, y),
                    best < n,
                    best != b,
                    m.dominates(best as int, b as int),
                    best_ord == ord(block_order@, best as int),
                    forall|x: int|
                        0 <= x < c && x != b && #[trigger] m.dominates(x, b as int) ==> ord(block_order@, x) <= best_ord,
                decreases n - c,
            {
                if c != b && reachable[c] && !avoid[c][b] {
                    let o = order_num(&block_order, c);
                    if o > best_ord {
                        best = c;
                        best_ord = o;
                    }
                }
                proof {
                    lemma_dominates_iff_unavoidable(m, c as int, b as int);
                    if m.dominates(c as int, b as int) {
                        lemma_dominator_reachable(m, c as int, b as int);
                    }
                    lemma_dominates_iff_unavoidable(m, best as int, b as int);
                }
                c = c + 1;
            }
            proof {
                assert forall|x: int| 0 <= x < n && x != b && #[trigger] m.dominates(x, b as int) implies ord(
                    block_order@,
                    x,
                ) <= ord(block_order@, best as int) by {}
                assert forall|x: int| x != b && #[trigger] m.dominates(x, b as int) implies 0 <= x < n by {
                    lemma_dominator_reachable(m, x, b as int);
                }
            }
            idom.push(Some(best));
        }
        b = b + 1;
    }
    proof {
        reveal(tree_ok);
        assert forall|x: int| 0 <= x < n && #[trigger] reachable@[x] implies 0 <= par(idom@, x) < n
            && reachable@[par(idom@, x)] by {
            if x != entry {
                let i = idom@[x]->0 as int;
                lemma_dominator_reachable(m, i, x);
            }
        }
        assert forall|x: int| 0 <= x < n && #[trigger] reachable@[x] && x != entry implies ord(
            block_order@,
            par(idom@, x),
        ) < ord(block_order@, x) by {
            let i = idom@[x]->0 as int;
            lemma_dominator_reachable(m, i, x);
            lemma_dominator_order(m, block_order@, reachable@, i, x);
            if ord(block_order@, i) == ord(block_order@, x) {
                assert(i == x);
            }
        }
        assert(tree_ok(idom@, block_order@, reachable@, entry as int));
        assert forall|x: int, y: int| 0 <= x < n && reachable@[x] implies (#[trigger] anc(idom@, block_order@, entry as int, x).contains(y)
            <==> m.dominates(y, x)) by {
            lemma_anc_is_dominance(m, idom@, block_order@, reachable@, x, y);
        }
        assert forall|c: int, j: int|
            0 <= c < m.n() && reachable@[c] && c != entry && 0 <= j < m.preds[c].len() && reachable@[m.preds[c][j] as int]
                implies #[trigger] anc(idom@, block_order@, entry as int, m.preds[c][j] as int).contains(par(idom@, c)) by {
            let q = m.preds[c][j] as int;
            assert(m.preds[c][j] < n);
            assert(m.preds[c].contains(q as usize));
            assert(m.edge(q, c));
            lemma_dominates_pred(m, par(idom@, c), c, q);
            lemma_anc_is_dominance(m, idom@, block_order@, reachable@, q, par(idom@, c));
        }
    }
    idom
}

/// `d` dominates `b` in a dominator tree: both are reachable and `d` is `b`
/// or lies above it on its chain of immediate dominators.
pub open spec fn dominates_in(v: DomView, d: int, b: int) -> bool {
    &&& 0 <= b < v.reachable.len()
    &&& 0 <= d < v.reachable.len()
    &&& v.reachable[b]
    &&& v.reachable[d]
    &&& tree_anc(v.idom, b, d)
}

/// Immediate dominators (parent links) and dominance frontiers of a control-flow graph.
pub struct DominatorTree {
    idom: Vec<Option<BlockId>>,
    frontiers: Vec<Vec<BlockId>>,
    reachable: Vec<bool>,
    block_order: Vec<Option<usize>>,
    entry: Ghost<int>,
}

/// Mathematical model of a [`DominatorTree`].
pub struct DomView {
    /// Immediate dominator of each block; `None` for blocks not reachable from the entry.
    pub idom: Seq<Option<usize>>,
    /// Reachability of each block from the entry block.
    pub reachable: Seq<bool>,
    /// Dominance frontier of each block.
    pub frontiers: Seq<Seq<usize>>,
}

impl View for DominatorTree {
    type V = DomView;

    closed spec fn view(&self) -> DomView {
        DomView {
            idom: self.idom@,
            reachable: self.reachable@,
            frontiers: Seq::new(self.frontiers@.len(), |i: int| self.frontiers@[i]@),
        }
    }
}

impl DominatorTree {
    /// Internal consistency: the parent links form a tree over the reachable blocks.
    pub closed spec fn wf(&self) -> bool {
        &&& tree_ok(self.idom@, self.block_order@, self.reachable@, self.entry@)
        &&& self.frontiers@.len() == self.reachable@.len()
    }

    /// `self` is the dominator tree of the graph `m`: it records which blocks
    /// are reachable, the parent of every reachable block is its immediate
    /// dominator, so that the blocks above a block are exactly its dominators,
    /// and each frontier holds the join blocks just out of reach of a block's
    /// dominance.
    pub open spec fn is_dominator_tree_of(&self, m: CfgModel) -> bool {
        &&& self.wf()
        &&& self.entry_block() == m.entry
        &&& self@.reachable.len() == m.n()
        &&& forall|b: int| 0 <= b < m.n() ==> self@.reachable[b] == m.reachable(b)
        &&& self@.idom.len() == m.n()
        &&& forall|b: int| 0 <= b < m.n() ==> (self@.idom[b] is Some <==> self@.reachable[b])
        &&& self@.idom[m.entry] == Some(m.entry as usize)
        &&& forall|b: int|
            0 <= b < m.n() && self@.reachable[b] ==> self@.idom[b]->0 < m.n()
                && self@.reachable[self@.idom[b]->0 as int]
        &&& idom_acyclic(self@.idom)
        // the entry block is above every reachable block
        &&& forall|b: int| 0 <= b < m.n() && self@.reachable[b] ==> tree_anc(self@.idom, b, m.entry)
        // the parent of every other reachable block strictly dominates it
        &&& forall|b: int|
            0 <= b < m.n() && self@.reachable[b] && b != m.entry ==> self@.idom[b]->0 != b
                && m.dominates(self@.idom[b]->0 as int, b)
        // the blocks above `b` are exactly the dominators of `b` in the graph
        &&& forall|b: int, y: int|
            0 <= b < m.n() && self@.reachable[b] ==> (tree_anc(self@.idom, b, y) <==> m.dominates(y, b))
        &&& self@.frontiers.len() == m.n()
        &&& forall|x: int| 0 <= x < m.n() ==> (#[trigger] self@.frontiers[x]).no_duplicates()
        &&& forall|x: int, b: usize|
            0 <= x < m.n() ==> (#[trigger] self@.frontiers[x].contains(b) <==> frontier_of(
                m,
                self@.idom,
                self@.reachable,
                x,
                b as int,
            ))
        // the same frontiers, stated over dominance in the graph
        &&& forall|x: int, b: usize|
            0 <= x < m.n() ==> (#[trigger] self@.frontiers[x].contains(b) <==> dominance_frontier_of(
                m,
                x,
                b as int,
            ))
    }

    /// Build the dominator tree of `cfg`: the parent of each reachable block
    /// other than the entry is its immediate dominator, the strict dominator
    /// that every other strict dominator dominates. A block `d` dominates `b`
    /// when `b` cannot be reached from the entry without passing through `d`.
    pub fn build(cfg: &ControlFlowGraph) -> (t: Self)
        requires
            cfg.wf(),
        ensures
            t.is_dominator_tree_of(cfg@),
    {
        let ghost m = cfg@;
        let reachable = cfg.reachable_blocks();
        let block_order = compute_block_order(cfg, &reachable);
        let n = cfg.block_count();
        let entry = cfg.entry();
        let idom = compute_idom(cfg, &reachable, &block_order);
        let frontiers = compute_dominance_frontiers(cfg, &idom, &reachable, Ghost(block_order@), Ghost(entry as int));
        let t = DominatorTree { idom, frontiers, reachable, block_order, entry: Ghost(entry as int) };
        proof {
            let id = t.idom@;
            let od = t.block_order@;
            let rc = t.reachable@;
            let e = entry as int;
            lemma_tree_shape(id, od, rc, e);
            lemma_tree_acyclic(id, od, rc, e);
            assert(t@.frontiers =~= Seq::new(t.frontiers@.len(), |i: int| t.frontiers@[i]@));
            assert forall|b: int| 0 <= b < n && t@.reachable[b] implies t@.idom[b]->0 < n
                && t@.reachable[t@.idom[b]->0 as int] by {
                lemma_tree_at(id, od, rc, e, b);
            }
            assert forall|b: int| 0 <= b < n && t@.reachable[b] implies tree_anc(t@.idom, b, e) by {
                lemma_anc_facts(id, od, rc, e, b);
                lemma_anc_is_tree_anc(id, od, rc, e, b, e);
            }
            assert forall|b: int, y: int|
                0 <= b < n && t@.reachable[b] implies (tree_anc(t@.idom, b, y) <==> m.dominates(y, b)) by {
                lemma_anc_is_tree_anc(id, od, rc, e, b, y);
                lemma_anc_is_dominance(m, id, od, rc, b, y);
            }
            assert forall|b: int| 0 <= b < n implies (t@.idom[b] is Some <==> t@.reachable[b]) by {
                lemma_tree_at(id, od, rc, e, b);
            }
            assert forall|b: int|
                0 <= b < n && t@.reachable[b] && b != e implies t@.idom[b]->0 != b && m.dominates(t@.idom[b]->0 as int, b) by {
                lemma_tree_at(id, od, rc, e, b);
                assert(par(id, b) == t@.idom[b]->0 as int);
            }
            assert forall|x: int, b: usize|
                0 <= x < n implies (#[trigger] t@.frontiers[x].contains(b) <==> frontier_of(m, t@.idom, t@.reachable, x, b as int)) by {
                assert(t@.frontiers[x] == t.frontiers@[x]@);
                let bi = b as int;
                if 0 <= bi < n && rc[bi] {
                    lemma_tree_at(id, od, rc, e, bi);
                    assert(idom_step(id, bi) == par(id, bi));
                    lemma_anc_facts(id, od, rc, e, par(id, bi));
                    lemma_anc_is_tree_anc(id, od, rc, e, par(id, bi), x);
                    if in_frontier(m, id, od, rc, e, x, bi) {
                        let j = choose|j: int| 0 <= j < m.preds[bi].len() && rc[m.preds[bi][j] as int]
                            && #[trigger] walked(id, od, e, m.preds[bi][j] as int, par(id, bi), x);
                        assert(m.preds[bi][j] < n);
                        lemma_anc_is_tree_anc(id, od, rc, e, m.preds[bi][j] as int, x);
                        assert(tree_anc(id, m.preds[bi][j] as int, x));
                    }
                    if frontier_of(m, id, rc, x, bi) {
                        let j = choose|j: int| 0 <= j < m.preds[bi].len() && rc[m.preds[bi][j] as int]
                            && #[trigger] tree_anc(id, m.preds[bi][j] as int, x) && !tree_anc(id, idom_step(id, bi), x);
                        assert(m.preds[bi][j] < n);
                        lemma_anc_is_tree_anc(id, od, rc, e, m.preds[bi][j] as int, x);
                        assert(walked(id, od, e, m.preds[bi][j] as int, par(id, bi), x));
                    }
                }
            }
            assert forall|x: int, b: usize|
                0 <= x < n implies (#[trigger] t@.frontiers[x].contains(b) <==> dominance_frontier_of(m, x, b as int)) by {
                assert(t@.frontiers[x].contains(b) <==> frontier_of(m, t@.idom, t@.reachable, x, b as int));
                lemma_frontier_in_graph(m, t@.idom, t@.reachable, x, b as int);
            }
        }
        t
    }
}

/// `x` lies on the chain from `q` up to, but not including, `stop`.
spec fn walked(idom: Seq<Option<usize>>, order: Seq<Option<usize>>, entry: int, q: int, stop: int, x: int) -> bool {
    anc(idom, order, entry, q).contains(x) && !anc(idom, order, entry, stop).contains(x)
}

/// Some reachable one of the first `k` predecessors in `ps` walks through `x` on its way up to `stop`.
spec fn walked_upto(
    ps: Seq<usize>,
    k: int,
    idom: Seq<Option<usize>>,
    order: Seq<Option<usize>>,
    reach: Seq<bool>,
    entry: int,
    stop: int,
    x: int,
) -> bool {
    exists|j: int| 0 <= j < k && reach[ps[j] as int] && #[trigger] walked(idom, order, entry, ps[j] as int, stop, x)
}

/// `b` is in the dominance frontier of `x`: `b` is a reachable join block and
/// `x` lies on the chain from one of its reachable predecessors up to (not
/// including) the parent of `b`.
spec fn in_frontier(
    m: CfgModel,
    idom: Seq<Option<usize>>,
    order: Seq<Option<usize>>,
    reach: Seq<bool>,
    entry: int,
    x: int,
    b: int,
) -> bool {
    &&& 0 <= b < m.n()
    &&& reach[b]
    &&& count_flagged(m.preds[b], reach) >= 2
    &&& walked_upto(m.preds[b], m.preds[b].len() as int, idom, order, reach, entry, par(idom, b), x)
}

/// Add `x` to `row` unless it is already there.
fn push_unique(row: &mut Vec<BlockId>, x: BlockId)
    requires
        old(row)@.no_duplicates(),
    ensures
        final(row)@.no_duplicates(),
        forall|y: usize| #[trigger] final(row)@.contains(y) <==> (old(row)@.contains(y) || y == x),
{
    let mut i: usize = 0;
    while i < row.len()
        invariant
            i <= row@.len(),
            row@ == old(row)@,
            old(row)@.no_duplicates(),
            forall|k: int| 0 <= k < i ==> row@[k] != x,
        decreases row@.len() - i,
    {
        if row[i] == x {
            proof {
                assert(row@.contains(row@[i as int]));
            }
            return;
        }
        i = i + 1;
    }
    let ghost before = row@;
    row.push(x);
    proof {
        lemma_push_contains(before, x, x);
        assert forall|y: usize| #[trigger] row@.contains(y) <==> (before.contains(y) || y == x) by {
            lemma_push_contains(before, x, y);
        }
        lemma_push_no_duplicates(before, x);
    }
}

/// Add `x` to the `i`-th row of `rows`.
fn push_unique_at(rows: &mut Vec<Vec<BlockId>>, i: usize, x: BlockId)
    requires
        i < old(rows)@.len(),
        old(rows)@[i as int]@.no_duplicates(),
    ensures
        final(rows)@.len() == old(rows)@.len(),
        forall|k: int| 0 <= k < old(rows)@.len() && k != i ==> #[trigger] final(rows)@[k] == old(rows)@[k],
        final(rows)@[i as int]@.no_duplicates(),
        forall|y: usize| #[trigger] final(rows)@[i as int]@.contains(y) <==> (old(rows)@[i as int]@.contains(y) || y == x),
{
    let mut row: Vec<BlockId> = Vec::new();
    std::mem::swap(&mut row, &mut rows[i]);
    push_unique(&mut row, x);
    rows.set(i, row);
}

/// Dominance frontiers of the reachable blocks, by walking up from the
/// predecessors of every join block to its immediate dominator.
fn compute_dominance_frontiers(
    cfg: &ControlFlowGraph,
    idom: &Vec<Option<BlockId>>,
    reachable: &Vec<bool>,
    Ghost(order): Ghost<Seq<Option<usize>>>,
    Ghost(entry): Ghost<int>,
) -> (f: Vec<Vec<BlockId>>)
    requires
        cfg.wf(),
        reachable@.len() == cfg@.n(),
        entry == cfg@.entry,
        tree_ok(idom@, order, reachable@, entry),
        post_ok(cfg@, idom@, order, reachable@, entry),
    ensures
        f@.len() == cfg@.n(),
        forall|x: int| 0 <= x < cfg@.n() ==> (#[trigger] f@[x])@.no_duplicates(),
        forall|x: int, b: usize|
            0 <= x < cfg@.n() ==> (#[trigger] f@[x]@.contains(b)
                <==> in_frontier(cfg@, idom@, order, reachable@, entry, x, b as int)),
{
    let ghost m = cfg@;
    let ghost reach = reachable@;
    let n = cfg.block_count();
    let entry_block = cfg.entry();
    proof {
        lemma_tree_shape(idom@, order, reach, entry);
    }
    let mut frontiers: Vec<Vec<BlockId>> = Vec::new();
    let mut i: usize = 0;
    while i < n
        invariant
            i <= n,
            frontiers@.len() == i,
            forall|k: int| 0 <= k < i ==> (#[trigger] frontiers@[k])@.len() == 0,
        decreases n - i,
    {
        frontiers.push(Vec::new());
        i = i + 1;
    }
    let mut block: usize = 0;
    while block < n
        invariant
            m == cfg@,
            m.wf(),
            n == m.n(),
            entry_block == entry,
            entry == m.entry,
            reach == reachable@,
            reach.len() == n,
            idom@.len() == n,
            tree_ok(idom@, order, reach, entry),
            post_ok(m, idom@, order, reach, entry),
            block <= n,
            frontiers@.len() == n,
            forall|x: int| 0 <= x < n ==> (#[trigger] frontiers@[x])@.no_duplicates(),
            forall|x: int, b: usize|
                0 <= x < n ==> (#[trigger] frontiers@[x]@.contains(b)
                    <==> b < block && in_frontier(m, idom@, order, reach, entry, x, b as int)),
        decreases n - block,
    {
        let ghost f0 = frontiers@;
        if reachable[block] {
            let preds = cfg.predecessors(block);
            let mut cnt: usize = 0;
            let mut j: usize = 0;
            while j < preds.len()
                invariant
                    m == cfg@,
                    m.wf(),
                    block < n,
                    n == m.n(),
                    reach == reachable@,
                    reach.len() == n,
                    preds@ == m.preds[block as int],
                    j <= preds@.len(),
                    cnt <= j,
                    cnt == count_flagged(preds@.subrange(0, j as int), reach),
                decreases preds@.len() - j,
            {
                proof {
                    assert(preds@.subrange(0, j + 1).drop_last() =~= preds@.subrange(0, j as int));
                    assert(m.preds[block as int][j as int] < n);
                }
                if reachable[preds[j]] {
                    cnt = cnt + 1;
                }
                j = j + 1;
            }
            proof {
                assert(preds@.subrange(0, preds@.len() as int) =~= preds@);
            }
            if cnt >= 2 {
                let block_idom = match idom[block] {
                    Some(p) => p,
                    None => entry_block,
                };
                let ghost pb = par(idom@, block as int);
                proof {
                    lemma_tree_at(idom@, order, reach, entry, block as int);
                    assert(block_idom == pb);
                }
                let mut k: usize = 0;
                while k < preds.len()
                    invariant
                        m == cfg@,
                        m.wf(),
                        n == m.n(),
                        entry_block == entry,
                        entry == m.entry,
                        reach == reachable@,
                        reach.len() == n,
                        idom@.len() == n,
                        tree_ok(idom@, order, reach, entry),
                        post_ok(m, idom@, order, reach, entry),
                        block < n,
                        reach[block as int],
                        block as int != entry ==> pb == par(idom@, block as int),
                        block_idom == pb,
                        pb == par(idom@, block as int),
                        0 <= pb < n,
                        preds@ == m.preds[block as int],
                        k <= preds@.len(),
                        frontiers@.len() == n,
                        forall|x: int| 0 <= x < n ==> (#[trigger] frontiers@[x])@.no_duplicates(),
                        forall|x: int, b: usize|
                            0 <= x < n && b != block ==> (#[trigger] frontiers@[x]@.contains(b)
                                <==> f0[x]@.contains(b)),
                        forall|x: int| 0 <= x < n ==> !f0[x]@.contains(block),
                        forall|x: int|
                            0 <= x < n ==> (#[trigger] frontiers@[x]@.contains(block) <==> walked_upto(
                                preds@, k as int, idom@, order, reach, entry, pb, x)),
                    decreases preds@.len() - k,
                {
                    let q = preds[k];
                    proof {
                        assert(m.preds[block as int][k as int] < n);
                    }
                    if reachable[q] {
                        proof {
                            // the parent of `block` lies above `q`
                            lemma_tree_shape(idom@, order, reach, entry);
                            if block as int == entry {
                                lemma_anc_facts(idom@, order, reach, entry, q as int);
                                assert(pb == entry);
                            } else {
                                assert(anc(idom@, order, entry, m.preds[block as int][k as int] as int).contains(par(idom@, block as int)));
                            }
                            lemma_anc_facts(idom@, order, reach, entry, q as int);
                        }
                        let mut runner = q;
                        while runner != block_idom
                            invariant
                                m == cfg@,
                                n == m.n(),
                                entry_block == entry,
                                reach == reachable@,
                                reach.len() == n,
                                idom@.len() == n,
                                tree_ok(idom@, order, reach, entry),
                                block < n,
                                q < n,
                                reach[q as int],
                                block_idom == pb,
                                0 <= pb < n,
                                runner < n,
                                reach[runner as int],
                                anc(idom@, order, entry, q as int).contains(runner as int),
                                anc(idom@, order, entry, runner as int).contains(pb),
                                preds@ == m.preds[block as int],
                                k < preds@.len(),
                                preds@[k as int] == q,
                                frontiers@.len() == n,
                                forall|x: int| 0 <= x < n ==> (#[trigger] frontiers@[x])@.no_duplicates(),
                                forall|x: int, b: usize|
                                    0 <= x < n && b != block ==> (#[trigger] frontiers@[x]@.contains(b)
                                        <==> f0[x]@.contains(b)),
                                forall|x: int|
                                    0 <= x < n ==> (#[trigger] frontiers@[x]@.contains(block) <==> walked_upto(
                                        preds@, k as int, idom@, order, reach, entry, pb, x) || walked(idom@, order, entry, q as int, runner as int, x)),
                            decreases ord(order, runner as int),
                        {
                            let ghost fr = frontiers@;
                            proof {
                                lemma_tree_at(idom@, order, reach, entry, runner as int);
                                lemma_anc_facts(idom@, order, reach, entry, runner as int);
                                if runner as int == entry {
                                    assert(anc(idom@, order, entry, runner as int) == set![entry]);
                                }
                                lemma_anc_unfold(idom@, order, reach, entry, runner as int);
                                lemma_anc_trans(idom@, order, reach, entry, q as int, runner as int);
                            }
                            push_unique_at(&mut frontiers, runner, block);
                            let next = match idom[runner] {
                                Some(p) => p,
                                None => entry_block,
                            };
                            proof {
                                let r = runner as int;
                                assert(next == par(idom@, r));
                                lemma_anc_facts(idom@, order, reach, entry, next as int);
                                lemma_anc_trans(idom@, order, reach, entry, q as int, next as int);
                                assert forall|x: int, b: usize|
                                    0 <= x < n && b != block implies (#[trigger] frontiers@[x]@.contains(b)
                                        <==> f0[x]@.contains(b)) by {
                                    if x == r {
                                        assert(frontiers@[x]@.contains(b) <==> fr[x]@.contains(b) || b == block);
                                    } else {
                                        assert(frontiers@[x] == fr[x]);
                                    }
                                }
                                assert forall|x: int|
                                    0 <= x < n implies (#[trigger] frontiers@[x]@.contains(block) <==> walked_upto(
                                        preds@, k as int, idom@, order, reach, entry, pb, x) || walked(idom@, order, entry, q as int, next as int, x)) by {
                                    if x == r {
                                        assert(frontiers@[x]@.contains(block));
                                        assert(walked(idom@, order, entry, q as int, next as int, x));
                                    } else {
                                        assert(frontiers@[x] == fr[x]);
                                        assert(walked(idom@, order, entry, q as int, next as int, x) <==> walked(idom@, order, entry, q as int, r, x));
                                    }
                                }
                            }
                            runner = next;
                        }
                        proof {
                            assert forall|x: int|
                                0 <= x < n implies (#[trigger] frontiers@[x]@.contains(block) <==> walked_upto(
                                    preds@, k + 1, idom@, order, reach, entry, pb, x)) by {
                                if walked(idom@, order, entry, q as int, pb, x) {
                                    assert(walked(idom@, order, entry, preds@[k as int] as int, pb, x));
                                }
                                if walked_upto(preds@, k as int, idom@, order, reach, entry, pb, x) {
                                    let jj = choose|jj: int| 0 <= jj < k && reach[preds@[jj] as int] && #[trigger] walked(idom@, order, entry, preds@[jj] as int, pb, x);
                                    assert(walked(idom@, order, entry, preds@[jj] as int, pb, x));
                                }
                                if walked_upto(preds@, k + 1, idom@, order, reach, entry, pb, x) {
                                    let jj = choose|jj: int| 0 <= jj < k + 1 && reach[preds@[jj] as int] && #[trigger] walked(idom@, order, entry, preds@[jj] as int, pb, x);
                                    if jj < k {
                                        assert(walked_upto(preds@, k as int, idom@, order, reach, entry, pb, x));
                                    }
                                }
                            }
                        }
                    } else {
                        proof {
                            assert forall|x: int|
                                0 <= x < n implies (#[trigger] frontiers@[x]@.contains(block) <==> walked_upto(
                                    preds@, k + 1, idom@, order, reach, entry, pb, x)) by {
                                if walked_upto(preds@, k as int, idom@, order, reach, entry, pb, x) {
                                    let jj = choose|jj: int| 0 <= jj < k && reach[preds@[jj] as int] && #[trigger] walked(idom@, order, entry, preds@[jj] as int, pb, x);
                                    assert(walked(idom@, order, entry, preds@[jj] as int, pb, x));
                                }
                                if walked_upto(preds@, k + 1, idom@, order, reach, entry, pb, x) {
                                    let jj = choose|jj: int| 0 <= jj < k + 1 && reach[preds@[jj] as int] && #[trigger] walked(idom@, order, entry, preds@[jj] as int, pb, x);
                                    assert(jj < k);
                                    assert(walked_upto(preds@, k as int, idom@, order, reach, entry, pb, x));
                                }
                            }
                        }
                    }
                    k = k + 1;
                }
            }
        }
        proof {
            assert forall|x: int, b: usize|
                0 <= x < n implies (#[trigger] frontiers@[x]@.contains(b)
                    <==> b < block + 1 && in_frontier(m, idom@, order, reach, entry, x, b as int)) by {
                if b == block {
                } else {
                }
            }
        }
        block = block + 1;
    }
    frontiers
}


impl DominatorTree {
    /// The entry block the tree is rooted at.
    pub closed spec fn entry_block(&self) -> int {
        self.entry@
    }

    /// Immediate dominator of each block (`None` for unreachable blocks).
    pub fn idom(&self) -> (r: &[Option<BlockId>])
        ensures
            r@ == self@.idom,
    {
        self.idom.as_slice()
    }

    /// Reachability of each block from the entry block.
    pub fn reachable(&self) -> (r: &[bool])
        ensures
            r@ == self@.reachable,
    {
        self.reachable.as_slice()
    }

    /// Returns true if `dominator` dominates `node`: both are reachable and
    /// `dominator` is `node` or lies above it on its chain of immediate dominators.
    pub fn dominates(&self, dominator: BlockId, node: BlockId) -> (r: bool)
        requires
            self.wf(),
        ensures
            r == dominates_in(self@, dominator as int, node as int),
    {
        let ghost id = self.idom@;
        let ghost od = self.block_order@;
        let ghost rc = self.reachable@;
        let ghost e = self.entry@;
        proof {
            lemma_tree_shape(id, od, rc, e);
        }
        let n = self.reachable.len();
        if node >= n || dominator >= n {
            return false;
        }
        if !self.reachable[node] || !self.reachable[dominator] {
            return false;
        }
        proof {
            lemma_anc_is_tree_anc(id, od, rc, e, node as int, dominator as int);
        }
        if dominator == node {
            proof {
                lemma_anc_facts(id, od, rc, e, node as int);
            }
            return true;
        }
        let mut current = node;
        while current < n
            invariant
                n == rc.len(),
                id == self.idom@,
                tree_ok(id, od, rc, e),
                idom_step(id, e) == e,
                current < n,
                rc[current as int],
                dominator < n,
                dominator != current,
                self@.idom == id,
                self@.reachable == rc,
                node < n,
                rc[node as int],
                rc[dominator as int],
                anc(id, od, e, node as int).contains(dominator as int) <==> tree_anc(id, node as int, dominator as int),
                anc(id, od, e, node as int).contains(dominator as int) <==> anc(id, od, e, current as int).contains(
                    dominator as int,
                ),
            decreases ord(od, current as int),
        {
            proof {
                lemma_tree_at(id, od, rc, e, current as int);
                lemma_anc_facts(id, od, rc, e, current as int);
            }
            let parent = match self.idom[current] {
                Some(p) => p,
                None => current,
            };
            if parent == current {
                proof {
                    assert(current as int == e);
                    assert(anc(id, od, e, current as int) == set![e]);
                }
                return false;
            }
            proof {
                lemma_anc_unfold(id, od, rc, e, current as int);
            }
            if parent == dominator {
                return true;
            }
            current = parent;
        }
        false
    }

    /// Dominance frontier of `block` (empty for a block outside the graph).
    pub fn frontier(&self, block: BlockId) -> (r: &[BlockId])
        requires
            self.wf(),
        ensures
            block < self@.frontiers.len() ==> r@ == self@.frontiers[block as int],
            block >= self@.frontiers.len() ==> r@.len() == 0,
    {
        if block < self.frontiers.len() {
            self.frontiers[block].as_slice()
        } else {
            &[]
        }
    }
}

/// Walking `a` steps then `b` steps is walking `a + b` steps.
proof fn lemma_iter_add(idom: Seq<Option<usize>>, x: int, a: nat, b: nat)
    ensures
        idom_iter(idom, idom_iter(idom, x, a), b) == idom_iter(idom, x, a + b),
    decreases a,
{
    if a > 0 {
        lemma_iter_add(idom, idom_step(idom, x), (a - 1) as nat, b);
        assert((a + b - 1) as nat == ((a - 1) as nat + b));
    }
}

/// A block that returns to itself after `k` steps returns after any multiple of `k` steps.
proof fn lemma_iter_mult(idom: Seq<Option<usize>>, x: int, k: nat, j: nat)
    requires
        idom_iter(idom, x, k) == x,
    ensures
        idom_iter(idom, x, j * k) == x,
    decreases j,
{
    if j > 0 {
        let j1: nat = (j - 1) as nat;
        lemma_iter_mult(idom, x, k, j1);
        assert(j1 * k + k == j * k) by (nonlinear_arith)
            requires
                j1 + 1 == j,
        ;
        lemma_iter_add(idom, x, j1 * k, k);
    } else {
        assert(j * k == 0) by (nonlinear_arith)
            requires
                j == 0,
        ;
    }
}

/// A walk from `x` that gets stuck shows that `x` is on no cycle.
proof fn lemma_stuck_not_cyclic(idom: Seq<Option<usize>>, x: int, s: nat)
    requires
        idom_step(idom, idom_iter(idom, x, s)) == idom_iter(idom, x, s),
        0 <= x < idom.len(),
        idom[x] is Some,
        idom[x]->0 != x,
    ensures
        !on_idom_cycle(idom, x),
{
    if on_idom_cycle(idom, x) {
        let k = choose|k: nat| k >= 1 && idom_iter(idom, x, k) == x;
        let c = idom_iter(idom, x, s);
        lemma_iter_mult(idom, x, k, s);
        lemma_iter_root(idom, c, (s * k - s) as nat);
        assert(s * k >= s) by (nonlinear_arith)
            requires
                k >= 1,
        ;
        lemma_iter_add(idom, x, s, (s * k - s) as nat);
        assert(x == c);
    }
}

/// Verify that the immediate-dominator relation has no cycles.
pub fn verify_idom_acyclic(idom: &[Option<BlockId>]) -> (r: bool)
    ensures
        r == idom_acyclic(idom@),
{
    let n = idom.len();
    let mut node: usize = 0;
    while node < n
        invariant
            n == idom@.len(),
            node <= n,
            forall|x: int| 0 <= x < node ==> !on_idom_cycle(idom@, x),
        decreases n - node,
    {
        if idom[node].is_some() {
            let mut seen: Vec<bool> = Vec::new();
            let mut i: usize = 0;
            while i < n
                invariant
                    i <= n,
                    seen@.len() == i,
                    forall|j: int| 0 <= j < i ==> !seen@[j],
                decreases n - i,
            {
                seen.push(false);
                i = i + 1;
            }
            let ghost mut count: nat = 0;
            let ghost mut steps: nat = 0;
            proof {
                lemma_filter_all_false(seen@);
            }
            let mut current = node;
            let mut done = false;
            while !done
                invariant
                    n == idom@.len(),
                    node < n,
                    idom@[node as int] is Some,
                    seen@.len() == n,
                    count == seen@.filter(|x: bool| x).len(),
                    count <= n,
                    current as int == idom_iter(idom@, node as int, steps),
                    forall|v: int| 0 <= v < n ==> (#[trigger] seen@[v] <==> exists|i: nat| 1 <= i <= steps && idom_iter(idom@, node as int, i) == v),
                    forall|i: nat| i < steps ==> {
                        let c = #[trigger] idom_iter(idom@, node as int, i);
                        0 <= c < n && idom@[c] is Some && idom@[c]->0 != c
                    },
                    !done ==> current < n,
                    done ==> idom_step(idom@, idom_iter(idom@, node as int, steps)) == idom_iter(idom@, node as int, steps),
                decreases n - count, if done { 0int } else { 1int },
            {
                match idom[current] {
                    None => {
                        done = true;
                    },
                    Some(parent) => {
                        if parent == current {
                            done = true;
                        } else if parent < n {
                            if seen[parent] {
                                proof {
                                    let i = choose|i: nat| 1 <= i <= steps && idom_iter(idom@, node as int, i) == parent;
                                    let c = idom_iter(idom@, node as int, i);
                                    let k = (steps + 1 - i) as nat;
                                    assert(idom_step(idom@, current as int) == parent as int);
                                    assert(idom_iter(idom@, current as int, 1) == parent as int) by {
                                    reveal_with_fuel(idom_iter, 2);
                                }
                                    assert(idom_iter(idom@, node as int, steps + 1) == parent) by {
                                        lemma_iter_add(idom@, node as int, steps, 1);
                                    }
                                    lemma_iter_add(idom@, node as int, i, k);
                                    assert(idom_iter(idom@, c, k) == c);
                                    if i < steps {
                                        assert(idom_iter(idom@, node as int, i) == c);
                                    }
                                    assert(on_idom_cycle(idom@, c));
                                }
                                return false;
                            }
                            let ghost before = seen@;
                            seen.set(parent, true);
                            proof {
                                lemma_filter_true_set(before, parent as int);
                                count = count + 1;
                                assert(idom_step(idom@, current as int) == parent as int);
                                assert(idom_iter(idom@, current as int, 1) == parent as int) by {
                                    reveal_with_fuel(idom_iter, 2);
                                }
                                lemma_iter_add(idom@, node as int, steps, 1);
                                let old_steps = steps;
                                steps = steps + 1;
                                assert forall|v: int| 0 <= v < n implies (#[trigger] seen@[v] <==> exists|i: nat| 1 <= i <= steps && idom_iter(idom@, node as int, i) == v) by {
                                    if v == parent {
                                        assert(idom_iter(idom@, node as int, steps) == v);
                                    } else {
                                        if exists|i: nat| 1 <= i <= steps && idom_iter(idom@, node as int, i) == v {
                                            let i = choose|i: nat| 1 <= i <= steps && idom_iter(idom@, node as int, i) == v;
                                            assert(i <= old_steps);
                                        }
                                    }
                                }
                                assert forall|i: nat| i < steps implies {
                                    let c = #[trigger] idom_iter(idom@, node as int, i);
                                    0 <= c < n && idom@[c] is Some && idom@[c]->0 != c
                                } by {
                                    if i == old_steps {
                                    }
                                }
                            }
                            current = parent;
                        } else {
                            proof {
                                assert(idom_step(idom@, current as int) == parent as int);
                                assert(idom_iter(idom@, current as int, 1) == parent as int) by {
                                    reveal_with_fuel(idom_iter, 2);
                                }
                                lemma_iter_add(idom@, node as int, steps, 1);
                                steps = steps + 1;
                            }
                            current = parent;
                            done = true;
                        }
                    },
                }
            }
            proof {
                if idom@[node as int]->0 != node {
                    lemma_stuck_not_cyclic(idom@, node as int, steps);
                }
            }
        }
        node = node + 1;
    }
    true
}

/// Failure to produce a dominator tree.
#[derive(Debug, Clone, PartialEq, Eq)]
pub enum DominanceError {
    /// The immediate-dominator relation contains a cycle.
    CyclicIdom,
}

impl DominatorTree {
    /// Build the dominator tree and check that its immediate-dominator relation
    /// is acyclic; the check never fails on a tree from [`DominatorTree::build`].
    pub fn build_verified(cfg: &ControlFlowGraph) -> (r: Result<DominatorTree, DominanceError>)
        requires
            cfg.wf(),
        ensures
            r is Ok,
            r matches Ok(t) ==> t.is_dominator_tree_of(cfg@),
    {
        let tree = Self::build(cfg);
        if !verify_idom_acyclic(tree.idom()) {
            return Err(DominanceError::CyclicIdom);
        }
        Ok(tree)
    }
}

/// Law: in a dominator tree, dominance is a partial order on the reachable
/// blocks: every reachable block dominates itself, two blocks that dominate
/// each other are the same block, and dominance is transitive.
pub proof fn lemma_dominates_partial_order(t: &DominatorTree, a: int, b: int, c: int)
    requires
        t.wf(),
    ensures
        0 <= a < t@.reachable.len() && t@.reachable[a] ==> dominates_in(t@, a, a),
        dominates_in(t@, a, b) && dominates_in(t@, b, a) ==> a == b,
        dominates_in(t@, a, b) && dominates_in(t@, b, c) ==> dominates_in(t@, a, c),
{
    let id = t@.idom;
    assert(idom_iter(id, a, 0) == a);
    lemma_tree_acyclic(t.idom@, t.block_order@, t.reachable@, t.entry@);
    if dominates_in(t@, a, b) && dominates_in(t@, b, a) {
        let k1 = choose|k: nat| idom_iter(id, b, k) == a;
        let k2 = choose|k: nat| idom_iter(id, a, k) == b;
        lemma_iter_add(id, a, k2, k1);
        if a != b {
            if idom_step(id, a) == a {
                lemma_iter_root(id, a, k2);
            } else {
                assert(on_idom_cycle(id, a));
            }
        }
    }
    if dominates_in(t@, a, b) && dominates_in(t@, b, c) {
        let k1 = choose|k: nat| idom_iter(id, b, k) == a;
        let k2 = choose|k: nat| idom_iter(id, c, k) == b;
        lemma_iter_add(id, c, k2, k1);
    }
}


/// Law: the dominance a dominator tree answers is dominance in its graph:
/// `d` dominates `b` in the tree exactly when `b` is reachable and every walk
/// from the entry block to `b` passes through `d`.
pub proof fn lemma_tree_dominance_is_graph_dominance(t: &DominatorTree, m: CfgModel, d: int, b: int)
    requires
        m.wf(),
        t.is_dominator_tree_of(m),
    ensures
        dominates_in(t@, d, b) <==> (0 <= b < m.n() && m.reachable(b) && m.dominates(d, b)),
{
    if 0 <= b < m.n() && m.reachable(b) && m.dominates(d, b) {
        lemma_dominator_reachable(m, d, b);
    }
}


/// The first position of `y` in `path`, which contains it.
proof fn lemma_first_occurrence(path: Seq<int>, y: int) -> (i: int)
    requires
        path.contains(y),
    ensures
        0 <= i < path.len(),
        path[i] == y,
        forall|j: int| 0 <= j < i ==> #[trigger] path[j] != y,
    decreases path.len(),
{
    let pre = path.drop_last();
    if pre.contains(y) {
        let i = lemma_first_occurrence(pre, y);
        assert forall|j: int| 0 <= j < i implies #[trigger] path[j] != y by {
            assert(path[j] == pre[j]);
        }
        assert(path[i] == pre[i]);
        i
    } else {
        let j0 = choose|j: int| 0 <= j < path.len() && path[j] == y;
        if j0 < path.len() - 1 {
            assert(pre[j0] == y);
        }
        assert forall|j: int| 0 <= j < path.len() - 1 implies #[trigger] path[j] != y by {
            assert(path[j] == pre[j]);
        }
        path.len() - 1
    }
}

/// A reachable block other than the entry whose only reachable predecessor
/// is `p` is strictly dominated by every block that dominates `p`.
proof fn lemma_single_pred_dominated(m: CfgModel, y: int, p: int, x: int)
    requires
        m.wf(),
        0 <= y < m.n(),
        y != m.entry,
        m.reachable(y),
        m.edge(p, y),
        forall|q: int| m.reachable(q) && #[trigger] m.edge(q, y) ==> q == p,
        m.dominates(x, p),
    ensures
        m.dominates(x, y),
        x != y,
{
    // every walk to `y` steps in from `p`
    assert forall|path: Seq<int>|
        #![trigger m.is_entry_path(path), path.last()]
        m.is_entry_path(path) && path.last() == y implies path.contains(p) by {
        assert(path.len() >= 2) by {
            if path.len() == 1 {
                assert(path[0] == m.entry);
            }
        }
        let k = path.len() - 2;
        assert(m.edge(path[k], path[k + 1]));
        assert(path[k + 1] == y);
        lemma_entry_path_reachable(m, path, k);
        assert(path[k] == p);
    }
    lemma_dominates_trans(m, x, p, y);
    if x == y {
        let kk = choose|k: nat| m.reach_within(k, y);
        let path = lemma_reach_path(m, kk, y);
        assert(path.contains(p));
        assert(path[path.len() - 1] == y);
        assert(path.contains(y));
        let i = lemma_first_occurrence(path, y);
        assert(i >= 1) by {
            if i == 0 {
                assert(path[0] == m.entry);
            }
        }
        assert(m.edge(path[i - 1], path[i - 1 + 1]));
        lemma_entry_path_reachable(m, path, i - 1);
        assert(path[i - 1] == p);
        let pre = path.subrange(0, i);
        assert forall|j: int| 0 <= j < pre.len() - 1 implies m.edge(#[trigger] pre[j], pre[j + 1]) by {
            assert(pre[j] == path[j] && pre[j + 1] == path[j + 1]);
        }
        assert(pre[0] == path[0]);
        assert(pre.last() == path[i - 1]);
        assert(m.is_entry_path(pre));
        assert(pre.contains(y));
        let j = choose|j: int| 0 <= j < pre.len() && pre[j] == y;
        assert(path[j] == y);
    }
}

/// A reachable block other than the entry with a reachable predecessor that
/// `x` dominates, and that `x` does not strictly dominate, is a join block.
proof fn lemma_frontier_block_joins(m: CfgModel, b: int, x: int, j: int)
    requires
        m.wf(),
        m.n() <= usize::MAX,
        0 <= b < m.n(),
        b != m.entry,
        m.reachable(b),
        0 <= j < m.preds[b].len(),
        m.reachable(m.preds[b][j] as int),
        m.dominates(x, m.preds[b][j] as int),
        !(x != b && m.dominates(x, b)),
    ensures
        count_reachable(m, m.preds[b]) >= 2,
{
    let ps = m.preds[b];
    let p = ps[j] as int;
    assert(ps[j] < m.n());
    assert(ps.contains(p as usize));
    assert(m.edge(p, b));
    if count_reachable(m, ps) < 2 {
        assert forall|q: int| m.reachable(q) && #[trigger] m.edge(q, b) implies q == p by {
            assert(ps.contains(q as usize));
            let jq = choose|jq: int| 0 <= jq < ps.len() && ps[jq] == q as usize;
            assert(ps[jq] as int == q);
            if q != p {
                lemma_count_two(m, ps, j, jq);
            }
        }
        lemma_single_pred_dominated(m, b, p, x);
    }
}

/// Law: when the entry block has no reachable predecessor, the frontier of a
/// block `x` in a dominator tree is the textbook dominance frontier: the
/// reachable blocks with a reachable predecessor that `x` dominates, and
/// that `x` does not strictly dominate.
pub proof fn lemma_frontier_is_dominance_frontier(t: &DominatorTree, m: CfgModel, x: int, y: usize)
    requires
        m.wf(),
        t.is_dominator_tree_of(m),
        0 <= x < m.n(),
        forall|j: int| 0 <= j < m.preds[m.entry].len() ==> !m.reachable(#[trigger] m.preds[m.entry][j] as int),
    ensures
        t@.frontiers[x].contains(y) <==> {
            &&& y < m.n()
            &&& m.reachable(y as int)
            &&& exists|j: int|
                0 <= j < m.preds[y as int].len() && m.reachable(m.preds[y as int][j] as int) && #[trigger] m.dominates(
                    x,
                    m.preds[y as int][j] as int,
                )
            &&& !(x != y && m.dominates(x, y as int))
        },
{
    let b = y as int;
    assert(t@.frontiers[x].contains(y) <==> dominance_frontier_of(m, x, b));
    assert(m.n() <= usize::MAX) by {
        assert(t.reachable@.len() == t.reachable.len());
    }
    if b < m.n() && m.reachable(b) {
        let ps = m.preds[b];
        if exists|j: int| 0 <= j < ps.len() && m.reachable(ps[j] as int) && #[trigger] m.dominates(x, ps[j] as int) {
            let j = choose|j: int| 0 <= j < ps.len() && m.reachable(ps[j] as int) && #[trigger] m.dominates(x, ps[j] as int);
            if b == m.entry {
                assert(!m.reachable(m.preds[m.entry][j] as int));
            } else if !(x != b && m.dominates(x, b)) {
                lemma_frontier_block_joins(m, b, x, j);
            }
        }
    }
}

/// Two distinct reachable entries of a list make a count of at least two.
proof fn lemma_count_two(m: CfgModel, ps: Seq<usize>, i: int, j: int)
    requires
        0 <= i < ps.len(),
        0 <= j < ps.len(),
        ps[i] != ps[j],
        m.reachable(ps[i] as int),
        m.reachable(ps[j] as int),
    ensures
        count_reachable(m, ps) >= 2,
    decreases ps.len(),
{
    let pre = ps.drop_last();
    let last = ps.len() - 1;
    assert(ps.last() == ps[last]);
    if i < last && j < last {
        assert(pre[i] == ps[i] && pre[j] == ps[j]);
        lemma_count_two(m, pre, i, j);
    } else {
        let other = if i == last { j } else { i };
        assert(pre[other] == ps[other]);
        lemma_count_one(m, pre, other);
    }
}

/// A reachable entry makes a count of at least one.
proof fn lemma_count_one(m: CfgModel, ps: Seq<usize>, i: int)
    requires
        0 <= i < ps.len(),
        m.reachable(ps[i] as int),
    ensures
        count_reachable(m, ps) >= 1,
    decreases ps.len(),
{
    let pre = ps.drop_last();
    if i < ps.len() - 1 {
        assert(pre[i] == ps[i]);
        lemma_count_one(m, pre, i);
    } else {
        assert(ps.last() == ps[i]);
    }
}

} // verus!
