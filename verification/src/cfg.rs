//! Control-flow graphs: basic blocks numbered `0..block_count`, directed edges
//! between them, and the statements of each block.

use vstd::prelude::*;

verus! {

/// Identifier of a basic block: its index in the graph.
pub type BlockId = usize;

/// One statement of a basic block, reduced to the variables it defines and uses.
#[derive(Clone, Debug)]
pub struct Statement {
    /// Variables (or `base.field` paths) written by the statement.
    pub defined_vars: Vec<String>,
    /// Variables (or `base.field` paths) read by the statement.
    pub used_vars: Vec<String>,
}

/// Mathematical model of a control-flow graph.
pub struct CfgModel {
    /// Entry block.
    pub entry: int,
    /// Successor lists, one per block.
    pub succs: Seq<Seq<usize>>,
    /// Predecessor lists, one per block.
    pub preds: Seq<Seq<usize>>,
    /// Statements, one list per block.
    pub stmts: Seq<Seq<Statement>>,
}

impl CfgModel {
    /// Number of blocks.
    pub open spec fn n(self) -> int {
        self.succs.len() as int
    }

    /// `a -> b` is an edge of the graph.
    pub open spec fn edge(self, a: int, b: int) -> bool {
        &&& 0 <= a < self.n()
        &&& 0 <= b < self.n()
        &&& self.succs[a].contains(b as usize)
    }

    /// The graph is well formed: every id is in range, predecessor lists are
    /// exactly the reversed successor lists, and no list repeats an id.
    pub open spec fn wf(self) -> bool {
        &&& 0 <= self.entry < self.n()
        &&& self.preds.len() == self.n()
        &&& self.stmts.len() == self.n()
        &&& forall|a: int, i: int|
            0 <= a < self.n() && 0 <= i < self.succs[a].len() ==> #[trigger] self.succs[a][i]
                < self.n()
        &&& forall|a: int, i: int|
            0 <= a < self.n() && 0 <= i < self.preds[a].len() ==> #[trigger] self.preds[a][i]
                < self.n()
        &&& forall|a: int, b: int|
            0 <= a < self.n() && 0 <= b < self.n() ==> (#[trigger] self.succs[a].contains(
                b as usize,
            ) <==> #[trigger] self.preds[b].contains(a as usize))
        &&& forall|a: int| 0 <= a < self.n() ==> (#[trigger] self.succs[a]).no_duplicates()
        &&& forall|a: int| 0 <= a < self.n() ==> (#[trigger] self.preds[a]).no_duplicates()
    }

    /// `b` can be reached from the entry block in at most `k` edges.
    pub open spec fn reach_within(self, k: nat, b: int) -> bool
        decreases k,
    {
        if k == 0 {
            b == self.entry
        } else {
            self.reach_within((k - 1) as nat, b) || exists|p: int|
                #![trigger self.edge(p, b)]
                self.reach_within((k - 1) as nat, p) && self.edge(p, b)
        }
    }

    /// `b` can be reached from the entry block.
    pub open spec fn reachable(self, b: int) -> bool {
        exists|k: nat| self.reach_within(k, b)
    }

    /// `b` can be reached from the entry block in at most `k` edges without
    /// passing through block `d`.
    pub open spec fn reach_avoid_within(self, d: int, k: nat, b: int) -> bool
        decreases k,
    {
        if k == 0 {
            b == self.entry && b != d
        } else {
            self.reach_avoid_within(d, (k - 1) as nat, b) || (b != d && exists|p: int|
                #![trigger self.edge(p, b)]
                self.reach_avoid_within(d, (k - 1) as nat, p) && self.edge(p, b))
        }
    }

    /// `b` can be reached from the entry block without passing through block `d`.
    pub open spec fn reachable_avoiding(self, d: int, b: int) -> bool {
        exists|k: nat| self.reach_avoid_within(d, k, b)
    }

    /// `path` is a walk along edges that starts at the entry block.
    pub open spec fn is_entry_path(self, path: Seq<int>) -> bool {
        &&& path.len() > 0
        &&& path[0] == self.entry
        &&& forall|i: int| 0 <= i < path.len() - 1 ==> self.edge(#[trigger] path[i], path[i + 1])
    }

    /// `d` dominates `b`: every walk from the entry block to `b` passes through `d`.
    pub open spec fn dominates(self, d: int, b: int) -> bool {
        forall|path: Seq<int>|
            #![trigger self.is_entry_path(path), path.last()]
            self.is_entry_path(path) && path.last() == b ==> path.contains(d)
    }
}

/// Lemma: the entry block is reachable, and an edge out of a reachable block
/// leads to a reachable block.
pub proof fn lemma_reachable_step(m: CfgModel, p: int, b: int)
    requires
        m.reachable(p),
        m.edge(p, b),
    ensures
        m.reachable(b),
{
    let k = choose|k: nat| m.reach_within(k, p);
    assert(m.reach_within(k + 1, b));
}

/// Lemma: a block reachable within `k` steps is reachable within `k + j` steps.
pub proof fn lemma_reach_within_mono(m: CfgModel, k: nat, j: nat, b: int)
    requires
        m.reach_within(k, b),
    ensures
        m.reach_within(k + j, b),
    decreases j,
{
    if j > 0 {
        lemma_reach_within_mono(m, k, (j - 1) as nat, b);
        assert(m.reach_within(((k + j) - 1) as nat, b));
    }
}

/// Lemma: every block of an entry path is reachable.
pub proof fn lemma_entry_path_reachable(m: CfgModel, path: Seq<int>, i: int)
    requires
        m.is_entry_path(path),
        0 <= i < path.len(),
    ensures
        m.reachable(path[i]),
    decreases i,
{
    if i == 0 {
        assert(m.reach_within(0, path[0]));
    } else {
        lemma_entry_path_reachable(m, path, i - 1);
        lemma_reachable_step(m, path[i - 1], path[i]);
    }
}

/// Lemma: membership in a sequence extended by one element.
pub proof fn lemma_push_contains(s: Seq<usize>, x: usize, y: usize)
    ensures
        s.push(x).contains(y) <==> (s.contains(y) || y == x),
{
    if s.contains(y) {
        let j = choose|j: int| 0 <= j < s.len() && s[j] == y;
        assert(s.push(x)[j] == y);
    }
    if y == x {
        assert(s.push(x)[s.len() as int] == y);
    }
    if s.push(x).contains(y) && y != x {
        let j = choose|j: int| 0 <= j < s.push(x).len() && s.push(x)[j] == y;
        assert(s[j] == y);
    }
}

/// Lemma: appending an absent element keeps a sequence free of duplicates.
pub proof fn lemma_push_no_duplicates(s: Seq<usize>, x: usize)
    requires
        s.no_duplicates(),
        !s.contains(x),
    ensures
        s.push(x).no_duplicates(),
{
    assert forall|i: int, j: int|
        0 <= i < s.push(x).len() && 0 <= j < s.push(x).len() && i != j implies s.push(x)[i]
        != s.push(x)[j] by {
        if i < s.len() && j < s.len() {
        } else if i < s.len() {
            assert(s.contains(s[i]));
        } else if j < s.len() {
            assert(s.contains(s[j]));
        }
    }
}

/// A control-flow graph over blocks `0..block_count` with a designated entry block.
pub struct ControlFlowGraph {
    entry: BlockId,
    blocks: Vec<Vec<Statement>>,
    succs: Vec<Vec<BlockId>>,
    preds: Vec<Vec<BlockId>>,
}

impl View for ControlFlowGraph {
    type V = CfgModel;

    closed spec fn view(&self) -> CfgModel {
        CfgModel {
            entry: self.entry as int,
            succs: Seq::new(self.succs@.len(), |i: int| self.succs@[i]@),
            preds: Seq::new(self.preds@.len(), |i: int| self.preds@[i]@),
            stmts: Seq::new(self.blocks@.len(), |i: int| self.blocks@[i]@),
        }
    }
}

impl ControlFlowGraph {
    /// The graph is well formed (see [`CfgModel::wf`]).
    pub open spec fn wf(&self) -> bool {
        self@.wf()
    }

    /// Create a graph of `block_count` empty blocks and no edges, entered at `entry`.
    /// Returns `None` when `entry` is not a block of the graph.
    pub fn new(block_count: usize, entry: BlockId) -> (res: Option<Self>)
        ensures
            res is Some <==> entry < block_count,
            res matches Some(g) ==> {
                &&& g.wf()
                &&& g@.n() == block_count
                &&& g@.entry == entry
                &&& forall|a: int, b: int| !g@.edge(a, b)
                &&& forall|a: int| 0 <= a < block_count ==> g@.stmts[a].len() == 0
            },
    {
        if entry >= block_count {
            return None;
        }
        let mut blocks: Vec<Vec<Statement>> = Vec::new();
        let mut succs: Vec<Vec<BlockId>> = Vec::new();
        let mut preds: Vec<Vec<BlockId>> = Vec::new();
        let mut i: usize = 0;
        while i < block_count
            invariant
                i <= block_count,
                blocks@.len() == i,
                succs@.len() == i,
                preds@.len() == i,
                forall|j: int| 0 <= j < i ==> (#[trigger] blocks@[j])@.len() == 0,
                forall|j: int| 0 <= j < i ==> (#[trigger] succs@[j])@.len() == 0,
                forall|j: int| 0 <= j < i ==> (#[trigger] preds@[j])@.len() == 0,
            decreases block_count - i,
        {
            blocks.push(Vec::new());
            succs.push(Vec::new());
            preds.push(Vec::new());
            i = i + 1;
        }
        let g = ControlFlowGraph { entry, blocks, succs, preds };
        assert forall|a: int| 0 <= a < block_count implies g@.succs[a] =~= Seq::<usize>::empty()
            && g@.preds[a] =~= Seq::<usize>::empty() by {}
        Some(g)
    }

    /// Number of blocks.
    pub fn block_count(&self) -> (n: usize)
        requires
            self.wf(),
        ensures
            n == self@.n(),
    {
        self.succs.len()
    }

    /// The entry block.
    pub fn entry(&self) -> (e: BlockId)
        ensures
            e == self@.entry,
    {
        self.entry
    }

    /// Add the edge `from -> to`. Returns `false`, leaving the graph unchanged,
    /// when either end is not a block; adding an existing edge changes nothing.
    pub fn add_edge(&mut self, from: BlockId, to: BlockId) -> (added: bool)
        requires
            old(self).wf(),
        ensures
            final(self).wf(),
            added == (from < old(self)@.n() && to < old(self)@.n()),
            final(self)@.n() == old(self)@.n(),
            final(self)@.entry == old(self)@.entry,
            final(self)@.stmts == old(self)@.stmts,
            forall|a: int, b: int|
                final(self)@.edge(a, b) == (old(self)@.edge(a, b) || (added && a == from && b
                    == to)),
    {
        let n = self.succs.len();
        if from >= n || to >= n {
            return false;
        }
        let ghost old_v = self@;
        let mut present = false;
        let mut i: usize = 0;
        while i < self.succs[from].len()
            invariant
                i <= self.succs@[from as int]@.len(),
                from < self.succs@.len(),
                present == exists|j: int| 0 <= j < i && self.succs@[from as int]@[j] == to,
            decreases self.succs@[from as int]@.len() - i,
        {
            if self.succs[from][i] == to {
                present = true;
            }
            i = i + 1;
        }
        if !present {
            assert(!old_v.succs[from as int].contains(to));
            assert(old_v.succs[from as int].contains((to as int) as usize)
                <==> old_v.preds[to as int].contains((from as int) as usize));
            let mut row = self.succs[from].clone();
            row.push(to);
            self.succs.set(from, row);
            let mut prow = self.preds[to].clone();
            prow.push(from);
            self.preds.set(to, prow);
            assert(!old_v.preds[to as int].contains(from));
            let ghost v = self@;
            assert(v.succs =~= old_v.succs.update(from as int, old_v.succs[from as int].push(to)));
            assert(v.preds =~= old_v.preds.update(to as int, old_v.preds[to as int].push(from)));
            assert forall|a: int, b: int|
                0 <= a < v.n() && 0 <= b < v.n() implies (#[trigger] v.succs[a].contains(
                b as usize,
            ) <==> #[trigger] v.preds[b].contains(a as usize)) by {
                assert(old_v.succs[a].contains(b as usize) <==> old_v.preds[b].contains(
                    a as usize,
                ));
                lemma_push_contains(old_v.succs[a], to, b as usize);
                lemma_push_contains(old_v.preds[b], from, a as usize);
            }
            assert forall|a: int| 0 <= a < v.n() implies (#[trigger] v.succs[a]).no_duplicates() by {
                if a == from {
                    lemma_push_no_duplicates(old_v.succs[a], to);
                }
            }
            assert forall|a: int| 0 <= a < v.n() implies (#[trigger] v.preds[a]).no_duplicates() by {
                if a == to {
                    lemma_push_no_duplicates(old_v.preds[a], from);
                }
            }
            assert forall|a: int, c: int|
                0 <= a < v.n() && 0 <= c < v.n() implies #[trigger] v.edge(a, c) == (old_v.edge(
                a,
                c,
            ) || (a == from && c == to)) by {
                lemma_push_contains(old_v.succs[a], to, c as usize);
            }
            assert forall|a: int, i: int|
                0 <= a < v.n() && 0 <= i < v.succs[a].len() implies #[trigger] v.succs[a][i]
                < v.n() by {
                if a == from && i < old_v.succs[a].len() {
                    assert(v.succs[a][i] == old_v.succs[a][i]);
                }
            }
            assert forall|a: int, i: int|
                0 <= a < v.n() && 0 <= i < v.preds[a].len() implies #[trigger] v.preds[a][i]
                < v.n() by {
                if a == to && i < old_v.preds[a].len() {
                    assert(v.preds[a][i] == old_v.preds[a][i]);
                }
            }
        } else {
            assert(old_v.succs[from as int].contains(to));
        }
        true
    }

    /// Append a statement to block `block`. Returns `false`, leaving the graph
    /// unchanged, when `block` is not a block of the graph.
    pub fn add_statement(&mut self, block: BlockId, stmt: Statement) -> (added: bool)
        requires
            old(self).wf(),
        ensures
            final(self).wf(),
            added == (block < old(self)@.n()),
            final(self)@.n() == old(self)@.n(),
            final(self)@.entry == old(self)@.entry,
            final(self)@.succs == old(self)@.succs,
            final(self)@.preds == old(self)@.preds,
            final(self)@.stmts == if added {
                old(self)@.stmts.update(block as int, old(self)@.stmts[block as int].push(stmt))
            } else {
                old(self)@.stmts
            },
    {
        if block >= self.blocks.len() {
            return false;
        }
        let ghost old_v = self@;
        let mut row: Vec<Statement> = Vec::new();
        std::mem::swap(&mut row, &mut self.blocks[block]);
        row.push(stmt);
        self.blocks.set(block, row);
        assert(self@.stmts =~= old_v.stmts.update(block as int, old_v.stmts[block as int].push(stmt)));
        assert(self@.succs =~= old_v.succs);
        assert(self@.preds =~= old_v.preds);
        true
    }

    /// Successors of `block`.
    pub fn successors(&self, block: BlockId) -> (s: &[BlockId])
        requires
            self.wf(),
            block < self@.n(),
        ensures
            s@ == self@.succs[block as int],
    {
        self.succs[block].as_slice()
    }

    /// Predecessors of `block`.
    pub fn predecessors(&self, block: BlockId) -> (s: &[BlockId])
        requires
            self.wf(),
            block < self@.n(),
        ensures
            s@ == self@.preds[block as int],
    {
        self.preds[block].as_slice()
    }

    /// Statements of `block`.
    pub fn statements(&self, block: BlockId) -> (s: &[Statement])
        requires
            self.wf(),
            block < self@.n(),
        ensures
            s@ == self@.stmts[block as int],
    {
        self.blocks[block].as_slice()
    }
}


/// Lemma: a block reachable within `k` steps is the end of an entry path.
pub proof fn lemma_reach_path(m: CfgModel, k: nat, b: int) -> (path: Seq<int>)
    requires
        m.reach_within(k, b),
    ensures
        m.is_entry_path(path),
        path.last() == b,
    decreases k,
{
    if k == 0 {
        let path = seq![m.entry];
        assert(path.last() == path[0]);
        path
    } else if m.reach_within((k - 1) as nat, b) {
        lemma_reach_path(m, (k - 1) as nat, b)
    } else {
        let p = choose|p: int| #![trigger m.edge(p, b)] m.reach_within((k - 1) as nat, p) && m.edge(p, b);
        let pp = lemma_reach_path(m, (k - 1) as nat, p);
        let path = pp.push(b);
        assert forall|i: int| 0 <= i < path.len() - 1 implies m.edge(#[trigger] path[i], path[i + 1]) by {
            if i < pp.len() - 1 {
                assert(path[i] == pp[i] && path[i + 1] == pp[i + 1]);
            } else {
                assert(path[i] == pp.last());
            }
        }
        path
    }
}

/// Lemma: a block reachable within `k` steps without passing through `d` is
/// the end of an entry path that does not visit `d`.
pub proof fn lemma_avoid_path(m: CfgModel, d: int, k: nat, b: int) -> (path: Seq<int>)
    requires
        m.reach_avoid_within(d, k, b),
    ensures
        m.is_entry_path(path),
        path.last() == b,
        !path.contains(d),
    decreases k,
{
    if k == 0 {
        let path = seq![m.entry];
        assert(path.last() == path[0]);
        assert(!path.contains(d)) by {
            if path.contains(d) {
                let j = choose|j: int| 0 <= j < path.len() && path[j] == d;
                assert(path[j] == m.entry);
            }
        }
        path
    } else if m.reach_avoid_within(d, (k - 1) as nat, b) {
        lemma_avoid_path(m, d, (k - 1) as nat, b)
    } else {
        let p = choose|p: int| #![trigger m.edge(p, b)] m.reach_avoid_within(d, (k - 1) as nat, p) && m.edge(p, b);
        let pp = lemma_avoid_path(m, d, (k - 1) as nat, p);
        let path = pp.push(b);
        assert forall|i: int| 0 <= i < path.len() - 1 implies m.edge(#[trigger] path[i], path[i + 1]) by {
            if i < pp.len() - 1 {
                assert(path[i] == pp[i] && path[i + 1] == pp[i + 1]);
            } else {
                assert(path[i] == pp.last());
            }
        }
        assert(!path.contains(d)) by {
            if path.contains(d) {
                let j = choose|j: int| 0 <= j < path.len() && path[j] == d;
                if j < pp.len() {
                    assert(pp[j] == d);
                }
            }
        }
        path
    }
}

/// Lemma: the end of an entry path that does not visit `d` is reachable
/// without passing through `d`.
pub proof fn lemma_path_avoids(m: CfgModel, d: int, path: Seq<int>)
    requires
        m.is_entry_path(path),
        !path.contains(d),
    ensures
        m.reach_avoid_within(d, (path.len() - 1) as nat, path.last()),
    decreases path.len(),
{
    let b = path.last();
    assert(path[path.len() - 1] == b);
    assert(b != d) by {
        if b == d {
            assert(path.contains(d));
        }
    }
    if path.len() > 1 {
        let pre = path.drop_last();
        assert forall|i: int| 0 <= i < pre.len() - 1 implies m.edge(#[trigger] pre[i], pre[i + 1]) by {
            assert(pre[i] == path[i] && pre[i + 1] == path[i + 1]);
        }
        assert(pre[0] == path[0]);
        assert(!pre.contains(d)) by {
            if pre.contains(d) {
                let j = choose|j: int| 0 <= j < pre.len() && pre[j] == d;
                assert(path[j] == d);
            }
        }
        lemma_path_avoids(m, d, pre);
        let p = pre.last();
        assert(p == path[path.len() - 2]);
        assert(m.edge(path[path.len() - 2], path[path.len() - 2 + 1]));
        assert(m.edge(p, b));
    } else {
        assert(b == path[0]);
    }
}

/// Lemma: `d` dominates a block exactly when the block cannot be reached
/// without passing through `d`.
pub proof fn lemma_dominates_iff_unavoidable(m: CfgModel, d: int, b: int)
    ensures
        m.dominates(d, b) <==> !m.reachable_avoiding(d, b),
{
    if m.reachable_avoiding(d, b) {
        let k = choose|k: nat| m.reach_avoid_within(d, k, b);
        let path = lemma_avoid_path(m, d, k, b);
        assert(m.is_entry_path(path) && path.last() == b);
    }
    if !m.dominates(d, b) {
        let path = choose|path: Seq<int>|
            #![trigger m.is_entry_path(path), path.last()]
            !(m.is_entry_path(path) && path.last() == b ==> path.contains(d));
        lemma_path_avoids(m, d, path);
    }
}

/// Lemma: the entry block dominates every block, every block dominates itself,
/// and the entry block is dominated by itself alone.
pub proof fn lemma_dominates_basics(m: CfgModel, b: int, d: int)
    ensures
        m.dominates(m.entry, b),
        m.dominates(b, b),
        m.dominates(d, m.entry) ==> d == m.entry,
{
    assert forall|path: Seq<int>|
        #![trigger m.is_entry_path(path), path.last()]
        m.is_entry_path(path) && path.last() == b implies path.contains(m.entry) && path.contains(b) by {
        assert(path[0] == m.entry);
        assert(path[path.len() - 1] == b);
    }
    if m.dominates(d, m.entry) {
        let path = seq![m.entry];
        assert(path.last() == path[0]);
        assert(m.is_entry_path(path));
        assert(path.contains(d));
        let j = choose|j: int| 0 <= j < path.len() && path[j] == d;
        assert(path[j] == m.entry);
    }
}

/// Lemma: a block that strictly dominates `b` dominates every predecessor of `b`.
pub proof fn lemma_dominates_pred(m: CfgModel, d: int, b: int, p: int)
    requires
        m.dominates(d, b),
        d != b,
        m.edge(p, b),
    ensures
        m.dominates(d, p),
{
    assert forall|path: Seq<int>|
        #![trigger m.is_entry_path(path), path.last()]
        m.is_entry_path(path) && path.last() == p implies path.contains(d) by {
        let longer = path.push(b);
        assert forall|i: int| 0 <= i < longer.len() - 1 implies m.edge(#[trigger] longer[i], longer[i + 1]) by {
            if i < path.len() - 1 {
                assert(longer[i] == path[i] && longer[i + 1] == path[i + 1]);
            } else {
                assert(longer[i] == path.last());
            }
        }
        assert(longer[0] == path[0]);
        assert(m.is_entry_path(longer));
        assert(longer.last() == b);
        assert(longer.contains(d));
        let j = choose|j: int| 0 <= j < longer.len() && longer[j] == d;
        assert(j < path.len());
        assert(path[j] == d);
    }
}

/// Lemma: dominance is transitive.
pub proof fn lemma_dominates_trans(m: CfgModel, a: int, i: int, b: int)
    requires
        m.dominates(a, i),
        m.dominates(i, b),
    ensures
        m.dominates(a, b),
{
    assert forall|path: Seq<int>|
        #![trigger m.is_entry_path(path), path.last()]
        m.is_entry_path(path) && path.last() == b implies path.contains(a) by {
        assert(path.contains(i));
        let j = choose|j: int| 0 <= j < path.len() && path[j] == i;
        let pre = path.subrange(0, j + 1);
        assert forall|x: int| 0 <= x < pre.len() - 1 implies m.edge(#[trigger] pre[x], pre[x + 1]) by {
            assert(pre[x] == path[x] && pre[x + 1] == path[x + 1]);
        }
        assert(pre[0] == path[0]);
        assert(pre.last() == path[j]);
        assert(m.is_entry_path(pre));
        assert(pre.contains(a));
        let q = choose|q: int| 0 <= q < pre.len() && pre[q] == a;
        assert(path[q] == a);
    }
}

/// Lemma: a block that dominates a reachable block is itself a reachable block of the graph.
pub proof fn lemma_dominator_reachable(m: CfgModel, d: int, b: int)
    requires
        m.reachable(b),
        m.dominates(d, b),
    ensures
        0 <= d < m.n() || d == m.entry,
        m.reachable(d),
{
    let k = choose|k: nat| m.reach_within(k, b);
    let path = lemma_reach_path(m, k, b);
    assert(path.contains(d));
    let j = choose|j: int| 0 <= j < path.len() && path[j] == d;
    lemma_entry_path_reachable(m, path, j);
    if j > 0 {
        assert(m.edge(path[j - 1], path[j - 1 + 1]));
    } else {
        assert(path[0] == m.entry);
    }
}

/// Position of the last entry of `s` that equals `a` or `c`, -1 when there is none.
pub open spec fn last_hit(s: Seq<int>, a: int, c: int) -> int
    decreases s.len(),
{
    if s.len() == 0 {
        -1
    } else if s.last() == a || s.last() == c {
        s.len() - 1
    } else {
        last_hit(s.drop_last(), a, c)
    }
}

proof fn lemma_last_hit(s: Seq<int>, a: int, c: int)
    requires
        s.contains(a),
    ensures
        0 <= last_hit(s, a, c) < s.len(),
        s[last_hit(s, a, c)] == a || s[last_hit(s, a, c)] == c,
        forall|j: int| last_hit(s, a, c) < j < s.len() ==> #[trigger] s[j] != a && s[j] != c,
    decreases s.len(),
{
    if !(s.last() == a || s.last() == c) {
        let j = choose|j: int| 0 <= j < s.len() && s[j] == a;
        assert(j != s.len() - 1);
        let pre = s.drop_last();
        assert(pre[j] == a);
        lemma_last_hit(pre, a, c);
        let r = last_hit(pre, a, c);
        assert(s[r] == pre[r]);
        assert forall|x: int| r < x < s.len() implies #[trigger] s[x] != a && s[x] != c by {
            if x < s.len() - 1 {
                assert(s[x] == pre[x]);
            }
        }
    }
}

/// An entry path to `path[r]` followed by the steps of `path` after position `r`.
proof fn lemma_splice(m: CfgModel, head: Seq<int>, path: Seq<int>, r: int, y: int) -> (q: Seq<int>)
    requires
        m.is_entry_path(head),
        m.is_entry_path(path),
        0 <= r < path.len(),
        head.last() == path[r],
        !head.contains(y),
        forall|j: int| r < j < path.len() ==> #[trigger] path[j] != y,
    ensures
        m.is_entry_path(q),
        q.last() == path.last(),
        !q.contains(y),
{
    let tail = path.subrange(r + 1, path.len() as int);
    let q = head + tail;
    let h = head.len() as int;
    assert forall|i: int| 0 <= i < q.len() - 1 implies m.edge(#[trigger] q[i], q[i + 1]) by {
        if i < h - 1 {
            assert(q[i] == head[i] && q[i + 1] == head[i + 1]);
        } else if i == h - 1 {
            assert(q[i] == head[h - 1]);
            assert(q[i + 1] == path[r + 1]);
            assert(m.edge(path[r], path[r + 1]));
        } else {
            let k = i - h + r + 1;
            assert(q[i] == path[k] && q[i + 1] == path[k + 1]);
        }
    }
    assert(q[0] == head[0]);
    if tail.len() == 0 {
        assert(q.last() == q[h - 1]);
        assert(r == path.len() - 1);
    } else {
        assert(q.last() == path[path.len() - 1]);
    }
    assert(!q.contains(y)) by {
        if q.contains(y) {
            let j = choose|j: int| 0 <= j < q.len() && q[j] == y;
            if j < h {
                assert(head[j] == y);
            } else {
                assert(path[j - h + r + 1] == y);
            }
        }
    }
    q
}

/// Lemma: the dominators of a reachable block are ordered by dominance.
pub proof fn lemma_dominators_ordered(m: CfgModel, d: int, i: int, b: int)
    requires
        m.reachable(b),
        m.dominates(d, b),
        m.dominates(i, b),
    ensures
        m.dominates(d, i) || m.dominates(i, d),
{
    if !m.dominates(d, i) && !m.dominates(i, d) {
        let p1 = choose|path: Seq<int>|
            #![trigger m.is_entry_path(path), path.last()]
            !(m.is_entry_path(path) && path.last() == i ==> path.contains(d));
        let p2 = choose|path: Seq<int>|
            #![trigger m.is_entry_path(path), path.last()]
            !(m.is_entry_path(path) && path.last() == d ==> path.contains(i));
        let k = choose|k: nat| m.reach_within(k, b);
        let path = lemma_reach_path(m, k, b);
        assert(path.contains(d));
        lemma_last_hit(path, d, i);
        let r = last_hit(path, d, i);
        if path[r] == i {
            let q = lemma_splice(m, p1, path, r, d);
            assert(q.contains(d));
        } else {
            let q = lemma_splice(m, p2, path, r, i);
            assert(q.contains(i));
        }
    }
}

/// Lemma: a set of blocks that contains the entry block and is closed under
/// edges contains every reachable block.
pub proof fn lemma_closed_contains_reachable(m: CfgModel, mark: Seq<bool>, k: nat, b: int)
    requires
        mark.len() == m.n(),
        m.wf(),
        mark[m.entry],
        forall|a: int, c: int| 0 <= a < m.n() && mark[a] && #[trigger] m.edge(a, c) ==> mark[c],
        m.reach_within(k, b),
    ensures
        0 <= b < m.n(),
        mark[b],
    decreases k,
{
    if k > 0 {
        if m.reach_within((k - 1) as nat, b) {
            lemma_closed_contains_reachable(m, mark, (k - 1) as nat, b);
        } else {
            let p = choose|p: int| #![trigger m.edge(p, b)] m.reach_within((k - 1) as nat, p) && m.edge(p, b);
            lemma_closed_contains_reachable(m, mark, (k - 1) as nat, p);
        }
    }
}

/// Lemma: a set of blocks that contains the entry block (unless it is `d`) and
/// is closed under edges into blocks other than `d` contains every block
/// reachable without passing through `d`.
pub proof fn lemma_closed_contains_avoiding(m: CfgModel, mark: Seq<bool>, d: int, k: nat, b: int)
    requires
        mark.len() == m.n(),
        m.wf(),
        m.entry != d ==> mark[m.entry],
        forall|a: int, c: int| 0 <= a < m.n() && mark[a] && #[trigger] m.edge(a, c) && c != d ==> mark[c],
        m.reach_avoid_within(d, k, b),
    ensures
        0 <= b < m.n(),
        mark[b],
    decreases k,
{
    if k > 0 {
        if m.reach_avoid_within(d, (k - 1) as nat, b) {
            lemma_closed_contains_avoiding(m, mark, d, (k - 1) as nat, b);
        } else {
            let p = choose|p: int| #![trigger m.edge(p, b)] m.reach_avoid_within(d, (k - 1) as nat, p) && m.edge(p, b);
            lemma_closed_contains_avoiding(m, mark, d, (k - 1) as nat, p);
        }
    }
}

/// Lemma: avoiding a block that is not in the graph is no restriction.
pub proof fn lemma_avoid_outside(m: CfgModel, d: int, k: nat, b: int)
    requires
        !(0 <= d < m.n()),
        0 <= m.entry < m.n(),
    ensures
        m.reach_avoid_within(d, k, b) == m.reach_within(k, b),
    decreases k,
{
    if k > 0 {
        lemma_avoid_outside(m, d, (k - 1) as nat, b);
        assert forall|p: int| #[trigger] m.edge(p, b) implies (m.reach_avoid_within(d, (k - 1) as nat, p)
            == m.reach_within((k - 1) as nat, p)) by {
            lemma_avoid_outside(m, d, (k - 1) as nat, p);
        }
        if m.reach_within(k, b) && !m.reach_within((k - 1) as nat, b) {
            let p = choose|p: int| #![trigger m.edge(p, b)] m.reach_within((k - 1) as nat, p) && m.edge(p, b);
            assert(b != d);
        }
    }
}

/// Lemma: a step along an edge into a block other than `d` keeps a block
/// reachable without passing through `d`.
pub proof fn lemma_avoiding_step(m: CfgModel, d: int, p: int, b: int)
    requires
        m.reachable_avoiding(d, p),
        m.edge(p, b),
        b != d,
    ensures
        m.reachable_avoiding(d, b),
{
    let k = choose|k: nat| m.reach_avoid_within(d, k, p);
    assert(m.reach_avoid_within(d, k + 1, b));
}

impl ControlFlowGraph {
    /// Blocks reachable from the entry block without passing through block
    /// `avoid`, as a membership mask over block ids. An `avoid` that is not a
    /// block of the graph avoids nothing.
    pub fn reachable_avoiding(&self, avoid: BlockId) -> (mask: Vec<bool>)
        requires
            self.wf(),
        ensures
            mask@.len() == self@.n(),
            forall|b: int| 0 <= b < self@.n() ==> mask@[b] == self@.reachable_avoiding(avoid as int, b),
    {
        let ghost m = self@;
        let ghost d = avoid as int;
        let n = self.succs.len();
        let mut visited: Vec<bool> = Vec::new();
        let mut i: usize = 0;
        while i < n
            invariant
                i <= n,
                n == m.n(),
                visited@.len() == i,
                forall|j: int| 0 <= j < i ==> !visited@[j],
            decreases n - i,
        {
            visited.push(false);
            i = i + 1;
        }
        let ghost mut count: nat = 0;
        proof {
            lemma_filter_all_false(visited@);
        }
        let mut stack: Vec<BlockId> = Vec::new();
        if self.entry != avoid {
            stack.push(self.entry);
        }
        assert(m.entry != d ==> m.reach_avoid_within(d, 0, m.entry));
        while stack.len() > 0
            invariant
                m == self@,
                m.wf(),
                n == m.n(),
                d == avoid as int,
                visited@.len() == n,
                count <= n,
                count == visited@.filter(|x: bool| x).len(),
                forall|j: int| 0 <= j < stack@.len() ==> (#[trigger] stack@[j]) < n,
                forall|j: int| 0 <= j < stack@.len() ==> m.reachable_avoiding(d, #[trigger] stack@[j] as int),
                forall|j: int| 0 <= j < n && #[trigger] visited@[j] ==> m.reachable_avoiding(d, j),
                m.entry != d ==> visited@[m.entry] || (stack@.len() > 0 && stack@[0] == m.entry),
                forall|a: int, c: int|
                    0 <= a < n && visited@[a] && #[trigger] m.edge(a, c) && c != d ==> visited@[c]
                        || stack@.contains(c as usize),
            decreases n - count, stack@.len(),
        {
            let ghost old_stack = stack@;
            let block = stack.pop().unwrap();
            proof {
                assert(old_stack =~= stack@.push(block));
                assert forall|x: usize| old_stack.contains(x) && x != block implies stack@.contains(
                    x,
                ) by {
                    let j = choose|j: int| 0 <= j < old_stack.len() && old_stack[j] == x;
                    assert(stack@[j] == x);
                }
            }
            if !visited[block] {
                let ghost before = visited@;
                visited.set(block, true);
                proof {
                    lemma_filter_true_set(before, block as int);
                    count = count + 1;
                }
                let succs = self.successors(block);
                let mut k: usize = 0;
                while k < succs.len()
                    invariant
                        m == self@,
                        m.wf(),
                        n == m.n(),
                        d == avoid as int,
                        block < n,
                        succs@ == m.succs[block as int],
                        k <= succs@.len(),
                        visited@.len() == n,
                        count == visited@.filter(|x: bool| x).len(),
                        count <= n,
                        visited@[block as int],
                        m.reachable_avoiding(d, block as int),
                        forall|j: int| 0 <= j < stack@.len() ==> (#[trigger] stack@[j]) < n,
                        forall|j: int|
                            0 <= j < stack@.len() ==> m.reachable_avoiding(d, #[trigger] stack@[j] as int),
                        forall|j: int| 0 <= j < n && #[trigger] visited@[j] ==> m.reachable_avoiding(d, j),
                        m.entry != d ==> visited@[m.entry] || (stack@.len() > 0 && stack@[0] == m.entry),
                        forall|a: int, c: int|
                            0 <= a < n && visited@[a] && a != block && #[trigger] m.edge(a, c) && c != d
                                ==> visited@[c] || stack@.contains(c as usize),
                        forall|j: int|
                            0 <= j < k && succs@[j] != avoid ==> visited@[#[trigger] succs@[j] as int]
                                || stack@.contains(succs@[j]),
                    decreases succs@.len() - k,
                {
                    let s = succs[k];
                    proof {
                        assert(m.succs[block as int][k as int] < m.n());
                        assert(m.succs[block as int].contains(s));
                    }
                    if s != avoid && !visited[s] {
                        proof {
                            lemma_avoiding_step(m, d, block as int, s as int);
                        }
                        let ghost old_stack = stack@;
                        stack.push(s);
                        proof {
                            assert forall|x: usize| old_stack.contains(x) implies stack@.contains(x) by {
                                let j = choose|j: int| 0 <= j < old_stack.len() && old_stack[j] == x;
                                assert(stack@[j] == x);
                            }
                            assert(stack@[old_stack.len() as int] == s);
                        }
                    }
                    k = k + 1;
                }
                proof {
                    assert forall|a: int, c: int|
                        0 <= a < n && visited@[a] && #[trigger] m.edge(a, c) && c != d implies visited@[c]
                            || stack@.contains(c as usize) by {
                        if a == block {
                            let j = choose|j: int| 0 <= j < succs@.len() && succs@[j] == c as usize;
                            assert(visited@[succs@[j] as int] || stack@.contains(succs@[j]));
                        }
                    }
                }
            }
        }
        proof {
            assert forall|b: int| 0 <= b < n implies visited@[b] == m.reachable_avoiding(d, b) by {
                if m.reachable_avoiding(d, b) {
                    let k = choose|k: nat| m.reach_avoid_within(d, k, b);
                    lemma_closed_contains_avoiding(m, visited@, d, k, b);
                }
            }
        }
        visited
    }

    /// Blocks reachable from the entry block, as a membership mask over block ids.
    pub fn reachable_blocks(&self) -> (mask: Vec<bool>)
        requires
            self.wf(),
        ensures
            mask@.len() == self@.n(),
            forall|b: int| 0 <= b < self@.n() ==> mask@[b] == self@.reachable(b),
    {
        let mask = self.reachable_avoiding(self.succs.len());
        proof {
            let m = self@;
            let d = self.succs.len() as int;
            assert forall|b: int| 0 <= b < m.n() implies mask@[b] == m.reachable(b) by {
                if m.reachable(b) {
                    let k = choose|k: nat| m.reach_within(k, b);
                    lemma_avoid_outside(m, d, k, b);
                }
                if m.reachable_avoiding(d, b) {
                    let k = choose|k: nat| m.reach_avoid_within(d, k, b);
                    lemma_avoid_outside(m, d, k, b);
                }
            }
        }
        mask
    }
}

/// Lemma: setting an unset flag raises the number of set flags by one.
pub proof fn lemma_filter_true_set(s: Seq<bool>, i: int)
    requires
        0 <= i < s.len(),
        !s[i],
    ensures
        s.update(i, true).filter(|x: bool| x).len() == s.filter(|x: bool| x).len() + 1,
        s.update(i, true).filter(|x: bool| x).len() <= s.len(),
    decreases s.len(),
{
    let f = |x: bool| x;
    let t = s.update(i, true);
    if i == s.len() - 1 {
        assert(t.drop_last() =~= s.drop_last());
        assert(s =~= s.drop_last().push(s.last()));
        assert(t =~= t.drop_last().push(true));
        s.drop_last().lemma_filter_len_push(f, s.last());
        t.drop_last().lemma_filter_len_push(f, true);
        lemma_filter_len_le(s.drop_last());
    } else {
        lemma_filter_true_set(s.drop_last(), i);
        assert(t.drop_last() =~= s.drop_last().update(i, true));
        assert(s =~= s.drop_last().push(s.last()));
        assert(t =~= t.drop_last().push(s.last()));
        s.drop_last().lemma_filter_len_push(f, s.last());
        t.drop_last().lemma_filter_len_push(f, s.last());
    }
}

/// Lemma: no flag is set in an all-false sequence.
pub proof fn lemma_filter_all_false(s: Seq<bool>)
    requires
        forall|j: int| 0 <= j < s.len() ==> !s[j],
    ensures
        s.filter(|x: bool| x).len() == 0,
    decreases s.len(),
{
    let f = |x: bool| x;
    if s.len() > 0 {
        lemma_filter_all_false(s.drop_last());
        assert(s =~= s.drop_last().push(s.last()));
        s.drop_last().lemma_filter_len_push(f, s.last());
    } else {
        assert(s.filter(f) =~= Seq::<bool>::empty());
    }
}

/// Lemma: at most every flag is set.
pub proof fn lemma_filter_len_le(s: Seq<bool>)
    ensures
        s.filter(|x: bool| x).len() <= s.len(),
    decreases s.len(),
{
    let f = |x: bool| x;
    if s.len() > 0 {
        lemma_filter_len_le(s.drop_last());
        assert(s =~= s.drop_last().push(s.last()));
        s.drop_last().lemma_filter_len_push(f, s.last());
    } else {
        assert(s.filter(f) =~= Seq::<bool>::empty());
    }
}

} // verus!
