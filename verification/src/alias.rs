//! May-alias name sets: conservative, name-based rules rather than a
//! points-to analysis.
//!
//! - a field access shares its base (`order` with `order.status`);
//! - a simple copy `a = b` (one plain defined name, one plain used name)
//!   joins the two names.

use crate::cfg::{CfgModel, ControlFlowGraph, Statement};
use crate::text::{push_char, to_chars};
use vstd::hash_map::StringHashMap;
use vstd::hash_set::StringHashSet;
use vstd::prelude::*;

verus! {

// ---------------------------------------------------------------------------
// Specification
// ---------------------------------------------------------------------------

/// The characters of `s` before the first `c`, when `s` contains `c`.
pub open spec fn before_first(s: Seq<char>, c: char) -> Option<Seq<char>>
    decreases s.len(),
{
    if s.len() == 0 {
        None
    } else if s[0] == c {
        Some(Seq::empty())
    } else {
        match before_first(s.drop_first(), c) {
            Some(t) => Some(seq![s[0]] + t),
            None => None,
        }
    }
}

/// One step of the alias computation: `(false, a, _)` records the name `a`;
/// `(true, a, b)` records both names and joins them.
pub type AliasStep = (bool, Seq<char>, Seq<char>);

/// Steps for one mentioned name: record it, and join it with its base when it is a field access.
pub open spec fn name_steps(name: Seq<char>) -> Seq<AliasStep> {
    match before_first(name, '.') {
        Some(base) => seq![(false, name, name), (true, name, base)],
        None => seq![(false, name, name)],
    }
}

/// Steps for a list of names, in order.
pub open spec fn names_steps(ns: Seq<String>) -> Seq<AliasStep>
    decreases ns.len(),
{
    if ns.len() == 0 {
        Seq::empty()
    } else {
        names_steps(ns.drop_last()) + name_steps(ns.last()@)
    }
}

/// The join step of a simple copy statement (exactly one defined and one used
/// name, neither a field access).
pub open spec fn copy_steps(st: Statement) -> Seq<AliasStep> {
    if st.defined_vars@.len() == 1 && st.used_vars@.len() == 1 && !st.defined_vars@[0]@.contains('.')
        && !st.used_vars@[0]@.contains('.') {
        seq![(true, st.defined_vars@[0]@, st.used_vars@[0]@)]
    } else {
        Seq::empty()
    }
}

/// Steps for one statement.
pub open spec fn stmt_steps(st: Statement) -> Seq<AliasStep> {
    names_steps(st.defined_vars@) + names_steps(st.used_vars@) + copy_steps(st)
}

/// Steps for a list of statements, in order.
pub open spec fn stmts_steps(ss: Seq<Statement>) -> Seq<AliasStep>
    decreases ss.len(),
{
    if ss.len() == 0 {
        Seq::empty()
    } else {
        stmts_steps(ss.drop_last()) + stmt_steps(ss.last())
    }
}

/// Steps for the statements of the blocks, block after block.
pub open spec fn blocks_steps(bs: Seq<Seq<Statement>>) -> Seq<AliasStep>
    decreases bs.len(),
{
    if bs.len() == 0 {
        Seq::empty()
    } else {
        blocks_steps(bs.drop_last()) + stmts_steps(bs.last())
    }
}

/// All steps of the alias computation for `seed` over the graph.
pub open spec fn alias_steps(m: CfgModel, seed: Seq<char>) -> Seq<AliasStep> {
    name_steps(seed) + blocks_steps(m.stmts)
}

/// Names recorded by the steps.
pub open spec fn step_names(steps: Seq<AliasStep>) -> Set<Seq<char>>
    decreases steps.len(),
{
    if steps.len() == 0 {
        Set::empty()
    } else {
        let s = steps.last();
        step_names(steps.drop_last()).insert(s.1).insert(s.2)
    }
}

/// `x` and `y` are joined by the steps: the equivalence closure of the join steps.
pub open spec fn linked(steps: Seq<AliasStep>, x: Seq<char>, y: Seq<char>) -> bool
    decreases steps.len(),
{
    if steps.len() == 0 {
        x == y
    } else {
        let l = steps.drop_last();
        let s = steps.last();
        if !s.0 {
            linked(l, x, y)
        } else {
            linked(l, x, y) || (linked(l, x, s.1) && linked(l, s.2, y)) || (linked(l, x, s.2)
                && linked(l, s.1, y))
        }
    }
}

/// The may-alias set of `seed`: every recorded name joined with `seed`.
pub open spec fn alias_set(m: CfgModel, seed: Seq<char>) -> Set<Seq<char>> {
    let steps = alias_steps(m, seed);
    Set::new(|k: Seq<char>| step_names(steps).contains(k) && linked(steps, seed, k))
}

/// The names recorded by two runs of steps are those of each run.
pub proof fn lemma_step_names_append(a: Seq<AliasStep>, b: Seq<AliasStep>)
    ensures
        step_names(a + b) == step_names(a).union(step_names(b)),
    decreases b.len(),
{
    if b.len() == 0 {
        assert(a + b =~= a);
        assert(step_names(a).union(step_names(b)) =~= step_names(a));
    } else {
        assert((a + b).drop_last() =~= a + b.drop_last());
        lemma_step_names_append(a, b.drop_last());
        assert(step_names(a + b) =~= step_names(a).union(step_names(b)));
    }
}

// ---------------------------------------------------------------------------
// Union-find over interned names
// ---------------------------------------------------------------------------

/// Root of `x`, following parent links while the ghost level rises.
spec fn root(p: Seq<usize>, lv: Seq<nat>, bound: nat, x: int) -> int
    decreases bound - lv[x],
{
    if 0 <= x < p.len() && p[x] != x && lv[x] < lv[p[x] as int] && lv[p[x] as int] <= bound {
        root(p, lv, bound, p[x] as int)
    } else {
        x
    }
}

/// Parent links stay in range and climb strictly in level, below `bound`.
spec fn forest_ok(p: Seq<usize>, lv: Seq<nat>, bound: nat) -> bool {
    &&& lv.len() == p.len()
    &&& forall|x: int| 0 <= x < p.len() ==> #[trigger] p[x] < p.len()
    &&& forall|x: int| 0 <= x < p.len() && #[trigger] p[x] != x ==> lv[x] < lv[p[x] as int]
    &&& forall|x: int| 0 <= x < p.len() ==> #[trigger] lv[x] <= bound
}

proof fn lemma_root_facts(p: Seq<usize>, lv: Seq<nat>, bound: nat, x: int)
    requires
        forest_ok(p, lv, bound),
        0 <= x < p.len(),
    ensures
        0 <= root(p, lv, bound, x) < p.len(),
        p[root(p, lv, bound, x)] == root(p, lv, bound, x),
        lv[x] <= lv[root(p, lv, bound, x)],
        root(p, lv, bound, x) != x ==> lv[x] < lv[root(p, lv, bound, x)],
        p[x] != x ==> root(p, lv, bound, x) == root(p, lv, bound, p[x] as int),
    decreases bound - lv[x],
{
    if p[x] != x {
        lemma_root_facts(p, lv, bound, p[x] as int);
    }
}

/// Re-pointing `x` at its own root changes no root.
proof fn lemma_compress(p: Seq<usize>, lv: Seq<nat>, bound: nat, x: int, y: int)
    requires
        forest_ok(p, lv, bound),
        0 <= x < p.len(),
        0 <= y < p.len(),
    ensures
        forest_ok(p.update(x, root(p, lv, bound, x) as usize), lv, bound),
        root(p.update(x, root(p, lv, bound, x) as usize), lv, bound, y) == root(p, lv, bound, y),
    decreases bound - lv[y],
{
    let r = root(p, lv, bound, x);
    let p2 = p.update(x, r as usize);
    lemma_root_facts(p, lv, bound, x);
    assert forall|z: int| 0 <= z < p2.len() && #[trigger] p2[z] != z implies lv[z] < lv[p2[z] as int] by {}
    assert forall|z: int| 0 <= z < p2.len() implies #[trigger] p2[z] < p2.len() by {}
    if p[y] != y {
        lemma_root_facts(p, lv, bound, y);
        lemma_compress(p, lv, bound, x, p[y] as int);
        if y == x {
            lemma_compress(p, lv, bound, x, r);
        }
    }
}

/// Hanging root `a` under root `b` sends every member of `a`'s tree to `b`.
proof fn lemma_join(p: Seq<usize>, lv: Seq<nat>, bound: nat, a: int, b: int, y: int)
    requires
        forest_ok(p, lv, bound),
        0 <= a < p.len(),
        0 <= b < p.len(),
        a != b,
        p[a] == a,
        p[b] == b,
        0 <= y < p.len(),
    ensures
        ({
            let lv2 = lv.update(b, if lv[b] > lv[a] { lv[b] } else { lv[a] + 1 });
            let bound2 = if bound > lv2[b] { bound } else { lv2[b] };
            let p2 = p.update(a, b as usize);
            &&& forest_ok(p2, lv2, bound2)
            &&& root(p2, lv2, bound2, y) == if root(p, lv, bound, y) == a {
                b
            } else {
                root(p, lv, bound, y)
            }
        }),
    decreases bound - lv[y],
{
    let lv2 = lv.update(b, if lv[b] > lv[a] { lv[b] } else { lv[a] + 1 });
    let bound2 = if bound > lv2[b] { bound } else { lv2[b] };
    let p2 = p.update(a, b as usize);
    assert forall|z: int| 0 <= z < p2.len() && #[trigger] p2[z] != z implies lv2[z] < lv2[p2[z] as int] by {
        if z != a && z != b {
            assert(p[z] != z);
        }
    }
    assert forall|z: int| 0 <= z < p2.len() implies #[trigger] lv2[z] <= bound2 by {}
    assert forall|z: int| 0 <= z < p2.len() implies #[trigger] p2[z] < p2.len() by {}
    lemma_root_facts(p, lv, bound, y);
    if y == a {
        assert(root(p2, lv2, bound2, b) == b);
    } else if p[y] != y {
        lemma_join(p, lv, bound, a, b, p[y] as int);
    }
}

/// A name that no step mentions is joined with itself only.
proof fn lemma_fresh_unlinked(steps: Seq<AliasStep>, z: Seq<char>, y: Seq<char>)
    requires
        !step_names(steps).contains(z),
    ensures
        linked(steps, z, y) <==> z == y,
        linked(steps, y, z) <==> z == y,
    decreases steps.len(),
{
    if steps.len() > 0 {
        let l = steps.drop_last();
        assert(!step_names(l).contains(z));
        lemma_fresh_unlinked(l, z, y);
        let s = steps.last();
        lemma_fresh_unlinked(l, z, s.1);
        lemma_fresh_unlinked(l, z, s.2);
    }
}

/// Interned names and their union-find forest.
struct AliasSets {
    names: Vec<String>,
    index: StringHashMap<usize>,
    parent: Vec<usize>,
    lv: Ghost<Seq<nat>>,
    bound: Ghost<nat>,
    done: Ghost<Seq<AliasStep>>,
}

impl AliasSets {
    spec fn inv(&self) -> bool {
        let n = self.names@.len();
        &&& self.parent@.len() == n
        &&& forest_ok(self.parent@, self.lv@, self.bound@)
        &&& forall|i: int, j: int|
            0 <= i < n && 0 <= j < n && i != j ==> self.names@[i]@ != self.names@[j]@
        &&& forall|i: int| 0 <= i < n ==> #[trigger] self.index@.contains_key(self.names@[i]@)
            && self.index@[self.names@[i]@] == i
        &&& forall|k: Seq<char>| #[trigger] self.index@.contains_key(k) ==> step_names(self.done@).contains(k)
        &&& forall|k: Seq<char>| step_names(self.done@).contains(k) ==> #[trigger] self.index@.contains_key(k)
        &&& forall|k: Seq<char>| #[trigger] self.index@.contains_key(k) ==> 0 <= self.index@[k] < n
            && self.names@[self.index@[k] as int]@ == k
        &&& forall|i: int, j: int|
            0 <= i < n && 0 <= j < n ==> (root(self.parent@, self.lv@, self.bound@, i) == root(
                self.parent@,
                self.lv@,
                self.bound@,
                j,
            ) <==> linked(self.done@, self.names@[i]@, self.names@[j]@))
    }

    spec fn root_of(&self, i: int) -> int {
        root(self.parent@, self.lv@, self.bound@, i)
    }

    fn new() -> (s: Self)
        ensures
            s.inv(),
            s.done@ == Seq::<AliasStep>::empty(),
    {
        AliasSets {
            names: Vec::new(),
            index: StringHashMap::new(),
            parent: Vec::new(),
            lv: Ghost(Seq::empty()),
            bound: Ghost(0),
            done: Ghost(Seq::empty()),
        }
    }

    /// Record `name`, returning its index.
    fn touch(&mut self, name: &str) -> (i: usize)
        requires
            old(self).inv(),
        ensures
            final(self).inv(),
            final(self).done@ == old(self).done@.push((false, name@, name@)),
            i < final(self).names@.len(),
            final(self).names@[i as int]@ == name@,
            final(self).names@.len() >= old(self).names@.len(),
            forall|j: int| 0 <= j < old(self).names@.len() ==> final(self).names@[j] == old(self).names@[j],
    {
        let ghost d2 = self.done@.push((false, name@, name@));
        proof {
            assert(d2.drop_last() =~= self.done@);
            assert forall|k: Seq<char>| step_names(d2).contains(k) <==> (step_names(self.done@).contains(k) || k == name@) by {}
        }
        match self.index.get(name) {
            Some(i) => {
                let i = *i;
                proof {
                    let d0 = self.done@;
                    self.done@ = d2;
                    assert forall|a: int, b: int|
                        0 <= a < self.names@.len() && 0 <= b < self.names@.len() implies (self.root_of(a) == self.root_of(b)
                            <==> linked(self.done@, self.names@[a]@, self.names@[b]@)) by {
                        assert(linked(d2, self.names@[a]@, self.names@[b]@) == linked(d0, self.names@[a]@, self.names@[b]@));
                    }
                }
                i
            },
            None => {
                let n = self.names.len();
                let ghost old_self = *self;
                proof {
                    assert(!step_names(old_self.done@).contains(name@));
                }
                self.names.push(name.to_owned());
                self.index.insert(name.to_owned(), n);
                self.parent.push(n);
                proof {
                    self.lv@ = self.lv@.push(0);
                    self.done@ = d2;
                    let p = self.parent@;
                    let lv = self.lv@;
                    let bd = self.bound@;
                    assert(forest_ok(p, lv, bd)) by {
                        assert forall|x: int| 0 <= x < p.len() implies #[trigger] p[x] < p.len() by {
                            if x < n {
                                assert(old_self.parent@[x] < n);
                            }
                        }
                        assert forall|x: int| 0 <= x < p.len() && #[trigger] p[x] != x implies lv[x] < lv[p[x] as int] by {
                            assert(old_self.parent@[x] != x);
                        }
                        assert forall|x: int| 0 <= x < p.len() implies #[trigger] lv[x] <= bd by {
                            if x < n {
                                assert(old_self.lv@[x] <= bd);
                            }
                        }
                    }
                    assert forall|x: int| 0 <= x < n implies #[trigger] root(p, lv, bd, x) == root(old_self.parent@, old_self.lv@, bd, x) by {
                        lemma_root_extend(old_self.parent@, old_self.lv@, bd, x);
                    }
                    assert(root(p, lv, bd, n as int) == n);
                    assert forall|a: int, b: int|
                        0 <= a < self.names@.len() && 0 <= b < self.names@.len() implies (self.root_of(a) == self.root_of(b)
                            <==> linked(self.done@, self.names@[a]@, self.names@[b]@)) by {
                        let na = self.names@[a]@;
                        let nb = self.names@[b]@;
                        assert(linked(d2, na, nb) == linked(old_self.done@, na, nb));
                        if a < n {
                            lemma_root_facts(old_self.parent@, old_self.lv@, bd, a);
                        }
                        if b < n {
                            lemma_root_facts(old_self.parent@, old_self.lv@, bd, b);
                        }
                        if a == n || b == n {
                            lemma_fresh_unlinked(old_self.done@, name@, if a == n { nb } else { na });
                            if a == n && b != n {
                                assert(old_self.names@[b]@ != name@);
                            }
                            if b == n && a != n {
                                assert(old_self.names@[a]@ != name@);
                            }
                        }
                    }
                    assert forall|k: Seq<char>| #[trigger] self.index@.contains_key(k) implies 0 <= self.index@[k] < self.names@.len()
                        && self.names@[self.index@[k] as int]@ == k by {
                        if k != name@ {
                            assert(old_self.index@.contains_key(k));
                        }
                    }
                    assert forall|i: int| 0 <= i < self.names@.len() implies #[trigger] self.index@.contains_key(self.names@[i]@)
                        && self.index@[self.names@[i]@] == i by {
                        if i < n {
                            assert(old_self.names@[i]@ != name@) by {
                                assert(old_self.index@.contains_key(old_self.names@[i]@));
                            }
                        }
                    }
                    assert forall|i: int, j: int|
                        0 <= i < self.names@.len() && 0 <= j < self.names@.len() && i != j implies self.names@[i]@ != self.names@[j]@ by {
                        if i < n && j == n {
                            assert(old_self.index@.contains_key(old_self.names@[i]@));
                        }
                        if j < n && i == n {
                            assert(old_self.index@.contains_key(old_self.names@[j]@));
                        }
                    }
                }
                n
            },
        }
    }

    /// Root of `x`, pointing `x` and the blocks above it at that root.
    fn find(&mut self, x: usize) -> (r: usize)
        requires
            old(self).inv(),
            x < old(self).names@.len(),
        ensures
            final(self).inv(),
            final(self).names@ == old(self).names@,
            final(self).done@ == old(self).done@,
            forall|i: int| 0 <= i < final(self).names@.len() ==> final(self).root_of(i) == old(self).root_of(i),
            r as int == old(self).root_of(x as int),
            r < final(self).names@.len(),
        decreases old(self).bound@ - old(self).lv@[x as int],
    {
        proof {
            lemma_root_facts(self.parent@, self.lv@, self.bound@, x as int);
        }
        let p = self.parent[x];
        if p == x {
            return x;
        }
        let ghost pre = *self;
        let r = self.find(p);
        let ghost mid = *self;
        proof {
            assert(r as int == mid.root_of(x as int)) by {
                assert(mid.root_of(x as int) == pre.root_of(x as int));
            }
            lemma_root_facts(mid.parent@, mid.lv@, mid.bound@, x as int);
            assert forall|i: int| 0 <= i < self.names@.len() implies #[trigger] root(mid.parent@.update(x as int, r), mid.lv@, mid.bound@, i) == mid.root_of(i) by {
                lemma_compress(mid.parent@, mid.lv@, mid.bound@, x as int, i);
            }
            lemma_compress(mid.parent@, mid.lv@, mid.bound@, x as int, 0);
        }
        self.parent.set(x, r);
        proof {
            assert(self.parent@ == mid.parent@.update(x as int, r));
        }
        r
    }

    /// Record both names and join them.
    fn union(&mut self, a: &str, b: &str)
        requires
            old(self).inv(),
        ensures
            final(self).inv(),
            final(self).done@ == old(self).done@.push((true, a@, b@)),
    {
        let ghost d0 = self.done@;
        let ia = self.touch(a);
        proof {
            lemma_linked_record(d0, a@);
        }
        let ib = self.touch(b);
        proof {
            lemma_linked_record(d0.push((false, a@, a@)), b@);
        }
        let ra = self.find(ia);
        let rb = self.find(ib);
        let ghost before = *self;
        let ghost d2 = d0.push((true, a@, b@));
        proof {
            assert forall|u: Seq<char>, v: Seq<char>| linked(before.done@, u, v) == linked(d0, u, v) by {
                assert(linked(d0.push((false, a@, a@)).push((false, b@, b@)), u, v) == linked(d0.push((false, a@, a@)), u, v));
                assert(linked(d0.push((false, a@, a@)), u, v) == linked(d0, u, v));
            }
            lemma_root_facts(self.parent@, self.lv@, self.bound@, ia as int);
            lemma_root_facts(self.parent@, self.lv@, self.bound@, ib as int);
            assert(d2.drop_last() == d0);
            assert forall|k: Seq<char>| step_names(d2).contains(k) <==> step_names(self.done@).contains(k) by {}
        }
        if ra != rb {
            self.parent.set(ra, rb);
            proof {
                let p = before.parent@;
                let lv = before.lv@;
                let bd = before.bound@;
                let lv2 = lv.update(rb as int, if lv[rb as int] > lv[ra as int] { lv[rb as int] } else { lv[ra as int] + 1 });
                let bound2 = if bd > lv2[rb as int] { bd } else { lv2[rb as int] };
                self.lv@ = lv2;
                self.bound@ = bound2;
                self.done@ = d2;
                assert(self.parent@ == p.update(ra as int, rb));
                lemma_join(p, lv, bd, ra as int, rb as int, 0);
                assert forall|i: int, j: int|
                    0 <= i < self.names@.len() && 0 <= j < self.names@.len() implies (self.root_of(i) == self.root_of(j)
                        <==> linked(self.done@, self.names@[i]@, self.names@[j]@)) by {
                    lemma_join(p, lv, bd, ra as int, rb as int, i);
                    lemma_join(p, lv, bd, ra as int, rb as int, j);
                    lemma_root_facts(p, lv, bd, i);
                    lemma_root_facts(p, lv, bd, j);
                    let ni = self.names@[i]@;
                    let nj = self.names@[j]@;
                    before.lemma_linked_roots(d0, i, j);
                    before.lemma_linked_roots(d0, i, ia as int);
                    before.lemma_linked_roots(d0, ib as int, j);
                    before.lemma_linked_roots(d0, i, ib as int);
                    before.lemma_linked_roots(d0, ia as int, j);
                }
            }
        } else {
            proof {
                self.done@ = d2;
                assert forall|i: int, j: int|
                    0 <= i < self.names@.len() && 0 <= j < self.names@.len() implies (self.root_of(i) == self.root_of(j)
                        <==> linked(self.done@, self.names@[i]@, self.names@[j]@)) by {
                    let ni = self.names@[i]@;
                    let nj = self.names@[j]@;
                    before.lemma_linked_roots(d0, i, j);
                    before.lemma_linked_roots(d0, i, ia as int);
                    before.lemma_linked_roots(d0, ib as int, j);
                    before.lemma_linked_roots(d0, i, ib as int);
                    before.lemma_linked_roots(d0, ia as int, j);
                }
            }
        }
    }

    /// Two recorded names share a root exactly when the steps, read without
    /// their trailing records, join them.
    proof fn lemma_linked_roots(&self, d0: Seq<AliasStep>, i: int, j: int)
        requires
            self.inv(),
            0 <= i < self.names@.len(),
            0 <= j < self.names@.len(),
            forall|u: Seq<char>, v: Seq<char>| linked(self.done@, u, v) == linked(d0, u, v),
        ensures
            self.root_of(i) == self.root_of(j) <==> linked(d0, self.names@[i]@, self.names@[j]@),
    {
        assert(linked(self.done@, self.names@[i]@, self.names@[j]@) == linked(d0, self.names@[i]@, self.names@[j]@));
    }

    /// Index of `name`, when it has been recorded.
    fn index_of(&self, name: &str) -> (r: Option<usize>)
        requires
            self.inv(),
        ensures
            r matches Some(i) ==> i < self.names@.len() && self.names@[i as int]@ == name@,
            r is None ==> !step_names(self.done@).contains(name@),
    {
        match self.index.get(name) {
            Some(i) => Some(*i),
            None => None,
        }
    }
}

/// A step that only records a name joins nothing.
proof fn lemma_linked_record(d: Seq<AliasStep>, x: Seq<char>)
    ensures
        forall|u: Seq<char>, v: Seq<char>| #[trigger] linked(d.push((false, x, x)), u, v) == linked(d, u, v),
        forall|k: Seq<char>| #[trigger] step_names(d.push((false, x, x))).contains(k) == (step_names(d).contains(k) || k == x),
{
    assert(d.push((false, x, x)).drop_last() == d);
}

/// Where the first `c` stands in `s`, once no earlier character is `c`.
proof fn lemma_before_first_at(s: Seq<char>, c: char, i: int)
    requires
        0 <= i <= s.len(),
        forall|j: int| 0 <= j < i ==> s[j] != c,
    ensures
        i < s.len() && s[i] == c ==> before_first(s, c) == Some(s.take(i)),
        i == s.len() ==> before_first(s, c) is None,
    decreases i,
{
    if i > 0 {
        lemma_before_first_at(s.drop_first(), c, i - 1);
        if i < s.len() && s[i] == c {
            assert(seq![s[0]] + s.drop_first().take(i - 1) =~= s.take(i));
        }
    } else if s.len() > 0 {
        assert(s.take(0) =~= Seq::<char>::empty());
    }
}

/// The part of `s` before its first `.`, when `s` has one.
fn split_base(s: &str) -> (r: Option<String>)
    ensures
        r matches Some(b) ==> before_first(s@, '.') == Some(b@),
        r is None ==> before_first(s@, '.') is None,
        r is Some <==> s@.contains('.'),
{
    let cs = to_chars(s);
    let mut i: usize = 0;
    while i < cs.len()
        invariant
            cs@ == s@,
            i <= cs@.len(),
            forall|j: int| 0 <= j < i ==> cs@[j] != '.',
        decreases cs@.len() - i,
    {
        if cs[i] == '.' {
            proof {
                lemma_before_first_at(s@, '.', i as int);
                assert(s@[i as int] == '.');
            }
            let mut base = String::new();
            let mut k: usize = 0;
            while k < i
                invariant
                    cs@ == s@,
                    k <= i < cs@.len(),
                    base@ == cs@.take(k as int),
                decreases i - k,
            {
                push_char(&mut base, cs[k]);
                proof {
                    assert(cs@.take(k + 1) =~= cs@.take(k as int).push(cs@[k as int]));
                }
                k = k + 1;
            }
            return Some(base);
        }
        i = i + 1;
    }
    proof {
        lemma_before_first_at(s@, '.', i as int);
    }
    None
}

/// Adding a fresh singleton changes no existing root.
proof fn lemma_root_extend(p: Seq<usize>, lv: Seq<nat>, bound: nat, x: int)
    requires
        forest_ok(p, lv, bound),
        0 <= x < p.len(),
    ensures
        root(p.push(p.len() as usize), lv.push(0), bound, x) == root(p, lv, bound, x),
    decreases bound - lv[x],
{
    if p[x] != x {
        lemma_root_extend(p, lv, bound, p[x] as int);
    }
}

/// Record each name, joining a field access with its base.
fn record_names(sets: &mut AliasSets, names: &Vec<String>)
    requires
        old(sets).inv(),
    ensures
        final(sets).inv(),
        final(sets).done@ == old(sets).done@ + names_steps(names@),
{
    let ghost d_start = sets.done@;
    let mut i: usize = 0;
    while i < names.len()
        invariant
            sets.inv(),
            i <= names@.len(),
            sets.done@ == d_start + names_steps(names@.take(i as int)),
        decreases names@.len() - i,
    {
        let name = names[i].as_str();
        let ghost d_before = sets.done@;
        sets.touch(name);
        match split_base(name) {
            Some(base) => {
                sets.union(name, base.as_str());
            },
            None => {},
        }
        proof {
            assert(names@.take(i + 1).drop_last() =~= names@.take(i as int));
            assert(names@.take(i + 1).last() == names@[i as int]);
            assert(sets.done@ =~= d_before + name_steps(names@[i as int]@));
            assert(d_start + names_steps(names@.take(i + 1)) =~= d_start + names_steps(names@.take(i as int))
                + name_steps(names@[i as int]@));
        }
        i = i + 1;
    }
    proof {
        assert(names@.take(names@.len() as int) =~= names@);
    }
}

/// Record the names of one statement, and join the two sides of a simple copy.
fn record_statement(sets: &mut AliasSets, st: &Statement)
    requires
        old(sets).inv(),
    ensures
        final(sets).inv(),
        final(sets).done@ == old(sets).done@ + stmt_steps(*st),
{
    let ghost d_start = sets.done@;
    record_names(sets, &st.defined_vars);
    record_names(sets, &st.used_vars);
    let ghost d_mid = sets.done@;
    if st.defined_vars.len() == 1 && st.used_vars.len() == 1 {
        let d = st.defined_vars[0].as_str();
        let u = st.used_vars[0].as_str();
        if split_base(d).is_none() && split_base(u).is_none() {
            sets.union(d, u);
        }
    }
    proof {
        assert(sets.done@ =~= d_mid + copy_steps(*st));
        assert(d_start + stmt_steps(*st) =~= d_start + names_steps(st.defined_vars@) + names_steps(st.used_vars@)
            + copy_steps(*st));
    }
}

/// Expand `seed` to its may-alias name set: every name that the statements of
/// the graph mention (and `seed` itself) which field accesses and simple copies
/// join with `seed`.
pub fn may_alias_names(cfg: &ControlFlowGraph, seed: &str) -> (names: StringHashSet)
    requires
        cfg.wf(),
    ensures
        names@ == alias_set(cfg@, seed@),
{
    let mut sets = AliasSets::new();
    sets.touch(seed);
    match split_base(seed) {
        Some(base) => {
            sets.union(seed, base.as_str());
        },
        None => {},
    }
    proof {
        assert(sets.done@ =~= name_steps(seed@));
        assert(name_steps(seed@) + blocks_steps(cfg@.stmts.take(0)) =~= name_steps(seed@)) by {
            assert(blocks_steps(cfg@.stmts.take(0)) =~= Seq::<AliasStep>::empty());
        }
    }
    let n = cfg.block_count();
    let mut b: usize = 0;
    while b < n
        invariant
            cfg.wf(),
            n == cfg@.n(),
            b <= n,
            sets.inv(),
            sets.done@ == name_steps(seed@) + blocks_steps(cfg@.stmts.take(b as int)),
        decreases n - b,
    {
        let stmts = cfg.statements(b);
        let ghost d_block = sets.done@;
        let mut k: usize = 0;
        proof {
            assert(d_block + stmts_steps(stmts@.take(0)) =~= d_block) by {
                assert(stmts@.take(0) =~= Seq::<Statement>::empty());
            }
        }
        while k < stmts.len()
            invariant
                sets.inv(),
                k <= stmts@.len(),
                sets.done@ == d_block + stmts_steps(stmts@.take(k as int)),
            decreases stmts@.len() - k,
        {
            let ghost d_before = sets.done@;
            record_statement(&mut sets, &stmts[k]);
            proof {
                assert(stmts@.take(k + 1).drop_last() =~= stmts@.take(k as int));
                assert(stmts@.take(k + 1).last() == stmts@[k as int]);
                assert(d_block + stmts_steps(stmts@.take(k + 1)) =~= d_before + stmt_steps(stmts@[k as int]));
            }
            k = k + 1;
        }
        proof {
            assert(stmts@.take(stmts@.len() as int) =~= stmts@);
            assert(cfg@.stmts.take(b + 1).drop_last() =~= cfg@.stmts.take(b as int));
            assert(cfg@.stmts.take(b + 1).last() == cfg@.stmts[b as int]);
            assert(name_steps(seed@) + blocks_steps(cfg@.stmts.take(b + 1)) =~= sets.done@);
        }
        b = b + 1;
    }
    proof {
        assert(cfg@.stmts.take(n as int) =~= cfg@.stmts);
        lemma_step_names_append(name_steps(seed@), blocks_steps(cfg@.stmts));
        assert(step_names(name_steps(seed@)).contains(seed@));
    }
    let ghost steps = sets.done@;
    let mut out = StringHashSet::new();
    let found = sets.index_of(seed);
    if let Some(si) = found {
        let root = sets.find(si);
        let ghost s0 = sets;
        let count = sets.names.len();
        let mut j: usize = 0;
        while j < count
            invariant
                sets.inv(),
                sets.names@ == s0.names@,
                sets.done@ == steps,
                s0.done@ == steps,
                s0.inv(),
                count == s0.names@.len(),
                forall|i: int| 0 <= i < count ==> sets.root_of(i) == s0.root_of(i),
                si < count,
                s0.names@[si as int]@ == seed@,
                root == s0.root_of(si as int),
                j <= count,
                forall|k: Seq<char>| out@.contains(k) <==> exists|i: int|
                    0 <= i < j && #[trigger] s0.names@[i]@ == k && s0.root_of(i) == s0.root_of(si as int),
            decreases count - j,
        {
            let rj = sets.find(j);
            if rj == root {
                let nm = sets.names[j].clone();
                out.insert(nm);
            }
            proof {
                assert forall|k: Seq<char>| out@.contains(k) <==> exists|i: int|
                    0 <= i < j + 1 && #[trigger] s0.names@[i]@ == k && s0.root_of(i) == s0.root_of(si as int) by {
                    if exists|i: int| 0 <= i < j + 1 && #[trigger] s0.names@[i]@ == k && s0.root_of(i) == s0.root_of(si as int) {
                        let i = choose|i: int| 0 <= i < j + 1 && #[trigger] s0.names@[i]@ == k && s0.root_of(i) == s0.root_of(si as int);
                        if i < j {
                        }
                    }
                }
            }
            j = j + 1;
        }
        proof {
            assert forall|k: Seq<char>| #[trigger] out@.contains(k) <==> alias_set(cfg@, seed@).contains(k) by {
                if out@.contains(k) {
                    let i = choose|i: int| 0 <= i < count && #[trigger] s0.names@[i]@ == k && s0.root_of(i) == s0.root_of(si as int);
                    assert(s0.index@.contains_key(s0.names@[i]@));
                    assert(linked(steps, s0.names@[si as int]@, s0.names@[i]@));
                }
                if alias_set(cfg@, seed@).contains(k) {
                    assert(s0.index@.contains_key(k));
                    let i = s0.index@[k] as int;
                    assert(s0.names@[i]@ == k);
                    assert(linked(steps, s0.names@[si as int]@, s0.names@[i]@));
                }
            }
            assert(out@ =~= alias_set(cfg@, seed@));
        }
    }
    out
}

// ---------------------------------------------------------------------------
// Laws
// ---------------------------------------------------------------------------

/// Every name is joined with itself.
pub proof fn lemma_linked_refl(steps: Seq<AliasStep>, x: Seq<char>)
    ensures
        linked(steps, x, x),
    decreases steps.len(),
{
    if steps.len() > 0 {
        lemma_linked_refl(steps.drop_last(), x);
    }
}

/// Joining is symmetric.
pub proof fn lemma_linked_sym(steps: Seq<AliasStep>, x: Seq<char>, y: Seq<char>)
    requires
        linked(steps, x, y),
    ensures
        linked(steps, y, x),
    decreases steps.len(),
{
    if steps.len() > 0 {
        let l = steps.drop_last();
        let s = steps.last();
        if linked(l, x, y) {
            lemma_linked_sym(l, x, y);
        } else if s.0 {
            if linked(l, x, s.1) && linked(l, s.2, y) {
                lemma_linked_sym(l, x, s.1);
                lemma_linked_sym(l, s.2, y);
            } else {
                lemma_linked_sym(l, x, s.2);
                lemma_linked_sym(l, s.1, y);
            }
        }
    }
}

/// Joining is transitive.
pub proof fn lemma_linked_trans(steps: Seq<AliasStep>, x: Seq<char>, y: Seq<char>, z: Seq<char>)
    requires
        linked(steps, x, y),
        linked(steps, y, z),
    ensures
        linked(steps, x, z),
    decreases steps.len(),
{
    if steps.len() > 0 {
        let l = steps.drop_last();
        let s = steps.last();
        if !s.0 {
            lemma_linked_trans(l, x, y, z);
        } else {
            let a = s.1;
            let b = s.2;
            lemma_linked_refl(l, a);
            lemma_linked_refl(l, b);
            let xy = linked(l, x, y);
            let xy2 = linked(l, x, a) && linked(l, b, y);
            let yz = linked(l, y, z);
            let yz2 = linked(l, y, a) && linked(l, b, z);
            if xy {
                if yz {
                    lemma_linked_trans(l, x, y, z);
                } else if yz2 {
                    lemma_linked_trans(l, x, y, a);
                } else {
                    assert(linked(l, y, b) && linked(l, a, z));
                    lemma_linked_trans(l, x, y, b);
                }
            } else if xy2 {
                if yz {
                    lemma_linked_trans(l, b, y, z);
                } else if yz2 {
                } else {
                    assert(linked(l, y, b) && linked(l, a, z));
                    lemma_linked_trans(l, x, a, z);
                }
            } else {
                assert(linked(l, x, b) && linked(l, a, y));
                if yz {
                    lemma_linked_trans(l, a, y, z);
                } else if yz2 {
                    lemma_linked_trans(l, x, b, z);
                } else {
                }
            }
        }
    }
}

/// Later steps never undo a join.
pub proof fn lemma_linked_mono(steps: Seq<AliasStep>, extra: Seq<AliasStep>, x: Seq<char>, y: Seq<char>)
    requires
        linked(steps, x, y),
    ensures
        linked(steps + extra, x, y),
    decreases extra.len(),
{
    if extra.len() > 0 {
        assert((steps + extra).drop_last() =~= steps + extra.drop_last());
        lemma_linked_mono(steps, extra.drop_last(), x, y);
    }
}

/// A join step joins its two names, and both are recorded.
proof fn lemma_join_step(steps: Seq<AliasStep>, i: int)
    requires
        0 <= i < steps.len(),
        steps[i].0,
    ensures
        linked(steps, steps[i].1, steps[i].2),
        step_names(steps).contains(steps[i].1),
        step_names(steps).contains(steps[i].2),
{
    let pre = steps.take(i + 1);
    assert(pre.drop_last() =~= steps.take(i));
    lemma_linked_refl(steps.take(i), steps[i].1);
    lemma_linked_refl(steps.take(i), steps[i].2);
    assert(linked(pre, steps[i].1, steps[i].2));
    assert(steps =~= pre + steps.skip(i + 1));
    lemma_linked_mono(pre, steps.skip(i + 1), steps[i].1, steps[i].2);
    lemma_step_names_append(pre, steps.skip(i + 1));
}

/// The steps of a name list include those of each of its names.
proof fn lemma_names_steps_contain(ns: Seq<String>, k: int, x: AliasStep)
    requires
        0 <= k < ns.len(),
        name_steps(ns[k]@).contains(x),
    ensures
        names_steps(ns).contains(x),
    decreases ns.len(),
{
    if k == ns.len() - 1 {
        let a = names_steps(ns.drop_last());
        let j = choose|j: int| 0 <= j < name_steps(ns[k]@).len() && name_steps(ns[k]@)[j] == x;
        assert((a + name_steps(ns.last()@))[a.len() + j] == x);
    } else {
        lemma_names_steps_contain(ns.drop_last(), k, x);
        let a = names_steps(ns.drop_last());
        let j = choose|j: int| 0 <= j < a.len() && a[j] == x;
        assert((a + name_steps(ns.last()@))[j] == x);
    }
}

/// The steps of a statement list include those of each of its statements.
proof fn lemma_stmts_steps_contain(ss: Seq<Statement>, k: int, x: AliasStep)
    requires
        0 <= k < ss.len(),
        stmt_steps(ss[k]).contains(x),
    ensures
        stmts_steps(ss).contains(x),
    decreases ss.len(),
{
    let a = stmts_steps(ss.drop_last());
    if k == ss.len() - 1 {
        let j = choose|j: int| 0 <= j < stmt_steps(ss[k]).len() && stmt_steps(ss[k])[j] == x;
        assert((a + stmt_steps(ss.last()))[a.len() + j] == x);
    } else {
        lemma_stmts_steps_contain(ss.drop_last(), k, x);
        let j = choose|j: int| 0 <= j < a.len() && a[j] == x;
        assert((a + stmt_steps(ss.last()))[j] == x);
    }
}

/// The steps of the blocks include those of each statement of each block.
proof fn lemma_blocks_steps_contain(bs: Seq<Seq<Statement>>, b: int, x: AliasStep)
    requires
        0 <= b < bs.len(),
        stmts_steps(bs[b]).contains(x),
    ensures
        blocks_steps(bs).contains(x),
    decreases bs.len(),
{
    let a = blocks_steps(bs.drop_last());
    if b == bs.len() - 1 {
        let j = choose|j: int| 0 <= j < stmts_steps(bs[b]).len() && stmts_steps(bs[b])[j] == x;
        assert((a + stmts_steps(bs.last()))[a.len() + j] == x);
    } else {
        lemma_blocks_steps_contain(bs.drop_last(), b, x);
        let j = choose|j: int| 0 <= j < a.len() && a[j] == x;
        assert((a + stmts_steps(bs.last()))[j] == x);
    }
}

/// Two joined, recorded names have the same may-alias membership.
proof fn lemma_alias_set_joined(m: CfgModel, seed: Seq<char>, x: AliasStep)
    requires
        alias_steps(m, seed).contains(x),
        x.0,
    ensures
        alias_set(m, seed).contains(x.1) <==> alias_set(m, seed).contains(x.2),
{
    let steps = alias_steps(m, seed);
    let i = choose|i: int| 0 <= i < steps.len() && steps[i] == x;
    lemma_join_step(steps, i);
    lemma_linked_sym(steps, x.1, x.2);
    if linked(steps, seed, x.1) {
        lemma_linked_trans(steps, seed, x.1, x.2);
    }
    if linked(steps, seed, x.2) {
        lemma_linked_trans(steps, seed, x.2, x.1);
    }
}

/// The seed is always in its own may-alias set.
pub proof fn lemma_alias_set_contains_seed(m: CfgModel, seed: Seq<char>)
    ensures
        alias_set(m, seed).contains(seed),
{
    let steps = alias_steps(m, seed);
    lemma_step_names_append(name_steps(seed), blocks_steps(m.stmts));
    assert(step_names(name_steps(seed)).contains(seed));
    lemma_linked_refl(steps, seed);
}

/// A seed that is a field access `base.field` aliases its base.
pub proof fn lemma_alias_set_seed_base(m: CfgModel, seed: Seq<char>, base: Seq<char>)
    requires
        before_first(seed, '.') == Some(base),
    ensures
        alias_set(m, seed).contains(base),
{
    let x = (true, seed, base);
    assert(name_steps(seed)[1] == x);
    assert((name_steps(seed) + blocks_steps(m.stmts))[1] == x);
    lemma_alias_set_contains_seed(m, seed);
    lemma_alias_set_joined(m, seed, x);
}

/// A simple copy `d = u` in block `b` (one plain defined name, one plain used
/// name) puts `d` and `u` in the same may-alias sets.
pub proof fn lemma_alias_set_copy(m: CfgModel, seed: Seq<char>, b: int, k: int)
    requires
        0 <= b < m.stmts.len(),
        0 <= k < m.stmts[b].len(),
        m.stmts[b][k].defined_vars@.len() == 1,
        m.stmts[b][k].used_vars@.len() == 1,
        !m.stmts[b][k].defined_vars@[0]@.contains('.'),
        !m.stmts[b][k].used_vars@[0]@.contains('.'),
    ensures
        alias_set(m, seed).contains(m.stmts[b][k].defined_vars@[0]@) <==> alias_set(m, seed).contains(
            m.stmts[b][k].used_vars@[0]@,
        ),
{
    let st = m.stmts[b][k];
    let x = (true, st.defined_vars@[0]@, st.used_vars@[0]@);
    let pre = names_steps(st.defined_vars@) + names_steps(st.used_vars@);
    assert(stmt_steps(st)[pre.len() as int] == x);
    lemma_stmts_steps_contain(m.stmts[b], k, x);
    lemma_blocks_steps_contain(m.stmts, b, x);
    let bs = blocks_steps(m.stmts);
    let j = choose|j: int| 0 <= j < bs.len() && bs[j] == x;
    assert((name_steps(seed) + bs)[name_steps(seed).len() + j] == x);
    lemma_alias_set_joined(m, seed, x);
}

/// A field access `base.field` mentioned by a statement of block `b` (as a
/// defined name) has the same may-alias membership as its base.
pub proof fn lemma_alias_set_defined_field(m: CfgModel, seed: Seq<char>, b: int, k: int, v: int, base: Seq<char>)
    requires
        0 <= b < m.stmts.len(),
        0 <= k < m.stmts[b].len(),
        0 <= v < m.stmts[b][k].defined_vars@.len(),
        before_first(m.stmts[b][k].defined_vars@[v]@, '.') == Some(base),
    ensures
        alias_set(m, seed).contains(m.stmts[b][k].defined_vars@[v]@) <==> alias_set(m, seed).contains(base),
{
    let st = m.stmts[b][k];
    let name = st.defined_vars@[v]@;
    let x = (true, name, base);
    assert(name_steps(name)[1] == x);
    lemma_names_steps_contain(st.defined_vars@, v, x);
    let d = names_steps(st.defined_vars@);
    let j0 = choose|j: int| 0 <= j < d.len() && d[j] == x;
    assert(stmt_steps(st)[j0] == x);
    lemma_stmts_steps_contain(m.stmts[b], k, x);
    lemma_blocks_steps_contain(m.stmts, b, x);
    let bs = blocks_steps(m.stmts);
    let j = choose|j: int| 0 <= j < bs.len() && bs[j] == x;
    assert((name_steps(seed) + bs)[name_steps(seed).len() + j] == x);
    lemma_alias_set_joined(m, seed, x);
}

/// A field access `base.field` read by a statement of block `b` has the same
/// may-alias membership as its base.
pub proof fn lemma_alias_set_used_field(m: CfgModel, seed: Seq<char>, b: int, k: int, v: int, base: Seq<char>)
    requires
        0 <= b < m.stmts.len(),
        0 <= k < m.stmts[b].len(),
        0 <= v < m.stmts[b][k].used_vars@.len(),
        before_first(m.stmts[b][k].used_vars@[v]@, '.') == Some(base),
    ensures
        alias_set(m, seed).contains(m.stmts[b][k].used_vars@[v]@) <==> alias_set(m, seed).contains(base),
{
    let st = m.stmts[b][k];
    let name = st.used_vars@[v]@;
    let x = (true, name, base);
    assert(name_steps(name)[1] == x);
    lemma_names_steps_contain(st.used_vars@, v, x);
    let d = names_steps(st.defined_vars@);
    let u = names_steps(st.used_vars@);
    let j0 = choose|j: int| 0 <= j < u.len() && u[j] == x;
    assert(stmt_steps(st)[d.len() + j0] == x);
    lemma_stmts_steps_contain(m.stmts[b], k, x);
    lemma_blocks_steps_contain(m.stmts, b, x);
    let bs = blocks_steps(m.stmts);
    let j = choose|j: int| 0 <= j < bs.len() && bs[j] == x;
    assert((name_steps(seed) + bs)[name_steps(seed).len() + j] == x);
    lemma_alias_set_joined(m, seed, x);
}


/// The names in a list, as plain values.
pub open spec fn name_texts(ns: Seq<String>) -> Seq<Seq<char>> {
    ns.map_values(|s: String| s@)
}

/// `name` is mentioned by a statement of the graph: defined or used by it.
pub open spec fn mentioned(m: CfgModel, name: Seq<char>) -> bool {
    exists|b: int, k: int|
        0 <= b < m.stmts.len() && 0 <= k < m.stmts[b].len() && (name_texts(
            #[trigger] m.stmts[b][k].defined_vars@,
        ).contains(name) || name_texts(m.stmts[b][k].used_vars@).contains(name))
}

/// A step of a run records its names.
proof fn lemma_step_recorded(steps: Seq<AliasStep>, i: int)
    requires
        0 <= i < steps.len(),
    ensures
        step_names(steps).contains(steps[i].1),
        step_names(steps).contains(steps[i].2),
{
    let pre = steps.take(i + 1);
    assert(pre.drop_last() =~= steps.take(i));
    assert(steps =~= pre + steps.skip(i + 1));
    lemma_step_names_append(pre, steps.skip(i + 1));
}

/// The steps of a mentioned name are steps of the graph.
proof fn lemma_mentioned_steps(m: CfgModel, name: Seq<char>, x: AliasStep)
    requires
        mentioned(m, name),
        name_steps(name).contains(x),
    ensures
        blocks_steps(m.stmts).contains(x),
{
    let (b, k) = choose|b: int, k: int|
        0 <= b < m.stmts.len() && 0 <= k < m.stmts[b].len() && (name_texts(
            #[trigger] m.stmts[b][k].defined_vars@,
        ).contains(name) || name_texts(m.stmts[b][k].used_vars@).contains(name));
    let st = m.stmts[b][k];
    let d = names_steps(st.defined_vars@);
    let u = names_steps(st.used_vars@);
    if name_texts(st.defined_vars@).contains(name) {
        let v = choose|v: int| 0 <= v < name_texts(st.defined_vars@).len() && name_texts(st.defined_vars@)[v] == name;
        lemma_names_steps_contain(st.defined_vars@, v, x);
        let j = choose|j: int| 0 <= j < d.len() && d[j] == x;
        assert((d + u + copy_steps(st))[j] == x);
    } else {
        let v = choose|v: int| 0 <= v < name_texts(st.used_vars@).len() && name_texts(st.used_vars@)[v] == name;
        lemma_names_steps_contain(st.used_vars@, v, x);
        let j = choose|j: int| 0 <= j < u.len() && u[j] == x;
        assert((d + u + copy_steps(st))[d.len() + j] == x);
    }
    assert(stmt_steps(st).contains(x));
    lemma_stmts_steps_contain(m.stmts[b], k, x);
    lemma_blocks_steps_contain(m.stmts, b, x);
}

/// A run whose joins are all joined in `full` joins nothing that `full` does not.
proof fn lemma_linked_within(q: Seq<AliasStep>, full: Seq<AliasStep>, x: Seq<char>, y: Seq<char>)
    requires
        forall|i: int| 0 <= i < q.len() && (#[trigger] q[i]).0 ==> linked(full, q[i].1, q[i].2),
        linked(q, x, y),
    ensures
        linked(full, x, y),
    decreases q.len(),
{
    if q.len() == 0 {
        lemma_linked_refl(full, x);
    } else {
        let l = q.drop_last();
        let s = q.last();
        assert forall|i: int| 0 <= i < l.len() && (#[trigger] l[i]).0 implies linked(full, l[i].1, l[i].2) by {
            assert(l[i] == q[i]);
        }
        assert(s == q[q.len() - 1]);
        if linked(l, x, y) {
            lemma_linked_within(l, full, x, y);
        } else if linked(l, x, s.1) && linked(l, s.2, y) {
            lemma_linked_within(l, full, x, s.1);
            lemma_linked_within(l, full, s.2, y);
            lemma_linked_trans(full, x, s.1, s.2);
            lemma_linked_trans(full, x, s.2, y);
        } else {
            lemma_linked_within(l, full, x, s.2);
            lemma_linked_within(l, full, s.1, y);
            lemma_linked_sym(full, s.1, s.2);
            lemma_linked_trans(full, x, s.2, s.1);
            lemma_linked_trans(full, x, s.1, y);
        }
    }
}

/// Earlier steps never undo a join.
proof fn lemma_linked_prefix(p: Seq<AliasStep>, g: Seq<AliasStep>, x: Seq<char>, y: Seq<char>)
    requires
        linked(g, x, y),
    ensures
        linked(p + g, x, y),
    decreases g.len(),
{
    if g.len() == 0 {
        assert(p + g =~= p);
        lemma_linked_refl(p, x);
    } else {
        let l = g.drop_last();
        let s = g.last();
        assert((p + g).drop_last() =~= p + l);
        assert((p + g).last() == s);
        if linked(l, x, y) {
            lemma_linked_prefix(p, l, x, y);
        } else if linked(l, x, s.1) && linked(l, s.2, y) {
            lemma_linked_prefix(p, l, x, s.1);
            lemma_linked_prefix(p, l, s.2, y);
        } else {
            lemma_linked_prefix(p, l, x, s.2);
            lemma_linked_prefix(p, l, s.1, y);
        }
    }
}

/// The may-alias set of a mentioned name is its class among the names of the
/// graph: the recorded names that the graph's steps join with it.
proof fn lemma_alias_set_of_mentioned(m: CfgModel, a: Seq<char>, k: Seq<char>)
    requires
        mentioned(m, a),
    ensures
        alias_set(m, a).contains(k) <==> (step_names(blocks_steps(m.stmts)).contains(k) && linked(
            blocks_steps(m.stmts),
            a,
            k,
        )),
{
    let g = blocks_steps(m.stmts);
    let p = name_steps(a);
    lemma_step_names_append(p, g);
    assert forall|i: int| 0 <= i < p.len() implies step_names(g).contains(#[trigger] p[i].1) && step_names(g).contains(p[i].2)
        && (p[i].0 ==> linked(g, p[i].1, p[i].2)) by {
        assert(p.contains(p[i]));
        lemma_mentioned_steps(m, a, p[i]);
        let j = choose|j: int| 0 <= j < g.len() && g[j] == p[i];
        lemma_step_recorded(g, j);
        if p[i].0 {
            lemma_join_step(g, j);
        }
    }
    assert forall|i: int| 0 <= i < (p + g).len() && (#[trigger] (p + g)[i]).0 implies linked(g, (p + g)[i].1, (p + g)[i].2) by {
        if i < p.len() {
            assert((p + g)[i] == p[i]);
        } else {
            assert((p + g)[i] == g[i - p.len()]);
            lemma_join_step(g, i - p.len());
        }
    }
    if linked(p + g, a, k) {
        lemma_linked_within(p + g, g, a, k);
    }
    if linked(g, a, k) {
        lemma_linked_prefix(p, g, a, k);
    }
    if step_names(p).contains(k) {
        assert(step_names(g).contains(k)) by {
            lemma_names_of_steps(p, k);
        }
    }
}

/// A name recorded by a run is a name of one of its steps.
proof fn lemma_names_of_steps(steps: Seq<AliasStep>, k: Seq<char>)
    requires
        step_names(steps).contains(k),
    ensures
        exists|i: int| 0 <= i < steps.len() && (#[trigger] steps[i].1 == k || steps[i].2 == k),
    decreases steps.len(),
{
    if steps.len() > 0 {
        let l = steps.drop_last();
        if step_names(l).contains(k) {
            lemma_names_of_steps(l, k);
            let i = choose|i: int| 0 <= i < l.len() && (#[trigger] l[i].1 == k || l[i].2 == k);
            assert(steps[i] == l[i]);
        } else {
            assert(steps[steps.len() - 1].1 == k || steps[steps.len() - 1].2 == k);
        }
    }
}

/// Law: among the names the statements of the graph mention, sharing a
/// may-alias set is an equivalence: `b` is in the set of `a` exactly when `a`
/// is in the set of `b`, exactly when the two sets are equal.
pub proof fn lemma_alias_sets_partition(m: CfgModel, a: Seq<char>, b: Seq<char>)
    requires
        mentioned(m, a),
        mentioned(m, b),
    ensures
        alias_set(m, a).contains(b) <==> alias_set(m, b).contains(a),
        alias_set(m, a).contains(b) <==> alias_set(m, a) == alias_set(m, b),
{
    let g = blocks_steps(m.stmts);
    lemma_alias_set_of_mentioned(m, a, b);
    lemma_alias_set_of_mentioned(m, b, a);
    lemma_alias_set_of_mentioned(m, a, a);
    lemma_alias_set_of_mentioned(m, b, b);
    lemma_alias_set_contains_seed(m, a);
    lemma_alias_set_contains_seed(m, b);
    if linked(g, a, b) {
        lemma_linked_sym(g, a, b);
    }
    if linked(g, b, a) {
        lemma_linked_sym(g, b, a);
    }
    if alias_set(m, a).contains(b) {
        assert forall|k: Seq<char>| alias_set(m, a).contains(k) <==> alias_set(m, b).contains(k) by {
            lemma_alias_set_of_mentioned(m, a, k);
            lemma_alias_set_of_mentioned(m, b, k);
            lemma_linked_sym(g, a, b);
            if linked(g, a, k) {
                lemma_linked_trans(g, b, a, k);
            }
            if linked(g, b, k) {
                lemma_linked_trans(g, a, b, k);
            }
        }
        assert(alias_set(m, a) =~= alias_set(m, b));
    }
}

} // verus!
