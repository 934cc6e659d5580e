use vstd::prelude::*;

verus! {

use crate::domain::{
    Slot, ConstraintKind, slot_live, active_of, values_of, sup, arc_ok, rel, revised_slot,
    revised_dom, shrunk_slot, shrunk_dom, count_live, lemma_count_live_le, lemma_active_sup,
    lemma_values_of_index, lemma_all_live_active, lemma_revise_pair, active_values,
    value_supported,
};

/// The witness map names at least one slot of variable `v`.
pub open spec fn witnessed(w: Map<int, Set<int>>, v: int) -> bool {
    exists|i: int| w[v].contains(i)
}

/// A registered binary constraint: its two variables and its kind.
#[derive(Clone, Copy, Debug)]
pub struct Constraint {
    pub a: usize,
    pub b: usize,
    pub kind: ConstraintKind,
}

/// Internal failure of a propagation pass: some variable was left with
/// no live value.
enum PropagationError {
    DomainWipeout(usize),
}

/// The dynamic arc-consistency engine: per-variable domains of value
/// slots, and a registry of binary constraints indexed by identifier.
/// Constraint identifiers are assigned by a monotone counter and are
/// never reused; a retracted identifier leaves an empty registry cell.
pub struct Engine {
    values: Vec<Vec<Slot>>,
    constraints: Vec<Option<Constraint>>,
}

impl Engine {
    /// Number of variables created so far.
    pub closed spec fn num_vars(&self) -> int {
        self.values@.len() as int
    }

    /// Number of constraint identifiers handed out so far.
    pub closed spec fn num_cids(&self) -> int {
        self.constraints@.len() as int
    }

    /// The slot sequence of variable `v`.
    pub closed spec fn dom(&self, v: int) -> Seq<Slot> {
        self.values@[v]@
    }

    /// Whether `cid` currently names a constraint in the registry.
    pub closed spec fn registered(&self, cid: int) -> bool {
        0 <= cid < self.constraints@.len() && self.constraints@[cid] is Some
    }

    /// The constraint that `cid` names.
    pub closed spec fn con(&self, cid: int) -> Constraint {
        self.constraints@[cid]->Some_0
    }

    /// The live values of variable `v`, in insertion order.
    pub open spec fn active(&self, v: int) -> Seq<i32> {
        active_of(self.dom(v))
    }

    /// All values of variable `v` in insertion order, live or not: the
    /// domain as it was originally created.
    pub open spec fn original(&self, v: int) -> Seq<i32> {
        values_of(self.dom(v))
    }

    /// Attribution soundness of one slot: a present suppressor names a
    /// registered constraint, and that constraint touches this variable.
    pub open spec fn killer_ok(&self, v: int, i: int) -> bool {
        self.dom(v)[i].suppressor is Some ==> {
            let c = self.dom(v)[i].suppressor->Some_0;
            &&& self.registered(c as int)
            &&& (self.con(c as int).a == v || self.con(c as int).b == v)
        }
    }

    /// Structural well-formedness: constraints mention existing variables,
    /// and every suppressor names a registered constraint incident on the
    /// variable it marks.
    pub open spec fn wf(&self) -> bool {
        &&& forall|cid: int| #[trigger] self.registered(cid) ==> (self.con(cid).a as int)
            < self.num_vars() && (self.con(cid).b as int) < self.num_vars()
        &&& forall|v: int, i: int|
            0 <= v < self.num_vars() && 0 <= i < self.dom(v).len() ==> #[trigger] self.killer_ok(
                v,
                i,
            )
    }

    /// Arc consistency of one registered constraint, in both directions.
    pub open spec fn cons_ok(&self, cid: int) -> bool {
        let c = self.con(cid);
        &&& arc_ok(self.dom(c.a as int), c.kind, self.dom(c.b as int))
        &&& arc_ok(self.dom(c.b as int), c.kind, self.dom(c.a as int))
    }

    /// Every registered constraint is arc-consistent.
    pub open spec fn all_consistent(&self) -> bool {
        forall|cid: int| #[trigger] self.registered(cid) ==> self.cons_ok(cid)
    }

    /// Variable `v` still has at least one live slot.
    pub open spec fn has_live(&self, v: int) -> bool {
        exists|i: int| 0 <= i < self.dom(v).len() && slot_live(self.dom(v)[i])
    }

    /// No variable's active domain has been wiped out.
    pub open spec fn nonempty_domains(&self) -> bool {
        forall|v: int| 0 <= v < self.num_vars() ==> #[trigger] self.has_live(v)
    }

    /// Every registered constraint relates two distinct variables; a
    /// constraint on a single variable is degenerate and carries no
    /// consistency promise.
    pub open spec fn distinct_endpoints(&self) -> bool {
        forall|cid: int| #[trigger] self.registered(cid) ==> self.con(cid).a != self.con(cid).b
    }

    /// The engine's consistent resting state: well-formed, every
    /// constraint arc-consistent, and no domain wiped out.
    pub open spec fn all_ok(&self) -> bool {
        &&& self.wf()
        &&& self.distinct_endpoints()
        &&& self.all_consistent()
        &&& self.nonempty_domains()
    }

    /// The registry of `self` agrees with that of `other`: the same
    /// identifiers have been handed out, the same ones are registered,
    /// and they name the same constraints.
    pub open spec fn registry_unchanged(&self, other: &Engine) -> bool {
        &&& self.num_cids() == other.num_cids()
        &&& forall|cid: int| #[trigger] self.registered(cid) <==> other.registered(cid)
        &&& forall|cid: int| #[trigger] self.registered(cid) ==> self.con(cid) == other.con(cid)
    }

    /// Shape preservation: the set of variables, their slot counts and the
    /// slot values of `self` agree with `other`; only suppressors differ.
    pub open spec fn same_shape(&self, other: &Engine) -> bool {
        &&& self.num_vars() == other.num_vars()
        &&& forall|v: int|
            0 <= v < self.num_vars() ==> (#[trigger] self.dom(v)).len() == other.dom(v).len()
        &&& forall|v: int, i: int|
            0 <= v < self.num_vars() && 0 <= i < self.dom(v).len() ==> (#[trigger] self.dom(
                v,
            )[i]).value == other.dom(v)[i].value
    }

    /// The seeds of a propagation pass cover every constraint that is not
    /// already arc-consistent.
    pub open spec fn seed_cover(&self, seeds: Seq<usize>) -> bool {
        forall|cid: int| #[trigger] self.registered(cid) ==> seeds.contains(cid as usize)
            || self.cons_ok(cid)
    }

    /// No slot anywhere is suppressed by one of the given identifiers.
    pub open spec fn no_marks_of(&self, seeds: Seq<usize>) -> bool {
        forall|v: int, i: int|
            0 <= v < self.num_vars() && 0 <= i < self.dom(v).len() && (#[trigger] self.dom(
                v,
            )[i]).suppressor is Some ==> !seeds.contains(self.dom(v)[i].suppressor->Some_0)
    }

    /// One direction of a self-supporting witness for one constraint:
    /// every witnessed slot of variable `x` has a witnessed partner slot
    /// of variable `y` whose value satisfies the constraint kind.
    pub open spec fn sub_supported_side(
        &self,
        w: Map<int, Set<int>>,
        x: int,
        y: int,
        kind: ConstraintKind,
    ) -> bool {
        forall|i: int| #[trigger] w[x].contains(i) ==> exists|j: int|
            #[trigger] w[y].contains(j) && rel(self.dom(x)[i].value, kind, self.dom(y)[j].value)
    }

    /// Both directions of the witness property for one constraint.
    pub open spec fn sub_supports(&self, w: Map<int, Set<int>>, cid: int) -> bool {
        let c = self.con(cid);
        &&& self.sub_supported_side(w, c.a as int, c.b as int, c.kind)
        &&& self.sub_supported_side(w, c.b as int, c.a as int, c.kind)
    }

    /// A self-supporting witness: a choice of live slot indexes, at least
    /// one per variable, such that every registered constraint is
    /// satisfied within the witnessed slots alone. Propagation can never
    /// prune a witnessed slot, so such a witness rules out wipeout.
    pub open spec fn sub_ok(&self, w: Map<int, Set<int>>) -> bool {
        &&& forall|v: int| 0 <= v < self.num_vars() ==> #[trigger] w.dom().contains(v)
        &&& forall|v: int| 0 <= v < self.num_vars() ==> #[trigger] witnessed(w, v)
        &&& forall|v: int, i: int|
            0 <= v < self.num_vars() && #[trigger] w[v].contains(i) ==> 0 <= i < self.dom(
                v,
            ).len() && slot_live(self.dom(v)[i])
        &&& forall|cid: int| #[trigger] self.registered(cid) ==> self.sub_supports(w, cid)
    }

    /// A witness that becomes self-supporting once constraint `id` is
    /// gone: at least one slot per variable, each live or suppressed
    /// exactly by `id`, together supporting every registered constraint
    /// other than `id`. Retracting `id` revives and keeps live every such
    /// slot — in particular a variable wiped out by `id` alone comes back.
    pub open spec fn revivable_witness(&self, w: Map<int, Set<int>>, id: int) -> bool {
        &&& forall|v: int| 0 <= v < self.num_vars() ==> #[trigger] w.dom().contains(v)
        &&& forall|v: int| 0 <= v < self.num_vars() ==> #[trigger] witnessed(w, v)
        &&& forall|v: int, i: int|
            0 <= v < self.num_vars() && #[trigger] w[v].contains(i) ==> 0 <= i < self.dom(
                v,
            ).len() && (slot_live(self.dom(v)[i]) || self.dom(v)[i].suppressor == Some(
                id as usize,
            ))
        &&& forall|cid: int|
            #[trigger] self.registered(cid) && cid != id ==> self.sub_supports(w, cid)
    }

    /// A self-supporting witness that also satisfies one further
    /// constraint `(a2, b2, kind)`, not yet registered: exactly what no
    /// propagation can prune once that constraint is added. Whenever such
    /// a witness exists, adding the constraint must succeed.
    pub open spec fn sub_ok_with(
        &self,
        w: Map<int, Set<int>>,
        a2: usize,
        b2: usize,
        kind: ConstraintKind,
    ) -> bool {
        &&& self.sub_ok(w)
        &&& self.sub_supported_side(w, a2 as int, b2 as int, kind)
        &&& self.sub_supported_side(w, b2 as int, a2 as int, kind)
    }

    /// All slots named by the witness are live in `self`.
    pub open spec fn holds_live(&self, w: Map<int, Set<int>>) -> bool {
        forall|v: int, i: int|
            0 <= v < self.num_vars() && #[trigger] w[v].contains(i) ==> 0 <= i < self.dom(
                v,
            ).len() && slot_live(self.dom(v)[i])
    }

    /// Creates an empty engine with no variables and no constraints.
    pub fn new() -> (r: Engine)
        ensures
            r.wf(),
            r.all_ok(),
            r.num_vars() == 0,
            r.num_cids() == 0,
    {
        Engine { values: Vec::new(), constraints: Vec::new() }
    }

    /// Creates a fresh variable whose domain holds the given values, each
    /// in its own live slot, in the given order; returns its identifier,
    /// which is the variable's creation index.
    pub fn add_var(&mut self, values: Vec<i32>) -> (id: usize)
        requires
            old(self).wf(),
        ensures
            final(self).wf(),
            id as int == old(self).num_vars(),
            final(self).num_vars() == old(self).num_vars() + 1,
            final(self).registry_unchanged(old(self)),
            forall|v: int| 0 <= v < old(self).num_vars() ==> final(self).dom(v) == old(self).dom(v),
            final(self).active(id as int) == values@,
            final(self).original(id as int) == values@,
            old(self).all_ok() && values@.len() > 0 ==> final(self).all_ok(),
    {
        let id = self.values.len();
        let mut slots: Vec<Slot> = Vec::new();
        let mut i: usize = 0;
        while i < values.len()
            invariant
                i <= values.len(),
                slots@.len() == i as int,
                forall|k: int|
                    0 <= k < i as int ==> (#[trigger] slots@[k]) == (Slot {
                        value: values@[k],
                        suppressor: None,
                    }),
            decreases values.len() - i,
        {
            slots.push(Slot { value: values[i], suppressor: None });
            i = i + 1;
        }
        self.values.push(slots);
        proof {
            let g = id as int;
            assert(self.dom(g) == slots@);
            assert(forall|v: int| 0 <= v < old(self).num_vars() ==> self.dom(v) == old(self).dom(v));
            assert forall|k: int| 0 <= k < self.dom(g).len() implies slot_live(
                #[trigger] self.dom(g)[k],
            ) by {
                assert(self.dom(g)[k] == slots@[k]);
            }
            lemma_all_live_active(self.dom(g));
            lemma_values_of_index(self.dom(g));
            assert forall|k: int| 0 <= k < values@.len() implies values_of(self.dom(g))[k]
                == values@[k] by {
                assert(self.dom(g)[k] == slots@[k]);
                assert(self.dom(g)[k].value == values@[k]);
            }
            assert(values_of(self.dom(g)) =~= values@);
            assert forall|cid: int| #[trigger] self.registered(cid) implies ((self.con(cid).a as int)
                < self.num_vars() && (self.con(cid).b as int) < self.num_vars()) by {
                assert(old(self).registered(cid));
                assert(self.con(cid) == old(self).con(cid));
            }
            assert forall|v: int, i2: int|
                0 <= v < self.num_vars() && 0 <= i2 < self.dom(v).len() implies #[trigger] self
                .killer_ok(v, i2) by {
                if v < g {
                    assert(old(self).killer_ok(v, i2));
                    if self.dom(v)[i2].suppressor is Some {
                        let c = self.dom(v)[i2].suppressor->Some_0;
                        assert(old(self).registered(c as int));
                    }
                }
            }
            if old(self).all_ok() && values@.len() > 0 {
                assert forall|cid: int| #[trigger] self.registered(cid) implies self.con(cid).a
                    != self.con(cid).b by {
                    assert(old(self).registered(cid));
                    assert(self.con(cid) == old(self).con(cid));
                }
                assert forall|cid: int| #[trigger] self.registered(cid) implies self.cons_ok(cid) by {
                    assert(old(self).registered(cid));
                    assert(old(self).cons_ok(cid));
                    let c = self.con(cid);
                    assert(c == old(self).con(cid));
                    assert((c.a as int) < old(self).num_vars());
                    assert((c.b as int) < old(self).num_vars());
                    assert(self.dom(c.a as int) == old(self).dom(c.a as int));
                    assert(self.dom(c.b as int) == old(self).dom(c.b as int));
                }
                assert forall|v: int| 0 <= v < self.num_vars() implies #[trigger] self.has_live(v) by {
                    if v < g {
                        assert(old(self).has_live(v));
                    } else {
                        assert(slot_live(self.dom(g)[0]));
                    }
                }
            }
        }
        id
    }

    /// The current active domain of `var`: its live values in insertion
    /// order.
    pub fn val(&self, var: usize) -> (r: Vec<i32>)
        requires
            (var as int) < self.num_vars(),
        ensures
            r@ == self.active(var as int),
    {
        active_values(&self.values[var])
    }

    /// One directed revision pass: reconciles every slot of `var1` that is
    /// free or owned by `cid` against the active values of `var2`, killing
    /// unsupported values and reviving supported ones, and leaving slots
    /// suppressed by other constraints untouched. Reports whether any
    /// suppressor changed, or that `var1` was wiped out. The pruning is
    /// kept even on wipeout.
    fn revise(
        &mut self,
        var1: usize,
        var2: usize,
        kind: ConstraintKind,
        cid: usize,
    ) -> (r: Result<bool, PropagationError>)
        requires
            old(self).wf(),
            (var1 as int) < old(self).num_vars(),
            (var2 as int) < old(self).num_vars(),
            old(self).registered(cid as int),
            (old(self).con(cid as int).a == var1 && old(self).con(cid as int).b == var2) || (old(self).con(cid as int).a == var2 && old(self).con(cid as int).b == var1),
        ensures
            final(self).wf(),
            final(self).constraints@ == old(self).constraints@,
            final(self).values@.len() == old(self).values@.len(),
            forall|v: int|
                0 <= v < old(self).num_vars() && v != var1 as int ==> final(self).dom(v) == old(self).dom(v),
            final(self).dom(var1 as int) == revised_dom(
                old(self).dom(var1 as int),
                kind,
                cid,
                old(self).dom(var2 as int),
            ),
            r is Ok <==> exists|i: int|
                0 <= i < final(self).dom(var1 as int).len() && slot_live(
                    final(self).dom(var1 as int)[i],
                ),
            r matches Ok(ch) ==> (ch <==> exists|i: int|
                0 <= i < final(self).dom(var1 as int).len() && (final(self).dom(
                    var1 as int,
                )[i]).suppressor != (old(self).dom(var1 as int)[i]).suppressor),
            r is Err ==> r->Err_0 == PropagationError::DomainWipeout(var1),
    {
        let ghost d1 = self.dom(var1 as int);
        let ghost d2 = self.dom(var2 as int);
        let active_b = active_values(&self.values[var2]);
        let n = self.values[var1].len();
        let mut row: Vec<Slot> = Vec::new();
        let mut changed: bool = false;
        let mut any_live: bool = false;
        let mut i: usize = 0;
        while i < n
            invariant
                n as int == d1.len(),
                i <= n,
                active_b@ == active_of(d2),
                d1 == self.dom(var1 as int),
                d2 == self.dom(var2 as int),
                (var1 as int) < self.num_vars(),
                (var2 as int) < self.num_vars(),
                row@.len() == i as int,
                forall|k: int|
                    0 <= k < i as int ==> #[trigger] row@[k] == revised_slot(d1[k], kind, cid, d2),
                changed <==> exists|k: int|
                    0 <= k < i as int && (#[trigger] row@[k]).suppressor != d1[k].suppressor,
                any_live <==> exists|k: int| 0 <= k < i as int && slot_live(#[trigger] row@[k]),
            decreases n - i,
        {
            let s = self.values[var1][i];
            let owned_here = match s.suppressor {
                None => true,
                Some(k) => k == cid,
            };
            let mut ns = s;
            if owned_here {
                let has = value_supported(s.value, kind, &active_b);
                proof {
                    lemma_active_sup(d2, s.value);
                    assert(has == sup(s.value, kind, d2));
                }
                ns = Slot {
                    value: s.value,
                    suppressor: if has {
                        None
                    } else {
                        Some(cid)
                    },
                };
            }
            proof {
                assert(s == d1[i as int]);
                assert(ns == revised_slot(d1[i as int], kind, cid, d2));
            }
            let slot_changed = match (s.suppressor, ns.suppressor) {
                (None, Some(_)) => true,
                (Some(_), None) => true,
                _ => false,
            };
            proof {
                assert(slot_changed == (ns.suppressor != s.suppressor)) by {
                    if !slot_changed {
                        match s.suppressor {
                            None => {
                                assert(ns.suppressor is None);
                            },
                            Some(k) => {
                                assert(ns.suppressor is Some);
                                if owned_here {
                                    assert(k == cid);
                                    assert(ns.suppressor == Some(cid));
                                } else {
                                    assert(ns == s);
                                }
                            },
                        }
                    }
                }
            }
            let was_changed = changed;
            let was_live = any_live;
            if slot_changed {
                changed = true;
            }
            if ns.suppressor.is_none() {
                any_live = true;
            }
            let ghost row0 = row@;
            row.push(ns);
            proof {
                assert(row@ == row0.push(ns));
                assert(forall|k: int| 0 <= k < i as int ==> #[trigger] row@[k] == row0[k]);
                assert(row@[i as int] == ns);
                if changed {
                    if slot_changed {
                        assert(row@[i as int].suppressor != d1[i as int].suppressor);
                    } else {
                        let k = choose|k: int|
                            0 <= k < i as int && (#[trigger] row0[k]).suppressor
                                != d1[k].suppressor;
                        assert(row@[k].suppressor != d1[k].suppressor);
                    }
                } else {
                    assert forall|k: int| 0 <= k < i as int + 1 implies (#[trigger] row@[k]).suppressor
                        == d1[k].suppressor by {
                        if k < i as int {
                            assert(row@[k] == row0[k]);
                            assert(!was_changed);
                        } else {
                            assert(row@[k] == ns);
                        }
                    }
                }
                if any_live {
                    if ns.suppressor is None {
                        assert(slot_live(row@[i as int]));
                    } else {
                        let k = choose|k: int| 0 <= k < i as int && slot_live(#[trigger] row0[k]);
                        assert(slot_live(row@[k]));
                    }
                } else {
                    assert forall|k: int| 0 <= k < i as int + 1 implies !slot_live(
                        #[trigger] row@[k],
                    ) by {
                        if k < i as int {
                            assert(row@[k] == row0[k]);
                            assert(!was_live);
                        } else {
                            assert(row@[k] == ns);
                        }
                    }
                }
            }
            i = i + 1;
        }
        self.values[var1] = row;
        proof {
            assert(self.dom(var1 as int) =~= revised_dom(d1, kind, cid, d2));
            assert forall|v: int, i2: int|
                0 <= v < self.num_vars() && 0 <= i2 < self.dom(v).len() implies #[trigger] self
                .killer_ok(v, i2) by {
                if v != var1 as int {
                    assert(old(self).killer_ok(v, i2));
                    if self.dom(v)[i2].suppressor is Some {
                        let k = self.dom(v)[i2].suppressor->Some_0;
                        assert(old(self).registered(k as int));
                    }
                } else {
                    let s0 = d1[i2];
                    assert(self.dom(v)[i2] == revised_slot(s0, kind, cid, d2));
                    if self.dom(v)[i2].suppressor is Some {
                        let k = self.dom(v)[i2].suppressor->Some_0;
                        if k == cid {
                            assert(old(self).registered(cid as int));
                        } else {
                            assert(self.dom(v)[i2].suppressor == s0.suppressor);
                            assert(old(self).killer_ok(v, i2));
                        }
                    }
                }
            }
            assert forall|c2: int| #[trigger] self.registered(c2) implies ((self.con(c2).a as int)
                < self.num_vars() && (self.con(c2).b as int) < self.num_vars()) by {
                assert(old(self).registered(c2));
            }
        }
        if any_live {
            Ok(changed)
        } else {
            Err(PropagationError::DomainWipeout(var1))
        }
    }

    /// Total number of live slots of the first `n` variables.
    pub closed spec fn total_live_upto(&self, n: int) -> nat
        decreases n,
    {
        if n <= 0 {
            0
        } else {
            self.total_live_upto(n - 1) + count_live(self.dom(n - 1))
        }
    }

    /// Total number of live slots over all variables.
    pub closed spec fn total_live(&self) -> nat {
        self.total_live_upto(self.num_vars())
    }

    /// Clears every suppressor, restoring every variable to its full
    /// original domain. The registry is untouched.
    fn clear_all_marks(&mut self)
        requires
            old(self).wf(),
        ensures
            final(self).wf(),
            final(self).constraints@ == old(self).constraints@,
            final(self).same_shape(old(self)),
            forall|v: int, i: int|
                0 <= v < final(self).num_vars() && 0 <= i < final(self).dom(v).len()
                    ==> slot_live(#[trigger] final(self).dom(v)[i]),
    {
        let n = self.values.len();
        let mut v: usize = 0;
        while v < n
            invariant
                v <= n,
                n as int == self.num_vars(),
                self.num_vars() == old(self).num_vars(),
                self.constraints@ == old(self).constraints@,
                forall|u: int| v as int <= u < n as int ==> self.dom(u) == old(self).dom(u),
                forall|u: int|
                    0 <= u < v as int ==> (#[trigger] self.dom(u)).len() == old(self).dom(u).len(),
                forall|u: int, i: int|
                    0 <= u < v as int && 0 <= i < self.dom(u).len() ==> #[trigger] self.dom(u)[i]
                        == (Slot { value: old(self).dom(u)[i].value, suppressor: None }),
            decreases n - v,
        {
            let ghost dv = self.dom(v as int);
            let m = self.values[v].len();
            let mut row: Vec<Slot> = Vec::new();
            let mut i: usize = 0;
            while i < m
                invariant
                    i <= m,
                    v < n,
                    n as int == self.num_vars(),
                    self.num_vars() == old(self).num_vars(),
                    self.constraints@ == old(self).constraints@,
                    dv == self.dom(v as int),
                    m as int == dv.len(),
                    forall|u: int| v as int <= u < n as int ==> self.dom(u) == old(self).dom(u),
                    forall|u: int|
                        0 <= u < v as int ==> (#[trigger] self.dom(u)).len() == old(self).dom(
                            u,
                        ).len(),
                    forall|u: int, k: int|
                        0 <= u < v as int && 0 <= k < self.dom(u).len() ==> #[trigger] self.dom(
                            u,
                        )[k] == (Slot { value: old(self).dom(u)[k].value, suppressor: None }),
                    row@.len() == i as int,
                    forall|k: int|
                        0 <= k < i as int ==> #[trigger] row@[k] == (Slot {
                            value: dv[k].value,
                            suppressor: None,
                        }),
                decreases m - i,
            {
                let s = self.values[v][i];
                row.push(Slot { value: s.value, suppressor: None });
                i = i + 1;
            }
            let ghost e1: Engine = *self;
            self.values[v] = row;
            proof {
                assert(self.values@ == e1.values@.update(v as int, row));
                assert(self.dom(v as int) == row@);
                assert(dv == old(self).dom(v as int));
                assert forall|u: int|
                    0 <= u < self.num_vars() && u != v as int implies self.dom(u) == e1.dom(
                    u,
                ) by {
                    assert(self.values@[u] == e1.values@[u]);
                }
                assert forall|u: int|
                    0 <= u < v as int + 1 implies (#[trigger] self.dom(u)).len() == old(self).dom(
                    u,
                ).len() by {
                    if u == v as int {
                        assert(self.dom(u) == row@);
                    } else {
                        assert(self.dom(u) == e1.dom(u));
                        assert(e1.dom(u).len() == old(self).dom(u).len());
                    }
                }
                assert forall|u: int, k: int|
                    0 <= u < v as int + 1 && 0 <= k < self.dom(u).len() implies #[trigger] self.dom(
                    u,
                )[k] == (Slot { value: old(self).dom(u)[k].value, suppressor: None }) by {
                    if u == v as int {
                        assert(self.dom(u) == row@);
                        assert(row@[k] == (Slot { value: dv[k].value, suppressor: None }));
                    } else {
                        assert(self.dom(u) == e1.dom(u));
                        assert(e1.dom(u)[k] == (Slot {
                            value: old(self).dom(u)[k].value,
                            suppressor: None,
                        }));
                    }
                }
            }
            v = v + 1;
        }
        proof {
            assert forall|v2: int, i2: int|
                0 <= v2 < self.num_vars() && 0 <= i2 < self.dom(v2).len() implies #[trigger] self
                .killer_ok(v2, i2) by {
                assert(self.dom(v2)[i2].suppressor is None);
            }
            assert forall|c2: int| #[trigger] self.registered(c2) implies ((self.con(c2).a as int)
                < self.num_vars() && (self.con(c2).b as int) < self.num_vars()) by {
                assert(old(self).registered(c2));
            }
        }
    }

    /// Revises both arcs of one registered constraint, first the arc of
    /// its first variable against the second, then the reverse. After the
    /// pair, both arcs are consistent: the witness found by the first
    /// pass survives the second, because the value it supports stands as
    /// the witness's own support in return.
    #[verifier::rlimit(100)]
    fn revise_both(
        &mut self,
        cc: Constraint,
        c: usize,
        Ghost(e0): Ghost<Engine>,
        Ghost(init0): Ghost<Seq<usize>>,
    ) -> (r: Result<(bool, bool), PropagationError>)
        requires
            old(self).wf(),
            e0.wf(),
            old(self).constraints@ == e0.constraints@,
            old(self).same_shape(&e0),
            old(self).registered(c as int),
            old(self).con(c as int) == cc,
            e0.nonempty_domains() ==> old(self).nonempty_domains(),
            forall|w: Map<int, Set<int>>| #[trigger] e0.sub_ok(w) ==> old(self).holds_live(w),
            (e0.all_consistent() && e0.nonempty_domains() && e0.no_marks_of(init0)) ==> ((forall|v: int|
                0 <= v < old(self).num_vars() ==> old(self).dom(v) == e0.dom(v))
                && init0.contains(c)),
        ensures
            final(self).wf(),
            final(self).constraints@ == e0.constraints@,
            final(self).same_shape(&e0),
            forall|v: int|
                0 <= v < final(self).num_vars() && v != cc.a as int && v != cc.b as int
                    ==> final(self).dom(v) == old(self).dom(v),
            r is Ok && e0.nonempty_domains() ==> final(self).nonempty_domains(),
            forall|w: Map<int, Set<int>>| #[trigger] e0.sub_ok(w) ==> r is Ok && final(self).holds_live(w),
            r is Ok && e0.distinct_endpoints() ==> final(self).cons_ok(c as int),
            (r is Ok && !r->Ok_0.0 && !r->Ok_0.1) ==> forall|v: int|
                0 <= v < final(self).num_vars() ==> final(self).dom(v) == old(self).dom(v),
            (e0.all_consistent() && e0.nonempty_domains() && e0.no_marks_of(init0)) ==> (r is Ok
                && !r->Ok_0.0 && !r->Ok_0.1 && (forall|v: int|
                0 <= v < final(self).num_vars() ==> final(self).dom(v) == e0.dom(v))),
            r matches Err(e) ==> (e matches PropagationError::DomainWipeout(wv) && (wv as int)
                < e0.num_vars() && !final(self).has_live(wv as int)),
    {
        let ghost hd = e0.all_consistent() && e0.nonempty_domains() && e0.no_marks_of(init0);
        let ghost av = cc.a as int;
        let ghost bv = cc.b as int;
        let ghost p0: Engine = *self;
        let r1 = self.revise(cc.a, cc.b, cc.kind, c);
        proof {
            assert(self.same_shape(&e0));
            lemma_pass_effects(&p0, self, &e0, av, bv, cc.kind, c);
            if hd {
                lemma_pass_identity(&p0, self, &e0, av, bv, cc.kind, c, init0);
            }
            if r1 is Err {
                assert forall|w: Map<int, Set<int>>| !(#[trigger] e0.sub_ok(w)) by {
                    if e0.sub_ok(w) {
                        assert(self.has_live(av));
                    }
                }
                if hd {
                    assert(self.has_live(av));
                    assert(false);
                }
            }
        }
        let ch1 = match r1 {
            Ok(b1) => b1,
            Err(e) => {
                return Err(e);
            },
        };
        proof {
            if hd {
                assert(forall|i: int|
                    0 <= i < self.dom(av).len() ==> (#[trigger] self.dom(av)[i]).suppressor
                        == p0.dom(av)[i].suppressor);
                assert(!ch1);
            }
            if !ch1 {
                assert forall|i: int| 0 <= i < self.dom(av).len() implies self.dom(av)[i] == p0.dom(
                    av,
                )[i] by {
                    assert(self.dom(av)[i] == revised_slot(p0.dom(av)[i], cc.kind, c, p0.dom(bv)));
                    assert(self.dom(av)[i].suppressor == p0.dom(av)[i].suppressor);
                    assert(self.dom(av)[i].value == p0.dom(av)[i].value);
                }
                assert(self.dom(av) =~= p0.dom(av));
            }
        }
        let ghost p1: Engine = *self;
        let r2 = self.revise(cc.b, cc.a, cc.kind, c);
        proof {
            assert(self.same_shape(&e0));
            assert forall|w: Map<int, Set<int>>| #[trigger] e0.sub_ok(w) implies p1.holds_live(
                w,
            ) by {}
            lemma_pass_effects(&p1, self, &e0, bv, av, cc.kind, c);
            if hd {
                lemma_pass_identity(&p1, self, &e0, bv, av, cc.kind, c, init0);
            }
            if r2 is Err {
                assert forall|w: Map<int, Set<int>>| !(#[trigger] e0.sub_ok(w)) by {
                    if e0.sub_ok(w) {
                        assert(self.has_live(bv));
                    }
                }
                if hd {
                    assert(self.has_live(bv));
                    assert(false);
                }
            }
        }
        let ch2 = match r2 {
            Ok(b2) => b2,
            Err(e) => {
                return Err(e);
            },
        };
        proof {
            if hd {
                assert(forall|i: int|
                    0 <= i < self.dom(bv).len() ==> (#[trigger] self.dom(bv)[i]).suppressor
                        == p1.dom(bv)[i].suppressor);
                assert(!ch2);
            }
            if !ch2 {
                assert forall|i: int| 0 <= i < self.dom(bv).len() implies self.dom(bv)[i] == p1.dom(
                    bv,
                )[i] by {
                    assert(self.dom(bv)[i] == revised_slot(p1.dom(bv)[i], cc.kind, c, p1.dom(av)));
                    assert(self.dom(bv)[i].suppressor == p1.dom(bv)[i].suppressor);
                    assert(self.dom(bv)[i].value == p1.dom(bv)[i].value);
                }
                assert(self.dom(bv) =~= p1.dom(bv));
            }
            if e0.nonempty_domains() {
                assert forall|v: int| 0 <= v < self.num_vars() implies #[trigger] self.has_live(
                    v,
                ) by {
                    if v == bv {
                        assert(exists|i: int|
                            0 <= i < self.dom(bv).len() && slot_live(self.dom(bv)[i]));
                    } else if v == av {
                        assert(self.dom(av) == p1.dom(av));
                        assert(exists|i: int|
                            0 <= i < p1.dom(av).len() && slot_live(p1.dom(av)[i]));
                    } else {
                        assert(self.dom(v) == p0.dom(v));
                        assert(p0.has_live(v));
                    }
                }
            }
            if e0.distinct_endpoints() {
                assert(cc.a != cc.b);
                lemma_revise_pair(p0.dom(av), p0.dom(bv), cc.kind, c);
                assert(p1.dom(bv) == p0.dom(bv));
                assert(p1.dom(av) == revised_dom(p0.dom(av), cc.kind, c, p0.dom(bv)));
                assert(self.dom(av) == p1.dom(av));
                assert(self.dom(bv) == revised_dom(p0.dom(bv), cc.kind, c, p1.dom(av)));
                assert(arc_ok(self.dom(av), cc.kind, self.dom(bv)));
                assert(arc_ok(self.dom(bv), cc.kind, self.dom(av)));
                assert(self.cons_ok(c as int));
            }
        }
        Ok((ch1, ch2))
    }

    /// Processes one popped worklist entry: looks up the constraint,
    /// revises both of its arcs, and on any change enqueues the other
    /// constraints incident on its two variables. An identifier no
    /// longer in the registry is skipped.
    #[verifier::rlimit(100)]
    fn process_popped(
        &mut self,
        c: usize,
        q: &mut Vec<usize>,
        flags: &mut Vec<bool>,
        Ghost(e0): Ghost<Engine>,
        Ghost(init0): Ghost<Seq<usize>>,
    ) -> (r: Result<(), PropagationError>)
        requires
            old(self).wf(),
            e0.wf(),
            old(self).constraints@ == e0.constraints@,
            old(self).same_shape(&e0),
            (c as int) < old(self).num_cids(),
            old(flags)@.len() == old(self).num_cids(),
            forall|k: int|
                0 <= k < old(q)@.len() ==> ((#[trigger] old(q)@[k]) as int) < old(self).num_cids(),
            forall|c2: int|
                0 <= c2 < old(flags)@.len() && #[trigger] old(flags)@[c2] ==> old(q)@.contains(
                    c2 as usize,
                ),
            e0.nonempty_domains() ==> old(self).nonempty_domains(),
            (e0.distinct_endpoints() && e0.seed_cover(init0)) ==> (forall|cid: int|
                #[trigger] old(self).registered(cid) && cid != c as int && !old(q)@.contains(
                    cid as usize,
                ) ==> old(self).cons_ok(cid)),
            forall|w: Map<int, Set<int>>| #[trigger] e0.sub_ok(w) ==> old(self).holds_live(w),
            (e0.all_consistent() && e0.nonempty_domains() && e0.no_marks_of(init0)) ==> ((forall|v: int|
                0 <= v < old(self).num_vars() ==> old(self).dom(v) == e0.dom(v))
                && init0.contains(c)),
        ensures
            final(self).wf(),
            final(self).constraints@ == e0.constraints@,
            final(self).same_shape(&e0),
            final(flags)@.len() == e0.num_cids(),
            forall|k: int|
                0 <= k < final(q)@.len() ==> ((#[trigger] final(q)@[k]) as int) < e0.num_cids(),
            forall|c2: int|
                0 <= c2 < final(flags)@.len() && #[trigger] final(flags)@[c2] ==> final(q)@.contains(
                    c2 as usize,
                ),
            r is Ok && e0.nonempty_domains() ==> final(self).nonempty_domains(),
            (e0.distinct_endpoints() && e0.seed_cover(init0) && r is Ok) ==> (forall|cid: int|
                #[trigger] final(self).registered(cid) && !final(q)@.contains(cid as usize)
                    ==> final(self).cons_ok(cid)),
            forall|w: Map<int, Set<int>>| #[trigger] e0.sub_ok(w) ==> r is Ok && final(self).holds_live(w),
            (e0.all_consistent() && e0.nonempty_domains() && e0.no_marks_of(init0)) ==> (r is Ok
                && (forall|v: int|
                0 <= v < final(self).num_vars() ==> final(self).dom(v) == e0.dom(v)) && final(q)@
                == old(q)@),
            r matches Err(e) ==> (e matches PropagationError::DomainWipeout(wv) && (wv as int)
                < e0.num_vars() && !final(self).has_live(wv as int)),
    {
        let oc = self.constraints[c];
        match oc {
            None => {
                proof {
                    assert(!self.registered(c as int));
                    if e0.distinct_endpoints() && e0.seed_cover(init0) {
                        assert forall|cid: int|
                            #[trigger] self.registered(cid) && !q@.contains(
                            cid as usize,
                        ) implies self.cons_ok(cid) by {
                            assert(cid != c as int);
                        }
                    }
                }
            },
            Some(cc) => {
                proof {
                    assert(self.registered(c as int));
                    assert(self.con(c as int) == cc);
                }
                let rb = self.revise_both(cc, c, Ghost(e0), Ghost(init0));
                let chs = match rb {
                    Ok(p) => p,
                    Err(e) => {
                        return Err(e);
                    },
                };
                let ch1 = chs.0;
                let ch2 = chs.1;
                let ghost qmid = q@;
                if ch1 || ch2 {
                    self.enqueue_incident(cc.a, c, q, flags);
                    self.enqueue_incident(cc.b, c, q, flags);
                }
                proof {
                    let av = cc.a as int;
                    let bv = cc.b as int;
                    if e0.distinct_endpoints() && e0.seed_cover(init0) {
                        assert(self.cons_ok(c as int));
                        assert forall|cid: int|
                            #[trigger] self.registered(cid) && !q@.contains(
                            cid as usize,
                        ) implies self.cons_ok(cid) by {
                            if cid != c as int {
                                assert(old(self).registered(cid));
                                if ch1 || ch2 {
                                    if qmid.contains(cid as usize) {
                                        assert(q@.contains(cid as usize));
                                    }
                                    assert(!qmid.contains(cid as usize));
                                    assert(!(self.con(cid).a as int == av || self.con(
                                        cid,
                                    ).b as int == av));
                                    assert(!(self.con(cid).a as int == bv || self.con(
                                        cid,
                                    ).b as int == bv));
                                    assert(old(self).cons_ok(cid));
                                    let c2 = self.con(cid);
                                    assert(c2 == old(self).con(cid));
                                    assert(self.dom(c2.a as int) == old(self).dom(c2.a as int));
                                    assert(self.dom(c2.b as int) == old(self).dom(c2.b as int));
                                } else {
                                    assert(!old(q)@.contains(cid as usize));
                                    assert(old(self).cons_ok(cid));
                                    let c2 = self.con(cid);
                                    assert(c2 == old(self).con(cid));
                                    assert(self.dom(c2.a as int) == old(self).dom(c2.a as int));
                                    assert(self.dom(c2.b as int) == old(self).dom(c2.b as int));
                                }
                            }
                        }
                    }
                    if e0.all_consistent() && e0.nonempty_domains() && e0.no_marks_of(init0) {
                        assert(!ch1 && !ch2);
                        assert(q@ == qmid);
                    }
                }
            },
        }
        Ok(())
    }

    /// Registers an equality constraint between `var1` and `var2` and
    /// propagates to the arc-consistent closure. Returns the fresh
    /// constraint identifier, or, on domain wipeout, that identifier
    /// together with the conflict explanation: the distinct constraints
    /// suppressing the wiped variable's values. Either way the constraint
    /// is registered and the pruning stays visible until retracted.
    /// Whenever a self-supporting witness satisfying the new constraint
    /// exists, the call succeeds and every witnessed value stays live:
    /// success is owed on every satisfiable addition, and the pruning
    /// never cuts below the arc-consistent closure. An equality of a
    /// variable with itself is trivially satisfied and changes nothing.
    pub fn new_eq(&mut self, var1: usize, var2: usize) -> (r: Result<usize, (usize, Vec<usize>)>)
        requires
            old(self).wf(),
            (var1 as int) < old(self).num_vars(),
            (var2 as int) < old(self).num_vars(),
        ensures
            final(self).wf(),
            final(self).num_vars() == old(self).num_vars(),
            final(self).same_shape(old(self)),
            final(self).num_cids() == old(self).num_cids() + 1,
            final(self).registered(old(self).num_cids()),
            final(self).con(old(self).num_cids()) == (Constraint {
                a: var1,
                b: var2,
                kind: ConstraintKind::Equality,
            }),
            forall|cid: int|
                cid != old(self).num_cids() ==> (#[trigger] final(self).registered(cid)
                    <==> old(self).registered(cid)),
            forall|cid: int|
                cid != old(self).num_cids() && #[trigger] old(self).registered(cid)
                    ==> final(self).con(cid) == old(self).con(cid),
            r matches Ok(id) ==> id as int == old(self).num_cids(),
            r matches Err(p) ==> p.0 as int == old(self).num_cids(),
            (old(self).all_ok() && var1 != var2 && r is Ok) ==> final(self).all_ok(),
            (old(self).all_ok() && (exists|cid: int|
                #[trigger] old(self).registered(cid) && old(self).con(cid) == (Constraint {
                    a: var1,
                    b: var2,
                    kind: ConstraintKind::Equality,
                }))) ==> (r is Ok && forall|v: int|
                0 <= v < old(self).num_vars() ==> final(self).dom(v) == old(self).dom(v)),
            forall|w: Map<int, Set<int>>| #[trigger] old(self).sub_ok_with(
                w,
                var1,
                var2,
                ConstraintKind::Equality,
            ) ==> (r is Ok && final(self).holds_live(w)),
            (old(self).all_ok() && var1 == var2) ==> (r is Ok && forall|v: int|
                0 <= v < old(self).num_vars() ==> final(self).dom(v) == old(self).dom(v)),
            r is Err ==> exists|wv: int| #[trigger] final(self).wiped_with_explanation(
                wv,
                (r->Err_0).1@,
            ),
            r is Err ==> forall|x: usize|
                #[trigger] (r->Err_0).1@.contains(x) ==> final(self).registered(x as int),
    {
        self.add_constraint(var1, var2, ConstraintKind::Equality)
    }

    /// Registers an inequality constraint between `var1` and `var2` and
    /// propagates, exactly as `new_eq` does for equality. An inequality
    /// of a variable with itself is an immediate wipeout: no value can
    /// differ from itself.
    pub fn new_neq(&mut self, var1: usize, var2: usize) -> (r: Result<usize, (usize, Vec<usize>)>)
        requires
            old(self).wf(),
            (var1 as int) < old(self).num_vars(),
            (var2 as int) < old(self).num_vars(),
        ensures
            final(self).wf(),
            final(self).num_vars() == old(self).num_vars(),
            final(self).same_shape(old(self)),
            final(self).num_cids() == old(self).num_cids() + 1,
            final(self).registered(old(self).num_cids()),
            final(self).con(old(self).num_cids()) == (Constraint {
                a: var1,
                b: var2,
                kind: ConstraintKind::Inequality,
            }),
            forall|cid: int|
                cid != old(self).num_cids() ==> (#[trigger] final(self).registered(cid)
                    <==> old(self).registered(cid)),
            forall|cid: int|
                cid != old(self).num_cids() && #[trigger] old(self).registered(cid)
                    ==> final(self).con(cid) == old(self).con(cid),
            r matches Ok(id) ==> id as int == old(self).num_cids(),
            r matches Err(p) ==> p.0 as int == old(self).num_cids(),
            (old(self).all_ok() && var1 != var2 && r is Ok) ==> final(self).all_ok(),
            (old(self).all_ok() && (exists|cid: int|
                #[trigger] old(self).registered(cid) && old(self).con(cid) == (Constraint {
                    a: var1,
                    b: var2,
                    kind: ConstraintKind::Inequality,
                }))) ==> (r is Ok && forall|v: int|
                0 <= v < old(self).num_vars() ==> final(self).dom(v) == old(self).dom(v)),
            forall|w: Map<int, Set<int>>|
                (var1 != var2 && #[trigger] old(self).sub_ok_with(
                    w,
                    var1,
                    var2,
                    ConstraintKind::Inequality,
                )) ==> (r is Ok && final(self).holds_live(w)),
            var1 == var2 ==> r is Err,
            r is Err ==> exists|wv: int| #[trigger] final(self).wiped_with_explanation(
                wv,
                (r->Err_0).1@,
            ),
            r is Err ==> forall|x: usize|
                #[trigger] (r->Err_0).1@.contains(x) ==> final(self).registered(x as int),
    {
        self.add_constraint(var1, var2, ConstraintKind::Inequality)
    }

    /// Clears every suppressor equal to `id` in the domain of `v`,
    /// reviving exactly the values that `id` had killed there.
    fn clear_marks_of(&mut self, v: usize, id: usize)
        requires
            (v as int) < old(self).num_vars(),
        ensures
            final(self).num_vars() == old(self).num_vars(),
            final(self).constraints@ == old(self).constraints@,
            forall|u: int|
                0 <= u < old(self).num_vars() && u != v as int ==> final(self).dom(u) == old(
                    self,
                ).dom(u),
            final(self).dom(v as int).len() == old(self).dom(v as int).len(),
            forall|i: int|
                0 <= i < old(self).dom(v as int).len() ==> #[trigger] final(self).dom(v as int)[i]
                    == (if old(self).dom(v as int)[i].suppressor == Some(id) {
                    Slot { value: old(self).dom(v as int)[i].value, suppressor: None }
                } else {
                    old(self).dom(v as int)[i]
                }),
    {
        let ghost dv = self.dom(v as int);
        let m = self.values[v].len();
        let mut row: Vec<Slot> = Vec::new();
        let mut i: usize = 0;
        while i < m
            invariant
                i <= m,
                (v as int) < self.num_vars(),
                dv == self.dom(v as int),
                m as int == dv.len(),
                row@.len() == i as int,
                forall|k: int|
                    0 <= k < i as int ==> #[trigger] row@[k] == (if dv[k].suppressor == Some(id) {
                        Slot { value: dv[k].value, suppressor: None }
                    } else {
                        dv[k]
                    }),
            decreases m - i,
        {
            let s = self.values[v][i];
            let clear_it = match s.suppressor {
                Some(k) => k == id,
                None => false,
            };
            if clear_it {
                row.push(Slot { value: s.value, suppressor: None });
            } else {
                row.push(s);
            }
            proof {
                assert(s == dv[i as int]);
            }
            i = i + 1;
        }
        let ghost pre_vals = self.values@;
        self.values[v] = row;
        proof {
            assert(self.values@ == pre_vals.update(v as int, row));
            assert(self.dom(v as int) == row@);
            assert(dv == old(self).dom(v as int));
            assert forall|u: int|
                0 <= u < self.num_vars() && u != v as int implies self.dom(u) == old(self).dom(
                u,
            ) by {
                assert(self.values@[u] == pre_vals[u]);
            }
        }
    }

    /// Suppresses every still-live slot of `v`, attributing to `id`: the
    /// immediate wipeout that an inequality of a variable with itself
    /// demands. Slots already suppressed keep their first killer.
    fn suppress_all_free(&mut self, v: usize, id: usize)
        requires
            (v as int) < old(self).num_vars(),
        ensures
            final(self).num_vars() == old(self).num_vars(),
            final(self).constraints@ == old(self).constraints@,
            forall|u: int|
                0 <= u < old(self).num_vars() && u != v as int ==> final(self).dom(u) == old(
                    self,
                ).dom(u),
            final(self).dom(v as int).len() == old(self).dom(v as int).len(),
            forall|i: int|
                0 <= i < old(self).dom(v as int).len() ==> #[trigger] final(self).dom(v as int)[i]
                    == (if old(self).dom(v as int)[i].suppressor is None {
                    Slot { value: old(self).dom(v as int)[i].value, suppressor: Some(id) }
                } else {
                    old(self).dom(v as int)[i]
                }),
    {
        let ghost dv = self.dom(v as int);
        let m = self.values[v].len();
        let mut row: Vec<Slot> = Vec::new();
        let mut i: usize = 0;
        while i < m
            invariant
                i <= m,
                (v as int) < self.num_vars(),
                dv == self.dom(v as int),
                m as int == dv.len(),
                row@.len() == i as int,
                forall|k: int|
                    0 <= k < i as int ==> #[trigger] row@[k] == (if dv[k].suppressor is None {
                        Slot { value: dv[k].value, suppressor: Some(id) }
                    } else {
                        dv[k]
                    }),
            decreases m - i,
        {
            let s = self.values[v][i];
            if s.suppressor.is_none() {
                row.push(Slot { value: s.value, suppressor: Some(id) });
            } else {
                row.push(s);
            }
            proof {
                assert(s == dv[i as int]);
            }
            i = i + 1;
        }
        let ghost pre_vals = self.values@;
        self.values[v] = row;
        proof {
            assert(self.values@ == pre_vals.update(v as int, row));
            assert(self.dom(v as int) == row@);
            assert(dv == old(self).dom(v as int));
            assert forall|u: int|
                0 <= u < self.num_vars() && u != v as int implies self.dom(u) == old(self).dom(
                u,
            ) by {
                assert(self.values@[u] == pre_vals[u]);
            }
        }
    }

    /// All registered constraints incident on either of two variables.
    fn incident_seeds(&self, var1: usize, var2: usize) -> (r: Vec<usize>)
        ensures
            forall|k: int| 0 <= k < r@.len() ==> ((#[trigger] r@[k]) as int) < self.num_cids(),
            forall|cid: int|
                #[trigger] self.registered(cid) && (self.con(cid).a == var1 || self.con(cid).b
                    == var1 || self.con(cid).a == var2 || self.con(cid).b == var2)
                    ==> r@.contains(cid as usize),
    {
        let n = self.constraints.len();
        let mut r: Vec<usize> = Vec::new();
        let mut cid: usize = 0;
        while cid < n
            invariant
                cid <= n,
                n as int == self.num_cids(),
                forall|k: int| 0 <= k < r@.len() ==> ((#[trigger] r@[k]) as int) < self.num_cids(),
                forall|c2: int|
                    #[trigger] self.registered(c2) && 0 <= c2 < cid as int && (self.con(c2).a
                        == var1 || self.con(c2).b == var1 || self.con(c2).a == var2 || self.con(
                        c2,
                    ).b == var2) ==> r@.contains(c2 as usize),
            decreases n - cid,
        {
            let oc = self.constraints[cid];
            match oc {
                None => {},
                Some(cc) => {
                    if cc.a == var1 || cc.b == var1 || cc.a == var2 || cc.b == var2 {
                        let ghost r0 = r@;
                        r.push(cid);
                        proof {
                            assert(r@ == r0.push(cid));
                            assert(forall|k: int| 0 <= k < r0.len() ==> #[trigger] r@[k] == r0[k]);
                            assert(r@[r0.len() as int] == cid);
                            assert forall|x: usize| r0.contains(x) implies r@.contains(x) by {
                                let k = choose|k: int| 0 <= k < r0.len() && r0[k] == x;
                                assert(r@[k] == x);
                            }
                        }
                    }
                },
            }
            cid = cid + 1;
        }
        r
    }

    /// Retracts a constraint: removes it from the registry, revives every
    /// value it had suppressed on its two variables, and re-propagates
    /// the constraints incident on them so that revived values cascade.
    /// Retracting an unknown identifier is a silent no-op. From a
    /// consistent state retraction cannot wipe out any domain: live
    /// values only become more supported when a constraint disappears.
    /// From a failed state, any witness that is self-supporting once this
    /// constraint is gone — its slots live or suppressed exactly by it —
    /// ends up fully live: retracting the sole offender revives the
    /// wiped variable.
    #[verifier::rlimit(100)]
    pub fn retract_constraint(&mut self, id: usize)
        requires
            old(self).wf(),
        ensures
            final(self).wf(),
            final(self).num_vars() == old(self).num_vars(),
            final(self).same_shape(old(self)),
            final(self).num_cids() == old(self).num_cids(),
            !final(self).registered(id as int),
            forall|cid: int|
                cid != id as int ==> (#[trigger] final(self).registered(cid) <==> old(
                    self,
                ).registered(cid)),
            forall|cid: int|
                cid != id as int && #[trigger] old(self).registered(cid) ==> final(self).con(cid)
                    == old(self).con(cid),
            !old(self).registered(id as int) ==> (forall|v: int|
                0 <= v < old(self).num_vars() ==> final(self).dom(v) == old(self).dom(v)),
            forall|v: int, i: int|
                0 <= v < final(self).num_vars() && 0 <= i < final(self).dom(v).len()
                    ==> (#[trigger] final(self).dom(v)[i]).suppressor != Some(id),
            old(self).all_ok() ==> (final(self).all_ok() && (forall|v: int, i: int|
                0 <= v < old(self).num_vars() && 0 <= i < old(self).dom(v).len() && slot_live(
                    #[trigger] old(self).dom(v)[i],
                ) ==> slot_live(final(self).dom(v)[i]))),
            forall|w: Map<int, Set<int>>| #[trigger] old(self).revivable_witness(w, id as int)
                ==> final(self).holds_live(w),
    {
        let nc = self.constraints.len();
        if id < nc {
            let oc = self.constraints[id];
            match oc {
                None => {
                    proof {
                        assert(!self.registered(id as int));
                        assert forall|v: int, i: int|
                            0 <= v < self.num_vars() && 0 <= i < self.dom(v).len() implies (#[trigger] self
                            .dom(v)[i]).suppressor != Some(id) by {
                            assert(old(self).killer_ok(v, i));
                        }
                        assert forall|w: Map<int, Set<int>>| #[trigger] old(self).revivable_witness(
                            w,
                            id as int,
                        ) implies self.holds_live(w) by {
                            assert forall|v: int, i: int|
                                0 <= v < self.num_vars() && #[trigger] w[v].contains(i) implies 0
                                <= i < self.dom(v).len() && slot_live(self.dom(v)[i]) by {
                                assert(old(self).killer_ok(v, i));
                                if self.dom(v)[i].suppressor == Some(id) {
                                    assert(old(self).registered(id as int));
                                }
                            }
                        }
                    }
                },
                Some(cc) => {
                    proof {
                        assert(self.registered(id as int));
                        assert(self.con(id as int) == cc);
                        assert((cc.a as int) < self.num_vars());
                        assert((cc.b as int) < self.num_vars());
                    }
                    self.constraints[id] = None;
                    self.clear_marks_of(cc.a, id);
                    self.clear_marks_of(cc.b, id);
                    let ghost s1: Engine = *self;
                    proof {
                        assert(s1.constraints@ == old(self).constraints@.update(id as int, None));
                        assert(!s1.registered(id as int));
                        assert forall|cid: int|
                            cid != id as int implies (#[trigger] s1.registered(cid) <==> old(
                            self,
                        ).registered(cid)) by {
                            if 0 <= cid < s1.constraints@.len() {
                                assert(s1.constraints@[cid] == old(self).constraints@[cid]);
                            }
                        }
                        assert forall|v: int, i: int|
                            0 <= v < s1.num_vars() && 0 <= i < s1.dom(v).len() implies ((#[trigger] s1
                            .dom(v)[i]).value == old(self).dom(v)[i].value && (s1.dom(
                            v,
                        )[i].suppressor == old(self).dom(v)[i].suppressor || s1.dom(
                            v,
                        )[i].suppressor is None) && s1.dom(v)[i].suppressor != Some(id)) by {
                            assert(old(self).killer_ok(v, i));
                            if v != cc.a as int && v != cc.b as int {
                                assert(s1.dom(v) == old(self).dom(v));
                                if s1.dom(v)[i].suppressor is Some {
                                    let k = s1.dom(v)[i].suppressor->Some_0;
                                    assert(old(self).registered(k as int));
                                    if k == id {
                                        assert(old(self).con(id as int).a == v || old(self).con(
                                            id as int,
                                        ).b == v);
                                        assert(false);
                                    }
                                }
                            }
                        }
                        assert forall|v2: int, i2: int|
                            0 <= v2 < s1.num_vars() && 0 <= i2 < s1.dom(v2).len() implies #[trigger] s1
                            .killer_ok(v2, i2) by {
                            if s1.dom(v2)[i2].suppressor is Some {
                                let k = s1.dom(v2)[i2].suppressor->Some_0;
                                assert(s1.dom(v2)[i2].suppressor == old(self).dom(
                                    v2,
                                )[i2].suppressor);
                                assert(old(self).killer_ok(v2, i2));
                                assert(old(self).registered(k as int));
                                assert(k != id);
                                assert(s1.registered(k as int));
                                assert(s1.con(k as int) == old(self).con(k as int));
                            }
                        }
                        assert forall|c2: int| #[trigger] s1.registered(c2) implies ((s1.con(
                            c2,
                        ).a as int) < s1.num_vars() && (s1.con(c2).b as int) < s1.num_vars()) by {
                            assert(old(self).registered(c2));
                            assert(s1.con(c2) == old(self).con(c2));
                        }
                        assert(s1.wf());
                        if old(self).all_ok() {
                            lemma_live_map_sub_ok(old(self), &s1, id as int);
                        }
                    }
                    let pr = self.propagate_touching(cc.a, cc.b);
                    proof {
                        if old(self).all_ok() {
                            assert(s1.sub_ok(live_map(old(self))));
                            assert(pr is Ok);
                            assert(self.holds_live(live_map(old(self))));
                            assert forall|v: int, i: int|
                                0 <= v < old(self).num_vars() && 0 <= i < old(self).dom(
                                    v,
                                ).len() && slot_live(#[trigger] old(self).dom(v)[i]) implies slot_live(
                                self.dom(v)[i],
                            ) by {
                                assert(live_map(old(self))[v].contains(i));
                            }
                            assert(s1.distinct_endpoints()) by {
                                assert forall|cid: int| #[trigger] s1.registered(cid) implies s1
                                    .con(cid).a != s1.con(cid).b by {
                                    assert(old(self).registered(cid));
                                    assert(s1.con(cid) == old(self).con(cid));
                                }
                            }
                            assert forall|cid: int|
                                #[trigger] s1.registered(cid) && !(s1.con(cid).a == cc.a || s1.con(
                                cid,
                            ).b == cc.a || s1.con(cid).a == cc.b || s1.con(cid).b == cc.b) implies s1
                                .cons_ok(cid) by {
                                assert(old(self).registered(cid));
                                assert(old(self).cons_ok(cid));
                                let c2 = s1.con(cid);
                                assert(c2 == old(self).con(cid));
                                assert(s1.dom(c2.a as int) == old(self).dom(c2.a as int));
                                assert(s1.dom(c2.b as int) == old(self).dom(c2.b as int));
                            }
                            assert(self.all_consistent());
                            assert(self.nonempty_domains());
                            assert(self.distinct_endpoints()) by {
                                assert forall|cid: int| #[trigger] self.registered(cid) implies self
                                    .con(cid).a != self.con(cid).b by {
                                    assert(s1.registered(cid));
                                    assert(self.con(cid) == s1.con(cid));
                                }
                            }
                        }
                        assert forall|v: int, i: int|
                            0 <= v < self.num_vars() && 0 <= i < self.dom(v).len() implies (#[trigger] self
                            .dom(v)[i]).suppressor != Some(id) by {
                            assert(self.killer_ok(v, i));
                            if self.dom(v)[i].suppressor is Some {
                                let k = self.dom(v)[i].suppressor->Some_0;
                                assert(self.registered(k as int));
                            }
                        }
                        assert(s1.same_shape(old(self)));
                        lemma_revivable_transfer(old(self), &s1, id as int);
                        assert forall|w: Map<int, Set<int>>| #[trigger] old(self).revivable_witness(
                            w,
                            id as int,
                        ) implies self.holds_live(w) by {
                            assert(s1.sub_ok(w));
                        }
                    }
                },
            }
        } else {
            proof {
                assert(!self.registered(id as int));
                assert forall|v: int, i: int|
                    0 <= v < self.num_vars() && 0 <= i < self.dom(v).len() implies (#[trigger] self
                    .dom(v)[i]).suppressor != Some(id) by {
                    assert(old(self).killer_ok(v, i));
                }
                assert forall|w: Map<int, Set<int>>| #[trigger] old(self).revivable_witness(
                    w,
                    id as int,
                ) implies self.holds_live(w) by {
                    assert forall|v: int, i: int|
                        0 <= v < self.num_vars() && #[trigger] w[v].contains(i) implies 0
                        <= i < self.dom(v).len() && slot_live(self.dom(v)[i]) by {
                        assert(old(self).killer_ok(v, i));
                        if self.dom(v)[i].suppressor == Some(id) {
                    assert(old(self).registered(id as int));
                        }
                    }
                }
            }
        }
    }

    /// Some slot of variable `v` is currently suppressed by `x`.
    pub open spec fn some_slot_killed_by(&self, v: int, x: usize) -> bool {
        exists|i: int|
            0 <= i < self.dom(v).len() && (#[trigger] self.dom(v)[i]).suppressor == Some(x)
    }

    /// The explanation of a wipeout of variable `wv`: the distinct
    /// suppressor identifiers present on its slots, which are exactly
    /// the constraints responsible for the conflict.
    pub open spec fn wiped_with_explanation(&self, wv: int, ex: Seq<usize>) -> bool {
        &&& 0 <= wv < self.num_vars()
        &&& !self.has_live(wv)
        &&& forall|x: usize|
            #![trigger ex.contains(x)]
            #![trigger self.some_slot_killed_by(wv, x)]
            ex.contains(x) <==> self.some_slot_killed_by(wv, x)
        &&& forall|k1: int, k2: int| 0 <= k1 < k2 < ex.len() ==> ex[k1] != ex[k2]
        &&& self.dom(wv).len() > 0 ==> ex.len() > 0
    }

    /// The set of distinct suppressor identifiers on the slots of the
    /// wiped variable, in first-occurrence order.
    fn get_conflict_explanation(&self, var_id: usize) -> (r: Vec<usize>)
        requires
            (var_id as int) < self.num_vars(),
        ensures
            forall|x: usize| #[trigger] r@.contains(x) <==> self.some_slot_killed_by(
                var_id as int,
                x,
            ),
            forall|k1: int, k2: int| 0 <= k1 < k2 < r@.len() ==> r@[k1] != r@[k2],
    {
        let ghost dv = self.dom(var_id as int);
        let n = self.values[var_id].len();
        let mut r: Vec<usize> = Vec::new();
        let mut i: usize = 0;
        while i < n
            invariant
                i <= n,
                dv == self.dom(var_id as int),
                (var_id as int) < self.num_vars(),
                n as int == dv.len(),
                forall|x: usize| #[trigger] r@.contains(x) <==> exists|k: int|
                    0 <= k < i as int && (#[trigger] dv[k]).suppressor == Some(x),
                forall|k1: int, k2: int| 0 <= k1 < k2 < r@.len() ==> r@[k1] != r@[k2],
            decreases n - i,
        {
            let s = self.values[var_id][i];
            match s.suppressor {
                None => {
                    proof {
                        assert(s == dv[i as int]);
                        assert forall|x: usize| #[trigger] r@.contains(x) implies exists|k: int|
                            0 <= k < i as int + 1 && (#[trigger] dv[k]).suppressor == Some(x) by {
                            let k = choose|k: int|
                                0 <= k < i as int && (#[trigger] dv[k]).suppressor == Some(x);
                            assert(dv[k].suppressor == Some(x));
                        }
                        assert forall|x: usize|
                            (exists|k: int|
                                0 <= k < i as int + 1 && (#[trigger] dv[k]).suppressor == Some(
                                    x,
                                )) implies r@.contains(x) by {
                            let k = choose|k: int|
                                0 <= k < i as int + 1 && (#[trigger] dv[k]).suppressor == Some(x);
                            assert(k < i as int);
                        }
                    }
                },
                Some(x) => {
                    let mut seen: bool = false;
                    let mut j: usize = 0;
                    while j < r.len()
                        invariant
                            j <= r@.len(),
                            seen <==> exists|k: int| 0 <= k < j as int && #[trigger] r@[k] == x,
                        decreases r@.len() - j,
                    {
                        if r[j] == x {
                            seen = true;
                        }
                        j = j + 1;
                    }
                    proof {
                        assert(seen == r@.contains(x));
                    }
                    let ghost r0 = r@;
                    if !seen {
                        r.push(x);
                    }
                    proof {
                        assert(s == dv[i as int]);
                        if !seen {
                            assert(r@ == r0.push(x));
                            assert(forall|k: int| 0 <= k < r0.len() ==> #[trigger] r@[k] == r0[k]);
                            assert(r@[r0.len() as int] == x);
                            assert forall|k1: int, k2: int|
                                0 <= k1 < k2 < r@.len() implies r@[k1] != r@[k2] by {
                                if k2 == r0.len() as int {
                                    assert(r@[k1] == r0[k1]);
                                    assert(!r0.contains(x));
                                }
                            }
                        }
                        assert(r@.contains(x)) by {
                            if !seen {
                                assert(r@[r0.len() as int] == x);
                            }
                        }
                        assert forall|y: usize| #[trigger] r@.contains(y) implies exists|k: int|
                            0 <= k < i as int + 1 && (#[trigger] dv[k]).suppressor == Some(y) by {
                            if y == x {
                                assert(dv[i as int].suppressor == Some(y));
                            } else {
                                if !seen {
                                    let k = choose|k: int| 0 <= k < r@.len() && r@[k] == y;
                                    assert(k < r0.len());
                                    assert(r0.contains(y));
                                }
                                let k = choose|k: int|
                                    0 <= k < i as int && (#[trigger] dv[k]).suppressor == Some(y);
                                assert(dv[k].suppressor == Some(y));
                            }
                        }
                        assert forall|y: usize|
                            (exists|k: int|
                                0 <= k < i as int + 1 && (#[trigger] dv[k]).suppressor == Some(
                                    y,
                                )) implies r@.contains(y) by {
                            let k = choose|k: int|
                                0 <= k < i as int + 1 && (#[trigger] dv[k]).suppressor == Some(y);
                            if k < i as int {
                                assert(r0.contains(y));
                                if !seen {
                                    let k2 = choose|k2: int| 0 <= k2 < r0.len() && r0[k2] == y;
                                    assert(r@[k2] == y);
                                }
                            }
                        }
                    }
                },
            }
            i = i + 1;
        }
        r
    }

    /// Registers a constraint of the given kind between two variables,
    /// allocates its identifier, and propagates to the arc-consistent
    /// closure. On wipeout the constraint stays registered, the pruning
    /// stays visible, and the conflict explanation is returned.
    fn add_constraint(
        &mut self,
        var1: usize,
        var2: usize,
        kind: ConstraintKind,
    ) -> (r: Result<usize, (usize, Vec<usize>)>)
        requires
            old(self).wf(),
            (var1 as int) < old(self).num_vars(),
            (var2 as int) < old(self).num_vars(),
        ensures
            final(self).wf(),
            final(self).num_vars() == old(self).num_vars(),
            final(self).same_shape(old(self)),
            final(self).num_cids() == old(self).num_cids() + 1,
            final(self).registered(old(self).num_cids()),
            final(self).con(old(self).num_cids()) == (Constraint { a: var1, b: var2, kind }),
            forall|cid: int|
                cid != old(self).num_cids() ==> (#[trigger] final(self).registered(cid)
                    <==> old(self).registered(cid)),
            forall|cid: int|
                cid != old(self).num_cids() && #[trigger] old(self).registered(cid) ==> final(self).con(cid) == old(self).con(cid),
            r matches Ok(id) ==> id as int == old(self).num_cids(),
            r matches Err(p) ==> p.0 as int == old(self).num_cids(),
            (old(self).all_ok() && var1 != var2 && r is Ok) ==> final(self).all_ok(),
            (old(self).all_ok() && (exists|cid: int|
                #[trigger] old(self).registered(cid) && old(self).con(cid) == (Constraint {
                    a: var1,
                    b: var2,
                    kind,
                }))) ==> (r is Ok && forall|v: int|
                0 <= v < old(self).num_vars() ==> final(self).dom(v) == old(self).dom(v)),
            forall|w: Map<int, Set<int>>|
                ((var1 != var2 || kind == ConstraintKind::Equality) && #[trigger] old(
                    self,
                ).sub_ok_with(w, var1, var2, kind)) ==> (r is Ok && final(self).holds_live(w)),
            (old(self).all_ok() && var1 == var2 && kind == ConstraintKind::Equality) ==> (r is Ok
                && forall|v: int|
                0 <= v < old(self).num_vars() ==> final(self).dom(v) == old(self).dom(v)),
            (var1 == var2 && kind == ConstraintKind::Inequality) ==> r is Err,
            r is Err ==> exists|wv: int| #[trigger] final(self).wiped_with_explanation(
                wv,
                (r->Err_0).1@,
            ),
            r is Err ==> forall|x: usize|
                #[trigger] (r->Err_0).1@.contains(x) ==> final(self).registered(x as int),
    {
        let id = self.constraints.len();
        self.constraints.push(Some(Constraint { a: var1, b: var2, kind }));
        let ghost e1: Engine = *self;
        proof {
            assert(self.registered(id as int));
            assert(self.con(id as int) == (Constraint { a: var1, b: var2, kind }));
            assert forall|cid: int|
                cid != id as int implies (#[trigger] self.registered(cid) <==> old(self).registered(cid)) by {
                assert(self.constraints@ == old(self).constraints@.push(
                    Some(Constraint { a: var1, b: var2, kind }),
                ));
            }
            assert forall|v2: int, i2: int|
                0 <= v2 < self.num_vars() && 0 <= i2 < self.dom(v2).len() implies #[trigger] self
                .killer_ok(v2, i2) by {
                assert(old(self).killer_ok(v2, i2));
                if self.dom(v2)[i2].suppressor is Some {
                    let k = self.dom(v2)[i2].suppressor->Some_0;
                    assert(old(self).registered(k as int));
                    assert(self.con(k as int) == old(self).con(k as int));
                }
            }
            assert forall|c2: int| #[trigger] self.registered(c2) implies ((self.con(c2).a as int)
                < self.num_vars() && (self.con(c2).b as int) < self.num_vars()) by {
                if c2 != id as int {
                    assert(old(self).registered(c2));
                    assert(self.con(c2) == old(self).con(c2));
                }
            }
            if old(self).all_ok() {
                assert forall|v2: int, i2: int|
                    0 <= v2 < e1.num_vars() && 0 <= i2 < e1.dom(v2).len() && (#[trigger] e1.dom(
                        v2,
                    )[i2]).suppressor is Some implies !seq![id].contains(
                    e1.dom(v2)[i2].suppressor->Some_0,
                ) by {
                    assert(old(self).killer_ok(v2, i2));
                    let k = e1.dom(v2)[i2].suppressor->Some_0;
                    assert(old(self).registered(k as int));
                    assert((k as int) < id as int);
                    assert(seq![id][0] == id);
                }
                assert(e1.no_marks_of(seq![id]));
            }
        }
        if var1 == var2 && kind == ConstraintKind::Inequality {
            // Degenerate inequality of a variable with itself: no value can
            // differ from itself, so the domain is wiped out at once.
            self.suppress_all_free(var1, id);
            proof {
                assert forall|v2: int, i2: int|
                    0 <= v2 < self.num_vars() && 0 <= i2 < self.dom(v2).len() implies #[trigger] self
                    .killer_ok(v2, i2) by {
                    if v2 == var1 as int {
                        if self.dom(v2)[i2].suppressor is Some {
                            let k = self.dom(v2)[i2].suppressor->Some_0;
                            if k != id {
                                assert(self.dom(v2)[i2] == e1.dom(v2)[i2]);
                                assert(e1.killer_ok(v2, i2));
                            } else {
                                assert(self.registered(id as int));
                            }
                        }
                    } else {
                        assert(self.dom(v2) == e1.dom(v2));
                        assert(e1.killer_ok(v2, i2));
                    }
                }
                assert forall|c2: int| #[trigger] self.registered(c2) implies ((self.con(
                    c2,
                ).a as int) < self.num_vars() && (self.con(c2).b as int) < self.num_vars()) by {
                    assert(e1.registered(c2));
                }
                assert(!self.has_live(var1 as int)) by {
                    assert forall|i2: int|
                        0 <= i2 < self.dom(var1 as int).len() implies !slot_live(
                        #[trigger] self.dom(var1 as int)[i2],
                    ) by {
                        assert(self.dom(var1 as int)[i2] == (if e1.dom(
                            var1 as int,
                        )[i2].suppressor is None {
                            Slot { value: e1.dom(var1 as int)[i2].value, suppressor: Some(id) }
                        } else {
                            e1.dom(var1 as int)[i2]
                        }));
                    }
                }
                if old(self).all_ok() && (exists|cid: int|
                    #[trigger] old(self).registered(cid) && old(self).con(cid) == (Constraint {
                        a: var1,
                        b: var2,
                        kind,
                    })) {
                    let dup = choose|cid: int|
                        #[trigger] old(self).registered(cid) && old(self).con(cid) == (Constraint {
                            a: var1,
                            b: var2,
                            kind,
                        });
                    assert(old(self).con(dup).a == old(self).con(dup).b);
                    assert(false);
                }
                assert forall|v2: int, i2: int|
                    0 <= v2 < self.num_vars() && 0 <= i2 < self.dom(v2).len() implies (#[trigger] self
                    .dom(v2)[i2]).value == old(self).dom(v2)[i2].value by {
                    if v2 == var1 as int {
                        assert(self.dom(v2)[i2] == (if e1.dom(v2)[i2].suppressor is None {
                            Slot { value: e1.dom(v2)[i2].value, suppressor: Some(id) }
                        } else {
                            e1.dom(v2)[i2]
                        }));
                    } else {
                        assert(self.dom(v2) == e1.dom(v2));
                    }
                }
                assert(self.same_shape(old(self)));
            }
            let ex = self.get_conflict_explanation(var1);
            proof {
                if self.dom(var1 as int).len() > 0 {
                    assert(self.dom(var1 as int)[0].suppressor is Some);
                    let x = self.dom(var1 as int)[0].suppressor->Some_0;
                    assert(self.some_slot_killed_by(var1 as int, x));
                    assert(ex@.contains(x));
                }
                assert(self.wiped_with_explanation(var1 as int, ex@));
            }
            let ghost exg = ex@;
            let rr: Result<usize, (usize, Vec<usize>)> = Err((id, ex));
            proof {
                assert((rr->Err_0).1@ == exg);
                assert(self.wiped_with_explanation(var1 as int, (rr->Err_0).1@));
                assert forall|x: usize| #[trigger] exg.contains(x) implies self.registered(
                    x as int,
                ) by {
                    assert(self.some_slot_killed_by(var1 as int, x));
                    let i = choose|i: int|
                        0 <= i < self.dom(var1 as int).len() && (#[trigger] self.dom(
                            var1 as int,
                        )[i]).suppressor == Some(x);
                    assert(self.killer_ok(var1 as int, i));
                }
            }
            return rr;
        }
        let pr = self.propagate(id);
        proof {
            assert forall|w: Map<int, Set<int>>| #[trigger] old(self).sub_ok_with(
                w,
                var1,
                var2,
                kind,
            ) implies (pr is Ok && self.holds_live(w)) by {
                assert(e1.same_shape(old(self))) by {
                    assert(forall|v2: int|
                        0 <= v2 < e1.num_vars() ==> #[trigger] e1.dom(v2) == old(self).dom(v2));
                }
                assert forall|v2: int| 0 <= v2 < e1.num_vars() implies #[trigger] w.dom().contains(
                    v2,
                ) by {}
                assert forall|v2: int| 0 <= v2 < e1.num_vars() implies #[trigger] witnessed(
                    w,
                    v2,
                ) by {}
                assert forall|v2: int, i2: int|
                    0 <= v2 < e1.num_vars() && #[trigger] w[v2].contains(i2) implies 0 <= i2
                    < e1.dom(v2).len() && slot_live(e1.dom(v2)[i2]) by {
                    assert(e1.dom(v2) == old(self).dom(v2));
                }
                assert forall|cid: int| #[trigger] e1.registered(cid) implies e1.sub_supports(
                    w,
                    cid,
                ) by {
                    if cid == id as int {
                        assert(e1.con(cid) == (Constraint { a: var1, b: var2, kind }));
                        lemma_side_transfer(old(self), &e1, w, var1 as int, var2 as int, kind);
                        lemma_side_transfer(old(self), &e1, w, var2 as int, var1 as int, kind);
                    } else {
                        assert(old(self).registered(cid));
                        assert(old(self).sub_supports(w, cid));
                        let c2 = e1.con(cid);
                        assert(c2 == old(self).con(cid));
                        assert((c2.a as int) < old(self).num_vars());
                        assert((c2.b as int) < old(self).num_vars());
                        lemma_side_transfer(old(self), &e1, w, c2.a as int, c2.b as int, c2.kind);
                        lemma_side_transfer(old(self), &e1, w, c2.b as int, c2.a as int, c2.kind);
                    }
                }
                assert(e1.sub_ok(w));
            }
            if old(self).all_ok() && var1 == var2 && kind == ConstraintKind::Equality {
                assert forall|cid: int| #[trigger] e1.registered(cid) implies e1.cons_ok(cid) by {
                    if cid == id as int {
                        assert(e1.con(cid) == (Constraint { a: var1, b: var2, kind }));
                        assert forall|i2: int|
                            0 <= i2 < e1.dom(var1 as int).len() && slot_live(
                                #[trigger] e1.dom(var1 as int)[i2],
                            ) implies sup(
                            e1.dom(var1 as int)[i2].value,
                            ConstraintKind::Equality,
                            e1.dom(var1 as int),
                        ) by {}
                    } else {
                        assert(old(self).registered(cid));
                        assert(old(self).cons_ok(cid));
                        let c2 = e1.con(cid);
                        assert(c2 == old(self).con(cid));
                        assert(e1.dom(c2.a as int) == old(self).dom(c2.a as int));
                        assert(e1.dom(c2.b as int) == old(self).dom(c2.b as int));
                    }
                }
                assert forall|v2: int| 0 <= v2 < e1.num_vars() implies #[trigger] e1.has_live(
                    v2,
                ) by {
                    assert(e1.dom(v2) == old(self).dom(v2));
                    assert(old(self).has_live(v2));
                }
            }
            if old(self).all_ok() {
                assert forall|cid: int| #[trigger] e1.registered(cid) && cid != id as int implies e1
                    .cons_ok(cid) by {
                    assert(old(self).registered(cid));
                    assert(old(self).cons_ok(cid));
                    let c2 = e1.con(cid);
                    assert(c2 == old(self).con(cid));
                    assert(e1.dom(c2.a as int) == old(self).dom(c2.a as int));
                    assert(e1.dom(c2.b as int) == old(self).dom(c2.b as int));
                }
                assert forall|v2: int| 0 <= v2 < e1.num_vars() implies #[trigger] e1.has_live(
                    v2,
                ) by {
                    assert(e1.dom(v2) == old(self).dom(v2));
                    assert(old(self).has_live(v2));
                }
                if var1 != var2 && pr is Ok {
                    assert(e1.distinct_endpoints()) by {
                        assert forall|cid: int| #[trigger] e1.registered(cid) implies e1.con(
                            cid,
                        ).a != e1.con(cid).b by {
                            if cid != id as int {
                                assert(old(self).registered(cid));
                                assert(e1.con(cid) == old(self).con(cid));
                            }
                        }
                    }
                    assert(e1.seed_cover(seq![id])) by {
                        assert forall|cid: int| #[trigger] e1.registered(cid) implies (seq![
                            id,
                        ].contains(cid as usize) || e1.cons_ok(cid)) by {
                            if cid == id as int {
                                assert(seq![id][0] == id);
                            }
                        }
                    }
                    assert(self.all_consistent());
                    assert(self.nonempty_domains());
                    assert(self.distinct_endpoints()) by {
                        assert forall|cid: int| #[trigger] self.registered(cid) implies self.con(
                            cid,
                        ).a != self.con(cid).b by {
                            assert(e1.registered(cid));
                            assert(self.con(cid) == e1.con(cid));
                        }
                    }
                }
                if exists|cid: int|
                    #[trigger] old(self).registered(cid) && old(self).con(cid) == (Constraint {
                        a: var1,
                        b: var2,
                        kind,
                    }) {
                    let dup = choose|cid: int|
                        #[trigger] old(self).registered(cid) && old(self).con(cid) == (Constraint {
                            a: var1,
                            b: var2,
                            kind,
                        });
                    assert(e1.all_consistent()) by {
                        assert forall|cid: int| #[trigger] e1.registered(cid) implies e1.cons_ok(
                            cid,
                        ) by {
                            if cid == id as int {
                                assert(old(self).cons_ok(dup));
                                assert(e1.dom(var1 as int) == old(self).dom(var1 as int));
                                assert(e1.dom(var2 as int) == old(self).dom(var2 as int));
                                assert(e1.con(cid) == old(self).con(dup));
                            }
                        }
                    }
                    assert(e1.nonempty_domains());
                }
            }
        }
        match pr {
            Ok(()) => Ok(id),
            Err(e) => {
                let wv = match e {
                    PropagationError::DomainWipeout(w) => w,
                };
                let ex = self.get_conflict_explanation(wv);
                proof {
                    assert(!self.has_live(wv as int));
                    if self.dom(wv as int).len() > 0 {
                        assert(self.dom(wv as int)[0].suppressor is Some);
                        let x = self.dom(wv as int)[0].suppressor->Some_0;
                        assert(self.some_slot_killed_by(wv as int, x));
                        assert(ex@.contains(x));
                    }
                    assert(self.wiped_with_explanation(wv as int, ex@));
                }
                let ghost exg = ex@;
                let rr: Result<usize, (usize, Vec<usize>)> = Err((id, ex));
                proof {
                    assert((rr->Err_0).1@ == exg);
                    assert(self.wiped_with_explanation(wv as int, (rr->Err_0).1@));
                    assert forall|x: usize| #[trigger] exg.contains(x) implies self.registered(
                        x as int,
                    ) by {
                        assert(self.some_slot_killed_by(wv as int, x));
                        let i = choose|i: int|
                            0 <= i < self.dom(wv as int).len() && (#[trigger] self.dom(
                                wv as int,
                            )[i]).suppressor == Some(x);
                        assert(self.killer_ok(wv as int, i));
                    }
                }
                rr
            },
        }
    }

    /// Propagates from a single just-inserted or touched constraint.
    fn propagate(&mut self, start_id: usize) -> (r: Result<(), PropagationError>)
        requires
            old(self).wf(),
            (start_id as int) < old(self).num_cids(),
        ensures
            final(self).wf(),
            final(self).constraints@ == old(self).constraints@,
            final(self).same_shape(old(self)),
            r is Ok && old(self).nonempty_domains() ==> final(self).nonempty_domains(),
            (r is Ok && old(self).distinct_endpoints() && old(self).seed_cover(seq![start_id]))
                ==> final(self).all_consistent(),
            forall|w: Map<int, Set<int>>| #[trigger] old(self).sub_ok(w) ==> r is Ok && final(self).holds_live(w),
            (old(self).all_consistent() && old(self).nonempty_domains() && old(self).no_marks_of(
                seq![start_id],
            )) ==> (r is Ok && forall|v: int|
                0 <= v < old(self).num_vars() ==> final(self).dom(v) == old(self).dom(v)),
            r matches Err(e) ==> (e matches PropagationError::DomainWipeout(wv) && (wv as int)
                < old(self).num_vars() && !final(self).has_live(wv as int)),
    {
        let mut seeds: Vec<usize> = Vec::new();
        seeds.push(start_id);
        proof {
            assert(seeds@ =~= seq![start_id]);
        }
        self.propagate_from_queue(seeds)
    }

    /// Propagates from every constraint incident on either of two
    /// variables: the re-propagation performed after a retraction.
    fn propagate_touching(&mut self, var1: usize, var2: usize) -> (r: Result<(), PropagationError>)
        requires
            old(self).wf(),
        ensures
            final(self).wf(),
            final(self).constraints@ == old(self).constraints@,
            final(self).same_shape(old(self)),
            r is Ok && old(self).nonempty_domains() ==> final(self).nonempty_domains(),
            (r is Ok && old(self).distinct_endpoints() && (forall|cid: int|
                #[trigger] old(self).registered(cid) && !(old(self).con(cid).a == var1 || old(
                    self,
                ).con(cid).b == var1 || old(self).con(cid).a == var2 || old(self).con(cid).b
                    == var2) ==> old(self).cons_ok(cid))) ==> final(self).all_consistent(),
            forall|w: Map<int, Set<int>>| #[trigger] old(self).sub_ok(w) ==> r is Ok && final(self).holds_live(w),
            r matches Err(e) ==> (e matches PropagationError::DomainWipeout(wv) && (wv as int)
                < old(self).num_vars() && !final(self).has_live(wv as int)),
    {
        let seeds = self.incident_seeds(var1, var2);
        proof {
            if old(self).distinct_endpoints() && (forall|cid: int|
                #[trigger] old(self).registered(cid) && !(old(self).con(cid).a == var1 || old(
                    self,
                ).con(cid).b == var1 || old(self).con(cid).a == var2 || old(self).con(cid).b
                    == var2) ==> old(self).cons_ok(cid)) {
                assert forall|cid: int| #[trigger] self.registered(cid) implies (seeds@.contains(
                    cid as usize,
                ) || self.cons_ok(cid)) by {}
                assert(self.seed_cover(seeds@));
            }
        }
        self.propagate_from_queue(seeds)
    }

    /// The worklist fixpoint: pops constraint identifiers in FIFO order,
    /// revises both arcs of each, and on any change enqueues every other
    /// constraint incident on the two variables touched. Identifiers no
    /// longer in the registry are skipped. The incremental loop is not
    /// known to terminate in every adversarial suppressor state, so it
    /// runs under an iteration budget; should the budget ever run out,
    /// the closure is recomputed from scratch by a pass that provably
    /// terminates, ends arc-consistent, and keeps every self-supporting
    /// witness live.
    #[verifier::rlimit(100)]
    fn propagate_from_queue(&mut self, initial: Vec<usize>) -> (r: Result<(), PropagationError>)
        requires
            old(self).wf(),
            forall|k: int|
                0 <= k < initial@.len() ==> ((#[trigger] initial@[k]) as int) < old(self).num_cids(),
        ensures
            final(self).wf(),
            final(self).constraints@ == old(self).constraints@,
            final(self).same_shape(old(self)),
            r is Ok && old(self).nonempty_domains() ==> final(self).nonempty_domains(),
            (r is Ok && old(self).distinct_endpoints() && old(self).seed_cover(initial@)) ==> final(self).all_consistent(),
            forall|w: Map<int, Set<int>>| #[trigger] old(self).sub_ok(w) ==> r is Ok && final(self).holds_live(w),
            (old(self).all_consistent() && old(self).nonempty_domains() && old(self).no_marks_of(
                initial@,
            )) ==> (r is Ok && forall|v: int|
                0 <= v < old(self).num_vars() ==> final(self).dom(v) == old(self).dom(v)),
            r matches Err(e) ==> (e matches PropagationError::DomainWipeout(wv) && (wv as int)
                < old(self).num_vars() && !final(self).has_live(wv as int)),
    {
        let ghost e00: Engine = *old(self);
        let init_len = initial.len();
        let ncons = self.constraints.len();
        let mut flags: Vec<bool> = Vec::new();
        let mut t: usize = 0;
        while t < ncons
            invariant
                t <= ncons,
                flags@.len() == t as int,
                forall|k: int| 0 <= k < t as int ==> !(#[trigger] flags@[k]),
            decreases ncons - t,
        {
            flags.push(false);
            t = t + 1;
        }
        let mut q: Vec<usize> = Vec::new();
        let mut t3: usize = 0;
        while t3 < initial.len()
            invariant
                t3 <= initial@.len(),
                q@ == initial@.take(t3 as int),
            decreases initial@.len() - t3,
        {
            q.push(initial[t3]);
            proof {
                assert(q@ =~= initial@.take(t3 as int + 1));
            }
            t3 = t3 + 1;
        }
        proof {
            assert(q@ =~= initial@);
        }
        let mut t2: usize = 0;
        while t2 < q.len()
            invariant
                t2 <= q@.len(),
                q@ == initial@,
                ncons as int == self.num_cids(),
                self.wf(),
                flags@.len() == ncons as int,
                forall|k: int|
                    0 <= k < initial@.len() ==> ((#[trigger] initial@[k]) as int) < self.num_cids(),
                forall|c2: int|
                    0 <= c2 < flags@.len() && #[trigger] flags@[c2] ==> q@.contains(c2 as usize),
            decreases q@.len() - t2,
        {
            let x = q[t2];
            let ghost f0 = flags@;
            flags[x] = true;
            proof {
                assert(q@.contains(q@[t2 as int]));
                assert forall|c2: int|
                    0 <= c2 < flags@.len() && #[trigger] flags@[c2] implies q@.contains(
                    c2 as usize,
                ) by {
                    if c2 != x as int {
                        assert(f0[c2]);
                    } else {
                        assert(q@[t2 as int] == x);
                    }
                }
            }
            t2 = t2 + 1;
        }
        let mut fuel: usize = usize::MAX;
        while q.len() > 0 && fuel > 0
            invariant
                e00 == *old(self),
                old(self).wf(),
                self.wf(),
                self.constraints@ == old(self).constraints@,
                self.same_shape(old(self)),
                ncons as int == self.num_cids(),
                init_len as int == initial@.len(),
                flags@.len() == self.num_cids(),
                forall|k: int| 0 <= k < q@.len() ==> ((#[trigger] q@[k]) as int) < self.num_cids(),
                forall|c2: int|
                    0 <= c2 < flags@.len() && #[trigger] flags@[c2] ==> q@.contains(c2 as usize),
                old(self).nonempty_domains() ==> self.nonempty_domains(),
                (old(self).distinct_endpoints() && old(self).seed_cover(initial@)) ==> (forall|cid: int|
                    #[trigger] self.registered(cid) && !q@.contains(cid as usize)
                        ==> self.cons_ok(cid)),
                forall|w: Map<int, Set<int>>| #[trigger] old(self).sub_ok(w) ==> self.holds_live(
                    w,
                ),
                (old(self).all_consistent() && old(self).nonempty_domains() && old(self).no_marks_of(
                    initial@,
                )) ==> ((forall|v: int|
                    0 <= v < self.num_vars() ==> #[trigger] self.dom(v) == old(self).dom(v)) && (
                forall|k: int| 0 <= k < q@.len() ==> initial@.contains(#[trigger] q@[k])) && fuel as int
                    >= usize::MAX as int - init_len as int + q@.len() as int),
            decreases fuel,
        {
            let ghost qpre = q@;
            let c = q.remove(0);
            proof {
                assert(c == qpre[0]);
                assert(q@ == qpre.subrange(1, qpre.len() as int));
                assert(forall|k: int| 0 <= k < q@.len() ==> #[trigger] q@[k] == qpre[k + 1]);
                assert forall|x: usize| q@.contains(x) implies qpre.contains(x) by {
                    let k = choose|k: int| 0 <= k < q@.len() && q@[k] == x;
                    assert(qpre[k + 1] == x);
                }
            }
            let ghost f1 = flags@;
            flags[c] = false;
            proof {
                assert forall|c2: int|
                    0 <= c2 < flags@.len() && #[trigger] flags@[c2] implies q@.contains(
                    c2 as usize,
                ) by {
                    assert(c2 != c as int);
                    assert(f1[c2]);
                    assert(qpre.contains(c2 as usize));
                    let k = choose|k: int| 0 <= k < qpre.len() && qpre[k] == c2 as usize;
                    assert(qpre[k] != c);
                    assert(k >= 1);
                    assert(q@[k - 1] == c2 as usize);
                }
            }
            proof {
                if e00.distinct_endpoints() && e00.seed_cover(initial@) {
                    assert forall|cid: int|
                        #[trigger] self.registered(cid) && cid != c as int && !q@.contains(
                        cid as usize,
                    ) implies self.cons_ok(cid) by {
                        if qpre.contains(cid as usize) {
                            let k = choose|k: int| 0 <= k < qpre.len() && qpre[k] == cid as usize;
                            assert(k != 0);
                            assert(q@[k - 1] == cid as usize);
                            assert(q@.contains(cid as usize));
                        }
                        assert(!qpre.contains(cid as usize));
                    }
                }
                if e00.all_consistent() && e00.nonempty_domains() && e00.no_marks_of(initial@) {
                    assert(initial@.contains(qpre[0]));
                }
            }
            let rr = self.process_popped(c, &mut q, &mut flags, Ghost(e00), Ghost(initial@));
            match rr {
                Ok(()) => {},
                Err(e) => {
                    return Err(e);
                },
            }
            fuel = fuel - 1;
        }
        if q.len() > 0 {
            let ghost pre: Engine = *self;
            let r = self.solve_from_scratch();
            proof {
                if old(self).all_consistent() && old(self).nonempty_domains() && old(self).no_marks_of(initial@) {
                    assert(fuel as int >= usize::MAX as int - init_len as int + q@.len() as int);
                    assert(init_len as int <= usize::MAX as int);
                    assert(false);
                }
                assert(pre.registry_unchanged(old(self)));
                assert forall|w: Map<int, Set<int>>| #[trigger] old(self).sub_ok(w) implies (r
                    is Ok && self.holds_live(w)) by {
                    assert(pre.holds_live(w));
                    lemma_sub_ok_transfer(old(self), &pre, w);
                    assert(pre.sub_ok(w));
                }
            }
            return r;
        }
        proof {
            if old(self).distinct_endpoints() && old(self).seed_cover(initial@) {
                assert forall|cid: int| #[trigger] self.registered(cid) implies self.cons_ok(
                    cid,
                ) by {
                    assert(!q@.contains(cid as usize));
                }
            }
        }
        Ok(())
    }

    /// Appends to the worklist every registered constraint incident on
    /// `v`, except `skip`, that is not already flagged as queued, and
    /// flags what it appends.
    fn enqueue_incident(&self, v: usize, skip: usize, q: &mut Vec<usize>, flags: &mut Vec<bool>)
        requires
            old(flags)@.len() == self.num_cids(),
            forall|k: int| 0 <= k < old(q)@.len() ==> ((#[trigger] old(q)@[k]) as int) < self.num_cids(),
            forall|c2: int|
                0 <= c2 < old(flags)@.len() && #[trigger] old(flags)@[c2] ==> old(q)@.contains(
                    c2 as usize,
                ),
        ensures
            final(flags)@.len() == self.num_cids(),
            final(q)@.len() >= old(q)@.len(),
            forall|k: int| 0 <= k < old(q)@.len() ==> #[trigger] final(q)@[k] == old(q)@[k],
            forall|x: usize| old(q)@.contains(x) ==> final(q)@.contains(x),
            forall|k: int| 0 <= k < final(q)@.len() ==> ((#[trigger] final(q)@[k]) as int) < self.num_cids(),
            forall|c2: int|
                0 <= c2 < final(flags)@.len() && #[trigger] final(flags)@[c2] ==> final(q)@.contains(
                    c2 as usize,
                ),
            forall|cid: int|
                #[trigger] self.registered(cid) && cid != skip as int && (self.con(cid).a as int
                    == v as int || self.con(cid).b as int == v as int) ==> final(q)@.contains(
                    cid as usize,
                ),
    {
        let n = self.constraints.len();
        let mut cid: usize = 0;
        while cid < n
            invariant
                cid <= n,
                n as int == self.num_cids(),
                flags@.len() == self.num_cids(),
                q@.len() >= old(q)@.len(),
                forall|k: int| 0 <= k < old(q)@.len() ==> #[trigger] q@[k] == old(q)@[k],
                forall|x: usize| old(q)@.contains(x) ==> q@.contains(x),
                forall|k: int| 0 <= k < q@.len() ==> ((#[trigger] q@[k]) as int) < self.num_cids(),
                forall|c2: int|
                    0 <= c2 < flags@.len() && #[trigger] flags@[c2] ==> q@.contains(c2 as usize),
                forall|c2: int|
                    #[trigger] self.registered(c2) && 0 <= c2 < cid as int && c2 != skip as int
                        && (self.con(c2).a as int == v as int || self.con(c2).b as int
                        == v as int) ==> q@.contains(c2 as usize),
            decreases n - cid,
        {
            if cid != skip {
                let oc = self.constraints[cid];
                match oc {
                    None => {},
                    Some(cc) => {
                        if cc.a == v || cc.b == v {
                            if !flags[cid] {
                                let ghost qpre = q@;
                                q.push(cid);
                                flags[cid] = true;
                                proof {
                                    assert(q@ == qpre.push(cid));
                                    assert(forall|k: int|
                                        0 <= k < qpre.len() ==> #[trigger] q@[k] == qpre[k]);
                                    assert(q@[qpre.len() as int] == cid);
                                    assert(q@.contains(cid));
                                    assert forall|x: usize| qpre.contains(x) implies q@.contains(
                                        x,
                                    ) by {
                                        let k = choose|k: int|
                                            0 <= k < qpre.len() && qpre[k] == x;
                                        assert(q@[k] == x);
                                    }
                                }
                            } else {
                                proof {
                                    assert(q@.contains(cid));
                                }
                            }
                        }
                    },
                }
            }
            cid = cid + 1;
        }
    }

    /// One full sweep over the registry for the from-scratch
    /// recomputation: shrink-revises both arcs of every registered
    /// constraint, in identifier order. A sweep that changes nothing
    /// certifies that every registered constraint is arc-consistent.
    fn shrink_round(&mut self) -> (r: Result<bool, PropagationError>)
        requires
            old(self).wf(),
        ensures
            final(self).wf(),
            final(self).constraints@ == old(self).constraints@,
            final(self).same_shape(old(self)),
            forall|v: int, i: int|
                0 <= v < old(self).num_vars() && 0 <= i < final(self).dom(v).len() && slot_live(
                    #[trigger] final(self).dom(v)[i],
                ) ==> slot_live(old(self).dom(v)[i]),
            r matches Ok(false) ==> (forall|v: int|
                0 <= v < old(self).num_vars() ==> final(self).dom(v) == old(self).dom(v))
                && final(self).all_consistent(),
            r matches Ok(true) ==> final(self).total_live() < old(self).total_live(),
            r is Ok && old(self).nonempty_domains() ==> final(self).nonempty_domains(),
            forall|w: Map<int, Set<int>>| #[trigger] old(self).sub_ok(w) ==> r is Ok && final(self).holds_live(w),
            r matches Err(e) ==> (e matches PropagationError::DomainWipeout(wv) && (wv as int)
                < old(self).num_vars() && !final(self).has_live(wv as int)),
    {
        let n = self.constraints.len();
        let mut changed: bool = false;
        let mut c: usize = 0;
        while c < n
            invariant
                c <= n,
                n as int == self.num_cids(),
                old(self).wf(),
                self.wf(),
                self.constraints@ == old(self).constraints@,
                self.same_shape(old(self)),
                forall|v: int, i: int|
                    0 <= v < old(self).num_vars() && 0 <= i < self.dom(v).len() && slot_live(
                        #[trigger] self.dom(v)[i],
                    ) ==> slot_live(old(self).dom(v)[i]),
                self.total_live() <= old(self).total_live(),
                changed ==> self.total_live() < old(self).total_live(),
                !changed ==> (forall|v: int|
                    0 <= v < old(self).num_vars() ==> self.dom(v) == old(self).dom(v)),
                !changed ==> (forall|cid2: int|
                    0 <= cid2 < c as int && #[trigger] self.registered(cid2) ==> self.cons_ok(
                        cid2,
                    )),
                old(self).nonempty_domains() ==> self.nonempty_domains(),
                forall|w: Map<int, Set<int>>| #[trigger] old(self).sub_ok(w) ==> self.holds_live(
                    w,
                ),
            decreases n - c,
        {
            let oc = self.constraints[c];
            match oc {
                None => {},
                Some(cc) => {
                    proof {
                        assert(self.registered(c as int));
                        assert(self.con(c as int) == cc);
                        assert(old(self).registered(c as int));
                        assert(old(self).con(c as int) == cc);
                    }
                    let ghost p0: Engine = *self;
                    let r1 = self.shrink_revise(cc.a, cc.b, cc.kind, c);
                    proof {
                        let av = cc.a as int;
                        let bv = cc.b as int;
                        let pd = p0.dom(av);
                        let nd = self.dom(av);
                        assert(nd == shrunk_dom(pd, cc.kind, c, p0.dom(bv)));
                        assert forall|i: int|
                            0 <= i < nd.len() && slot_live(#[trigger] nd[i]) implies slot_live(
                            pd[i],
                        ) by {
                            assert(nd[i] == shrunk_slot(pd[i], cc.kind, c, p0.dom(bv)));
                        }
                        assert forall|i: int|
                            0 <= i < pd.len() && slot_live(#[trigger] pd[i]) && sup(
                                pd[i].value,
                                cc.kind,
                                p0.dom(bv),
                            ) implies slot_live(nd[i]) by {
                            assert(nd[i] == shrunk_slot(pd[i], cc.kind, c, p0.dom(bv)));
                        }
                        lemma_count_live_le(pd, nd);
                        assert forall|v: int| 0 <= v < p0.num_vars() implies count_live(
                            #[trigger] self.dom(v),
                        ) <= count_live(p0.dom(v)) by {
                            if v != av {
                                assert(self.dom(v) == p0.dom(v));
                            }
                        }
                        lemma_total_live_upto_le(&p0, self, p0.num_vars());
                        assert(self.total_live() <= p0.total_live());
                        assert(p0.registry_unchanged(old(self)));
                        assert(p0.same_shape(old(self)));
                        assert forall|w: Map<int, Set<int>>| #[trigger] old(self).sub_ok(w) implies self
                            .holds_live(w) by {
                            assert(p0.holds_live(w));
                            lemma_pass_keeps_witness(
                                &p0,
                                self,
                                old(self),
                                w,
                                av,
                                bv,
                                cc.kind,
                                c as int,
                            );
                        }
                        if r1 is Err {
                            assert forall|w: Map<int, Set<int>>| !(#[trigger] old(self).sub_ok(
                                w,
                            )) by {
                                if old(self).sub_ok(w) {
                                    assert(self.holds_live(w));
                                    assert(witnessed(w, av));
                                    let i = choose|i: int| w[av].contains(i);
                                    assert(slot_live(self.dom(av)[i]));
                                }
                            }
                        }
                    }
                    let ch1 = match r1 {
                        Ok(b1) => b1,
                        Err(e) => {
                            return Err(e);
                        },
                    };
                    proof {
                        if ch1 {
                            let pd = p0.dom(cc.a as int);
                            let nd = self.dom(cc.a as int);
                            let i = choose|i: int|
                                0 <= i < nd.len() && (#[trigger] nd[i]).suppressor
                                    != pd[i].suppressor;
                            assert(nd[i] == shrunk_slot(pd[i], cc.kind, c, p0.dom(cc.b as int)));
                            assert(slot_live(pd[i]) && !slot_live(nd[i]));
                            lemma_count_live_le(pd, nd);
                            assert(count_live(nd) < count_live(pd));
                            assert forall|v: int| 0 <= v < p0.num_vars() implies count_live(
                                #[trigger] self.dom(v),
                            ) <= count_live(p0.dom(v)) by {
                                if v != cc.a as int {
                                    assert(self.dom(v) == p0.dom(v));
                                }
                            }
                            lemma_total_live_upto_le(&p0, self, p0.num_vars());
                            assert(self.total_live() < p0.total_live());
                        } else {
                            let pd = p0.dom(cc.a as int);
                            let nd = self.dom(cc.a as int);
                            assert forall|i: int| 0 <= i < nd.len() implies nd[i] == pd[i] by {
                                assert(nd[i] == shrunk_slot(pd[i], cc.kind, c, p0.dom(cc.b as int)));
                                assert(nd[i].suppressor == pd[i].suppressor);
                                assert(nd[i].value == pd[i].value);
                            }
                            assert(nd =~= pd);
                        }
                    }
                    let ghost p1: Engine = *self;
                    let r2 = self.shrink_revise(cc.b, cc.a, cc.kind, c);
                    proof {
                        let av = cc.b as int;
                        let bv = cc.a as int;
                        let pd = p1.dom(av);
                        let nd = self.dom(av);
                        assert(nd == shrunk_dom(pd, cc.kind, c, p1.dom(bv)));
                        assert forall|i: int|
                            0 <= i < nd.len() && slot_live(#[trigger] nd[i]) implies slot_live(
                            pd[i],
                        ) by {
                            assert(nd[i] == shrunk_slot(pd[i], cc.kind, c, p1.dom(bv)));
                        }
                        assert forall|i: int|
                            0 <= i < pd.len() && slot_live(#[trigger] pd[i]) && sup(
                                pd[i].value,
                                cc.kind,
                                p1.dom(bv),
                            ) implies slot_live(nd[i]) by {
                            assert(nd[i] == shrunk_slot(pd[i], cc.kind, c, p1.dom(bv)));
                        }
                        lemma_count_live_le(pd, nd);
                        assert forall|v: int| 0 <= v < p1.num_vars() implies count_live(
                            #[trigger] self.dom(v),
                        ) <= count_live(p1.dom(v)) by {
                            if v != av {
                                assert(self.dom(v) == p1.dom(v));
                            }
                        }
                        lemma_total_live_upto_le(&p1, self, p1.num_vars());
                        assert(self.total_live() <= p1.total_live());
                        assert(p1.registry_unchanged(old(self)));
                        assert(p1.same_shape(old(self)));
                        assert forall|w: Map<int, Set<int>>| #[trigger] old(self).sub_ok(w) implies self
                            .holds_live(w) by {
                            assert(p1.holds_live(w));
                            lemma_pass_keeps_witness(
                                &p1,
                                self,
                                old(self),
                                w,
                                av,
                                bv,
                                cc.kind,
                                c as int,
                            );
                        }
                        if r2 is Err {
                            assert forall|w: Map<int, Set<int>>| !(#[trigger] old(self).sub_ok(
                                w,
                            )) by {
                                if old(self).sub_ok(w) {
                                    assert(self.holds_live(w));
                                    assert(witnessed(w, av));
                                    let i = choose|i: int| w[av].contains(i);
                                    assert(slot_live(self.dom(av)[i]));
                                }
                            }
                        }
                    }
                    let ch2 = match r2 {
                        Ok(b2) => b2,
                        Err(e) => {
                            return Err(e);
                        },
                    };
                    proof {
                        if ch2 {
                            let pd = p1.dom(cc.b as int);
                            let nd = self.dom(cc.b as int);
                            let i = choose|i: int|
                                0 <= i < nd.len() && (#[trigger] nd[i]).suppressor
                                    != pd[i].suppressor;
                            assert(nd[i] == shrunk_slot(pd[i], cc.kind, c, p1.dom(cc.a as int)));
                            assert(slot_live(pd[i]) && !slot_live(nd[i]));
                            lemma_count_live_le(pd, nd);
                            assert(count_live(nd) < count_live(pd));
                            assert forall|v: int| 0 <= v < p1.num_vars() implies count_live(
                                #[trigger] self.dom(v),
                            ) <= count_live(p1.dom(v)) by {
                                if v != cc.b as int {
                                    assert(self.dom(v) == p1.dom(v));
                                }
                            }
                            lemma_total_live_upto_le(&p1, self, p1.num_vars());
                            assert(self.total_live() < p1.total_live());
                        } else {
                            let pd = p1.dom(cc.b as int);
                            let nd = self.dom(cc.b as int);
                            assert forall|i: int| 0 <= i < nd.len() implies nd[i] == pd[i] by {
                                assert(nd[i] == shrunk_slot(pd[i], cc.kind, c, p1.dom(cc.a as int)));
                                assert(nd[i].suppressor == pd[i].suppressor);
                                assert(nd[i].value == pd[i].value);
                            }
                            assert(nd =~= pd);
                        }
                        if !ch1 && !ch2 && !changed {
                            // Nothing moved: both arcs of this constraint are consistent
                            // in the unchanged state.
                            assert forall|i: int|
                                0 <= i < self.dom(cc.a as int).len() && slot_live(
                                    #[trigger] self.dom(cc.a as int)[i],
                                ) implies sup(
                                self.dom(cc.a as int)[i].value,
                                cc.kind,
                                self.dom(cc.b as int),
                            ) by {
                                let s = p0.dom(cc.a as int)[i];
                                assert(self.dom(cc.a as int)[i] == s);
                                if !sup(s.value, cc.kind, p0.dom(cc.b as int)) {
                                    assert(shrunk_slot(s, cc.kind, c, p0.dom(cc.b as int)).suppressor
                                        == Some(c));
                                    assert(p1.dom(cc.a as int)[i].suppressor == Some(c));
                                    assert(false);
                                }
                                assert(self.dom(cc.b as int) == p0.dom(cc.b as int));
                            }
                            assert forall|i: int|
                                0 <= i < self.dom(cc.b as int).len() && slot_live(
                                    #[trigger] self.dom(cc.b as int)[i],
                                ) implies sup(
                                self.dom(cc.b as int)[i].value,
                                cc.kind,
                                self.dom(cc.a as int),
                            ) by {
                                let s = p1.dom(cc.b as int)[i];
                                assert(self.dom(cc.b as int)[i] == s);
                                if !sup(s.value, cc.kind, p1.dom(cc.a as int)) {
                                    assert(shrunk_slot(s, cc.kind, c, p1.dom(cc.a as int)).suppressor
                                        == Some(c));
                                    assert(self.dom(cc.b as int)[i].suppressor == Some(c));
                                    assert(false);
                                }
                                assert(self.dom(cc.a as int) == p1.dom(cc.a as int));
                            }
                            assert(self.cons_ok(c as int));
                        }
                    }
                    if ch1 || ch2 {
                        changed = true;
                    }
                    proof {
                        let av = cc.a as int;
                        let bv = cc.b as int;
                        if old(self).nonempty_domains() {
                            assert forall|v: int| 0 <= v < self.num_vars() implies #[trigger] self
                                .has_live(v) by {
                                if v == bv {
                                    assert(exists|i: int|
                                        0 <= i < self.dom(bv).len() && slot_live(
                                            self.dom(bv)[i],
                                        ));
                                } else if v == av {
                                    assert(self.dom(av) == p1.dom(av));
                                    assert(exists|i: int|
                                        0 <= i < p1.dom(av).len() && slot_live(p1.dom(av)[i]));
                                } else {
                                    assert(self.dom(v) == p0.dom(v));
                                    assert(p0.has_live(v));
                                }
                            }
                        }
                        if !changed {
                            assert forall|v: int| 0 <= v < self.num_vars() implies #[trigger] self
                                .dom(v) == old(self).dom(v) by {
                                if v == av {
                                    assert(self.dom(av) == p1.dom(av));
                                    assert(p1.dom(av) == p0.dom(av));
                                } else if v == bv {
                                    assert(self.dom(bv) == p1.dom(bv));
                                } else {
                                    assert(self.dom(v) == p0.dom(v));
                                }
                            }
                            assert forall|cid2: int|
                                0 <= cid2 < c as int + 1 && #[trigger] self.registered(
                                cid2,
                            ) implies self.cons_ok(cid2) by {
                                if cid2 < c as int {
                                    assert(p0.registered(cid2));
                                    assert(p0.cons_ok(cid2));
                                    let c2 = self.con(cid2);
                                    assert(c2 == p0.con(cid2));
                                    assert((c2.a as int) < self.num_vars());
                                    assert((c2.b as int) < self.num_vars());
                                    assert(self.dom(c2.a as int) == p0.dom(c2.a as int));
                                    assert(self.dom(c2.b as int) == p0.dom(c2.b as int));
                                } else {
                                    assert(self.cons_ok(c as int));
                                }
                            }
                        }
                    }
                },
            }
            proof {
                if !changed {
                    assert forall|cid2: int|
                        0 <= cid2 < c as int + 1 && #[trigger] self.registered(cid2) implies self
                        .cons_ok(cid2) by {
                        if cid2 == c as int {
                            assert(self.constraints@[cid2] is Some);
                        }
                    }
                }
            }
            c = c + 1;
        }
        proof {
            if !changed {
                assert forall|cid2: int| #[trigger] self.registered(cid2) implies self.cons_ok(
                    cid2,
                ) by {
                    assert(0 <= cid2 < n as int);
                }
            }
        }
        Ok(changed)
    }

    /// From-scratch recomputation of the arc-consistent closure: clears
    /// every suppressor and then sweeps the whole registry, shrink-only,
    /// until a sweep changes nothing. Each changing sweep kills at least
    /// one slot, so the number of sweeps is bounded by the total number
    /// of slots. This path backs the incremental worklist in states where
    /// that worklist's own iteration budget runs out.
    fn solve_from_scratch(&mut self) -> (r: Result<(), PropagationError>)
        requires
            old(self).wf(),
        ensures
            final(self).wf(),
            final(self).constraints@ == old(self).constraints@,
            final(self).same_shape(old(self)),
            r is Ok ==> final(self).all_consistent(),
            r is Ok && old(self).nonempty_domains() ==> final(self).nonempty_domains(),
            forall|w: Map<int, Set<int>>| #[trigger] old(self).sub_ok(w) ==> r is Ok && final(self).holds_live(w),
            r matches Err(e) ==> (e matches PropagationError::DomainWipeout(wv) && (wv as int)
                < old(self).num_vars() && !final(self).has_live(wv as int)),
    {
        self.clear_all_marks();
        proof {
            assert forall|v: int| 0 <= v < self.num_vars() && old(self).has_live(v) implies #[trigger] self
                .has_live(v) by {
                let i = choose|i: int|
                    0 <= i < old(self).dom(v).len() && slot_live(old(self).dom(v)[i]);
                assert(slot_live(self.dom(v)[i]));
            }
            assert forall|w: Map<int, Set<int>>| #[trigger] old(self).sub_ok(w) implies self
                .holds_live(w) by {
                assert forall|v: int, i: int|
                    0 <= v < self.num_vars() && #[trigger] w[v].contains(i) implies 0 <= i
                    < self.dom(v).len() && slot_live(self.dom(v)[i]) by {
                    assert(0 <= i < old(self).dom(v).len());
                }
            }
        }
        let ghost s0: Engine = *self;
        let mut stable: bool = false;
        while !stable
            invariant
                old(self).wf(),
                self.wf(),
                self.constraints@ == old(self).constraints@,
                self.same_shape(old(self)),
                old(self).nonempty_domains() ==> self.nonempty_domains(),
                forall|w: Map<int, Set<int>>| #[trigger] old(self).sub_ok(w) ==> self.holds_live(
                    w,
                ),
                stable ==> self.all_consistent(),
            decreases (if stable {
                0nat
            } else {
                self.total_live() + 1
            }),
        {
            let ghost q0: Engine = *self;
            let rr = self.shrink_round();
            proof {
                if rr is Err {
                    assert forall|w: Map<int, Set<int>>| !(#[trigger] old(self).sub_ok(w)) by {
                        if old(self).sub_ok(w) {
                            assert(q0.holds_live(w));
                            assert(q0.registry_unchanged(old(self)));
                            assert(q0.same_shape(old(self)));
                            lemma_sub_ok_transfer(old(self), &q0, w);
                            assert(q0.sub_ok(w));
                        }
                    }
                } else {
                    assert forall|w: Map<int, Set<int>>| #[trigger] old(self).sub_ok(w) implies self
                        .holds_live(w) by {
                        assert(q0.holds_live(w));
                        lemma_sub_ok_transfer(old(self), &q0, w);
                        assert(q0.sub_ok(w));
                    }
                }
            }
            match rr {
                Ok(ch) => {
                    if !ch {
                        stable = true;
                    }
                },
                Err(e) => {
                    return Err(e);
                },
            }
        }
        Ok(())
    }

    /// One shrink-only revision pass for the from-scratch recomputation:
    /// kills unsupported live values of `var1` against the active values
    /// of `var2`, attributing to `cid`, and never revives anything.
    fn shrink_revise(
        &mut self,
        var1: usize,
        var2: usize,
        kind: ConstraintKind,
        cid: usize,
    ) -> (r: Result<bool, PropagationError>)
        requires
            old(self).wf(),
            (var1 as int) < old(self).num_vars(),
            (var2 as int) < old(self).num_vars(),
            old(self).registered(cid as int),
            (old(self).con(cid as int).a == var1 && old(self).con(cid as int).b == var2) || (old(self).con(cid as int).a == var2 && old(self).con(cid as int).b == var1),
        ensures
            final(self).wf(),
            final(self).constraints@ == old(self).constraints@,
            final(self).values@.len() == old(self).values@.len(),
            forall|v: int|
                0 <= v < old(self).num_vars() && v != var1 as int ==> final(self).dom(v) == old(self).dom(v),
            final(self).dom(var1 as int) == shrunk_dom(
                old(self).dom(var1 as int),
                kind,
                cid,
                old(self).dom(var2 as int),
            ),
            r is Ok <==> exists|i: int|
                0 <= i < final(self).dom(var1 as int).len() && slot_live(
                    final(self).dom(var1 as int)[i],
                ),
            r matches Ok(ch) ==> (ch <==> exists|i: int|
                0 <= i < final(self).dom(var1 as int).len() && (final(self).dom(
                    var1 as int,
                )[i]).suppressor != (old(self).dom(var1 as int)[i]).suppressor),
            r is Err ==> r->Err_0 == PropagationError::DomainWipeout(var1),
    {
        let ghost d1 = self.dom(var1 as int);
        let ghost d2 = self.dom(var2 as int);
        let active_b = active_values(&self.values[var2]);
        let n = self.values[var1].len();
        let mut row: Vec<Slot> = Vec::new();
        let mut changed: bool = false;
        let mut any_live: bool = false;
        let mut i: usize = 0;
        while i < n
            invariant
                n as int == d1.len(),
                i <= n,
                active_b@ == active_of(d2),
                d1 == self.dom(var1 as int),
                d2 == self.dom(var2 as int),
                (var1 as int) < self.num_vars(),
                (var2 as int) < self.num_vars(),
                row@.len() == i as int,
                forall|k: int|
                    0 <= k < i as int ==> #[trigger] row@[k] == shrunk_slot(d1[k], kind, cid, d2),
                changed <==> exists|k: int|
                    0 <= k < i as int && (#[trigger] row@[k]).suppressor != d1[k].suppressor,
                any_live <==> exists|k: int| 0 <= k < i as int && slot_live(#[trigger] row@[k]),
            decreases n - i,
        {
            let s = self.values[var1][i];
            let mut ns = s;
            let mut slot_changed = false;
            if s.suppressor.is_none() {
                let has_sup = value_supported(s.value, kind, &active_b);
                proof {
                    lemma_active_sup(d2, s.value);
                    assert(has_sup == sup(s.value, kind, d2));
                }
                if !has_sup {
                    ns = Slot { value: s.value, suppressor: Some(cid) };
                    slot_changed = true;
                }
            }
            proof {
                assert(s == d1[i as int]);
                assert(ns == shrunk_slot(d1[i as int], kind, cid, d2));
                assert(slot_changed == (ns.suppressor != s.suppressor));
            }
            let was_changed = changed;
            let was_live = any_live;
            if slot_changed {
                changed = true;
            }
            if ns.suppressor.is_none() {
                any_live = true;
            }
            let ghost row0 = row@;
            row.push(ns);
            proof {
                assert(row@ == row0.push(ns));
                assert(forall|k: int| 0 <= k < i as int ==> #[trigger] row@[k] == row0[k]);
                assert(row@[i as int] == ns);
                if changed {
                    if slot_changed {
                        assert(row@[i as int].suppressor != d1[i as int].suppressor);
                    } else {
                        let k = choose|k: int|
                            0 <= k < i as int && (#[trigger] row0[k]).suppressor
                                != d1[k].suppressor;
                        assert(row@[k].suppressor != d1[k].suppressor);
                    }
                } else {
                    assert forall|k: int| 0 <= k < i as int + 1 implies (#[trigger] row@[k]).suppressor
                        == d1[k].suppressor by {
                        if k < i as int {
                            assert(row@[k] == row0[k]);
                            assert(!was_changed);
                        } else {
                            assert(row@[k] == ns);
                        }
                    }
                }
                if any_live {
                    if ns.suppressor is None {
                        assert(slot_live(row@[i as int]));
                    } else {
                        let k = choose|k: int| 0 <= k < i as int && slot_live(#[trigger] row0[k]);
                        assert(slot_live(row@[k]));
                    }
                } else {
                    assert forall|k: int| 0 <= k < i as int + 1 implies !slot_live(
                        #[trigger] row@[k],
                    ) by {
                        if k < i as int {
                            assert(row@[k] == row0[k]);
                            assert(!was_live);
                        } else {
                            assert(row@[k] == ns);
                        }
                    }
                }
            }
            i = i + 1;
        }
        self.values[var1] = row;
        proof {
            assert(self.dom(var1 as int) =~= shrunk_dom(d1, kind, cid, d2));
            assert forall|v: int, i2: int|
                0 <= v < self.num_vars() && 0 <= i2 < self.dom(v).len() implies #[trigger] self
                .killer_ok(v, i2) by {
                if v != var1 as int {
                    assert(old(self).killer_ok(v, i2));
                    if self.dom(v)[i2].suppressor is Some {
                        let k = self.dom(v)[i2].suppressor->Some_0;
                        assert(old(self).registered(k as int));
                    }
                } else {
                    let s0 = d1[i2];
                    assert(self.dom(v)[i2] == shrunk_slot(s0, kind, cid, d2));
                    if self.dom(v)[i2].suppressor is Some {
                        let k = self.dom(v)[i2].suppressor->Some_0;
                        if s0.suppressor is Some {
                            assert(self.dom(v)[i2] == s0);
                            assert(old(self).killer_ok(v, i2));
                        } else {
                            assert(k == cid);
                            assert(old(self).registered(cid as int));
                        }
                    }
                }
            }
            assert forall|c2: int| #[trigger] self.registered(c2) implies ((self.con(c2).a as int)
                < self.num_vars() && (self.con(c2).b as int) < self.num_vars()) by {
                assert(old(self).registered(c2));
            }
        }
        if any_live {
            Ok(changed)
        } else {
            Err(PropagationError::DomainWipeout(var1))
        }
    }
}

/// The witness made of every currently live slot of an engine: one set
/// of slot indexes per variable.
pub open spec fn live_map(e: &Engine) -> Map<int, Set<int>> {
    Map::new(
        |v: int| 0 <= v < e.num_vars(),
        |v: int| Set::new(|i: int| 0 <= i < e.dom(v).len() && slot_live(e.dom(v)[i])),
    )
}

/// In a consistent engine, the live slots support themselves: after a
/// constraint is removed and its suppressors cleared, every slot that was
/// live is still live, and the live slots of the previous state form a
/// self-supporting witness of the new state.
proof fn lemma_live_map_sub_ok(eold: &Engine, s1: &Engine, id: int)
    requires
        eold.all_ok(),
        s1.num_vars() == eold.num_vars(),
        s1.num_cids() == eold.num_cids(),
        !s1.registered(id),
        forall|cid: int|
            cid != id ==> (#[trigger] s1.registered(cid) <==> eold.registered(cid)),
        forall|cid: int|
            cid != id && #[trigger] eold.registered(cid) ==> s1.con(cid) == eold.con(cid),
        forall|v: int| 0 <= v < eold.num_vars() ==> (#[trigger] s1.dom(v)).len() == eold.dom(
            v,
        ).len(),
        forall|v: int, i: int|
            0 <= v < eold.num_vars() && 0 <= i < eold.dom(v).len() ==> (#[trigger] s1.dom(
                v,
            )[i]).value == eold.dom(v)[i].value && (s1.dom(v)[i].suppressor == eold.dom(
                v,
            )[i].suppressor || s1.dom(v)[i].suppressor is None),
    ensures
        s1.sub_ok(live_map(eold)),
        s1.nonempty_domains(),
        forall|v: int, i: int|
            0 <= v < eold.num_vars() && 0 <= i < eold.dom(v).len() && slot_live(
                #[trigger] eold.dom(v)[i],
            ) ==> slot_live(s1.dom(v)[i]),
{
    let w = live_map(eold);
    assert forall|v: int, i: int|
        0 <= v < eold.num_vars() && 0 <= i < eold.dom(v).len() && slot_live(
            #[trigger] eold.dom(v)[i],
        ) implies slot_live(s1.dom(v)[i]) by {}
    assert forall|v: int| 0 <= v < s1.num_vars() implies #[trigger] w.dom().contains(v) by {}
    assert forall|v: int| 0 <= v < s1.num_vars() implies #[trigger] witnessed(w, v) by {
        assert(eold.has_live(v));
        let i = choose|i: int| 0 <= i < eold.dom(v).len() && slot_live(eold.dom(v)[i]);
        assert(w[v].contains(i));
    }
    assert forall|v: int, i: int|
        0 <= v < s1.num_vars() && #[trigger] w[v].contains(i) implies 0 <= i < s1.dom(v).len()
        && slot_live(s1.dom(v)[i]) by {
        assert(slot_live(eold.dom(v)[i]));
    }
    assert forall|cid: int| #[trigger] s1.registered(cid) implies s1.sub_supports(w, cid) by {
        assert(cid != id);
        assert(eold.registered(cid));
        assert(eold.cons_ok(cid));
        let c = s1.con(cid);
        assert(c == eold.con(cid));
        let av = c.a as int;
        let bv = c.b as int;
        assert((av < eold.num_vars()) && (bv < eold.num_vars()));
        lemma_live_side(eold, s1, av, bv, c.kind);
        lemma_live_side(eold, s1, bv, av, c.kind);
    }
    assert forall|v: int| 0 <= v < s1.num_vars() implies #[trigger] s1.has_live(v) by {
        assert(eold.has_live(v));
        let i = choose|i: int| 0 <= i < eold.dom(v).len() && slot_live(eold.dom(v)[i]);
        assert(slot_live(s1.dom(v)[i]));
    }
}

/// One direction of the live-slot witness property, derived from arc
/// consistency of the previous state.
proof fn lemma_live_side(eold: &Engine, s1: &Engine, x: int, y: int, kind: ConstraintKind)
    requires
        0 <= x < eold.num_vars(),
        0 <= y < eold.num_vars(),
        s1.num_vars() == eold.num_vars(),
        arc_ok(eold.dom(x), kind, eold.dom(y)),
        forall|v: int| 0 <= v < eold.num_vars() ==> (#[trigger] s1.dom(v)).len() == eold.dom(
            v,
        ).len(),
        forall|v: int, i: int|
            0 <= v < eold.num_vars() && 0 <= i < eold.dom(v).len() ==> (#[trigger] s1.dom(
                v,
            )[i]).value == eold.dom(v)[i].value,
    ensures
        s1.sub_supported_side(live_map(eold), x, y, kind),
{
    let w = live_map(eold);
    assert forall|i: int| #[trigger] w[x].contains(i) implies exists|j: int|
        #[trigger] w[y].contains(j) && rel(s1.dom(x)[i].value, kind, s1.dom(y)[j].value) by {
        assert(slot_live(eold.dom(x)[i]));
        assert(sup(eold.dom(x)[i].value, kind, eold.dom(y)));
        match kind {
            ConstraintKind::Equality => {
                let j = choose|j: int|
                    0 <= j < eold.dom(y).len() && slot_live(#[trigger] eold.dom(y)[j]) && eold.dom(
                        y,
                    )[j].value == eold.dom(x)[i].value;
                assert(w[y].contains(j));
                assert(rel(s1.dom(x)[i].value, kind, s1.dom(y)[j].value));
            },
            ConstraintKind::Inequality => {
                let j = choose|j: int|
                    0 <= j < eold.dom(y).len() && slot_live(#[trigger] eold.dom(y)[j]) && eold.dom(
                        y,
                    )[j].value != eold.dom(x)[i].value;
                assert(w[y].contains(j));
                assert(rel(s1.dom(x)[i].value, kind, s1.dom(y)[j].value));
            },
        }
    }
}

/// After removing constraint `id` and clearing its suppressors, every
/// witness that was revivable with respect to `id` is a self-supporting
/// witness of the new state.
proof fn lemma_revivable_transfer(eold: &Engine, s1: &Engine, id: int)
    requires
        s1.num_vars() == eold.num_vars(),
        !s1.registered(id),
        forall|cid: int|
            cid != id ==> (#[trigger] s1.registered(cid) <==> eold.registered(cid)),
        forall|cid: int|
            cid != id && #[trigger] eold.registered(cid) ==> s1.con(cid) == eold.con(cid),
        forall|cid: int| #[trigger] eold.registered(cid) ==> (eold.con(cid).a as int)
            < eold.num_vars() && (eold.con(cid).b as int) < eold.num_vars(),
        s1.same_shape(eold),
        forall|v: int, i: int|
            0 <= v < s1.num_vars() && 0 <= i < s1.dom(v).len() ==> ((#[trigger] s1.dom(
                v,
            )[i]).suppressor == eold.dom(v)[i].suppressor || s1.dom(v)[i].suppressor is None)
                && s1.dom(v)[i].suppressor != Some(id as usize),
    ensures
        forall|w: Map<int, Set<int>>| #[trigger] eold.revivable_witness(w, id) ==> s1.sub_ok(w),
{
    assert forall|w: Map<int, Set<int>>| #[trigger] eold.revivable_witness(w, id) implies s1
        .sub_ok(w) by {
        assert forall|v: int, i: int|
            0 <= v < s1.num_vars() && #[trigger] w[v].contains(i) implies 0 <= i < s1.dom(
            v,
        ).len() && slot_live(s1.dom(v)[i]) by {
            assert((s1.dom(v)[i]).suppressor == eold.dom(v)[i].suppressor || s1.dom(
                v,
            )[i].suppressor is None);
            assert(s1.dom(v)[i].suppressor != Some(id as usize));
        }
        assert forall|v: int| 0 <= v < s1.num_vars() implies #[trigger] w.dom().contains(v) by {}
        assert forall|v: int| 0 <= v < s1.num_vars() implies #[trigger] witnessed(w, v) by {}
        assert forall|cid: int| #[trigger] s1.registered(cid) implies s1.sub_supports(w, cid) by {
            assert(cid != id);
            assert(eold.registered(cid));
            assert(eold.sub_supports(w, cid));
            let c2 = s1.con(cid);
            assert(c2 == eold.con(cid));
            assert((c2.a as int) < eold.num_vars());
            assert((c2.b as int) < eold.num_vars());
            lemma_side_transfer(eold, s1, w, c2.a as int, c2.b as int, c2.kind);
            lemma_side_transfer(eold, s1, w, c2.b as int, c2.a as int, c2.kind);
        }
    }
}

/// Self-support law: in a consistent engine state, the live slots form,
/// by themselves, a self-supporting witness. Together with the witness
/// clauses of `new_eq`, `new_neq` and `retract_constraint` this pins the
/// active domains to the unique arc-consistent closure: every slot of
/// this witness stays live under any further sequence of calls that
/// keeps the constraints satisfiable, whatever their order.
pub proof fn lemma_live_witness(e: &Engine)
    requires
        e.all_ok(),
    ensures
        e.sub_ok(live_map(e)),
{
    lemma_live_map_sub_ok(e, e, e.num_cids());
}

/// Summing per-variable live counts preserves per-variable bounds, and a
/// strict drop in one variable drops the total strictly.
proof fn lemma_total_live_upto_le(pre: &Engine, post: &Engine, n: int)
    requires
        forall|v: int| 0 <= v < n ==> count_live(#[trigger] post.dom(v)) <= count_live(pre.dom(v)),
    ensures
        post.total_live_upto(n) <= pre.total_live_upto(n),
        (exists|v: int|
            0 <= v < n && count_live(#[trigger] post.dom(v)) < count_live(pre.dom(v)))
            ==> post.total_live_upto(n) < pre.total_live_upto(n),
    decreases n,
{
    if n > 0 {
        lemma_total_live_upto_le(pre, post, n - 1);
        if exists|v: int|
            0 <= v < n && count_live(#[trigger] post.dom(v)) < count_live(pre.dom(v)) {
            let v = choose|v: int|
                0 <= v < n && count_live(#[trigger] post.dom(v)) < count_live(pre.dom(v));
            if v < n - 1 {
                assert(exists|u: int|
                    0 <= u < n - 1 && count_live(#[trigger] post.dom(u)) < count_live(
                        pre.dom(u),
                    ));
            }
        }
    }
}

/// Combined effect of one full-revision pass on the witness clauses: a
/// self-supporting witness stays live, and while a witness exists the
/// revised variable keeps a live slot.
proof fn lemma_pass_effects(
    pre: &Engine,
    post: &Engine,
    e0: &Engine,
    var1: int,
    var2: int,
    kind: ConstraintKind,
    cid: usize,
)
    requires
        e0.wf(),
        pre.constraints@ == e0.constraints@,
        pre.same_shape(&e0),
        post.num_vars() == pre.num_vars(),
        0 <= var1 < pre.num_vars(),
        0 <= var2 < pre.num_vars(),
        forall|v: int| 0 <= v < pre.num_vars() && v != var1 ==> post.dom(v) == pre.dom(v),
        post.dom(var1) == revised_dom(pre.dom(var1), kind, cid, pre.dom(var2)),
        e0.registered(cid as int),
        (e0.con(cid as int).a as int == var1 && e0.con(cid as int).b as int == var2) || (e0.con(
            cid as int,
        ).a as int == var2 && e0.con(cid as int).b as int == var1),
        e0.con(cid as int).kind == kind,
        forall|w: Map<int, Set<int>>| #[trigger] e0.sub_ok(w) ==> pre.holds_live(w),
    ensures
        forall|w: Map<int, Set<int>>| #[trigger] e0.sub_ok(w) ==> post.holds_live(w) && post.has_live(
            var1,
        ),
{
    assert(pre.registry_unchanged(e0));
    assert forall|w: Map<int, Set<int>>| #[trigger] e0.sub_ok(w) implies post.holds_live(w)
        && post.has_live(var1) by {
        assert(pre.holds_live(w));
        assert forall|i: int|
            0 <= i < pre.dom(var1).len() && slot_live(#[trigger] pre.dom(var1)[i]) && sup(
                pre.dom(var1)[i].value,
                kind,
                pre.dom(var2),
            ) implies slot_live(post.dom(var1)[i]) by {
            assert(post.dom(var1)[i] == revised_slot(pre.dom(var1)[i], kind, cid, pre.dom(var2)));
        }
        lemma_pass_keeps_witness(pre, post, e0, w, var1, var2, kind, cid as int);
        assert(witnessed(w, var1));
        let i = choose|i: int| w[var1].contains(i);
        assert(slot_live(post.dom(var1)[i]));
    }
}

/// A full-revision pass is the identity on a state that agrees with a
/// consistent reference state in which the revising constraint owns no
/// suppressor: nothing is killed, nothing is revived.
proof fn lemma_pass_identity(
    pre: &Engine,
    post: &Engine,
    e0: &Engine,
    var1: int,
    var2: int,
    kind: ConstraintKind,
    cid: usize,
    init0: Seq<usize>,
)
    requires
        e0.wf(),
        e0.all_consistent(),
        e0.nonempty_domains(),
        e0.no_marks_of(init0),
        init0.contains(cid),
        pre.num_vars() == e0.num_vars(),
        forall|v: int| 0 <= v < pre.num_vars() ==> pre.dom(v) == e0.dom(v),
        post.num_vars() == pre.num_vars(),
        0 <= var1 < pre.num_vars(),
        0 <= var2 < pre.num_vars(),
        forall|v: int| 0 <= v < pre.num_vars() && v != var1 ==> post.dom(v) == pre.dom(v),
        post.dom(var1) == revised_dom(pre.dom(var1), kind, cid, pre.dom(var2)),
        e0.registered(cid as int),
        (e0.con(cid as int).a as int == var1 && e0.con(cid as int).b as int == var2) || (e0.con(
            cid as int,
        ).a as int == var2 && e0.con(cid as int).b as int == var1),
        e0.con(cid as int).kind == kind,
    ensures
        forall|v: int| 0 <= v < post.num_vars() ==> post.dom(v) == e0.dom(v),
        post.has_live(var1),
        forall|i: int|
            0 <= i < post.dom(var1).len() ==> (#[trigger] post.dom(var1)[i]).suppressor == pre.dom(
                var1,
            )[i].suppressor,
{
    assert(e0.cons_ok(cid as int));
    assert(arc_ok(e0.dom(var1), kind, e0.dom(var2)));
    assert forall|i: int| 0 <= i < post.dom(var1).len() implies post.dom(var1)[i] == pre.dom(
        var1,
    )[i] by {
        assert(post.dom(var1)[i] == revised_slot(pre.dom(var1)[i], kind, cid, pre.dom(var2)));
        let s = pre.dom(var1)[i];
        assert(s == e0.dom(var1)[i]);
        if s.suppressor is Some {
            assert(!init0.contains(s.suppressor->Some_0));
            assert(s.suppressor != Some(cid));
        } else {
            assert(slot_live(e0.dom(var1)[i]));
            assert(sup(s.value, kind, e0.dom(var2)));
            assert(pre.dom(var2) == e0.dom(var2));
        }
    }
    assert(post.dom(var1) =~= pre.dom(var1));
    assert(e0.has_live(var1));
    let i = choose|i: int| 0 <= i < e0.dom(var1).len() && slot_live(e0.dom(var1)[i]);
    assert(slot_live(post.dom(var1)[i]));
}

/// A revision pass over `var1` against `var2` that kills only unsupported
/// live slots cannot kill a slot named by a self-supporting witness: the
/// witnessed partner slots are still live, so the slot keeps its support.
proof fn lemma_pass_keeps_witness(
    pre: &Engine,
    post: &Engine,
    e0: &Engine,
    w: Map<int, Set<int>>,
    var1: int,
    var2: int,
    kind: ConstraintKind,
    cid: int,
)
    requires
        e0.sub_ok(w),
        pre.holds_live(w),
        pre.same_shape(e0),
        pre.registry_unchanged(e0),
        e0.wf(),
        post.num_vars() == pre.num_vars(),
        0 <= var1 < pre.num_vars(),
        0 <= var2 < pre.num_vars(),
        forall|v: int| 0 <= v < pre.num_vars() && v != var1 ==> post.dom(v) == pre.dom(v),
        post.dom(var1).len() == pre.dom(var1).len(),
        forall|i: int|
            0 <= i < pre.dom(var1).len() && slot_live(#[trigger] pre.dom(var1)[i]) && sup(
                pre.dom(var1)[i].value,
                kind,
                pre.dom(var2),
            ) ==> slot_live(post.dom(var1)[i]),
        e0.registered(cid),
        (e0.con(cid).a as int == var1 && e0.con(cid).b as int == var2) || (e0.con(cid).a as int
            == var2 && e0.con(cid).b as int == var1),
        e0.con(cid).kind == kind,
    ensures
        post.holds_live(w),
{
    assert forall|v: int, i: int|
        0 <= v < post.num_vars() && #[trigger] w[v].contains(i) implies 0 <= i < post.dom(v).len()
        && slot_live(post.dom(v)[i]) by {
        assert(0 <= i < pre.dom(v).len() && slot_live(pre.dom(v)[i]));
        if v == var1 {
            assert(e0.sub_supports(w, cid));
            assert(e0.sub_supported_side(w, var1, var2, kind));
            assert(w[var1].contains(i));
            let j = choose|j: int|
                #[trigger] w[var2].contains(j) && rel(
                    e0.dom(var1)[i].value,
                    kind,
                    e0.dom(var2)[j].value,
                );
            assert(0 <= j < pre.dom(var2).len() && slot_live(pre.dom(var2)[j]));
            assert(pre.dom(var1)[i].value == e0.dom(var1)[i].value);
            assert(pre.dom(var2)[j].value == e0.dom(var2)[j].value);
            let x = pre.dom(var1)[i].value;
            match kind {
                ConstraintKind::Equality => {
                    assert(slot_live(pre.dom(var2)[j]) && pre.dom(var2)[j].value == x);
                    assert(sup(x, kind, pre.dom(var2)));
                },
                ConstraintKind::Inequality => {
                    assert(slot_live(pre.dom(var2)[j]) && pre.dom(var2)[j].value != x);
                    assert(sup(x, kind, pre.dom(var2)));
                },
            }
        }
    }
}

/// A self-supporting witness carries over to any state with the same
/// variables, values and registry in which its slots are still live:
/// the witness property depends on values and the registry alone.
proof fn lemma_sub_ok_transfer(e0: &Engine, e2: &Engine, w: Map<int, Set<int>>)
    requires
        e0.sub_ok(w),
        e0.wf(),
        e2.holds_live(w),
        e2.same_shape(e0),
        e2.registry_unchanged(e0),
    ensures
        e2.sub_ok(w),
{
    assert(e2.num_vars() == e0.num_vars());
    assert forall|v: int| 0 <= v < e2.num_vars() implies #[trigger] w.dom().contains(v) by {}
    assert forall|v: int| 0 <= v < e2.num_vars() implies #[trigger] witnessed(w, v) by {}
    assert forall|cid: int| #[trigger] e2.registered(cid) implies e2.sub_supports(w, cid) by {
        assert(e0.registered(cid));
        assert(e0.sub_supports(w, cid));
        let c = e2.con(cid);
        assert(c == e0.con(cid));
        assert((c.a as int) < e0.num_vars() && (c.b as int) < e0.num_vars());
        lemma_side_transfer(e0, e2, w, c.a as int, c.b as int, c.kind);
        lemma_side_transfer(e0, e2, w, c.b as int, c.a as int, c.kind);
    }
}

/// One direction of the witness transfer: values of witnessed slots agree
/// between the two states, so the partner relation carries over.
proof fn lemma_side_transfer(
    e0: &Engine,
    e2: &Engine,
    w: Map<int, Set<int>>,
    x: int,
    y: int,
    kind: ConstraintKind,
)
    requires
        forall|v: int, i: int|
            0 <= v < e0.num_vars() && #[trigger] w[v].contains(i) ==> 0 <= i < e0.dom(v).len(),
        e0.sub_supported_side(w, x, y, kind),
        e2.same_shape(e0),
        0 <= x < e0.num_vars(),
        0 <= y < e0.num_vars(),
    ensures
        e2.sub_supported_side(w, x, y, kind),
{
    assert forall|i: int| #[trigger] w[x].contains(i) implies exists|j: int|
        #[trigger] w[y].contains(j) && rel(e2.dom(x)[i].value, kind, e2.dom(y)[j].value) by {
        let j = choose|j: int|
            #[trigger] w[y].contains(j) && rel(e0.dom(x)[i].value, kind, e0.dom(y)[j].value);
        assert(0 <= i < e0.dom(x).len() && 0 <= j < e0.dom(y).len());
        assert(e2.dom(x)[i].value == e0.dom(x)[i].value);
        assert(e2.dom(y)[j].value == e0.dom(y)[j].value);
        assert(w[y].contains(j) && rel(e2.dom(x)[i].value, kind, e2.dom(y)[j].value));
    }
}

/// Equality-consistency law: while every registered constraint is
/// arc-consistent — as the engine guarantees after every successful
/// mutating call from a consistent state — every active value of one
/// side of a registered equality constraint is also an active value of
/// the other side, and symmetrically.
pub proof fn lemma_equality_consistent(e: &Engine, cid: int, x: i32)
    requires
        e.wf(),
        e.all_consistent(),
        e.registered(cid),
        e.con(cid).kind == ConstraintKind::Equality,
    ensures
        e.active(e.con(cid).a as int).contains(x) ==> e.active(e.con(cid).b as int).contains(x),
        e.active(e.con(cid).b as int).contains(x) ==> e.active(e.con(cid).a as int).contains(x),
{
    let c = e.con(cid);
    let av = c.a as int;
    let bv = c.b as int;
    lemma_active_sup(e.dom(av), x);
    lemma_active_sup(e.dom(bv), x);
    assert(e.cons_ok(cid));
    if e.active(av).contains(x) {
        assert(sup(x, ConstraintKind::Equality, e.dom(av)));
        let i = choose|i: int|
            0 <= i < e.dom(av).len() && slot_live(#[trigger] e.dom(av)[i]) && e.dom(av)[i].value
                == x;
        assert(arc_ok(e.dom(av), c.kind, e.dom(bv)));
        assert(sup(x, ConstraintKind::Equality, e.dom(bv)));
    }
    if e.active(bv).contains(x) {
        assert(sup(x, ConstraintKind::Equality, e.dom(bv)));
        let i = choose|i: int|
            0 <= i < e.dom(bv).len() && slot_live(#[trigger] e.dom(bv)[i]) && e.dom(bv)[i].value
                == x;
        assert(arc_ok(e.dom(bv), c.kind, e.dom(av)));
        assert(sup(x, ConstraintKind::Equality, e.dom(av)));
    }
}

/// Inequality-liveness law: while every registered constraint is
/// arc-consistent, no variable of a registered inequality constraint is
/// pinned to a value that is the only active value of the other side:
/// each active value of one side leaves a differing active value on the
/// other side. In particular the two active domains are never the same
/// singleton.
pub proof fn lemma_inequality_live(e: &Engine, cid: int, x: i32)
    requires
        e.wf(),
        e.all_consistent(),
        e.registered(cid),
        e.con(cid).kind == ConstraintKind::Inequality,
    ensures
        e.active(e.con(cid).a as int).contains(x) ==> exists|k: int|
            0 <= k < e.active(e.con(cid).b as int).len() && e.active(e.con(cid).b as int)[k] != x,
        e.active(e.con(cid).b as int).contains(x) ==> exists|k: int|
            0 <= k < e.active(e.con(cid).a as int).len() && e.active(e.con(cid).a as int)[k] != x,
{
    let c = e.con(cid);
    let av = c.a as int;
    let bv = c.b as int;
    lemma_active_sup(e.dom(av), x);
    lemma_active_sup(e.dom(bv), x);
    assert(e.cons_ok(cid));
    if e.active(av).contains(x) {
        assert(sup(x, ConstraintKind::Equality, e.dom(av)));
        let i = choose|i: int|
            0 <= i < e.dom(av).len() && slot_live(#[trigger] e.dom(av)[i]) && e.dom(av)[i].value
                == x;
        assert(arc_ok(e.dom(av), c.kind, e.dom(bv)));
        assert(sup(x, ConstraintKind::Inequality, e.dom(bv)));
    }
    if e.active(bv).contains(x) {
        assert(sup(x, ConstraintKind::Equality, e.dom(bv)));
        let i = choose|i: int|
            0 <= i < e.dom(bv).len() && slot_live(#[trigger] e.dom(bv)[i]) && e.dom(bv)[i].value
                == x;
        assert(arc_ok(e.dom(bv), c.kind, e.dom(av)));
        assert(sup(x, ConstraintKind::Inequality, e.dom(av)));
    }
}

/// Retract-restore law: in a well-formed engine whose registry is empty,
/// every suppressor has been cleared, so every variable's active domain
/// equals its original domain. Hence a sequence of constraint additions
/// followed by retraction of every added constraint restores all domains.
pub proof fn lemma_no_constraints_full_domain(e: &Engine, v: int)
    requires
        e.wf(),
        forall|cid: int| !e.registered(cid),
        0 <= v < e.num_vars(),
    ensures
        e.active(v) == e.original(v),
{
    assert forall|i: int| 0 <= i < e.dom(v).len() implies slot_live(#[trigger] e.dom(v)[i]) by {
        assert(e.killer_ok(v, i));
        if e.dom(v)[i].suppressor is Some {
            let c = e.dom(v)[i].suppressor->Some_0;
            assert(e.registered(c as int));
        }
    }
    lemma_all_live_active(e.dom(v));
}

} // verus!
