use vstd::prelude::*;

verus! {

/// Whether a binary constraint demands equal values or different values.
#[derive(Clone, Copy, Debug, PartialEq, Eq, Structural)]
pub enum ConstraintKind {
    Equality,
    Inequality,
}

/// One value slot of a variable's domain: the value itself and, when the
/// value is currently pruned, the identifier of the constraint credited
/// with pruning it. A slot is live exactly when its suppressor is absent.
#[derive(Clone, Copy, Debug)]
pub struct Slot {
    pub value: i32,
    pub suppressor: Option<usize>,
}

pub open spec fn slot_live(s: Slot) -> bool {
    s.suppressor is None
}

/// The live values of a domain, in insertion order.
pub open spec fn active_of(d: Seq<Slot>) -> Seq<i32>
    decreases d.len(),
{
    if d.len() == 0 {
        Seq::empty()
    } else {
        let rest = active_of(d.drop_last());
        if slot_live(d.last()) {
            rest.push(d.last().value)
        } else {
            rest
        }
    }
}

/// All values ever inserted into a domain, live or not, in insertion order.
pub open spec fn values_of(d: Seq<Slot>) -> Seq<i32>
    decreases d.len(),
{
    if d.len() == 0 {
        Seq::empty()
    } else {
        values_of(d.drop_last()).push(d.last().value)
    }
}

/// Support of value `x` against domain `d`: under equality, some live slot
/// of `d` carries `x` itself; under inequality, some live slot of `d`
/// carries a value other than `x`.
pub open spec fn sup(x: i32, kind: ConstraintKind, d: Seq<Slot>) -> bool {
    match kind {
        ConstraintKind::Equality => exists|j: int|
            0 <= j < d.len() && slot_live(#[trigger] d[j]) && d[j].value == x,
        ConstraintKind::Inequality => exists|j: int|
            0 <= j < d.len() && slot_live(#[trigger] d[j]) && d[j].value != x,
    }
}

/// Arc consistency of the directed arc `da <- db`: every live value of `da`
/// has support in `db`.
pub open spec fn arc_ok(da: Seq<Slot>, kind: ConstraintKind, db: Seq<Slot>) -> bool {
    forall|i: int|
        0 <= i < da.len() && slot_live(#[trigger] da[i]) ==> sup(da[i].value, kind, db)
}

/// The reconciliation rule of one slot during a revision owned by `cid`
/// against the snapshot `b` of the opposite domain: a slot owned by nobody
/// or by `cid` itself ends up live exactly when its value has support;
/// a slot suppressed by another constraint is left untouched.
pub open spec fn revised_slot(s: Slot, kind: ConstraintKind, cid: usize, b: Seq<Slot>) -> Slot {
    if s.suppressor is None || s.suppressor == Some(cid) {
        Slot {
            value: s.value,
            suppressor: if sup(s.value, kind, b) {
                None
            } else {
                Some(cid)
            },
        }
    } else {
        s
    }
}

/// A whole domain after one revision pass owned by `cid` against the
/// snapshot `b` of the opposite domain.
pub open spec fn revised_dom(d: Seq<Slot>, kind: ConstraintKind, cid: usize, b: Seq<Slot>) -> Seq<Slot> {
    Seq::new(d.len(), |i: int| revised_slot(d[i], kind, cid, b))
}

/// The relation a constraint kind demands between two values.
pub open spec fn rel(x: i32, kind: ConstraintKind, y: i32) -> bool {
    match kind {
        ConstraintKind::Equality => x == y,
        ConstraintKind::Inequality => x != y,
    }
}

/// The shrink-only reconciliation of one slot during a from-scratch
/// pass owned by `cid`: a live slot without support is killed; every
/// other slot is left as it stands. Nothing is ever revived.
pub open spec fn shrunk_slot(s: Slot, kind: ConstraintKind, cid: usize, b: Seq<Slot>) -> Slot {
    if s.suppressor is None && !sup(s.value, kind, b) {
        Slot { value: s.value, suppressor: Some(cid) }
    } else {
        s
    }
}

/// A whole domain after one shrink-only pass owned by `cid` against the
/// snapshot `b` of the opposite domain.
pub open spec fn shrunk_dom(d: Seq<Slot>, kind: ConstraintKind, cid: usize, b: Seq<Slot>) -> Seq<Slot> {
    Seq::new(d.len(), |i: int| shrunk_slot(d[i], kind, cid, b))
}

/// Number of live slots in a domain.
pub open spec fn count_live(d: Seq<Slot>) -> nat
    decreases d.len(),
{
    if d.len() == 0 {
        0
    } else {
        count_live(d.drop_last()) + if slot_live(d.last()) { 1nat } else { 0nat }
    }
}

/// Killing slots can only lower the live count, and killing at least one
/// previously live slot lowers it strictly.
pub proof fn lemma_count_live_le(d1: Seq<Slot>, d2: Seq<Slot>)
    requires
        d1.len() == d2.len(),
        forall|i: int| 0 <= i < d2.len() && slot_live(#[trigger] d2[i]) ==> slot_live(d1[i]),
    ensures
        count_live(d2) <= count_live(d1),
        (exists|i: int| 0 <= i < d1.len() && slot_live(#[trigger] d1[i]) && !slot_live(d2[i]))
            ==> count_live(d2) < count_live(d1),
    decreases d1.len(),
{
    if d1.len() > 0 {
        let e1 = d1.drop_last();
        let e2 = d2.drop_last();
        assert(forall|i: int| 0 <= i < e2.len() && slot_live(#[trigger] e2[i]) ==> slot_live(
            e1[i],
        )) by {
            assert(forall|i: int| 0 <= i < e2.len() ==> e2[i] == d2[i] && e1[i] == d1[i]);
        }
        lemma_count_live_le(e1, e2);
        if exists|i: int| 0 <= i < d1.len() && slot_live(#[trigger] d1[i]) && !slot_live(d2[i]) {
            let i = choose|i: int|
                0 <= i < d1.len() && slot_live(#[trigger] d1[i]) && !slot_live(d2[i]);
            if i < d1.len() - 1 {
                assert(slot_live(e1[i]) && !slot_live(e2[i]));
            } else {
                assert(slot_live(d1.last()) && !slot_live(d2.last()));
            }
        }
    }
}

/// Correspondence between a domain and its sequence of active values:
/// the active values are exactly the values of the live slots.
pub proof fn lemma_active_sup(d: Seq<Slot>, x: i32)
    ensures
        active_of(d).contains(x) <==> sup(x, ConstraintKind::Equality, d),
        (exists|k: int| 0 <= k < active_of(d).len() && active_of(d)[k] != x) <==> sup(
            x,
            ConstraintKind::Inequality,
            d,
        ),
        active_of(d).len() > 0 <==> exists|i: int| 0 <= i < d.len() && slot_live(d[i]),
    decreases d.len(),
{
    if d.len() == 0 {
        assert(!active_of(d).contains(x));
    } else {
        let dd = d.drop_last();
        lemma_active_sup(dd, x);
        assert(forall|j: int| 0 <= j < dd.len() ==> dd[j] == d[j]);
        let rest = active_of(dd);
        // Each existential over `d` splits into one over `dd` plus the last slot.
        if sup(x, ConstraintKind::Equality, d) {
            let j = choose|j: int| 0 <= j < d.len() && slot_live(#[trigger] d[j]) && d[j].value == x;
            if j < d.len() - 1 {
                assert(slot_live(dd[j]) && dd[j].value == x);
                assert(rest.contains(x));
                if slot_live(d.last()) {
                    let k = choose|k: int| 0 <= k < rest.len() && rest[k] == x;
                    assert(active_of(d)[k] == x);
                } else {
                    assert(active_of(d).contains(x));
                }
            } else {
                assert(active_of(d).last() == x);
                assert(active_of(d).contains(x));
            }
        }
        if active_of(d).contains(x) {
            let k = choose|k: int| 0 <= k < active_of(d).len() && active_of(d)[k] == x;
            if slot_live(d.last()) && k == active_of(d).len() - 1 {
                assert(d.last().value == x);
                assert(slot_live(d[d.len() - 1]));
                assert(sup(x, ConstraintKind::Equality, d));
            } else {
                assert(rest[k] == x);
                assert(rest.contains(x));
                let j = choose|j: int| 0 <= j < dd.len() && slot_live(#[trigger] dd[j]) && dd[j].value == x;
                assert(slot_live(d[j]) && d[j].value == x);
            }
        }
        if sup(x, ConstraintKind::Inequality, d) {
            let j = choose|j: int| 0 <= j < d.len() && slot_live(#[trigger] d[j]) && d[j].value != x;
            if j < d.len() - 1 {
                assert(slot_live(dd[j]) && dd[j].value != x);
                let k = choose|k: int| 0 <= k < rest.len() && rest[k] != x;
                assert(active_of(d)[k] == rest[k]);
            } else {
                assert(active_of(d).last() != x);
            }
        }
        if exists|k: int| 0 <= k < active_of(d).len() && active_of(d)[k] != x {
            let k = choose|k: int| 0 <= k < active_of(d).len() && active_of(d)[k] != x;
            if slot_live(d.last()) && k == active_of(d).len() - 1 {
                assert(slot_live(d[d.len() - 1]) && d[d.len() - 1].value != x);
            } else {
                assert(rest[k] != x);
                let j = choose|j: int| 0 <= j < dd.len() && slot_live(#[trigger] dd[j]) && dd[j].value != x;
                assert(slot_live(d[j]) && d[j].value != x);
            }
        }
        if active_of(d).len() > 0 {
            if slot_live(d.last()) {
                assert(slot_live(d[d.len() - 1]));
            } else {
                let i = choose|i: int| 0 <= i < dd.len() && slot_live(dd[i]);
                assert(slot_live(d[i]));
            }
        }
        if exists|i: int| 0 <= i < d.len() && slot_live(d[i]) {
            let i = choose|i: int| 0 <= i < d.len() && slot_live(d[i]);
            if i < d.len() - 1 {
                assert(slot_live(dd[i]));
                assert(rest.len() > 0);
            }
        }
    }
}

/// Shape of the full value sequence: one entry per slot, in order.
pub proof fn lemma_values_of_index(d: Seq<Slot>)
    ensures
        values_of(d).len() == d.len(),
        forall|i: int| 0 <= i < d.len() ==> values_of(d)[i] == (#[trigger] d[i]).value,
    decreases d.len(),
{
    if d.len() > 0 {
        let dd = d.drop_last();
        lemma_values_of_index(dd);
        assert forall|i: int| 0 <= i < d.len() implies values_of(d)[i] == (#[trigger] d[i]).value by {
            if i < d.len() - 1 {
                assert(dd[i] == d[i]);
                assert(values_of(d)[i] == values_of(dd)[i]);
            } else {
                assert(values_of(d)[i] == d.last().value);
            }
        }
    }
}

/// A fully live domain presents all of its values as active.
pub proof fn lemma_all_live_active(d: Seq<Slot>)
    requires
        forall|i: int| 0 <= i < d.len() ==> slot_live(#[trigger] d[i]),
    ensures
        active_of(d) == values_of(d),
    decreases d.len(),
{
    if d.len() > 0 {
        lemma_all_live_active(d.drop_last());
    }
}

/// Revising the two arcs of one constraint, one after the other, leaves
/// both arcs consistent: a live value of either side keeps a live witness
/// on the other side. The witness that supported a value in the first
/// pass cannot be pruned by the second pass, because the value itself
/// stands as the witness's own support.
pub proof fn lemma_revise_pair(da: Seq<Slot>, db: Seq<Slot>, kind: ConstraintKind, cid: usize)
    ensures
        ({
            let a1 = revised_dom(da, kind, cid, db);
            let b1 = revised_dom(db, kind, cid, a1);
            arc_ok(a1, kind, b1) && arc_ok(b1, kind, a1)
        }),
{
    let a1 = revised_dom(da, kind, cid, db);
    let b1 = revised_dom(db, kind, cid, a1);
    assert forall|j: int| 0 <= j < b1.len() && slot_live(#[trigger] b1[j]) implies sup(
        b1[j].value,
        kind,
        a1,
    ) by {
        assert(b1[j] == revised_slot(db[j], kind, cid, a1));
    }
    assert forall|i: int| 0 <= i < a1.len() && slot_live(#[trigger] a1[i]) implies sup(
        a1[i].value,
        kind,
        b1,
    ) by {
        let x = a1[i].value;
        assert(a1[i] == revised_slot(da[i], kind, cid, db));
        assert(sup(x, kind, db));
        match kind {
            ConstraintKind::Equality => {
                let j = choose|j: int|
                    0 <= j < db.len() && slot_live(#[trigger] db[j]) && db[j].value == x;
                assert(slot_live(a1[i]) && a1[i].value == x);
                assert(sup(db[j].value, ConstraintKind::Equality, a1));
                assert(b1[j] == revised_slot(db[j], ConstraintKind::Equality, cid, a1));
                assert(slot_live(b1[j]) && b1[j].value == x);
            },
            ConstraintKind::Inequality => {
                let j = choose|j: int|
                    0 <= j < db.len() && slot_live(#[trigger] db[j]) && db[j].value != x;
                assert(slot_live(a1[i]) && a1[i].value != db[j].value);
                assert(sup(db[j].value, ConstraintKind::Inequality, a1));
                assert(b1[j] == revised_slot(db[j], ConstraintKind::Inequality, cid, a1));
                assert(slot_live(b1[j]) && b1[j].value != x);
            },
        }
    }
}

/// The values of the live slots of `d`, in insertion order.
pub fn active_values(d: &Vec<Slot>) -> (r: Vec<i32>)
    ensures
        r@ == active_of(d@),
{
    let mut r: Vec<i32> = Vec::new();
    let mut i: usize = 0;
    while i < d.len()
        invariant
            i <= d.len(),
            r@ == active_of(d@.take(i as int)),
        decreases d.len() - i,
    {
        proof {
            assert(d@.take(i + 1).drop_last() =~= d@.take(i as int));
            assert(d@.take(i + 1).last() == d@[i as int]);
        }
        let s = d[i];
        if s.suppressor.is_none() {
            r.push(s.value);
        }
        i = i + 1;
    }
    proof {
        assert(d@.take(d@.len() as int) =~= d@);
    }
    r
}

/// Whether `x` has support among the given active values of the opposite
/// domain: membership for equality, a differing element for inequality.
pub fn value_supported(x: i32, kind: ConstraintKind, active_b: &Vec<i32>) -> (r: bool)
    ensures
        r == match kind {
            ConstraintKind::Equality => active_b@.contains(x),
            ConstraintKind::Inequality => exists|k: int|
                0 <= k < active_b@.len() && active_b@[k] != x,
        },
{
    let mut i: usize = 0;
    let mut found: bool = false;
    while i < active_b.len()
        invariant
            i <= active_b.len(),
            match kind {
                ConstraintKind::Equality => found == exists|k: int|
                    0 <= k < i as int && #[trigger] active_b@[k] == x,
                ConstraintKind::Inequality => found == exists|k: int|
                    0 <= k < i as int && #[trigger] active_b@[k] != x,
            },
        decreases active_b.len() - i,
    {
        let v = active_b[i];
        let hit = match kind {
            ConstraintKind::Equality => v == x,
            ConstraintKind::Inequality => v != x,
        };
        proof {
            if hit {
                assert(match kind {
                    ConstraintKind::Equality => active_b@[i as int] == x,
                    ConstraintKind::Inequality => active_b@[i as int] != x,
                });
            } else if !found {
                assert forall|k: int| 0 <= k < i as int + 1 implies match kind {
                    ConstraintKind::Equality => #[trigger] active_b@[k] != x,
                    ConstraintKind::Inequality => active_b@[k] == x,
                } by {}
            }
        }
        if hit {
            found = true;
        }
        i = i + 1;
    }
    found
}

} // verus!

