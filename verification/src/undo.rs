//! When undoing a batch gives back every value the registry held.
//!
//! A batch planned against one registry remembers, in each value change, what
//! that registry held. Undoing it writes those values back, newest change
//! first, so a location written twice ends with what the first write found:
//! the original. What can go wrong is a key change: deleting a key takes the
//! values beneath it, and creating one gives nothing back. The conditions
//! below say when that loses nothing.

use vstd::prelude::*;
use crate::provider::{covered, value_key, Hive, RegModel, RegValueV, ValueKey};
use crate::text::fold_case;
use crate::tweak::{apply_all, apply_change, invert, lemma_apply_concat, undo_of, ChangeV};

verus! {

/// What `m` holds at the value key `k`.
pub open spec fn held_at(m: RegModel, k: ValueKey) -> Option<RegValueV> {
    if m.values.dom().contains(k) {
        Some(m.values[k])
    } else {
        None
    }
}

/// The value key `k` lies in the key `path` of `hive`, or beneath it.
pub open spec fn under(k: ValueKey, hive: Hive, path: Seq<char>) -> bool {
    k.0 == hive && covered(fold_case(path), k.1)
}

/// Nothing of `m` lies in the key `path` of `hive` or beneath it.
pub open spec fn bare(m: RegModel, hive: Hive, path: Seq<char>) -> bool {
    forall|k: ValueKey| #[trigger] under(k, hive, path) ==> held_at(m, k) is None
}

/// Undoing change `i` of `cs`, carried out on `m`, loses nothing of `m`: a
/// value change remembers what `m` held there, and beneath a key that is
/// created or deleted lies only what `m` never held or what is gone by then
/// anyway.
pub open spec fn undoable_step(m: RegModel, cs: Seq<ChangeV>, i: int) -> bool {
    match cs[i] {
        ChangeV::Value { loc, from, .. } => from == m.value_at(loc),
        ChangeV::Key { hive, path, from_present, to_present } => (!from_present || !to_present)
            ==> forall|k: ValueKey|
            #[trigger] under(k, hive, path) ==> held_at(m, k) is None || held_at(
                apply_all(m, cs.take(i)),
                k,
            ) is None,
    }
}

pub open spec fn undoable(m: RegModel, cs: Seq<ChangeV>) -> bool {
    forall|i: int| 0 <= i < cs.len() ==> #[trigger] undoable_step(m, cs, i)
}

/// Each value of `n` is what `a` holds there or what `m` holds there.
pub open spec fn between(n: RegModel, m: RegModel, a: RegModel) -> bool {
    forall|k: ValueKey| #[trigger] held_at(n, k) == held_at(a, k) || held_at(n, k) == held_at(m, k)
}

proof fn lemma_undo_last_step(n: RegModel, m: RegModel, before: RegModel, c: ChangeV, i: int, cs: Seq<ChangeV>)
    requires
        0 <= i < cs.len(),
        cs[i] == c,
        before == apply_all(m, cs.take(i)),
        undoable_step(m, cs, i),
        between(n, m, apply_change(before, c)),
    ensures
        between(apply_change(n, invert(c)), m, before),
{
    let a = apply_change(before, c);
    let n2 = apply_change(n, invert(c));
    match c {
        ChangeV::Value { loc, from, to } => {
            let k0 = value_key(loc);
            assert forall|k: ValueKey| #[trigger] held_at(n2, k) == held_at(before, k) || held_at(n2, k)
                == held_at(m, k) by {
                if k == k0 {
                    assert(held_at(n2, k) == from);
                } else {
                    assert(held_at(n2, k) == held_at(n, k));
                    assert(held_at(a, k) == held_at(before, k));
                    assert(held_at(n, k) == held_at(a, k) || held_at(n, k) == held_at(m, k));
                }
            }
        },
        ChangeV::Key { hive, path, from_present, to_present } => {
            assert forall|k: ValueKey| #[trigger] held_at(n2, k) == held_at(before, k) || held_at(n2, k)
                == held_at(m, k) by {
                assert(held_at(n, k) == held_at(a, k) || held_at(n, k) == held_at(m, k));
                if under(k, hive, path) {
                    if !from_present || !to_present {
                        assert(held_at(m, k) is None || held_at(before, k) is None);
                    } else {
                        assert(held_at(a, k) == held_at(before, k));
                    }
                } else {
                    assert(held_at(n2, k) == held_at(n, k));
                    assert(held_at(a, k) == held_at(before, k));
                }
            }
        },
    }
}

proof fn lemma_undo_from_between(n: RegModel, m: RegModel, cs: Seq<ChangeV>)
    requires
        undoable(m, cs),
        between(n, m, apply_all(m, cs)),
    ensures
        apply_all(n, undo_of(cs)).values == m.values,
    decreases cs.len(),
{
    if cs.len() == 0 {
        assert(apply_all(m, cs) == m);
        assert(undo_of(cs) =~= Seq::<ChangeV>::empty());
        assert forall|k: ValueKey| #[trigger] n.values.dom().contains(k) == m.values.dom().contains(k) && (
        n.values.dom().contains(k) ==> n.values[k] == m.values[k]) by {
            assert(held_at(n, k) == held_at(m, k));
        }
        assert(n.values =~= m.values);
    } else {
        let last = cs.len() - 1;
        let c = cs[last];
        let front = cs.drop_last();
        assert(cs.take(last) =~= front);
        assert(cs =~= front + seq![c]);
        lemma_apply_concat(m, front, seq![c]);
        let x = apply_all(m, front);
        assert(seq![c].drop_first() =~= Seq::<ChangeV>::empty());
        assert(apply_all(x, seq![c]) == apply_all(apply_change(x, seq![c][0]), seq![c].drop_first()));
        assert(apply_all(apply_change(x, c), Seq::<ChangeV>::empty()) == apply_change(x, c));
        assert(apply_all(m, cs) == apply_change(apply_all(m, front), c));
        assert(undoable_step(m, cs, last));
        lemma_undo_last_step(n, m, apply_all(m, front), c, last, cs);
        let n2 = apply_change(n, invert(c));
        assert forall|i: int| 0 <= i < front.len() implies #[trigger] undoable_step(m, front, i) by {
            assert(undoable_step(m, cs, i));
            assert(front[i] == cs[i]);
            assert(front.take(i) =~= cs.take(i));
        }
        lemma_undo_from_between(n2, m, front);
        let u = undo_of(cs);
        assert(u[0] == invert(c));
        assert(u.drop_first() =~= undo_of(front));
    }
}

/// Undoing a batch that [`undoable`] describes, after carrying it out on `m`,
/// gives back every value of `m`, absent ones included.
pub proof fn lemma_undo_restores_values(m: RegModel, cs: Seq<ChangeV>)
    requires
        undoable(m, cs),
    ensures
        apply_all(apply_all(m, cs), undo_of(cs)).values == m.values,
{
    let a = apply_all(m, cs);
    assert(between(a, m, a));
    lemma_undo_from_between(a, m, cs);
}

/// Appending a batch that is undoable on its own terms keeps the whole undoable.
pub proof fn lemma_undoable_append(m: RegModel, a: Seq<ChangeV>, b: Seq<ChangeV>)
    requires
        undoable(m, a),
        forall|j: int| 0 <= j < b.len() ==> #[trigger] undoable_step(m, a + b, a.len() + j),
    ensures
        undoable(m, a + b),
{
    assert forall|i: int| 0 <= i < (a + b).len() implies #[trigger] undoable_step(m, a + b, i) by {
        if i < a.len() {
            assert(undoable_step(m, a, i));
            assert((a + b)[i] == a[i]);
            assert((a + b).take(i) =~= a.take(i));
        } else {
            assert(undoable_step(m, a + b, a.len() + (i - a.len())));
        }
    }
}

} // verus!
