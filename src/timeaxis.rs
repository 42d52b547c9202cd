//! The time axis of a location: a strictly increasing sequence of instants,
//! each instant given in milliseconds since the Unix epoch.
use vstd::prelude::*;

verus! {

/// Every element is smaller than the one after it: sorted, without duplicates.
pub open spec fn strictly_increasing(s: Seq<i64>) -> bool {
    forall|i: int, j: int| 0 <= i < j < s.len() ==> s[i] < s[j]
}

/// `merged` is the sorted, duplicate-free union of the instants of
/// `existing` and `incoming`.
pub open spec fn is_merged_axis(existing: Seq<i64>, incoming: Seq<i64>, merged: Seq<i64>) -> bool {
    &&& strictly_increasing(merged)
    &&& forall|t: i64| merged.contains(t) <==> (existing.contains(t) || incoming.contains(t))
}

/// `positions[i]` is the index at which `incoming[i]` stands in `axis`.
pub open spec fn locates(axis: Seq<i64>, incoming: Seq<i64>, positions: Seq<usize>) -> bool {
    &&& positions.len() == incoming.len()
    &&& forall|i: int|
        0 <= i < incoming.len() ==> {
            &&& #[trigger] positions[i] < axis.len()
            &&& axis[positions[i] as int] == incoming[i]
        }
}

/// Two strictly increasing sequences that hold the same instants are equal.
pub proof fn lemma_sorted_axis_unique(a: Seq<i64>, b: Seq<i64>)
    requires
        strictly_increasing(a),
        strictly_increasing(b),
        forall|t: i64| a.contains(t) <==> b.contains(t),
    ensures
        a == b,
    decreases a.len(),
{
    if a.len() == 0 {
        if b.len() > 0 {
            assert(b.contains(b[0]));
        }
    } else {
        if b.len() == 0 {
            assert(a.contains(a[0]));
        } else {
            assert(a.contains(a[0]));
            assert(b.contains(b[0]));
            let ia = choose|i: int| 0 <= i < a.len() && a[i] == b[0];
            let ib = choose|i: int| 0 <= i < b.len() && b[i] == a[0];
            assert(a[0] == b[0]) by {
                if ia > 0 {
                    assert(a[0] < a[ia]);
                }
                if ib > 0 {
                    assert(b[0] < b[ib]);
                }
            }
            let ta = a.drop_first();
            let tb = b.drop_first();
            assert forall|t: i64| ta.contains(t) <==> tb.contains(t) by {
                if ta.contains(t) {
                    let i = choose|i: int| 0 <= i < ta.len() && ta[i] == t;
                    assert(a[i + 1] == t);
                    assert(a.contains(t));
                    let j = choose|j: int| 0 <= j < b.len() && b[j] == t;
                    assert(t > a[0]);
                    assert(j != 0);
                    assert(tb[j - 1] == t);
                }
                if tb.contains(t) {
                    let i = choose|i: int| 0 <= i < tb.len() && tb[i] == t;
                    assert(b[i + 1] == t);
                    assert(b.contains(t));
                    let j = choose|j: int| 0 <= j < a.len() && a[j] == t;
                    assert(t > b[0]);
                    assert(j != 0);
                    assert(ta[j - 1] == t);
                }
            }
            lemma_sorted_axis_unique(ta, tb);
            assert(a == seq![a[0]] + ta);
            assert(b == seq![b[0]] + tb);
        }
    }
}

proof fn lemma_push_contains(s: Seq<i64>, e: i64)
    ensures
        forall|x: i64| s.push(e).contains(x) <==> (s.contains(x) || x == e),
{
    assert forall|x: i64| s.push(e).contains(x) <==> (s.contains(x) || x == e) by {
        if s.contains(x) {
            let k = choose|k: int| 0 <= k < s.len() && s[k] == x;
            assert(s.push(e)[k] == x);
        }
        if x == e {
            assert(s.push(e)[s.len() as int] == x);
        }
        if s.push(e).contains(x) {
            let k = choose|k: int| 0 <= k < s.len() + 1 && s.push(e)[k] == x;
            if k < s.len() {
                assert(s[k] == x);
            }
        }
    }
}

/// `after` holds the instants of `before` and `t`, and no others.
pub open spec fn extends_by(before: Seq<i64>, after: Seq<i64>, t: i64) -> bool {
    forall|x: i64| after.contains(x) <==> (before.contains(x) || x == t)
}

/// Adds `t` to a strictly increasing axis in its sorted place, unless the
/// axis holds it already.
fn insert_instant(axis: &mut Vec<i64>, t: i64)
    requires
        strictly_increasing(old(axis)@),
    ensures
        strictly_increasing(final(axis)@),
        extends_by(old(axis)@, final(axis)@, t),
{
    let mut i: usize = 0;
    while i < axis.len() && axis[i] < t
        invariant
            0 <= i <= axis.len(),
            axis@ == old(axis)@,
            forall|k: int| 0 <= k < i ==> axis@[k] < t,
        decreases axis.len() - i,
    {
        i = i + 1;
    }
    if i < axis.len() && axis[i] == t {
        assert(axis@[i as int] == t);
        assert(axis@.contains(t));
        assert forall|x: i64| axis@.contains(x) <==> (old(axis)@.contains(x) || x == t) by {}
        assert(extends_by(old(axis)@, axis@, t));
    } else {
        let ghost before = axis@;
        axis.insert(i, t);
        assert forall|a: int, b: int| 0 <= a < b < axis@.len() implies axis@[a] < axis@[b] by {
            if b < i {
            } else if b == i {
            } else if a < i {
                assert(before[b - 1] >= t);
            } else if a == i {
                assert(before[b - 1] >= t);
                assert(before[b - 1] != t) by {
                    if b - 1 > i {
                        assert(before[i as int] < before[b - 1]);
                    }
                }
            } else {
            }
        }
        assert forall|x: i64| axis@.contains(x) <==> (before.contains(x) || x == t) by {
            if axis@.contains(x) {
                let k = choose|k: int| 0 <= k < axis@.len() && axis@[k] == x;
                if k < i {
                    assert(before[k] == x);
                } else if k > i {
                    assert(before[k - 1] == x);
                }
            }
            if before.contains(x) {
                let k = choose|k: int| 0 <= k < before.len() && before[k] == x;
                if k < i {
                    assert(axis@[k] == x);
                } else {
                    assert(axis@[k + 1] == x);
                }
            }
            if x == t {
                assert(axis@[i as int] == x);
            }
        }
        assert(before == old(axis)@);
        assert(extends_by(old(axis)@, axis@, t));
    }
}

/// The index of `t` in `axis`, if the axis holds it.
pub fn position_of(axis: &Vec<i64>, t: i64) -> (r: Option<usize>)
    ensures
        match r {
            Some(i) => i < axis@.len() && axis@[i as int] == t && forall|k: int|
                0 <= k < i ==> axis@[k] != t,
            None => !axis@.contains(t),
        },
{
    let mut i: usize = 0;
    while i < axis.len()
        invariant
            0 <= i <= axis.len(),
            forall|k: int| 0 <= k < i ==> axis@[k] != t,
        decreases axis.len() - i,
    {
        if axis[i] == t {
            return Some(i);
        }
        i = i + 1;
    }
    None
}

/// Merges the instants of `incoming` into those of `existing`.
///
/// The first result is the sorted union of both, without duplicates; the
/// second gives, for each instant of `incoming` in its order, the index at
/// which it stands in that union.
pub fn merge_times(existing: &Vec<i64>, incoming: &Vec<i64>) -> (r: (Vec<i64>, Vec<usize>))
    ensures
        is_merged_axis(existing@, incoming@, r.0@),
        locates(r.0@, incoming@, r.1@),
{
    let mut merged: Vec<i64> = Vec::new();
    let mut i: usize = 0;
    while i < existing.len()
        invariant
            0 <= i <= existing.len(),
            strictly_increasing(merged@),
            forall|x: i64| merged@.contains(x) <==> existing@.take(i as int).contains(x),
        decreases existing.len() - i,
    {
        insert_instant(&mut merged, existing[i]);
        proof {
            lemma_push_contains(existing@.take(i as int), existing@[i as int]);
            assert(existing@.take(i + 1) == existing@.take(i as int).push(existing@[i as int]));
        }
        i = i + 1;
    }
    assert(existing@.take(existing.len() as int) == existing@);
    let mut j: usize = 0;
    while j < incoming.len()
        invariant
            0 <= j <= incoming.len(),
            strictly_increasing(merged@),
            forall|x: i64|
                merged@.contains(x) <==> (existing@.contains(x) || incoming@.take(
                    j as int,
                ).contains(x)),
        decreases incoming.len() - j,
    {
        insert_instant(&mut merged, incoming[j]);
        proof {
            lemma_push_contains(incoming@.take(j as int), incoming@[j as int]);
            assert(incoming@.take(j + 1) == incoming@.take(j as int).push(incoming@[j as int]));
        }
        j = j + 1;
    }
    assert(incoming@.take(incoming.len() as int) == incoming@);
    let mut positions: Vec<usize> = Vec::new();
    let mut k: usize = 0;
    while k < incoming.len()
        invariant
            0 <= k <= incoming.len(),
            is_merged_axis(existing@, incoming@, merged@),
            positions@.len() == k,
            forall|m: int|
                0 <= m < k ==> {
                    &&& #[trigger] positions@[m] < merged@.len()
                    &&& merged@[positions@[m] as int] == incoming@[m]
                },
        decreases incoming.len() - k,
    {
        assert(incoming@.contains(incoming@[k as int]));
        match position_of(&merged, incoming[k]) {
            Some(p) => {
                positions.push(p);
            },
            None => {
                assert(false);
            },
        }
        k = k + 1;
    }
    (merged, positions)
}

/// `incoming` holds an instant that `stored` lacks.
pub open spec fn introduces_new(stored: Seq<i64>, incoming: Seq<i64>) -> bool {
    exists|i: int| 0 <= i < incoming.len() && !stored.contains(#[trigger] incoming[i])
}

/// Merging the same instants a second time into an axis that already absorbed
/// them introduces nothing, and the merged axis is that axis unchanged.
pub proof fn lemma_merge_idempotent(existing: Seq<i64>, incoming: Seq<i64>, merged: Seq<i64>)
    requires
        is_merged_axis(existing, incoming, merged),
    ensures
        !introduces_new(merged, incoming),
        forall|again: Seq<i64>| is_merged_axis(merged, incoming, again) ==> again == merged,
{
    assert forall|i: int| 0 <= i < incoming.len() implies merged.contains(#[trigger] incoming[i]) by {
        assert(incoming.contains(incoming[i]));
    }
    assert forall|again: Seq<i64>| is_merged_axis(merged, incoming, again) implies again == merged by {
        assert forall|t: i64| again.contains(t) <==> merged.contains(t) by {
            if incoming.contains(t) {
                let i = choose|i: int| 0 <= i < incoming.len() && incoming[i] == t;
                assert(merged.contains(incoming[i]));
            }
        }
        lemma_sorted_axis_unique(again, merged);
    }
}

/// For a strictly increasing incoming axis, the positions found on the
/// merged axis ascend too.
pub proof fn lemma_positions_ascend(incoming: Seq<i64>, merged: Seq<i64>, positions: Seq<usize>)
    requires
        strictly_increasing(incoming),
        strictly_increasing(merged),
        locates(merged, incoming, positions),
    ensures
        forall|i: int, j: int| 0 <= i < j < positions.len() ==> positions[i] < positions[j],
{
    assert forall|i: int, j: int| 0 <= i < j < positions.len() implies positions[i] < positions[j] by {
        assert(positions[i] < merged.len());
        assert(positions[j] < merged.len());
        if positions[i] >= positions[j] {
            if positions[i] > positions[j] {
                assert(merged[positions[j] as int] < merged[positions[i] as int]);
            }
            assert(incoming[i] < incoming[j]);
        }
    }
}

/// What the store has to do with a location's axis.
#[derive(PartialEq, Eq, Structural, Clone, Copy, Debug)]
pub enum AxisWrite {
    /// The location is new: its axis is stored for the first time.
    Insert,
    /// New instants were merged in: the stored axis is replaced.
    Replace,
    /// Every incoming instant was known: nothing is written.
    Unchanged,
}

/// The axis of a location after an ingestion, with the position of each
/// incoming instant on it.
pub struct AxisUpdate {
    pub merged: Vec<i64>,
    pub positions: Vec<usize>,
    pub write: AxisWrite,
}

/// Whether `incoming` holds an instant that `stored` lacks.
pub fn has_new_instant(stored: &Vec<i64>, incoming: &Vec<i64>) -> (r: bool)
    ensures
        r == introduces_new(stored@, incoming@),
{
    let mut i: usize = 0;
    while i < incoming.len()
        invariant
            0 <= i <= incoming.len(),
            forall|k: int| 0 <= k < i ==> stored@.contains(#[trigger] incoming@[k]),
        decreases incoming.len() - i,
    {
        if position_of(stored, incoming[i]).is_none() {
            return true;
        }
        i = i + 1;
    }
    false
}

/// Reconciles the stored axis of a location, if there is one, with the
/// axis of the incoming data.
///
/// A new location takes the incoming axis as it is, each incoming instant
/// at its own index. Otherwise the axes are merged, and the merged axis is
/// to be written only when it gained an instant.
pub fn resolve_axis(stored: Option<&Vec<i64>>, incoming: &Vec<i64>) -> (r: AxisUpdate)
    ensures
        match stored {
            None => {
                &&& r.write == AxisWrite::Insert
                &&& r.merged@ == incoming@
                &&& r.positions@.len() == incoming@.len()
                &&& forall|i: int| 0 <= i < incoming@.len() ==> #[trigger] r.positions@[i] == i
            },
            Some(s) => {
                &&& is_merged_axis(s@, incoming@, r.merged@)
                &&& locates(r.merged@, incoming@, r.positions@)
                &&& r.write == (if introduces_new(s@, incoming@) {
                    AxisWrite::Replace
                } else {
                    AxisWrite::Unchanged
                })
            },
        },
{
    match stored {
        None => {
            let mut positions: Vec<usize> = Vec::new();
            let mut i: usize = 0;
            while i < incoming.len()
                invariant
                    0 <= i <= incoming.len(),
                    positions@.len() == i,
                    forall|k: int| 0 <= k < i ==> #[trigger] positions@[k] == k,
                decreases incoming.len() - i,
            {
                positions.push(i);
                i = i + 1;
            }
            AxisUpdate { merged: incoming.clone(), positions, write: AxisWrite::Insert }
        },
        Some(s) => {
            let (merged, positions) = merge_times(s, incoming);
            let write = if has_new_instant(s, incoming) {
                AxisWrite::Replace
            } else {
                AxisWrite::Unchanged
            };
            AxisUpdate { merged, positions, write }
        },
    }
}

} // verus!
