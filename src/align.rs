//! Placing newly observed samples into a column that runs along a time axis.
//!
//! A column holds one sample per instant of its location's axis. Samples are
//! of any copyable type; a caller-chosen `absent` value marks the instants for
//! which no sample was observed.
use vstd::prelude::*;

verus! {

/// One splice step: `v` goes in at `p`, shifting what stands there to the
/// right; where the column is shorter than `p`, it is first padded with
/// `absent` up to length `p`.
pub open spec fn splice_one<T>(col: Seq<T>, p: int, v: T, absent: T) -> Seq<T> {
    if p <= col.len() {
        col.insert(p, v)
    } else {
        (col + Seq::new((p - col.len()) as nat, |_k: int| absent)).push(v)
    }
}

/// The splice steps for `positions[0]`, `positions[1]`, ... in that order,
/// `values[i]` going to `positions[i]`.
pub open spec fn splice_all<T>(col: Seq<T>, values: Seq<T>, positions: Seq<usize>, absent: T) -> Seq<T>
    decreases positions.len(),
{
    if positions.len() == 0 {
        col
    } else {
        let n = positions.len() - 1;
        splice_one(splice_all(col, values, positions.take(n), absent), positions[n] as int, values[n], absent)
    }
}

/// `values[i]` written over the sample at `positions[i]`, in order.
pub open spec fn overwrite_all<T>(col: Seq<T>, values: Seq<T>, positions: Seq<usize>) -> Seq<T>
    decreases positions.len(),
{
    if positions.len() == 0 {
        col
    } else {
        let n = positions.len() - 1;
        overwrite_all(col, values, positions.take(n)).update(positions[n] as int, values[n])
    }
}

/// No index occurs twice.
pub open spec fn distinct_positions(positions: Seq<usize>) -> bool {
    forall|i: int, j: int| 0 <= i < j < positions.len() ==> positions[i] != positions[j]
}

/// Every position is below `len`.
pub open spec fn positions_below(positions: Seq<usize>, len: int) -> bool {
    forall|i: int| 0 <= i < positions.len() ==> #[trigger] positions[i] < len
}

proof fn lemma_splice_all_len<T>(col: Seq<T>, values: Seq<T>, positions: Seq<usize>, absent: T)
    ensures
        forall|i: int|
            0 <= i < positions.len() ==> #[trigger] positions[i] < splice_all(
                col,
                values,
                positions,
                absent,
            ).len(),
        splice_all(col, values, positions, absent).len() >= col.len() + positions.len(),
    decreases positions.len(),
{
    if positions.len() > 0 {
        let n = positions.len() - 1;
        let pre = positions.take(n);
        lemma_splice_all_len(col, values, pre, absent);
        assert forall|i: int| 0 <= i < positions.len() implies #[trigger] positions[i] < splice_all(
            col,
            values,
            positions,
            absent,
        ).len() by {
            if i < n {
                assert(pre[i] == positions[i]);
            }
        }
    }
}

/// Each position is smaller than the next.
pub open spec fn ascending(positions: Seq<usize>) -> bool {
    forall|i: int, j: int| 0 <= i < j < positions.len() ==> positions[i] < positions[j]
}

/// How many of `positions` lie below `j`.
pub open spec fn count_below(positions: Seq<usize>, j: int) -> nat
    decreases positions.len(),
{
    if positions.len() == 0 {
        0
    } else {
        let n = positions.len() - 1;
        count_below(positions.take(n), j) + if positions[n] < j {
            1nat
        } else {
            0nat
        }
    }
}

/// What a spliced column holds at an index that is none of the positions:
/// the old samples in their order, then the absent marker.
pub open spec fn carried_over<T>(col: Seq<T>, positions: Seq<usize>, j: int, absent: T) -> T {
    let r = j - count_below(positions, j);
    if r < col.len() {
        col[r]
    } else {
        absent
    }
}

/// The length of a spliced column, for ascending positions.
pub open spec fn spliced_len(col_len: nat, positions: Seq<usize>) -> nat {
    if positions.len() == 0 {
        col_len
    } else if positions[positions.len() - 1] + 1 > col_len + positions.len() {
        (positions[positions.len() - 1] + 1) as nat
    } else {
        col_len + positions.len()
    }
}

proof fn lemma_count_below_all(positions: Seq<usize>, j: int)
    requires
        forall|i: int| 0 <= i < positions.len() ==> #[trigger] positions[i] < j,
    ensures
        count_below(positions, j) == positions.len(),
    decreases positions.len(),
{
    if positions.len() > 0 {
        let n = positions.len() - 1;
        let pre = positions.take(n);
        assert forall|i: int| 0 <= i < pre.len() implies #[trigger] pre[i] < j by {
            assert(pre[i] == positions[i]);
        }
        lemma_count_below_all(pre, j);
    }
}

proof fn lemma_count_below_bound(positions: Seq<usize>, j: int)
    ensures
        count_below(positions, j) <= positions.len(),
    decreases positions.len(),
{
    if positions.len() > 0 {
        lemma_count_below_bound(positions.take(positions.len() - 1), j);
    }
}

/// With ascending positions, splicing lays the column out exactly: each new
/// value stands at its position, every other index carries the old samples
/// in their order, and the slots that padding created hold the absent
/// marker. The column reaches past the largest position.
pub proof fn lemma_splice_layout<T>(col: Seq<T>, values: Seq<T>, positions: Seq<usize>, absent: T)
    requires
        ascending(positions),
        values.len() >= positions.len(),
    ensures
        splice_all(col, values, positions, absent).len() == spliced_len(col.len(), positions),
        forall|i: int|
            0 <= i < positions.len() ==> {
                &&& #[trigger] positions[i] < splice_all(col, values, positions, absent).len()
                &&& splice_all(col, values, positions, absent)[positions[i] as int] == values[i]
            },
        forall|j: int|
            0 <= j < splice_all(col, values, positions, absent).len() && (forall|i: int|
                0 <= i < positions.len() ==> #[trigger] positions[i] != j) ==> splice_all(
                col,
                values,
                positions,
                absent,
            )[j] == carried_over(col, positions, j, absent),
    decreases positions.len(),
{
    lemma_splice_all_len(col, values, positions, absent);
    if positions.len() > 0 {
        let n = positions.len() - 1;
        let pre = positions.take(n);
        let p = positions[n] as int;
        let v = values[n];
        assert(ascending(pre));
        lemma_splice_layout(col, values, pre, absent);
        lemma_splice_all_len(col, values, pre, absent);
        let prev = splice_all(col, values, pre, absent);
        let next = splice_all(col, values, positions, absent);
        assert(next == splice_one(prev, p, v, absent));
        assert forall|i: int| 0 <= i < pre.len() implies #[trigger] pre[i] < p by {
            assert(pre[i] == positions[i]);
        }
        assert forall|i: int| 0 <= i < positions.len() implies {
            &&& #[trigger] positions[i] < next.len()
            &&& next[positions[i] as int] == values[i]
        } by {
            if i < n {
                assert(pre[i] == positions[i]);
                assert(positions[i] < prev.len());
            }
        }
        assert forall|j: int|
            0 <= j < next.len() && (forall|i: int|
                0 <= i < positions.len() ==> #[trigger] positions[i] != j) implies next[j]
            == carried_over(col, positions, j, absent) by {
            assert(positions[n] != j);
            assert(count_below(positions, j) == count_below(pre, j) + if p < j {
                1nat
            } else {
                0nat
            });
            if j < p {
                assert forall|i: int| 0 <= i < pre.len() implies #[trigger] pre[i] != j by {
                    assert(pre[i] == positions[i]);
                }
                assert(count_below(positions, j) == count_below(pre, j));
                if j < prev.len() {
                    assert(next[j] == prev[j]);
                    assert(prev[j] == carried_over(col, pre, j, absent));
                } else {
                    lemma_count_below_bound(pre, j);
                    assert(next[j] == absent);
                    assert(j - count_below(positions, j) >= col.len());
                }
            } else {
                assert(j > p);
                assert(p <= prev.len());
                assert(next[j] == prev[j - 1]);
                lemma_count_below_all(pre, j);
                lemma_count_below_all(pre, j - 1);
                assert forall|i: int| 0 <= i < pre.len() implies #[trigger] pre[i] != j - 1 by {
                    assert(pre[i] == positions[i]);
                }
                assert(prev[j - 1] == carried_over(col, pre, j - 1, absent));
                assert(count_below(positions, j) == n + 1);
            }
        }
    }
}

/// Splices `values` into `target`: for each `i` in order, `values[i]` is
/// inserted at `positions[i]`, and where `target` is shorter than that it is
/// first padded with `absent`.
///
/// Afterwards the column reaches past every position.
pub fn align<T: Copy>(target: &mut Vec<T>, values: &Vec<T>, positions: &Vec<usize>, absent: T)
    requires
        values@.len() >= positions@.len(),
    ensures
        final(target)@ == splice_all(old(target)@, values@, positions@, absent),
        final(target)@.len() >= old(target)@.len() + positions@.len(),
        forall|i: int|
            0 <= i < positions@.len() ==> #[trigger] positions@[i] < final(target)@.len(),
{
    let mut i: usize = 0;
    while i < positions.len()
        invariant
            0 <= i <= positions@.len(),
            values@.len() >= positions@.len(),
            target@ == splice_all(old(target)@, values@, positions@.take(i as int), absent),
        decreases positions@.len() - i,
    {
        let p = positions[i];
        let v = values[i];
        let ghost before = target@;
        if p <= target.len() {
            target.insert(p, v);
        } else {
            let ghost start = target.len();
            while target.len() < p
                invariant
                    start <= target@.len() <= p,
                    target@ == before + Seq::new((target@.len() - start) as nat, |_k: int| absent),
                decreases p - target@.len(),
            {
                target.push(absent);
                assert(target@ == before + Seq::new((target@.len() - start) as nat, |_k: int| absent));
            }
            target.push(v);
        }
        proof {
            assert(positions@.take(i + 1).take(i as int) == positions@.take(i as int));
            assert(target@ == splice_one(before, p as int, v, absent));
        }
        i = i + 1;
    }
    proof {
        assert(positions@.take(positions@.len() as int) == positions@);
        lemma_splice_all_len(old(target)@, values@, positions@, absent);
    }
}

/// Writes `values[i]` over the sample at `positions[i]`, for each `i` in
/// order; the column keeps its length.
pub fn overwrite_at<T: Copy>(target: &mut Vec<T>, values: &Vec<T>, positions: &Vec<usize>)
    requires
        values@.len() >= positions@.len(),
        positions_below(positions@, old(target)@.len() as int),
    ensures
        final(target)@ == overwrite_all(old(target)@, values@, positions@),
        final(target)@.len() == old(target)@.len(),
{
    let mut i: usize = 0;
    while i < positions.len()
        invariant
            0 <= i <= positions@.len(),
            values@.len() >= positions@.len(),
            positions_below(positions@, old(target)@.len() as int),
            target@ == overwrite_all(old(target)@, values@, positions@.take(i as int)),
            target@.len() == old(target)@.len(),
        decreases positions@.len() - i,
    {
        let p = positions[i];
        assert(p < old(target)@.len());
        target.set(p, values[i]);
        proof {
            assert(positions@.take(i + 1).take(i as int) == positions@.take(i as int));
        }
        i = i + 1;
    }
    proof {
        assert(positions@.take(positions@.len() as int) == positions@);
    }
}

/// A column of `len` absent samples.
pub open spec fn absent_column<T>(len: nat, absent: T) -> Seq<T> {
    Seq::new(len, |_k: int| absent)
}

/// A column for a variable seen for the first time at a location: `len`
/// samples, `values[i]` at `positions[i]` and `absent` everywhere else.
pub fn new_column<T: Copy>(len: usize, values: &Vec<T>, positions: &Vec<usize>, absent: T) -> (r: Vec<T>)
    requires
        values@.len() >= positions@.len(),
        positions_below(positions@, len as int),
    ensures
        r@ == overwrite_all(absent_column(len as nat, absent), values@, positions@),
{
    let mut col: Vec<T> = Vec::new();
    while col.len() < len
        invariant
            col@.len() <= len,
            col@ == absent_column(col@.len(), absent),
        decreases len - col@.len(),
    {
        col.push(absent);
        assert(col@ == absent_column(col@.len(), absent));
    }
    overwrite_at(&mut col, values, positions);
    col
}

/// The column after new samples arrive for a variable it already holds:
/// overwritten in place where it already spans the axis, spliced otherwise.
pub open spec fn merged_column<T>(
    col: Seq<T>,
    values: Seq<T>,
    positions: Seq<usize>,
    axis_len: nat,
    absent: T,
) -> Seq<T> {
    if col.len() == axis_len {
        overwrite_all(col, values, positions)
    } else {
        splice_all(col, values, positions, absent)
    }
}

/// Brings new samples into an existing column of a variable. Where the
/// column already has one sample per instant of the merged axis, the
/// samples at `positions` are overwritten; otherwise the values are spliced
/// in and the column padded as [`align`] does.
pub fn merge_column<T: Copy>(
    target: &mut Vec<T>,
    values: &Vec<T>,
    positions: &Vec<usize>,
    axis_len: usize,
    absent: T,
)
    requires
        values@.len() >= positions@.len(),
        positions_below(positions@, axis_len as int),
    ensures
        final(target)@ == merged_column(old(target)@, values@, positions@, axis_len as nat, absent),
{
    if target.len() == axis_len {
        overwrite_at(target, values, positions);
    } else {
        align(target, values, positions, absent);
    }
}

/// With distinct positions inside the column, overwriting puts each value at
/// its position, leaves every other sample as it was and keeps the length.
pub proof fn lemma_overwrite_places<T>(col: Seq<T>, values: Seq<T>, positions: Seq<usize>)
    requires
        distinct_positions(positions),
        positions_below(positions, col.len() as int),
    ensures
        overwrite_all(col, values, positions).len() == col.len(),
        forall|i: int|
            0 <= i < positions.len() ==> overwrite_all(col, values, positions)[#[trigger] positions[i] as int]
                == values[i],
        forall|j: int|
            0 <= j < col.len() && (forall|i: int| 0 <= i < positions.len() ==> #[trigger] positions[i] != j)
                ==> overwrite_all(col, values, positions)[j] == col[j],
    decreases positions.len(),
{
    if positions.len() > 0 {
        let n = positions.len() - 1;
        let pre = positions.take(n);
        assert forall|i: int| 0 <= i < pre.len() implies #[trigger] pre[i] < col.len() by {
            assert(pre[i] == positions[i]);
        }
        lemma_overwrite_places(col, values, pre);
        let prev = overwrite_all(col, values, pre);
        assert forall|i: int| 0 <= i < positions.len() implies overwrite_all(col, values, positions)[
            #[trigger] positions[i] as int] == values[i] by {
            if i < n {
                assert(pre[i] == positions[i]);
                assert(positions[i] != positions[n]);
            }
        }
        assert forall|j: int|
            0 <= j < col.len() && (forall|i: int| 0 <= i < positions.len() ==> #[trigger] positions[i] != j)
            implies overwrite_all(col, values, positions)[j] == col[j] by {
            assert(positions[n] != j);
            assert forall|i: int| 0 <= i < pre.len() implies #[trigger] pre[i] != j by {
                assert(pre[i] == positions[i]);
            }
        }
    }
}

/// Overwriting samples with the values they already hold changes nothing.
pub proof fn lemma_overwrite_same<T>(col: Seq<T>, values: Seq<T>, positions: Seq<usize>)
    requires
        forall|i: int|
            0 <= i < positions.len() ==> #[trigger] positions[i] < col.len() && col[positions[i] as int]
                == values[i],
    ensures
        overwrite_all(col, values, positions) == col,
    decreases positions.len(),
{
    if positions.len() > 0 {
        let n = positions.len() - 1;
        let pre = positions.take(n);
        assert forall|i: int| 0 <= i < pre.len() implies #[trigger] pre[i] < col.len() && col[pre[i] as int]
            == values[i] by {
            assert(pre[i] == positions[i]);
        }
        lemma_overwrite_same(col, values, pre);
        assert(positions[n] < col.len());
        assert(col.update(positions[n] as int, values[n]) == col);
    }
}

/// A column that already spans the axis and holds the new values at their
/// positions is left as it is when the same samples arrive again.
pub proof fn lemma_merge_column_same<T>(
    col: Seq<T>,
    values: Seq<T>,
    positions: Seq<usize>,
    axis_len: nat,
    absent: T,
)
    requires
        col.len() == axis_len,
        forall|i: int|
            0 <= i < positions.len() ==> #[trigger] positions[i] < col.len() && col[positions[i] as int]
                == values[i],
    ensures
        merged_column(col, values, positions, axis_len, absent) == col,
{
    lemma_overwrite_same(col, values, positions);
}

} // verus!
