//! What an ingestion does with the data document of one location and depth
//! level.
use vstd::prelude::*;
use crate::align::{lemma_merge_column_same, positions_below};
use crate::columns::{is_first_match, VariableColumns};
use crate::timeaxis::AxisUpdate;

verus! {

/// The write that a data document needs.
pub enum LevelWrite<T> {
    /// No document exists and the profile carries nothing: none is made.
    Skip,
    /// A new document with these columns is stored.
    Insert(VariableColumns<T>),
    /// The stored document is replaced by one with these columns.
    Replace(VariableColumns<T>),
}

/// Folds the samples of variable `name` at one depth level into the
/// document stored for it, if any.
///
/// Without a stored document, a profile that is trivial throughout makes
/// none; any other makes one whose single column holds the samples at their
/// positions on the axis. A stored document has the variable merged in
/// against the merged axis.
pub fn ingest_level<T: Copy>(
    stored: Option<VariableColumns<T>>,
    profile_trivial: bool,
    name: String,
    attribute_names: Vec<String>,
    attribute_values: Vec<String>,
    values: &Vec<T>,
    axis: &AxisUpdate,
    absent: T,
) -> (r: LevelWrite<T>)
    requires
        values@.len() >= axis.positions@.len(),
        positions_below(axis.positions@, axis.merged@.len() as int),
        stored matches Some(doc) ==> doc.wf(),
    ensures
        match stored {
            None => if profile_trivial {
                r matches LevelWrite::Skip
            } else {
                r matches LevelWrite::Insert(doc) && doc.created(
                    name,
                    attribute_names,
                    attribute_values,
                    values@,
                    axis.positions@,
                    absent,
                )
            },
            Some(before) => r matches LevelWrite::Replace(after) && before.upserted(
                after,
                name,
                attribute_values,
                values@,
                axis.positions@,
                axis.merged@.len(),
                absent,
            ),
        },
{
    match stored {
        None => {
            if profile_trivial {
                LevelWrite::Skip
            } else {
                LevelWrite::Insert(
                    VariableColumns::create(
                        name,
                        attribute_names,
                        attribute_values,
                        values,
                        &axis.positions,
                        absent,
                    ),
                )
            }
        },
        Some(doc) => {
            let mut doc = doc;
            doc.upsert(name, attribute_values, values, &axis.positions, axis.merged.len(), absent);
            LevelWrite::Replace(doc)
        },
    }
}

/// Ingesting the same samples of a variable a second time leaves its
/// document as it was: no column is added, and a column that spans the axis
/// and already holds the samples at their positions keeps every sample.
pub proof fn lemma_reingest_unchanged<T: Copy>(
    before: VariableColumns<T>,
    after: VariableColumns<T>,
    name: String,
    attribute_values: Vec<String>,
    values: Seq<T>,
    positions: Seq<usize>,
    axis_len: nat,
    absent: T,
    k: int,
)
    requires
        before.wf(),
        is_first_match(before.names@, name@, k),
        before.data@[k]@.len() == axis_len,
        forall|i: int|
            0 <= i < positions.len() ==> #[trigger] positions[i] < before.data@[k]@.len()
                && before.data@[k]@[positions[i] as int] == values[i],
        before.upserted(after, name, attribute_values, values, positions, axis_len, absent),
    ensures
        after.names@ == before.names@,
        after.attribute_names == before.attribute_names,
        after.attribute_values@ == before.attribute_values@,
        after.data@.len() == before.data@.len(),
        forall|j: int| 0 <= j < before.data@.len() ==> #[trigger] after.data@[j]@ == before.data@[j]@,
{
    lemma_merge_column_same(before.data@[k]@, values, positions, axis_len, absent);
}

} // verus!
