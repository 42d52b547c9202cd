//! The samples of one location and depth level: one column per variable,
//! kept in lock-step with the variables' names and attribute values.
use vstd::prelude::*;
use crate::align::{align, merge_column, merged_column, new_column, overwrite_all, absent_column, splice_all, positions_below};

verus! {

/// The variables of a data document and their sample columns.
pub struct VariableColumns<T> {
    /// The name of each variable, in the order of the columns.
    pub names: Vec<String>,
    /// The names of the attributes recorded for every variable.
    pub attribute_names: Vec<String>,
    /// For each variable, the values of its attributes.
    pub attribute_values: Vec<Vec<String>>,
    /// For each variable, its samples along the location's time axis.
    pub data: Vec<Vec<T>>,
}

/// `k` is the first index of `names` that holds `name`.
pub open spec fn is_first_match(names: Seq<String>, name: Seq<char>, k: int) -> bool {
    &&& 0 <= k < names.len()
    &&& names[k]@ == name
    &&& forall|j: int| 0 <= j < k ==> names[j]@ != name
}

/// No entry of `names` holds `name`.
pub open spec fn lacks_name(names: Seq<String>, name: Seq<char>) -> bool {
    forall|j: int| 0 <= j < names.len() ==> names[j]@ != name
}

impl<T: Copy> VariableColumns<T> {
    /// Names, attribute values and columns run in lock-step.
    pub open spec fn wf(&self) -> bool {
        &&& self.names@.len() == self.data@.len()
        &&& self.attribute_values@.len() == self.data@.len()
    }

    /// `self` holds exactly one variable, `name`, with the given attributes
    /// and the values spliced into an empty column.
    pub open spec fn created(
        &self,
        name: String,
        attribute_names: Vec<String>,
        attribute_values: Vec<String>,
        values: Seq<T>,
        positions: Seq<usize>,
        absent: T,
    ) -> bool {
        &&& self.wf()
        &&& self.names@ == seq![name]
        &&& self.attribute_names == attribute_names
        &&& self.attribute_values@ == seq![attribute_values]
        &&& self.data@.len() == 1
        &&& self.data@[0]@ == splice_all(Seq::<T>::empty(), values, positions, absent)
    }

    /// `after` is `self` once the samples of variable `name` came in: the
    /// column of a known variable merged, or a new column appended.
    pub open spec fn upserted(
        &self,
        after: Self,
        name: String,
        attribute_values: Vec<String>,
        values: Seq<T>,
        positions: Seq<usize>,
        axis_len: nat,
        absent: T,
    ) -> bool {
        &&& after.wf()
        &&& after.attribute_names == self.attribute_names
        &&& forall|k: int|
            is_first_match(self.names@, name@, k) ==> {
                &&& after.names@ == self.names@
                &&& after.attribute_values@ == self.attribute_values@
                &&& after.data@.len() == self.data@.len()
                &&& after.data@[k]@ == merged_column(self.data@[k]@, values, positions, axis_len, absent)
                &&& forall|j: int| 0 <= j < self.data@.len() && j != k ==> after.data@[j] == self.data@[j]
            }
        &&& lacks_name(self.names@, name@) ==> {
            &&& after.names@ == self.names@.push(name)
            &&& after.attribute_values@ == self.attribute_values@.push(attribute_values)
            &&& after.data@.len() == self.data@.len() + 1
            &&& after.data@[self.data@.len() as int]@ == overwrite_all(
                absent_column(axis_len, absent),
                values,
                positions,
            )
            &&& forall|j: int| 0 <= j < self.data@.len() ==> after.data@[j] == self.data@[j]
        }
    }

    /// A document's columns when its first variable arrives: the values are
    /// spliced into an empty column at their positions, padded with `absent`.
    pub fn create(
        name: String,
        attribute_names: Vec<String>,
        attribute_values: Vec<String>,
        values: &Vec<T>,
        positions: &Vec<usize>,
        absent: T,
    ) -> (r: Self)
        requires
            values@.len() >= positions@.len(),
        ensures
            r.created(name, attribute_names, attribute_values, values@, positions@, absent),
    {
        let mut col: Vec<T> = Vec::new();
        align(&mut col, values, positions, absent);
        let mut names: Vec<String> = Vec::new();
        names.push(name);
        let mut attrs: Vec<Vec<String>> = Vec::new();
        attrs.push(attribute_values);
        let mut data: Vec<Vec<T>> = Vec::new();
        data.push(col);
        VariableColumns { names, attribute_names, attribute_values: attrs, data }
    }

    /// The index of the first variable called `name`.
    pub fn find_variable(&self, name: &String) -> (r: Option<usize>)
        ensures
            match r {
                Some(k) => is_first_match(self.names@, name@, k as int),
                None => lacks_name(self.names@, name@),
            },
    {
        let mut i: usize = 0;
        while i < self.names.len()
            invariant
                0 <= i <= self.names@.len(),
                forall|j: int| 0 <= j < i ==> self.names@[j]@ != name@,
            decreases self.names@.len() - i,
        {
            if self.names[i] == *name {
                return Some(i);
            }
            i = i + 1;
        }
        None
    }

    /// Brings the samples of variable `name` into the document, against a
    /// merged time axis of `axis_len` instants.
    ///
    /// A variable the document holds has its column merged (overwritten in
    /// place where it spans the axis, spliced otherwise). A new variable gets
    /// a column of `axis_len` samples, absent but at `positions`, and its
    /// attribute values are recorded.
    pub fn upsert(
        &mut self,
        name: String,
        attribute_values: Vec<String>,
        values: &Vec<T>,
        positions: &Vec<usize>,
        axis_len: usize,
        absent: T,
    )
        requires
            old(self).wf(),
            values@.len() >= positions@.len(),
            positions_below(positions@, axis_len as int),
        ensures
            old(self).upserted(
                *final(self),
                name,
                attribute_values,
                values@,
                positions@,
                axis_len as nat,
                absent,
            ),
    {
        match self.find_variable(&name) {
            Some(k) => {
                let mut col = self.data.remove(k);
                merge_column(&mut col, values, positions, axis_len, absent);
                self.data.insert(k, col);
                proof {
                    assert forall|k2: int| is_first_match(old(self).names@, name@, k2) implies k2
                        == k by {
                        if k2 < k {
                        } else if k2 > k {
                        }
                    }
                }
            },
            None => {
                let col = new_column(axis_len, values, positions, absent);
                self.data.push(col);
                self.names.push(name);
                self.attribute_values.push(attribute_values);
            },
        }
    }
}

} // verus!
