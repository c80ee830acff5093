use std::sync::Arc;
use vstd::prelude::*;

use crate::error::{ArrowError, Result};
use crate::nested::Array;
use crate::types::{same_type, Schema};

verus! {

/// Columns of equal length, at least one, each of the type of its field in the schema.
pub struct RecordBatch {
    schema: Arc<Schema>,
    columns: Vec<Array>,
}

/// The columns match the fields of `schema`: as many, each of its field's type.
pub open spec fn columns_match(schema: Schema, columns: Seq<Array>) -> bool {
    &&& schema.fields@.len() == columns.len()
    &&& forall|i: int|
        0 <= i < columns.len() ==> (#[trigger] columns[i]).data_type_spec()
            == schema.fields@[i].data_type
}

impl RecordBatch {
    pub closed spec fn columns(&self) -> Seq<Array> {
        self.columns@
    }

    pub closed spec fn spec_schema(&self) -> Schema {
        *self.schema
    }

    /// The length of every column.
    pub closed spec fn num_rows(&self) -> nat {
        self.columns@[0].view().len()
    }

    pub closed spec fn wf(&self) -> bool {
        &&& self.columns@.len() >= 1
        &&& forall|i: int|
            0 <= i < self.columns@.len() ==> (#[trigger] self.columns@[i]).wf()
                && self.columns@[i].view().len() == self.columns@[0].view().len()
        &&& columns_match(*self.schema, self.columns@)
    }

    pub proof fn lemma_columns(&self)
        requires
            self.wf(),
        ensures
            self.columns().len() >= 1,
            forall|i: int|
                0 <= i < self.columns().len() ==> (#[trigger] self.columns()[i]).wf()
                    && self.columns()[i].view().len() == self.num_rows(),
            columns_match(self.spec_schema(), self.columns()),
    {
    }

    /// The batch of `columns` under `schema`; an error when there is no column, their
    /// lengths differ, or they do not match the fields of `schema`.
    pub fn try_new(schema: Arc<Schema>, columns: Vec<Array>) -> (r: Result<Self>)
        requires
            forall|i: int| 0 <= i < columns@.len() ==> (#[trigger] columns@[i]).wf(),
        ensures
            r is Ok <==> columns@.len() >= 1 && (forall|i: int|
                0 <= i < columns@.len() ==> (#[trigger] columns@[i]).view().len()
                    == columns@[0].view().len()) && columns_match(*schema, columns@),
            r matches Ok(b) ==> b.wf() && b.columns() == columns@ && b.spec_schema() == *schema,
    {
        if columns.len() == 0 {
            return Err(
                ArrowError::InvalidArgumentError(
                    "at least one column must be defined to create a record batch".to_string(),
                ),
            );
        }
        if schema.fields.len() != columns.len() {
            return Err(
                ArrowError::InvalidArgumentError(
                    "the schema must have a field for each column".to_string(),
                ),
            );
        }
        let n = columns[0].len();
        let mut i: usize = 0;
        while i < columns.len()
            invariant
                i <= columns@.len(),
                columns@.len() >= 1,
                schema.fields@.len() == columns@.len(),
                forall|k: int| 0 <= k < columns@.len() ==> (#[trigger] columns@[k]).wf(),
                n == columns@[0].view().len(),
                forall|k: int| 0 <= k < i ==> (#[trigger] columns@[k]).view().len() == n,
                forall|k: int|
                    0 <= k < i ==> (#[trigger] columns@[k]).data_type_spec()
                        == schema.fields@[k].data_type,
            decreases columns@.len() - i,
        {
            if columns[i].len() != n {
                return Err(
                    ArrowError::InvalidArgumentError(
                        "all columns in a record batch must have the same length".to_string(),
                    ),
                );
            }
            let data_type = columns[i].data_type();
            if !same_type(&data_type, &schema.fields[i].data_type) {
                return Err(
                    ArrowError::InvalidArgumentError(
                        "each column must have the type of its field".to_string(),
                    ),
                );
            }
            i += 1;
        }
        Ok(RecordBatch { schema, columns })
    }

    /// The schema.
    pub fn schema(&self) -> (r: Arc<Schema>)
        ensures
            *r == self.spec_schema(),
    {
        self.schema.clone()
    }

    /// Number of rows.
    pub fn len(&self) -> (r: usize)
        requires
            self.wf(),
        ensures
            r == self.num_rows(),
    {
        self.columns[0].len()
    }

    pub fn num_columns(&self) -> (r: usize)
        ensures
            r == self.columns().len(),
    {
        self.columns.len()
    }

    /// The column `i`.
    pub fn column(&self, i: usize) -> (r: &Array)
        requires
            i < self.columns().len(),
        ensures
            *r == self.columns()[i as int],
    {
        &self.columns[i]
    }

    /// All the columns.
    pub fn columns_ref(&self) -> (r: &Vec<Array>)
        ensures
            r@ == self.columns(),
    {
        &self.columns
    }
}

} // verus!
