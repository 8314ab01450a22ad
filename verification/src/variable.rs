//! The variable function: a scalar function that reads one named column.
//!
//! Evaluating it on a block of data returns the column the function was
//! created for; its return type and nullability are those the schema
//! declares for that column.

use vstd::prelude::*;
use crate::datum::Datum;

verus! {

/// A column's data type.
#[derive(Clone, Copy, Debug, PartialEq, Eq, Structural)]
pub enum DataType {
    Boolean,
    Int64,
    Utf8,
}

/// One column of a schema: name, type, nullability.
#[derive(Debug)]
pub struct DataField {
    pub name: String,
    pub data_type: DataType,
    pub nullable: bool,
}

/// An ordered list of named columns.
#[derive(Debug)]
pub struct DataSchema {
    pub fields: Vec<DataField>,
}

/// A block of data: a schema and one value column per field.
#[derive(Debug)]
pub struct DataBlock {
    pub schema: DataSchema,
    pub columns: Vec<Vec<Datum>>,
}

/// A columnar evaluation result.
#[derive(Debug)]
pub enum DataColumnarValue {
    Array(Vec<Datum>),
}

/// Errors of schema lookups.
#[derive(Clone, Copy, Debug, PartialEq, Eq, Structural)]
pub enum SchemaError {
    FieldNotFound,
}

/// The first field index carrying `name`, if any.
pub open spec fn field_index(fields: Seq<DataField>, name: Seq<char>) -> Option<int> {
    if exists|i: int| 0 <= i < fields.len() && (#[trigger] fields[i]).name@ == name {
        Some(
            choose|i: int|
                0 <= i < fields.len() && (#[trigger] fields[i]).name@ == name && forall|k: int|
                    0 <= k < i ==> (#[trigger] fields[k]).name@ != name,
        )
    } else {
        None
    }
}

/// The lookup's index, when some field carries the name, is in range,
/// carries it, and is the first to do so.
pub proof fn lemma_field_index(fields: Seq<DataField>, name: Seq<char>)
    ensures
        field_index(fields, name) matches Some(i) ==> 0 <= i < fields.len() && fields[i].name@
            == name && forall|k: int| 0 <= k < i ==> (#[trigger] fields[k]).name@ != name,
        field_index(fields, name) is None ==> forall|k: int|
            0 <= k < fields.len() ==> (#[trigger] fields[k]).name@ != name,
    decreases fields.len(),
{
    if exists|i: int| 0 <= i < fields.len() && (#[trigger] fields[i]).name@ == name {
        lemma_first_field(fields, name, 0);
    }
}

/// Below any position bounding the matches, a first match exists.
proof fn lemma_first_field(fields: Seq<DataField>, name: Seq<char>, lo: int)
    requires
        0 <= lo < fields.len(),
        exists|i: int| lo <= i < fields.len() && (#[trigger] fields[i]).name@ == name,
        forall|k: int| 0 <= k < lo ==> (#[trigger] fields[k]).name@ != name,
    ensures
        exists|i: int|
            0 <= i < fields.len() && (#[trigger] fields[i]).name@ == name && forall|k: int|
                0 <= k < i ==> (#[trigger] fields[k]).name@ != name,
    decreases fields.len() - lo,
{
    if fields[lo].name@ == name {
        assert(fields[lo].name@ == name && forall|k: int|
            0 <= k < lo ==> (#[trigger] fields[k]).name@ != name);
    } else {
        lemma_first_field(fields, name, lo + 1);
    }
}

impl DataSchema {
    /// Looks a field up by name; the first field carrying the name, or
    /// `FieldNotFound` when none does.
    pub fn field_with_name(&self, name: &str) -> (r: Result<&DataField, SchemaError>)
        ensures
            match r {
                Ok(f) => field_index(self.fields@, name@) matches Some(i) && *f
                    == self.fields@[i],
                Err(e) => e == SchemaError::FieldNotFound && field_index(self.fields@, name@)
                    is None,
            },
    {
        let wanted: String = name.to_owned();
        let mut i: usize = 0;
        while i < self.fields.len()
            invariant
                wanted@ == name@,
                0 <= i <= self.fields@.len(),
                forall|k: int| 0 <= k < i ==> (#[trigger] self.fields@[k]).name@ != name@,
            decreases self.fields@.len() - i,
        {
            if self.fields[i].name == wanted {
                proof {
                    assert(self.fields@[i as int].name@ == name@);
                    lemma_field_index(self.fields@, name@);
                    match field_index(self.fields@, name@) {
                        Some(w) => {
                            assert(!(w < i) && !(i < w));
                        },
                        None => {
                            assert(false);
                        },
                    }
                }
                return Ok(&self.fields[i]);
            }
            i = i + 1;
        }
        proof {
            lemma_field_index(self.fields@, name@);
        }
        Err(SchemaError::FieldNotFound)
    }
}

impl DataBlock {
    /// Each column, in field order, with as many cells as the others.
    pub open spec fn wf(self) -> bool {
        self.columns@.len() == self.schema.fields@.len()
    }

    /// Returns the column declared under `name`, or `FieldNotFound`.
    pub fn column_by_name(&self, name: &str) -> (r: Result<&Vec<Datum>, SchemaError>)
        requires
            self.wf(),
        ensures
            match r {
                Ok(c) => field_index(self.schema.fields@, name@) matches Some(i) && c@
                    == self.columns@[i]@,
                Err(e) => e == SchemaError::FieldNotFound && field_index(
                    self.schema.fields@,
                    name@,
                ) is None,
            },
    {
        let wanted: String = name.to_owned();
        let mut i: usize = 0;
        while i < self.schema.fields.len()
            invariant
                self.wf(),
                wanted@ == name@,
                0 <= i <= self.schema.fields@.len(),
                forall|k: int| 0 <= k < i ==> (#[trigger] self.schema.fields@[k]).name@ != name@,
            decreases self.schema.fields@.len() - i,
        {
            if self.schema.fields[i].name == wanted {
                proof {
                    assert(self.schema.fields@[i as int].name@ == name@);
                    lemma_field_index(self.schema.fields@, name@);
                    match field_index(self.schema.fields@, name@) {
                        Some(w) => {
                            assert(!(w < i) && !(i < w));
                        },
                        None => {
                            assert(false);
                        },
                    }
                }
                return Ok(&self.columns[i]);
            }
            i = i + 1;
        }
        proof {
            lemma_field_index(self.schema.fields@, name@);
        }
        Err(SchemaError::FieldNotFound)
    }
}

/// A scalar function.
#[derive(Debug)]
pub enum Function {
    Variable(VariableFunction),
}

/// The function that evaluates to the column it names.
#[derive(Debug)]
pub struct VariableFunction {
    value: String,
}

impl VariableFunction {
    /// The column name the function reads.
    pub closed spec fn spec_value(self) -> Seq<char> {
        self.value@
    }

    /// Creates the variable function reading column `value`.
    pub fn create(value: &str) -> (r: Result<Function, SchemaError>)
        ensures
            r matches Ok(f) && (f matches Function::Variable(v) && v.spec_value() == value@),
    {
        Ok(Function::Variable(VariableFunction { value: value.to_owned() }))
    }

    /// The function's name.
    pub fn name(&self) -> (r: &'static str)
        ensures
            r@ == "VariableFunction"@,
    {
        "VariableFunction"
    }

    /// The type the function returns under `input_schema`: the declared
    /// type of the column it reads, or `FieldNotFound`.
    pub fn return_type(&self, input_schema: &DataSchema) -> (r: Result<DataType, SchemaError>)
        ensures
            match r {
                Ok(t) => field_index(input_schema.fields@, self.spec_value())
                    matches Some(i) && t == input_schema.fields@[i].data_type,
                Err(e) => e == SchemaError::FieldNotFound && field_index(
                    input_schema.fields@,
                    self.spec_value(),
                ) is None,
            },
    {
        match input_schema.field_with_name(self.value.as_str()) {
            Ok(f) => Ok(f.data_type),
            Err(e) => Err(e),
        }
    }

    /// Whether the function may return nulls under `input_schema`: the
    /// declared nullability of the column it reads.
    pub fn nullable(&self, input_schema: &DataSchema) -> (r: Result<bool, SchemaError>)
        ensures
            match r {
                Ok(b) => field_index(input_schema.fields@, self.spec_value())
                    matches Some(i) && b == input_schema.fields@[i].nullable,
                Err(e) => e == SchemaError::FieldNotFound && field_index(
                    input_schema.fields@,
                    self.spec_value(),
                ) is None,
            },
    {
        match input_schema.field_with_name(self.value.as_str()) {
            Ok(f) => Ok(f.nullable),
            Err(e) => Err(e),
        }
    }

    /// Evaluates the function on `block`: the column it names, whole.
    pub fn evaluate(&self, block: &DataBlock) -> (r: Result<DataColumnarValue, SchemaError>)
        requires
            block.wf(),
        ensures
            match r {
                Ok(v) => {
                    &&& field_index(block.schema.fields@, self.spec_value()) matches Some(i)
                    &&& v matches DataColumnarValue::Array(c) && c@ == block.columns@[
                        field_index(block.schema.fields@, self.spec_value())->Some_0
                    ]@
                },
                Err(e) => e == SchemaError::FieldNotFound && field_index(
                    block.schema.fields@,
                    self.spec_value(),
                ) is None,
            },
    {
        match block.column_by_name(self.value.as_str()) {
            Ok(c) => Ok(DataColumnarValue::Array(crate::block::copy_row(c))),
            Err(e) => Err(e),
        }
    }
}

} // verus!
