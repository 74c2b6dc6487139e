use vstd::prelude::*;

verus! {

/// A single cell value.
///
/// A floating-point number is carried as its IEEE-754 bit pattern, so two
/// floats are equal exactly when their bit patterns are equal.
#[derive(Debug, PartialEq)]
pub enum Value {
    Integer(i64),
    Float(u64),
    Text(String),
    Null,
}

/// Mathematical model of a `Value`.
pub ghost enum ValueModel {
    Integer(int),
    Float(u64),
    Text(Seq<char>),
    Null,
}

impl View for Value {
    type V = ValueModel;

    open spec fn view(&self) -> ValueModel {
        match self {
            Value::Integer(i) => ValueModel::Integer(*i as int),
            Value::Float(b) => ValueModel::Float(*b),
            Value::Text(s) => ValueModel::Text(s@),
            Value::Null => ValueModel::Null,
        }
    }
}

impl Clone for Value {
    fn clone(&self) -> (r: Self)
        ensures
            r == *self,
    {
        match self {
            Value::Integer(i) => Value::Integer(*i),
            Value::Float(b) => Value::Float(*b),
            Value::Text(s) => Value::Text(s.clone()),
            Value::Null => Value::Null,
        }
    }
}

/// Typed equality: same kind and same content; values of different kinds
/// are never equal.
pub fn values_equal(a: &Value, b: &Value) -> (r: bool)
    ensures
        r == (a@ == b@),
{
    match (a, b) {
        (Value::Integer(x), Value::Integer(y)) => *x == *y,
        (Value::Float(x), Value::Float(y)) => *x == *y,
        (Value::Text(x), Value::Text(y)) => *x == *y,
        (Value::Null, Value::Null) => true,
        _ => false,
    }
}

/// A single-column equality predicate: `column = value`.
#[derive(Debug, PartialEq)]
pub struct Condition {
    pub column: String,
    pub value: Value,
}

impl View for Condition {
    type V = (Seq<char>, ValueModel);

    open spec fn view(&self) -> (Seq<char>, ValueModel) {
        (self.column@, self.value@)
    }
}

/// Model of an optional condition.
pub open spec fn cond_view(c: Option<&Condition>) -> Option<(Seq<char>, ValueModel)> {
    match c {
        Some(c) => Some(c@),
        None => None,
    }
}

/// Model of an optional owned condition.
pub open spec fn opt_cond_view(c: Option<Condition>) -> Option<(Seq<char>, ValueModel)> {
    match c {
        Some(c) => Some(c@),
        None => None,
    }
}

/// An equi-join descriptor: the right-hand table and the pair of columns
/// compared for equality; `left_table` and `right_table` are the aliases
/// that prefix the output columns.
#[derive(Debug, PartialEq)]
pub struct JoinInfo {
    pub table: String,
    pub left_table: String,
    pub left_column: String,
    pub right_table: String,
    pub right_column: String,
}

/// Model of a join descriptor.
pub ghost struct JoinModel {
    pub table: Seq<char>,
    pub left_table: Seq<char>,
    pub left_column: Seq<char>,
    pub right_table: Seq<char>,
    pub right_column: Seq<char>,
}

impl View for JoinInfo {
    type V = JoinModel;

    open spec fn view(&self) -> JoinModel {
        JoinModel {
            table: self.table@,
            left_table: self.left_table@,
            left_column: self.left_column@,
            right_table: self.right_table@,
            right_column: self.right_column@,
        }
    }
}

/// A column definition as handed over by a parser.
#[derive(Debug, PartialEq)]
pub struct ColumnDef {
    pub name: String,
    pub col_type: String,
}

/// One named value of an output row.
#[derive(Debug, PartialEq)]
pub struct Cell {
    pub column: String,
    pub value: Value,
}

impl View for Cell {
    type V = (Seq<char>, ValueModel);

    open spec fn view(&self) -> (Seq<char>, ValueModel) {
        (self.column@, self.value@)
    }
}

/// An assignment `column = value` of an update.
#[derive(Debug, PartialEq)]
pub struct Assignment {
    pub column: String,
    pub value: Value,
}

impl View for Assignment {
    type V = (Seq<char>, ValueModel);

    open spec fn view(&self) -> (Seq<char>, ValueModel) {
        (self.column@, self.value@)
    }
}

} // verus!
