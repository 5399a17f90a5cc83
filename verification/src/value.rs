//! Scalar values stored as node and edge properties.
//!
//! Seven variants, in the order that fixes their on-disk discriminants:
//! `Null`, `Bool`, `I64`, `F64`, `String`, `Timestamp` (unix epoch
//! milliseconds) and `List` (heterogeneous). A double is held as its
//! IEEE 754 bit pattern, which is exactly what the record format stores.

use vstd::prelude::*;
use crate::strmap::Duplicate;
use vstd::std_specs::cmp::PartialEqSpecImpl;

verus! {

#[derive(Debug)]
pub enum Value {
    Null,
    Bool(bool),
    I64(i64),
    /// IEEE 754 binary64 bit pattern.
    F64(u64),
    String(String),
    /// Unix epoch milliseconds.
    Timestamp(i64),
    List(Vec<Value>),
}

/// Mathematical model of a [`Value`]: strings as character sequences,
/// lists as sequences of models.
pub enum ValueModel {
    Null,
    Bool(bool),
    I64(i64),
    F64(u64),
    Str(Seq<char>),
    Timestamp(i64),
    List(Seq<ValueModel>),
}

impl View for Value {
    type V = ValueModel;

    open spec fn view(&self) -> ValueModel
        decreases self,
    {
        match self {
            Value::Null => ValueModel::Null,
            Value::Bool(b) => ValueModel::Bool(*b),
            Value::I64(i) => ValueModel::I64(*i),
            Value::F64(b) => ValueModel::F64(*b),
            Value::String(s) => ValueModel::Str(s@),
            Value::Timestamp(t) => ValueModel::Timestamp(*t),
            Value::List(v) => ValueModel::List(values_view(v@)),
        }
    }
}

/// Element-wise model of a sequence of values.
pub open spec fn values_view(s: Seq<Value>) -> Seq<ValueModel>
    decreases s,
{
    if s.len() == 0 {
        Seq::empty()
    } else {
        values_view(s.drop_last()).push(s.last()@)
    }
}

pub proof fn lemma_values_view(s: Seq<Value>)
    ensures
        values_view(s).len() == s.len(),
        forall|j: int| 0 <= j < s.len() ==> #[trigger] values_view(s)[j] == s[j]@,
    decreases s.len(),
{
    if s.len() > 0 {
        let p = s.drop_last();
        lemma_values_view(p);
        assert(values_view(s) == values_view(p).push(s.last()@));
        assert forall|j: int| 0 <= j < s.len() implies #[trigger] values_view(s)[j] == s[j]@ by {
            if j < s.len() - 1 {
                assert(values_view(s)[j] == values_view(p)[j]);
                assert(p[j] == s[j]);
            }
        }
    }
}

pub proof fn lemma_values_view_ext(a: Seq<Value>, b: Seq<Value>)
    requires
        a.len() == b.len(),
        forall|j: int| 0 <= j < a.len() ==> a[j]@ == b[j]@,
    ensures
        values_view(a) == values_view(b),
{
    lemma_values_view(a);
    lemma_values_view(b);
    assert(values_view(a) =~= values_view(b));
}

/// The lower-case name of a model's variant.
pub open spec fn type_name_of(v: ValueModel) -> Seq<char> {
    match v {
        ValueModel::Null => "null"@,
        ValueModel::Bool(_) => "bool"@,
        ValueModel::I64(_) => "i64"@,
        ValueModel::F64(_) => "f64"@,
        ValueModel::Str(_) => "string"@,
        ValueModel::Timestamp(_) => "timestamp"@,
        ValueModel::List(_) => "list"@,
    }
}

impl Value {
    /// The name of this value's variant, as schema errors report it.
    pub fn kind_name(&self) -> (r: &'static str)
        ensures
            r@ == type_name_of(self@),
    {
        proof {
            reveal_strlit("null");
            reveal_strlit("bool");
            reveal_strlit("i64");
            reveal_strlit("f64");
            reveal_strlit("string");
            reveal_strlit("timestamp");
            reveal_strlit("list");
        }
        match self {
            Value::Null => "null",
            Value::Bool(_) => "bool",
            Value::I64(_) => "i64",
            Value::F64(_) => "f64",
            Value::String(_) => "string",
            Value::Timestamp(_) => "timestamp",
            Value::List(_) => "list",
        }
    }

    /// A deep copy.
    #[verifier::loop_isolation(false)]
    pub fn deep_copy(&self) -> (r: Value)
        ensures
            r@ == self@,
        decreases self,
    {
        match self {
            Value::Null => Value::Null,
            Value::Bool(b) => Value::Bool(*b),
            Value::I64(i) => Value::I64(*i),
            Value::F64(b) => Value::F64(*b),
            Value::String(s) => Value::String(s.clone()),
            Value::Timestamp(t) => Value::Timestamp(*t),
            Value::List(items) => {
                let mut out: Vec<Value> = Vec::new();
                let mut i: usize = 0;
                while i < items.len()
                    invariant
                        i <= items.len(),
                        out@.len() == i,
                        forall|j: int| 0 <= j < i ==> out@[j]@ == items@[j]@,
                    decreases items.len() - i,
                {
                    proof {
                        assert(decreases_to!(self => items));
                        assert(decreases_to!(items => items@));
                        assert(decreases_to!(items@ => items@[i as int]));
                    }
                    out.push(items[i].deep_copy());
                    i = i + 1;
                }
                proof {
                    lemma_values_view_ext(out@, items@);
                }
                Value::List(out)
            }
        }
    }

    /// The string value of a string slice.
    pub fn from_str_slice(s: &str) -> (r: Value)
        ensures
            r@ == ValueModel::Str(s@),
    {
        Value::String(s.to_owned())
    }
}

impl Duplicate for Value {
    fn duplicate(&self) -> (r: Value) {
        self.deep_copy()
    }
}

impl Clone for Value {
    fn clone(&self) -> (r: Value)
        ensures
            r@ == self@,
    {
        self.deep_copy()
    }
}

/// Equality of values as `==` compares them: doubles as IEEE numbers
/// (NaN equals nothing, the two zeros are equal), lists element-wise,
/// values of different variants never.
pub open spec fn value_eq(a: ValueModel, b: ValueModel) -> bool
    decreases a, 0nat,
{
    match (a, b) {
        (ValueModel::Null, ValueModel::Null) => true,
        (ValueModel::Bool(x), ValueModel::Bool(y)) => x == y,
        (ValueModel::I64(x), ValueModel::I64(y)) => x == y,
        (ValueModel::F64(x), ValueModel::F64(y)) => crate::float::eq_spec(x, y),
        (ValueModel::Str(x), ValueModel::Str(y)) => x == y,
        (ValueModel::Timestamp(x), ValueModel::Timestamp(y)) => x == y,
        (ValueModel::List(x), ValueModel::List(y)) => x.len() == y.len() && values_eq(x, y, x.len()),
        _ => false,
    }
}

/// The first `n` elements of `x` and `y` are pairwise [`value_eq`].
pub open spec fn values_eq(x: Seq<ValueModel>, y: Seq<ValueModel>, n: nat) -> bool
    decreases x, n,
{
    if n == 0 || n > x.len() || n > y.len() {
        true
    } else {
        values_eq(x, y, (n - 1) as nat) && value_eq(x[n - 1], y[n - 1])
    }
}

pub proof fn lemma_values_eq_at(x: Seq<ValueModel>, y: Seq<ValueModel>, n: nat, k: int)
    requires
        values_eq(x, y, n),
        n <= x.len(),
        n <= y.len(),
        0 <= k < n,
    ensures
        value_eq(x[k], y[k]),
    decreases n,
{
    if k < n - 1 {
        lemma_values_eq_at(x, y, (n - 1) as nat, k);
    }
}

/// Compares two values as [`value_eq`] says.
#[verifier::loop_isolation(false)]
pub fn value_equals(a: &Value, b: &Value) -> (r: bool)
    ensures
        r == value_eq(a@, b@),
    decreases a,
{
    match (a, b) {
        (Value::Null, Value::Null) => true,
        (Value::Bool(x), Value::Bool(y)) => *x == *y,
        (Value::I64(x), Value::I64(y)) => *x == *y,
        (Value::F64(x), Value::F64(y)) => match crate::float::compare_bits(*x, *y) {
            Some(crate::float::FloatOrder::Equal) => true,
            _ => false,
        },
        (Value::String(x), Value::String(y)) => crate::text::str_eq(x.as_str(), y.as_str()),
        (Value::Timestamp(x), Value::Timestamp(y)) => *x == *y,
        (Value::List(x), Value::List(y)) => {
            proof {
                lemma_values_view(x@);
                lemma_values_view(y@);
            }
            if x.len() != y.len() {
                return false;
            }
            let ghost xs = values_view(x@);
            let ghost ys = values_view(y@);
            let mut i: usize = 0;
            while i < x.len()
                invariant
                    i <= x@.len(),
                    x@.len() == y@.len(),
                    xs.len() == x@.len() && ys.len() == y@.len(),
                    forall|j: int| 0 <= j < x@.len() ==> xs[j] == x@[j]@ && ys[j] == y@[j]@,
                    values_eq(xs, ys, i as nat),
                decreases x@.len() - i,
            {
                proof {
                    assert(decreases_to!(a => x));
                    assert(decreases_to!(x => x@));
                    assert(decreases_to!(x@ => x@[i as int]));
                }
                if !value_equals(&x[i], &y[i]) {
                    proof {
                        if values_eq(xs, ys, xs.len()) {
                            lemma_values_eq_at(xs, ys, xs.len(), i as int);
                        }
                    }
                    return false;
                }
                i = i + 1;
            }
            true
        },
        _ => false,
    }
}

impl PartialEq for Value {
    fn eq(&self, other: &Value) -> (r: bool) {
        value_equals(self, other)
    }
}

impl PartialEqSpecImpl for Value {
    open spec fn obeys_eq_spec() -> bool {
        true
    }

    open spec fn eq_spec(&self, other: &Value) -> bool {
        value_eq(self@, other@)
    }
}

} // verus!
