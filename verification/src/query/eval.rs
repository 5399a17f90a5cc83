//! Expressions against a row of bindings: what `WHERE`, `ORDER BY` and
//! the metadata namespace evaluate to, as spec functions and as code that
//! computes exactly them.
//!
//! Comparisons follow the store's rules: `=` is false across kinds (but
//! an integer equals a double of the same value), `<` and friends compare
//! integers and doubles as doubles and strings byte-wise, give `NULL`
//! when either side is `NULL` (or a NaN is involved), and refuse other
//! kinds. `AND`, `OR` and `NOT` are three-valued with `NULL`.

use vstd::prelude::*;
use crate::engine::Engine;
use crate::float::{FloatOrder, compare_bits, i64_to_f64_bits, int_bits, order_spec};
use crate::graph::{Edge, EdgeModel, Node, NodeModel};
use crate::log::GraphModel;
use crate::query::ast::{BinOp, Expr, ExprModel, strs_view};
use crate::storage::Storage;
use crate::strmap::StrMap;
use crate::text::str_eq;
use crate::value::{Value, ValueModel, type_name_of};

verus! {

broadcast use vstd::utf8::group_utf8_lib;

/// Query parameters by name.
pub type Params = StrMap<Value>;

/// What a pattern variable is bound to in a row.
#[derive(Debug)]
pub enum Binding {
    Node(Node),
    Edge(Edge),
}

pub enum BindModel {
    Node(NodeModel),
    Edge(EdgeModel),
}

impl View for Binding {
    type V = BindModel;

    open spec fn view(&self) -> BindModel {
        match self {
            Binding::Node(n) => BindModel::Node(n@),
            Binding::Edge(e) => BindModel::Edge(e@),
        }
    }
}

pub open spec fn bind_id(b: BindModel) -> Seq<char> {
    match b {
        BindModel::Node(n) => n.id,
        BindModel::Edge(e) => e.id,
    }
}

impl Binding {
    pub open spec fn wf(&self) -> bool {
        match self {
            Binding::Node(n) => n.wf(),
            Binding::Edge(e) => e.wf(),
        }
    }

    pub fn id(&self) -> (r: &str)
        ensures
            r@ == bind_id(self@),
    {
        match self {
            Binding::Node(n) => n.id.as_str(),
            Binding::Edge(e) => e.id.as_str(),
        }
    }

    pub fn duplicate(&self) -> (r: Binding)
        requires
            self.wf(),
        ensures
            r@ == self@,
            r.wf(),
    {
        match self {
            Binding::Node(n) => Binding::Node(n.duplicate()),
            Binding::Edge(e) => Binding::Edge(e.duplicate()),
        }
    }
}

impl crate::strmap::Duplicate for Binding {
    fn duplicate(&self) -> (r: Binding) {
        match self {
            Binding::Node(n) => Binding::Node(
                Node { id: n.id.clone(), label: n.label.clone(), properties: n.properties.duplicate() },
            ),
            Binding::Edge(e) => Binding::Edge(
                Edge {
                    id: e.id.clone(),
                    label: e.label.clone(),
                    from: e.from.clone(),
                    to: e.to.clone(),
                    properties: e.properties.duplicate(),
                },
            ),
        }
    }
}

/// A row: variable name to binding.
pub type Bindings = StrMap<Binding>;

pub type RowModel = Map<Seq<char>, BindModel>;

#[derive(Debug)]
pub enum InterpretError {
    UnknownParam(String),
    UnknownVariable(String),
    ExpectedBool(&'static str),
    ExpectedScalar(&'static str),
    TypeMismatch(String),
    MergeMissingId,
    MissingLabel,
    DeleteVariableMismatch(String),
    DeleteEdgeUnsupported,
    NestedPath(String),
}

/// Model of an [`InterpretError`]: its kind and the name, path or message
/// it reports.
pub enum IErr {
    UnknownParam(Seq<char>),
    UnknownVariable(Seq<char>),
    ExpectedBool(Seq<char>),
    ExpectedScalar(Seq<char>),
    TypeMismatch(Seq<char>),
    MergeMissingId,
    MissingLabel,
    DeleteVariableMismatch(Seq<char>),
    DeleteEdgeUnsupported,
    NestedPath(Seq<char>),
}

impl View for InterpretError {
    type V = IErr;

    open spec fn view(&self) -> IErr {
        match self {
            InterpretError::UnknownParam(s) => IErr::UnknownParam(s@),
            InterpretError::UnknownVariable(s) => IErr::UnknownVariable(s@),
            InterpretError::ExpectedBool(s) => IErr::ExpectedBool(s@),
            InterpretError::ExpectedScalar(s) => IErr::ExpectedScalar(s@),
            InterpretError::TypeMismatch(s) => IErr::TypeMismatch(s@),
            InterpretError::MergeMissingId => IErr::MergeMissingId,
            InterpretError::MissingLabel => IErr::MissingLabel,
            InterpretError::DeleteVariableMismatch(s) => IErr::DeleteVariableMismatch(s@),
            InterpretError::DeleteEdgeUnsupported => IErr::DeleteEdgeUnsupported,
            InterpretError::NestedPath(p) => IErr::NestedPath(p@),
        }
    }
}

/// An error that only a `DELETE` gives, about its variable.
pub open spec fn is_delete_error(e: IErr) -> bool {
    e is DeleteVariableMismatch || e is DeleteEdgeUnsupported
}

/// Evaluating an expression never gives an error that only a `DELETE`
/// gives.
pub proof fn lemma_eval_not_delete_error(e: ExprModel, row: RowModel, params: Map<Seq<char>, ValueModel>, g: GraphModel)
    ensures
        eval_spec(e, row, params, g) matches Err(x) ==> !is_delete_error(x),
    decreases e,
{
    match e {
        ExprModel::Not(x) => {
            lemma_eval_not_delete_error(*x, row, params, g);
        },
        ExprModel::Binary { op, lhs, rhs } => {
            lemma_eval_not_delete_error(*lhs, row, params, g);
            lemma_eval_not_delete_error(*rhs, row, params, g);
        },
        _ => {},
    }
}

/// Evaluating a constant never gives an error that only a `DELETE`
/// gives.
pub proof fn lemma_const_not_delete_error(e: ExprModel, params: Map<Seq<char>, ValueModel>)
    ensures
        const_spec(e, params) matches Err(x) ==> !is_delete_error(x),
{
}

/// A value computed or an error, as models.
pub open spec fn val_agrees(r: Result<Value, InterpretError>, s: Result<ValueModel, IErr>) -> bool {
    match (r, s) {
        (Ok(v), Ok(m)) => v@ == m,
        (Err(e), Err(m)) => e@ == m,
        _ => false,
    }
}

// ---------- comparison ----------

/// Byte-wise lexicographic order of `x` and `y` from position `i`.
pub open spec fn bytes_order_from(x: Seq<u8>, y: Seq<u8>, i: int) -> FloatOrder
    decreases x.len() + y.len() - 2 * i,
{
    if i < 0 {
        FloatOrder::Equal
    } else if i >= x.len() && i >= y.len() {
        FloatOrder::Equal
    } else if i >= x.len() {
        FloatOrder::Less
    } else if i >= y.len() {
        FloatOrder::Greater
    } else if x[i] < y[i] {
        FloatOrder::Less
    } else if x[i] > y[i] {
        FloatOrder::Greater
    } else {
        bytes_order_from(x, y, i + 1)
    }
}

/// The order of two strings: that of their UTF-8 bytes.
pub open spec fn str_order(a: Seq<char>, b: Seq<char>) -> FloatOrder {
    bytes_order_from(vstd::utf8::encode_utf8(a), vstd::utf8::encode_utf8(b), 0)
}

pub fn str_compare(a: &str, b: &str) -> (r: FloatOrder)
    ensures
        r == str_order(a@, b@),
{
    let x = a.as_bytes();
    let y = b.as_bytes();
    let mut i: usize = 0;
    while i < x.len() && i < y.len() && x[i] == y[i]
        invariant
            i <= x@.len(),
            i <= y@.len(),
            bytes_order_from(x@, y@, 0) == bytes_order_from(x@, y@, i as int),
        decreases x@.len() - i,
    {
        i = i + 1;
    }
    if i >= x.len() && i >= y.len() {
        FloatOrder::Equal
    } else if i >= x.len() {
        FloatOrder::Less
    } else if i >= y.len() {
        FloatOrder::Greater
    } else if x[i] < y[i] {
        FloatOrder::Less
    } else {
        FloatOrder::Greater
    }
}

/// `=` between two values.
pub open spec fn values_equal_spec(l: ValueModel, r: ValueModel) -> bool {
    match (l, r) {
        (ValueModel::Null, ValueModel::Null) => true,
        (ValueModel::Bool(a), ValueModel::Bool(b)) => a == b,
        (ValueModel::I64(a), ValueModel::I64(b)) => a == b,
        (ValueModel::F64(a), ValueModel::F64(b)) => order_spec(a, b) == Some(FloatOrder::Equal),
        (ValueModel::I64(a), ValueModel::F64(b)) => order_spec(int_bits(a) as u64, b) == Some(
            FloatOrder::Equal,
        ),
        (ValueModel::F64(b), ValueModel::I64(a)) => order_spec(int_bits(a) as u64, b) == Some(
            FloatOrder::Equal,
        ),
        (ValueModel::Str(a), ValueModel::Str(b)) => a == b,
        _ => false,
    }
}

/// Value equality is symmetric.
pub proof fn lemma_values_equal_symmetric(a: ValueModel, b: ValueModel)
    ensures
        values_equal_spec(a, b) == values_equal_spec(b, a),
{
}

pub fn values_equal(l: &Value, r: &Value) -> (res: bool)
    ensures
        res == values_equal_spec(l@, r@),
{
    match (l, r) {
        (Value::Null, Value::Null) => true,
        (Value::Bool(a), Value::Bool(b)) => *a == *b,
        (Value::I64(a), Value::I64(b)) => *a == *b,
        (Value::F64(a), Value::F64(b)) => matches!(compare_bits(*a, *b), Some(FloatOrder::Equal)),
        (Value::I64(a), Value::F64(b)) => matches!(
            compare_bits(i64_to_f64_bits(*a), *b),
            Some(FloatOrder::Equal)
        ),
        (Value::F64(b), Value::I64(a)) => matches!(
            compare_bits(i64_to_f64_bits(*a), *b),
            Some(FloatOrder::Equal)
        ),
        (Value::String(a), Value::String(b)) => str_eq(a.as_str(), b.as_str()),
        _ => false,
    }
}

/// How `<`-like operators order two values: `Err(())` for kinds that do
/// not compare, `Ok(None)` for `NULL` or NaN, else the order.
pub open spec fn value_order(l: ValueModel, r: ValueModel) -> Result<Option<FloatOrder>, ()> {
    match (l, r) {
        (ValueModel::I64(a), ValueModel::I64(b)) => Ok(order_spec(int_bits(a) as u64, int_bits(b) as u64)),
        (ValueModel::F64(a), ValueModel::F64(b)) => Ok(order_spec(a, b)),
        (ValueModel::I64(a), ValueModel::F64(b)) => Ok(order_spec(int_bits(a) as u64, b)),
        (ValueModel::F64(a), ValueModel::I64(b)) => Ok(order_spec(a, int_bits(b) as u64)),
        (ValueModel::Str(a), ValueModel::Str(b)) => Ok(Some(str_order(a, b))),
        (ValueModel::Null, _) => Ok(None),
        (_, ValueModel::Null) => Ok(None),
        _ => Err(()),
    }
}

/// Whether an order satisfies a comparison operator.
pub open spec fn op_holds(op: BinOp, o: FloatOrder) -> bool {
    match op {
        BinOp::Lt => o == FloatOrder::Less,
        BinOp::LtEq => o == FloatOrder::Less || o == FloatOrder::Equal,
        BinOp::Gt => o == FloatOrder::Greater,
        BinOp::GtEq => o == FloatOrder::Greater || o == FloatOrder::Equal,
        _ => false,
    }
}

/// The message for operands `a` and `b` that do not fit: `what`, then
/// the two kinds of value.
pub open spec fn mismatch_text(what: Seq<char>, a: ValueModel, b: ValueModel) -> Seq<char> {
    what + type_name_of(a) + " and "@ + type_name_of(b)
}

/// A binary operator applied to two values.
pub open spec fn binop_spec(op: BinOp, l: ValueModel, r: ValueModel) -> Result<ValueModel, IErr> {
    match op {
        BinOp::And => match (l, r) {
            (ValueModel::Bool(a), ValueModel::Bool(b)) => Ok(ValueModel::Bool(a && b)),
            (ValueModel::Null, _) => Ok(ValueModel::Null),
            (_, ValueModel::Null) => Ok(ValueModel::Null),
            _ => Err(IErr::TypeMismatch(mismatch_text("AND requires booleans, got "@, l, r))),
        },
        BinOp::Or => match (l, r) {
            (ValueModel::Bool(a), ValueModel::Bool(b)) => Ok(ValueModel::Bool(a || b)),
            (ValueModel::Null, _) => Ok(ValueModel::Null),
            (_, ValueModel::Null) => Ok(ValueModel::Null),
            _ => Err(IErr::TypeMismatch(mismatch_text("OR requires booleans, got "@, l, r))),
        },
        BinOp::Eq => Ok(ValueModel::Bool(values_equal_spec(l, r))),
        BinOp::NotEq => Ok(ValueModel::Bool(!values_equal_spec(l, r))),
        _ => match value_order(l, r) {
            Err(()) => Err(IErr::TypeMismatch(mismatch_text("cannot compare "@, l, r))),
            Ok(None) => Ok(ValueModel::Null),
            Ok(Some(o)) => Ok(ValueModel::Bool(op_holds(op, o))),
        },
    }
}

/// Comparing two integers of magnitude below `2^53` gives exactly how the
/// integers compare: `<`, `<=`, `>`, `>=`, `=` and `<>` each hold just
/// when they hold of the numbers.
pub proof fn lemma_integer_comparisons(x: i64, y: i64)
    requires
        -0x20_0000_0000_0000 < x < 0x20_0000_0000_0000,
        -0x20_0000_0000_0000 < y < 0x20_0000_0000_0000,
    ensures
        binop_spec(BinOp::Lt, ValueModel::I64(x), ValueModel::I64(y)) == Ok::<ValueModel, IErr>(ValueModel::Bool(x < y)),
        binop_spec(BinOp::LtEq, ValueModel::I64(x), ValueModel::I64(y)) == Ok::<ValueModel, IErr>(ValueModel::Bool(x <= y)),
        binop_spec(BinOp::Gt, ValueModel::I64(x), ValueModel::I64(y)) == Ok::<ValueModel, IErr>(ValueModel::Bool(x > y)),
        binop_spec(BinOp::GtEq, ValueModel::I64(x), ValueModel::I64(y)) == Ok::<ValueModel, IErr>(ValueModel::Bool(x >= y)),
        binop_spec(BinOp::Eq, ValueModel::I64(x), ValueModel::I64(y)) == Ok::<ValueModel, IErr>(ValueModel::Bool(x == y)),
        binop_spec(BinOp::NotEq, ValueModel::I64(x), ValueModel::I64(y)) == Ok::<ValueModel, IErr>(ValueModel::Bool(x != y)),
{
    crate::float::lemma_int_bits_key(x);
    crate::float::lemma_int_bits_key(y);
    if x < y {
        crate::float::lemma_int_bits_strict(x, y);
    } else if y < x {
        crate::float::lemma_int_bits_strict(y, x);
    }
}

/// Integers of any size compare as doubles do, which never reverses
/// their order: a strict comparison that holds, holds of the numbers, and
/// a non-strict one that holds of the numbers, holds.
pub proof fn lemma_integer_comparisons_sound(x: i64, y: i64)
    ensures
        binop_spec(BinOp::Gt, ValueModel::I64(x), ValueModel::I64(y)) matches Ok(ValueModel::Bool(b)) && (b ==> x > y),
        binop_spec(BinOp::Lt, ValueModel::I64(x), ValueModel::I64(y)) matches Ok(ValueModel::Bool(b)) && (b ==> x < y),
        x >= y ==> binop_spec(BinOp::GtEq, ValueModel::I64(x), ValueModel::I64(y)) == Ok::<ValueModel, IErr>(
            ValueModel::Bool(true),
        ),
        x <= y ==> binop_spec(BinOp::LtEq, ValueModel::I64(x), ValueModel::I64(y)) == Ok::<ValueModel, IErr>(
            ValueModel::Bool(true),
        ),
{
    crate::float::lemma_int_bits_key(x);
    crate::float::lemma_int_bits_key(y);
    if x <= y {
        crate::float::lemma_int_bits_mono(x, y);
    }
    if y <= x {
        crate::float::lemma_int_bits_mono(y, x);
    }
}

/// `<>` is the negation of `=`, `=` is symmetric, and two strings or two
/// booleans are equal exactly when they are the same.
pub proof fn lemma_equality_laws(l: ValueModel, r: ValueModel)
    ensures
        binop_spec(BinOp::Eq, l, r) matches Ok(ValueModel::Bool(b)) && binop_spec(BinOp::NotEq, l, r)
            == Ok::<ValueModel, IErr>(ValueModel::Bool(!b)),
        binop_spec(BinOp::Eq, l, r) == binop_spec(BinOp::Eq, r, l),
        (l is Str && r is Str) || (l is Bool && r is Bool) ==> binop_spec(BinOp::Eq, l, r) == Ok::<ValueModel, IErr>(
            ValueModel::Bool(l == r),
        ),
{
    lemma_values_equal_symmetric(l, r);
}

/// `AND` and `OR` on truth values and `NULL`: on two booleans they are
/// conjunction and disjunction, `NULL` on either side gives `NULL`, and
/// the operands can be swapped.
pub proof fn lemma_logic_laws(l: ValueModel, r: ValueModel)
    requires
        l is Bool || l is Null,
        r is Bool || r is Null,
    ensures
        binop_spec(BinOp::And, l, r) == binop_spec(BinOp::And, r, l),
        binop_spec(BinOp::Or, l, r) == binop_spec(BinOp::Or, r, l),
        l is Null || r is Null ==> binop_spec(BinOp::And, l, r) == Ok::<ValueModel, IErr>(ValueModel::Null)
            && binop_spec(BinOp::Or, l, r) == Ok::<ValueModel, IErr>(ValueModel::Null),
        l is Bool && r is Bool ==> binop_spec(BinOp::And, l, r) == Ok::<ValueModel, IErr>(
            ValueModel::Bool(l->Bool_0 && r->Bool_0),
        ) && binop_spec(BinOp::Or, l, r) == Ok::<ValueModel, IErr>(ValueModel::Bool(l->Bool_0 || r->Bool_0)),
{
}

fn value_order_exec(l: &Value, r: &Value) -> (res: Result<Option<FloatOrder>, ()>)
    ensures
        res == value_order(l@, r@),
{
    match (l, r) {
        (Value::I64(a), Value::I64(b)) => Ok(compare_bits(i64_to_f64_bits(*a), i64_to_f64_bits(*b))),
        (Value::F64(a), Value::F64(b)) => Ok(compare_bits(*a, *b)),
        (Value::I64(a), Value::F64(b)) => Ok(compare_bits(i64_to_f64_bits(*a), *b)),
        (Value::F64(a), Value::I64(b)) => Ok(compare_bits(*a, i64_to_f64_bits(*b))),
        (Value::String(a), Value::String(b)) => Ok(Some(str_compare(a.as_str(), b.as_str()))),
        (Value::Null, _) => Ok(None),
        (_, Value::Null) => Ok(None),
        _ => Err(()),
    }
}

/// `"<op> requires booleans, got <a> and <b>"`-style message.
fn mismatch(what: &str, a: &Value, b: &Value) -> (r: InterpretError)
    ensures
        r@ == IErr::TypeMismatch(mismatch_text(what@, a@, b@)),
{
    let mut s = what.to_owned();
    s.push_str(a.kind_name());
    s.push_str(" and ");
    s.push_str(b.kind_name());
    InterpretError::TypeMismatch(s)
}

pub fn apply_binop(op: BinOp, l: Value, r: Value) -> (res: Result<Value, InterpretError>)
    ensures
        val_agrees(res, binop_spec(op, l@, r@)),
{
    match op {
        BinOp::And => match (&l, &r) {
            (Value::Bool(a), Value::Bool(b)) => Ok(Value::Bool(*a && *b)),
            (Value::Null, _) => Ok(Value::Null),
            (_, Value::Null) => Ok(Value::Null),
            _ => Err(mismatch("AND requires booleans, got ", &l, &r)),
        },
        BinOp::Or => match (&l, &r) {
            (Value::Bool(a), Value::Bool(b)) => Ok(Value::Bool(*a || *b)),
            (Value::Null, _) => Ok(Value::Null),
            (_, Value::Null) => Ok(Value::Null),
            _ => Err(mismatch("OR requires booleans, got ", &l, &r)),
        },
        BinOp::Eq => Ok(Value::Bool(values_equal(&l, &r))),
        BinOp::NotEq => Ok(Value::Bool(!values_equal(&l, &r))),
        _ => match value_order_exec(&l, &r) {
            Err(()) => Err(mismatch("cannot compare ", &l, &r)),
            Ok(None) => Ok(Value::Null),
            Ok(Some(o)) => {
                let holds = match op {
                    BinOp::Lt => matches!(o, FloatOrder::Less),
                    BinOp::LtEq => matches!(o, FloatOrder::Less | FloatOrder::Equal),
                    BinOp::Gt => matches!(o, FloatOrder::Greater),
                    BinOp::GtEq => matches!(o, FloatOrder::Greater | FloatOrder::Equal),
                    _ => false,
                };
                Ok(Value::Bool(holds))
            },
        },
    }
}

// ---------- property paths and metadata ----------

pub open spec fn motif_word() -> Seq<char> {
    seq!['_', 'm', 'o', 't', 'i', 'f']
}

pub open spec fn foreshadow_word() -> Seq<char> {
    seq!['f', 'o', 'r', 'e', 's', 'h', 'a', 'd', 'o', 'w']
}

pub open spec fn schema_word() -> Seq<char> {
    seq!['s', 'c', 'h', 'e', 'm', 'a']
}

pub open spec fn version_word() -> Seq<char> {
    seq!['v', 'e', 'r', 's', 'i', 'o', 'n']
}

/// The foreshadow flag the engine reports for `id`.
pub open spec fn foreshadow_of(g: GraphModel, id: Seq<char>) -> bool {
    if g.nodes.contains_key(id) {
        g.nodes[id].1
    } else if g.edges.contains_key(id) {
        g.edges[id].1
    } else {
        false
    }
}

/// `_motif.<rest>` of a node: the live foreshadow flag, the current
/// schema version, or `NULL` for anything else.
pub open spec fn metadata_spec(n: NodeModel, rest: Seq<Seq<char>>, g: GraphModel) -> ValueModel {
    if rest == seq![foreshadow_word()] {
        ValueModel::Bool(foreshadow_of(g, n.id))
    } else if rest == seq![schema_word(), version_word()] {
        match g.schema {
            Some(s) => ValueModel::I64(s.version as i64),
            None => ValueModel::Null,
        }
    } else {
        ValueModel::Null
    }
}

/// A property of a map, or `NULL`.
pub open spec fn prop_or_null(m: Map<Seq<char>, ValueModel>, k: Seq<char>) -> ValueModel {
    if m.contains_key(k) {
        m[k]
    } else {
        ValueModel::Null
    }
}

pub open spec fn node_path_spec(n: NodeModel, path: Seq<Seq<char>>, g: GraphModel) -> Result<ValueModel, IErr> {
    if path.len() == 1 {
        Ok(prop_or_null(n.properties, path[0]))
    } else if path.len() >= 1 && path[0] == motif_word() {
        Ok(metadata_spec(n, path.drop_first(), g))
    } else {
        Err(IErr::NestedPath(dotted(path)))
    }
}

pub open spec fn edge_path_spec(e: EdgeModel, path: Seq<Seq<char>>) -> Result<ValueModel, IErr> {
    if path.len() == 1 {
        Ok(prop_or_null(e.properties, path[0]))
    } else {
        Err(IErr::NestedPath(dotted(path)))
    }
}

/// The segments written one after another with a `.` between each two:
/// `a.b.c` for `a`, `b`, `c`; empty for no segment.
pub open spec fn dotted(segs: Seq<Seq<char>>) -> Seq<char>
    decreases segs.len(),
{
    if segs.len() == 0 {
        Seq::empty()
    } else if segs.len() == 1 {
        segs[0]
    } else {
        dotted(segs.drop_last()) + seq!['.'] + segs.last()
    }
}

/// `a.b.c` from path segments.
fn join_path(path: &Vec<String>) -> (r: String)
    ensures
        r@ == dotted(strs_view(path@)),
{
    let ghost segs = strs_view(path@);
    let mut s = String::new();
    let mut i: usize = 0;
    while i < path.len()
        invariant
            i <= path@.len(),
            segs == strs_view(path@),
            s@ == dotted(segs.take(i as int)),
        decreases path@.len() - i,
    {
        proof {
            assert(segs.take(i + 1).drop_last() =~= segs.take(i as int));
            assert(segs.take(i + 1).last() == path@[i as int]@);
            assert(segs.take(0) =~= Seq::<Seq<char>>::empty());
        }
        if i > 0 {
            s.push('.');
        }
        s.push_str(path[i].as_str());
        i = i + 1;
    }
    proof {
        assert(segs.take(path@.len() as int) =~= segs);
    }
    s
}

fn lookup_prop(m: &crate::graph::Properties, k: &str) -> (r: Value)
    requires
        m.wf(),
    ensures
        r@ == prop_or_null(m@, k@),
{
    match m.get(k) {
        Some(v) => v.deep_copy(),
        None => Value::Null,
    }
}

fn metadata<S: Storage>(n: &Node, rest: &[String], engine: &Engine<S>) -> (r: Value)
    requires
        engine.inv(),
    ensures
        r@ == metadata_spec(n@, rest@.map_values(|x: String| x@), engine.graph()),
{
    let ghost rv = rest@.map_values(|x: String| x@);
    proof {
        reveal_strlit("foreshadow");
        reveal_strlit("schema");
        reveal_strlit("version");
        assert("foreshadow"@ =~= foreshadow_word());
        assert("schema"@ =~= schema_word());
        assert("version"@ =~= version_word());
    }
    if rest.len() == 1 && str_eq(rest[0].as_str(), "foreshadow") {
        proof {
            assert(rv =~= seq![foreshadow_word()]);
        }
        return Value::Bool(engine.is_foreshadow(n.id.as_str()));
    }
    if rest.len() == 2 && str_eq(rest[0].as_str(), "schema") && str_eq(rest[1].as_str(), "version") {
        proof {
            assert(rv =~= seq![schema_word(), version_word()]);
        }
        return match engine.current_schema() {
            Some(s) => Value::I64(s.version as i64),
            None => Value::Null,
        };
    }
    proof {
        if rv == seq![foreshadow_word()] {
            assert(rv.len() == 1);
            assert(rv[0] == foreshadow_word());
            assert(rv[0] == rest@[0]@);
        }
        if rv == seq![schema_word(), version_word()] {
            assert(rv.len() == 2);
            assert(rv[0] == rest@[0]@ && rv[1] == rest@[1]@);
            assert(rv[0] == schema_word() && rv[1] == version_word());
        }
    }
    Value::Null
}

pub fn node_path<S: Storage>(n: &Node, path: &Vec<String>, engine: &Engine<S>) -> (r: Result<Value, InterpretError>)
    requires
        engine.inv(),
        n.wf(),
    ensures
        val_agrees(r, node_path_spec(n@, strs_view(path@), engine.graph())),
{
    let ghost pv = strs_view(path@);
    proof {
        reveal_strlit("_motif");
        assert("_motif"@ =~= motif_word());
    }
    if path.len() == 1 {
        return Ok(lookup_prop(&n.properties, path[0].as_str()));
    }
    if path.len() >= 1 && str_eq(path[0].as_str(), "_motif") {
        let rest = vstd::slice::slice_subrange(path.as_slice(), 1, path.len());
        proof {
            assert(rest@.map_values(|x: String| x@) =~= pv.drop_first());
        }
        return Ok(metadata(n, rest, engine));
    }
    Err(InterpretError::NestedPath(join_path(path)))
}

pub fn edge_path(e: &Edge, path: &Vec<String>) -> (r: Result<Value, InterpretError>)
    requires
        e.wf(),
    ensures
        val_agrees(r, edge_path_spec(e@, strs_view(path@))),
{
    if path.len() == 1 {
        return Ok(lookup_prop(&e.properties, path[0].as_str()));
    }
    Err(InterpretError::NestedPath(join_path(path)))
}

// ---------- expressions ----------

/// The row's binding of `v`.
pub open spec fn bound(row: RowModel, v: Seq<char>) -> Option<BindModel> {
    if row.contains_key(v) {
        Some(row[v])
    } else {
        None
    }
}

/// What an expression evaluates to against a row.
pub open spec fn eval_spec(
    e: ExprModel,
    row: RowModel,
    params: Map<Seq<char>, ValueModel>,
    g: GraphModel,
) -> Result<ValueModel, IErr>
    decreases e,
{
    match e {
        ExprModel::Literal(v) => Ok(v),
        ExprModel::Param(n) => if params.contains_key(n) {
            Ok(params[n])
        } else {
            Err(IErr::UnknownParam(n))
        },
        ExprModel::IdOf(v) => match bound(row, v) {
            Some(b) => Ok(ValueModel::Str(bind_id(b))),
            None => Err(IErr::UnknownVariable(v)),
        },
        ExprModel::Property { variable, path } => match bound(row, variable) {
            Some(BindModel::Node(n)) => node_path_spec(n, path, g),
            Some(BindModel::Edge(x)) => edge_path_spec(x, path),
            None => Err(IErr::UnknownVariable(variable)),
        },
        ExprModel::Not(x) => match eval_spec(*x, row, params, g) {
            Ok(ValueModel::Bool(b)) => Ok(ValueModel::Bool(!b)),
            Ok(ValueModel::Null) => Ok(ValueModel::Null),
            Ok(other) => Err(IErr::ExpectedBool(type_name_of(other))),
            Err(err) => Err(err),
        },
        ExprModel::Binary { op, lhs, rhs } => match eval_spec(*lhs, row, params, g) {
            Ok(l) => match eval_spec(*rhs, row, params, g) {
                Ok(r) => binop_spec(op, l, r),
                Err(err) => Err(err),
            },
            Err(err) => Err(err),
        },
    }
}

/// Every binding of the row is well formed.
pub open spec fn row_wf(row: Bindings) -> bool {
    &&& row.wf()
    &&& forall|i: int| 0 <= i < row.pairs().len() ==> (#[trigger] row.pairs()[i]).1.wf()
}

/// Looks a variable up in a row.
pub fn get_binding<'a>(row: &'a Bindings, v: &str) -> (r: Option<&'a Binding>)
    requires
        row_wf(*row),
    ensures
        r matches Some(b) ==> bound(row@, v@) == Some(b@) && b.wf(),
        r is None ==> bound(row@, v@) is None,
{
    let r = row.get(v);
    proof {
        row.lemma_view();
    }
    r
}

pub fn eval_expr<S: Storage>(
    expr: &Expr,
    row: &Bindings,
    params: &Params,
    engine: &Engine<S>,
) -> (r: Result<Value, InterpretError>)
    requires
        row_wf(*row),
        params.wf(),
        engine.inv(),
    ensures
        val_agrees(r, eval_spec(expr@, row@, params@, engine.graph())),
        r matches Err(e) ==> !is_delete_error(e@),
    decreases expr,
{
    proof {
        lemma_eval_not_delete_error(expr@, row@, params@, engine.graph());
    }
    match expr {
        Expr::Literal(v) => Ok(v.deep_copy()),
        Expr::Param(name) => match params.get(name.as_str()) {
            Some(v) => Ok(v.deep_copy()),
            None => Err(InterpretError::UnknownParam(name.clone())),
        },
        Expr::IdOf(v) => match get_binding(row, v.as_str()) {
            Some(b) => Ok(Value::String(b.id().to_owned())),
            None => Err(InterpretError::UnknownVariable(v.clone())),
        },
        Expr::Property { variable, path } => match get_binding(row, variable.as_str()) {
            Some(Binding::Node(n)) => node_path(n, path, engine),
            Some(Binding::Edge(e)) => edge_path(e, path),
            None => Err(InterpretError::UnknownVariable(variable.clone())),
        },
        Expr::Not(inner) => {
            let v = eval_expr(inner, row, params, engine)?;
            match v {
                Value::Bool(b) => Ok(Value::Bool(!b)),
                Value::Null => Ok(Value::Null),
                other => Err(InterpretError::ExpectedBool(other.kind_name())),
            }
        },
        Expr::Binary { op, lhs, rhs } => {
            let l = eval_expr(lhs, row, params, engine)?;
            let r = eval_expr(rhs, row, params, engine)?;
            apply_binop(*op, l, r)
        },
    }
}

/// A value that depends on no row: a literal or a parameter.
pub open spec fn const_spec(e: ExprModel, params: Map<Seq<char>, ValueModel>) -> Result<ValueModel, IErr> {
    match e {
        ExprModel::Literal(v) => Ok(v),
        ExprModel::Param(n) => if params.contains_key(n) {
            Ok(params[n])
        } else {
            Err(IErr::UnknownParam(n))
        },
        _ => Err(IErr::ExpectedScalar("non-constant in constant context"@)),
    }
}

pub fn eval_const(expr: &Expr, params: &Params) -> (r: Result<Value, InterpretError>)
    requires
        params.wf(),
    ensures
        val_agrees(r, const_spec(expr@, params@)),
{
    match expr {
        Expr::Literal(v) => Ok(v.deep_copy()),
        Expr::Param(name) => match params.get(name.as_str()) {
            Some(v) => Ok(v.deep_copy()),
            None => Err(InterpretError::UnknownParam(name.clone())),
        },
        _ => Err(InterpretError::ExpectedScalar("non-constant in constant context")),
    }
}

} // verus!
