//! Direct interpreter: walks a statement and calls into the [`Engine`].
//!
//! `CREATE` and `MERGE` write one node built from the pattern's evaluated
//! property map (its `id` entry becomes the node's id). `MATCH` walks the
//! patterns over the engine's nodes and edges (using the id index when
//! `WHERE id(n) = ..` stands at the top of a conjunction), joins patterns
//! on shared variables, filters by `WHERE`, then sorts, limits, projects
//! or aggregates; `DELETE` removes the matched nodes, with their edges
//! under `DETACH`.

use vstd::prelude::*;
use crate::engine::{Engine, EngineError};
use crate::graph::{EdgeModel, Node, NodeModel};
use crate::log::GraphModel;
use crate::query::ast::{BinOp, 
    CollectTarget, EdgePattern, Expr, ExprModel, ItemModel, NodePattern, OrderBy, Pattern,
    PathModel, PatternModel, ReturnItem, SortDirection, Statement, strs_view,
};
use crate::query::eval::{
    BindModel, Binding, Bindings, IErr, InterpretError, Params, RowModel, bind_id, bound, const_spec,
    edge_path, edge_path_spec, eval_const, eval_expr, eval_spec, get_binding, node_path,
    node_path_spec, row_wf, val_agrees, values_equal, values_equal_spec, str_order, bytes_order_from,
};
use crate::float::{FloatOrder, compare_bits, i64_to_f64_bits, int_bits, order_spec};
use crate::query::result::{CellModel, QueryResult, ResultCell, ResultModel, row_view};
use crate::storage::Storage;
use crate::strmap::StrMap;
use crate::text::str_eq;
use crate::value::{Value, ValueModel};

verus! {

// ---------- column names ----------

/// `seg1.seg2...` after a prefix: each segment preceded by a dot.
pub open spec fn dotted(path: Seq<Seq<char>>) -> Seq<char>
    decreases path.len(),
{
    if path.len() == 0 {
        Seq::empty()
    } else {
        dotted(path.drop_last()) + seq!['.'] + path.last()
    }
}

/// The column name of a return item: `n`, `n.a.b`, `count(n)`,
/// `count(*)`, `collect(n)`, `collect(n.a)`.
pub open spec fn column_name(item: ItemModel) -> Seq<char> {
    match item {
        ItemModel::Variable(v) => v,
        ItemModel::Property { variable, path } => variable + dotted(path),
        ItemModel::Count { target } => match target {
            Some(v) => "count("@ + v + ")"@,
            None => "count(*)"@,
        },
        ItemModel::CollectVariable(v) => "collect("@ + v + ")"@,
        ItemModel::CollectProperty { variable, path } => "collect("@ + variable + dotted(path) + ")"@,
    }
}

fn push_dotted(s: &mut String, path: &Vec<String>)
    ensures
        final(s)@ == old(s)@ + dotted(strs_view(path@)),
{
    let ghost start = s@;
    let mut i: usize = 0;
    proof {
        assert(strs_view(path@).subrange(0, 0) =~= Seq::<Seq<char>>::empty());
    }
    while i < path.len()
        invariant
            i <= path@.len(),
            s@ == start + dotted(strs_view(path@).subrange(0, i as int)),
        decreases path@.len() - i,
    {
        s.push('.');
        s.push_str(path[i].as_str());
        proof {
            let sub = strs_view(path@).subrange(0, i + 1 as int);
            assert(sub.drop_last() =~= strs_view(path@).subrange(0, i as int));
            assert(sub.last() == path@[i as int]@);
        }
        i = i + 1;
    }
    proof {
        assert(strs_view(path@).subrange(0, path@.len() as int) =~= strs_view(path@));
    }
}

pub fn item_column_name(item: &ReturnItem) -> (r: String)
    ensures
        r@ == column_name(item@),
{
    proof {
        reveal_strlit("count(");
        reveal_strlit("count(*)");
        reveal_strlit("collect(");
        reveal_strlit(")");
    }
    match item {
        ReturnItem::Variable(v) => v.clone(),
        ReturnItem::Property { variable, path } => {
            let mut s = variable.clone();
            push_dotted(&mut s, path);
            s
        },
        ReturnItem::Count { target } => match target {
            Some(v) => {
                let mut s = "count(".to_owned();
                s.push_str(v.as_str());
                s.push_str(")");
                s
            },
            None => "count(*)".to_owned(),
        },
        ReturnItem::Collect(CollectTarget::Variable(v)) => {
            let mut s = "collect(".to_owned();
            s.push_str(v.as_str());
            s.push_str(")");
            s
        },
        ReturnItem::Collect(CollectTarget::Property { variable, path }) => {
            let mut s = "collect(".to_owned();
            s.push_str(variable.as_str());
            push_dotted(&mut s, path);
            s.push_str(")");
            s
        },
    }
}

// ---------- projection ----------

/// The cell a non-aggregate return item gives for a row.
pub open spec fn project_spec(item: ItemModel, row: RowModel, g: GraphModel) -> Result<CellModel, IErr> {
    match item {
        ItemModel::Variable(v) => match bound(row, v) {
            Some(BindModel::Node(n)) => Ok(CellModel::Node(n)),
            Some(BindModel::Edge(e)) => Ok(CellModel::Edge(e)),
            None => Err(IErr::UnknownVariable(v)),
        },
        ItemModel::Property { variable, path } => match bound(row, variable) {
            Some(BindModel::Node(n)) => match node_path_spec(n, path, g) {
                Ok(v) => Ok(CellModel::Value(v)),
                Err(e) => Err(e),
            },
            Some(BindModel::Edge(e)) => match edge_path_spec(e, path) {
                Ok(v) => Ok(CellModel::Value(v)),
                Err(x) => Err(x),
            },
            None => Err(IErr::UnknownVariable(variable)),
        },
        _ => Err(IErr::TypeMismatch(mixing_text())),
    }
}

pub open spec fn cell_agrees(r: Result<ResultCell, InterpretError>, s: Result<CellModel, IErr>) -> bool {
    match (r, s) {
        (Ok(c), Ok(m)) => c@ == m,
        (Err(e), Err(m)) => e@ == m,
        _ => false,
    }
}

fn project<S: Storage>(item: &ReturnItem, row: &Bindings, engine: &Engine<S>) -> (r: Result<ResultCell, InterpretError>)
    requires
        row_wf(*row),
        engine.inv(),
    ensures
        cell_agrees(r, project_spec(item@, row@, engine.graph())),
{
    match item {
        ReturnItem::Variable(v) => match get_binding(row, v.as_str()) {
            Some(Binding::Node(n)) => Ok(ResultCell::Node(n.duplicate())),
            Some(Binding::Edge(e)) => Ok(ResultCell::Edge(e.duplicate())),
            None => Err(InterpretError::UnknownVariable(v.clone())),
        },
        ReturnItem::Property { variable, path } => match get_binding(row, variable.as_str()) {
            Some(Binding::Node(n)) => {
                let v = node_path(n, path, engine)?;
                Ok(ResultCell::Value(v))
            },
            Some(Binding::Edge(e)) => {
                let v = edge_path(e, path)?;
                Ok(ResultCell::Value(v))
            },
            None => Err(InterpretError::UnknownVariable(variable.clone())),
        },
        _ => Err(
            InterpretError::TypeMismatch(
                "mixing aggregate and non-aggregate columns is not supported".to_owned(),
            ),
        ),
    }
}

/// What `collect` gathers from a row: a variable's id as a string, or a
/// property.
pub open spec fn collect_spec(item: ItemModel, row: RowModel, g: GraphModel) -> Result<ValueModel, IErr> {
    match item {
        ItemModel::CollectVariable(v) => match bound(row, v) {
            Some(b) => Ok(ValueModel::Str(crate::query::eval::bind_id(b))),
            None => Err(IErr::UnknownVariable(v)),
        },
        ItemModel::CollectProperty { variable, path } => match bound(row, variable) {
            Some(BindModel::Node(n)) => node_path_spec(n, path, g),
            Some(BindModel::Edge(e)) => edge_path_spec(e, path),
            None => Err(IErr::UnknownVariable(variable)),
        },
        _ => Err(IErr::TypeMismatch(mixing_text())),
    }
}

fn collect_one<S: Storage>(target: &CollectTarget, row: &Bindings, engine: &Engine<S>) -> (r: Result<Value, InterpretError>)
    requires
        row_wf(*row),
        engine.inv(),
    ensures
        val_agrees(r, collect_spec(ReturnItem::Collect(*target)@, row@, engine.graph())),
{
    match target {
        CollectTarget::Variable(v) => match get_binding(row, v.as_str()) {
            Some(b) => Ok(Value::String(b.id().to_owned())),
            None => Err(InterpretError::UnknownVariable(v.clone())),
        },
        CollectTarget::Property { variable, path } => match get_binding(row, variable.as_str()) {
            Some(Binding::Node(n)) => node_path(n, path, engine),
            Some(Binding::Edge(e)) => edge_path(e, path),
            None => Err(InterpretError::UnknownVariable(variable.clone())),
        },
    }
}

// ---------- property maps and ids ----------

/// Every entry of a pattern's property map evaluates.
pub open spec fn map_evaluates(pm: Map<Seq<char>, ExprModel>, params: Map<Seq<char>, ValueModel>) -> bool {
    forall|k: Seq<char>| #[trigger] pm.contains_key(k) ==> const_spec(pm[k], params) is Ok
}

/// The values of a pattern's property map.
pub open spec fn map_values_of(pm: Map<Seq<char>, ExprModel>, params: Map<Seq<char>, ValueModel>) -> Map<
    Seq<char>,
    ValueModel,
> {
    Map::new(|k: Seq<char>| pm.contains_key(k), |k: Seq<char>| const_spec(pm[k], params)->Ok_0)
}

fn eval_property_map(props: &StrMap<Expr>, params: &Params) -> (r: Result<StrMap<Value>, InterpretError>)
    requires
        props.wf(),
        params.wf(),
    ensures
        r matches Ok(m) ==> m.wf() && map_evaluates(props@, params@) && m@ == map_values_of(
            props@,
            params@,
        ),
        r matches Err(e) ==> exists|k: Seq<char>|
            props@.contains_key(k) && const_spec(props@[k], params@) == Err::<ValueModel, IErr>(e@),
        r matches Err(e) ==> !crate::query::eval::is_delete_error(e@),
        map_evaluates(props@, params@) ==> r is Ok,
{
    proof {
        props.lemma_view();
    }
    let mut out: StrMap<Value> = StrMap::new();
    let n = props.len();
    let mut i: usize = 0;
    while i < n
        invariant
            props.wf(),
            params.wf(),
            n == props.pairs().len(),
            i <= n,
            out.wf(),
            forall|j: int|
                #![trigger props.pairs()[j]]
                0 <= j < props.pairs().len() ==> props@.contains_key(props.pairs()[j].0@)
                    && props@[props.pairs()[j].0@] == props.pairs()[j].1@,
            forall|k: Seq<char>| #[trigger]
                props@.contains_key(k) ==> exists|j: int| 0 <= j < props.pairs().len() && props.pairs()[j].0@ == k,
            forall|k: Seq<char>| #[trigger]
                out@.contains_key(k) <==> exists|j: int| 0 <= j < i && props.pairs()[j].0@ == k,
            forall|k: Seq<char>| #[trigger]
                out@.contains_key(k) ==> props@.contains_key(k) && const_spec(props@[k], params@) == Ok::<ValueModel, IErr>(out@[k]),
        decreases n - i,
    {
        let (k, e) = props.entry(i);
        proof {
            assert(props@.contains_key(props.pairs()[i as int].0@));
        }
        let v = match eval_const(e, params) {
            Ok(v) => v,
            Err(err) => {
                return Err(err);
            },
        };
        let ghost old_out = out@;
        out.insert(k.clone(), v);
        proof {
            assert forall|kk: Seq<char>| #[trigger] out@.contains_key(kk) <==> exists|j: int|
                0 <= j < i + 1 && props.pairs()[j].0@ == kk by {
                if out@.contains_key(kk) && kk != k@ {
                    assert(old_out.contains_key(kk));
                }
                if kk == k@ {
                    assert(props.pairs()[i as int].0@ == kk);
                }
                if exists|j: int| 0 <= j < i + 1 && props.pairs()[j].0@ == kk {
                    if kk != k@ {
                        let j = choose|j: int| 0 <= j < i + 1 && props.pairs()[j].0@ == kk;
                        assert(j < i);
                        assert(old_out.contains_key(kk));
                    }
                }
            }
        }
        i = i + 1;
    }
    proof {
        assert forall|k: Seq<char>| #[trigger] props@.contains_key(k) implies out@.contains_key(k) by {
            let j = choose|j: int| 0 <= j < props.pairs().len() && props.pairs()[j].0@ == k;
        }
        assert(out@ =~= map_values_of(props@, params@));
    }
    Ok(out)
}

pub open spec fn id_key() -> Seq<char> {
    seq!['i', 'd']
}

/// The node `CREATE` / `MERGE` writes for a pattern whose property map
/// evaluated to `vals`: the `id` entry is its id, the rest its
/// properties.
pub open spec fn node_of(label: Seq<char>, vals: Map<Seq<char>, ValueModel>) -> NodeModel {
    NodeModel {
        id: vals[id_key()]->Str_0,
        label,
        properties: vals.remove(id_key()),
    }
}

/// The message for return items that mix aggregates with other items.
pub open spec fn mixing_text() -> Seq<char> {
    "mixing aggregate and non-aggregate columns is not supported"@
}

/// The message is that of some engine error.
pub open spec fn engine_message(msg: Seq<char>) -> bool {
    exists|ee: EngineError| msg == #[trigger] crate::messages::engine_error_text(ee)
}

/// Why a pattern cannot give a node, if it cannot: no label, a property
/// that does not evaluate, no `id`, or an `id` that is not a string.
pub open spec fn pattern_node_error(pm: PatternModel, params: Map<Seq<char>, ValueModel>) -> Option<IErr> {
    if pm.label is None {
        Some(IErr::MissingLabel)
    } else if !map_evaluates(pm.properties, params) {
        Some(IErr::UnknownParam(Seq::empty()))
    } else {
        let vals = map_values_of(pm.properties, params);
        if !vals.contains_key(id_key()) {
            Some(IErr::MergeMissingId)
        } else if !(vals[id_key()] is Str) {
            Some(IErr::TypeMismatch("`id` property must be a string"@))
        } else {
            None
        }
    }
}

/// Builds the node of a `CREATE` / `MERGE` pattern.
fn node_from_pattern(pattern: &NodePattern, params: &Params) -> (r: Result<Node, InterpretError>)
    requires
        pattern.properties.wf(),
        params.wf(),
    ensures
        pattern_node_error(pattern@, params@) is None <==> r is Ok,
        r matches Ok(n) ==> n.wf() && n@ == node_of(
            pattern@.label->Some_0,
            map_values_of(pattern@.properties, params@),
        ),
        r matches Err(e) ==> match pattern_node_error(pattern@, params@) {
            Some(IErr::UnknownParam(_)) => exists|k: Seq<char>|
                pattern@.properties.contains_key(k) && const_spec(pattern@.properties[k], params@)
                    == Err::<ValueModel, IErr>(e@),
            Some(x) => e@ == x,
            None => false,
        },
{
    proof {
        reveal_strlit("id");
        assert("id"@ =~= id_key());
    }
    let label = match &pattern.label {
        Some(l) => l.clone(),
        None => {
            return Err(InterpretError::MissingLabel);
        },
    };
    let mut vals = eval_property_map(&pattern.properties, params)?;
    let idv = vals.remove("id");
    match idv {
        Some(Value::String(id)) => Ok(Node { id, label, properties: vals }),
        Some(_) => Err(InterpretError::TypeMismatch("`id` property must be a string".to_owned())),
        None => Err(InterpretError::MergeMissingId),
    }
}

/// A message for an engine error: the engine error's own message.
fn engine_error_text(e: &EngineError) -> (r: String)
    ensures
        r@ == crate::messages::engine_error_text(*e),
{
    e.message()
}

// ---------- writes ----------

fn exec_create<S: Storage>(engine: &mut Engine<S>, pattern: &NodePattern, params: &Params) -> (r: Result<
    QueryResult,
    InterpretError,
>)
    requires
        old(engine).inv(),
        pattern.properties.wf(),
        params.wf(),
    ensures
        final(engine).inv(),
        final(engine).actor_ids() == old(engine).actor_ids(),
        final(engine).settings() == old(engine).settings(),
        create_outcome(*old(engine), *final(engine), pattern@, params@, result_model(r)),
{
    let node = node_from_pattern(pattern, params)?;
    match engine.insert_node(node) {
        Ok(()) => Ok(QueryResult::empty()),
        Err(e) => Err(InterpretError::TypeMismatch(engine_error_text(&e))),
    }
}

fn exec_merge<S: Storage>(engine: &mut Engine<S>, pattern: &NodePattern, params: &Params) -> (r: Result<
    QueryResult,
    InterpretError,
>)
    requires
        old(engine).inv(),
        pattern.properties.wf(),
        params.wf(),
    ensures
        final(engine).inv(),
        final(engine).actor_ids() == old(engine).actor_ids(),
        final(engine).settings() == old(engine).settings(),
        merge_outcome(*old(engine), *final(engine), pattern@, params@, result_model(r)),
{
    let node = node_from_pattern(pattern, params)?;
    if engine.has_node(node.id.as_str()) {
        return Ok(QueryResult::empty());
    }
    match engine.insert_node(node) {
        Ok(()) => Ok(QueryResult::empty()),
        Err(e) => Err(InterpretError::TypeMismatch(engine_error_text(&e))),
    }
}

// ---------- matching ----------

/// Every binding of the row is a live node or edge of `g`, as `g` holds
/// it.
pub open spec fn row_in_graph(row: RowModel, g: GraphModel) -> bool {
    forall|k: Seq<char>| #[trigger]
        row.contains_key(k) ==> match row[k] {
            BindModel::Node(n) => g.nodes.contains_key(n.id) && g.nodes[n.id].0 == n,
            BindModel::Edge(e) => g.edges.contains_key(e.id) && g.edges[e.id].0 == e,
        }
}

/// Rows that are well formed and drawn from `g`.
pub open spec fn rows_ok(rows: Seq<Bindings>, g: GraphModel) -> bool {
    forall|i: int| 0 <= i < rows.len() ==> row_wf(#[trigger] rows[i]) && row_in_graph(rows[i]@, g)
}

/// The label constraint of a pattern holds of a label.
pub open spec fn label_ok(pattern_label: Option<Seq<char>>, label: Seq<char>) -> bool {
    match pattern_label {
        Some(l) => l == label,
        None => true,
    }
}

/// `row` binds the pattern's variable to a node of the pattern's label.
pub open spec fn binds_node(row: RowModel, p: PatternModel) -> bool {
    &&& row.contains_key(p.variable)
    &&& row[p.variable] is Node
    &&& label_ok(p.label, row[p.variable]->Node_0.label)
}

/// The variable a path's hop `h` starts from: the start node's for the
/// first hop, the previous hop's target's after that.
pub open spec fn hop_source(start: PatternModel, chain: Seq<(PatternModel, PatternModel)>, h: int) -> Seq<char> {
    if h == 0 {
        start.variable
    } else {
        chain[h - 1].1.variable
    }
}

/// Hop `(from)-[ep]->(tp)` holds in `row`: the edge variable is bound to
/// an edge of the pattern's label carrying the `inline` values, running
/// from the node bound to `from` to the node bound to the target
/// variable, which meets the target pattern.
pub open spec fn hop_ok(
    row: RowModel,
    from: Seq<char>,
    ep: PatternModel,
    tp: PatternModel,
    inline: Map<Seq<char>, ValueModel>,
) -> bool {
    &&& row.contains_key(ep.variable)
    &&& row[ep.variable] is Edge
    &&& label_ok(ep.label, row[ep.variable]->Edge_0.label)
    &&& inline_ok(inline, row[ep.variable]->Edge_0.properties)
    &&& binds_node(row, tp)
    &&& row.contains_key(from)
    &&& row[from] is Node
    &&& row[ep.variable]->Edge_0.from == row[from]->Node_0.id
    &&& row[ep.variable]->Edge_0.to == row[tp.variable]->Node_0.id
}

/// The first `n` hops of a path hold in `row`.
pub open spec fn path_prefix_ok(
    row: RowModel,
    start: PatternModel,
    chain: Seq<(PatternModel, PatternModel)>,
    n: int,
    params: Map<Seq<char>, ValueModel>,
) -> bool {
    &&& binds_node(row, start)
    &&& forall|h: int|
        0 <= h < n ==> #[trigger] hop_ok(
            row,
            hop_source(start, chain, h),
            chain[h].0,
            chain[h].1,
            map_values_of(chain[h].0.properties, params),
        )
}

/// A pattern holds in `row`.
pub open spec fn pattern_ok(row: RowModel, p: PathModel, params: Map<Seq<char>, ValueModel>) -> bool {
    match p {
        PathModel::Node(n) => binds_node(row, n),
        PathModel::Path { start, chain } => path_prefix_ok(row, start, chain, chain.len() as int, params),
    }
}

/// `k` names a node in the pattern.
pub open spec fn node_var(p: PathModel, k: Seq<char>) -> bool {
    match p {
        PathModel::Node(n) => n.variable == k,
        PathModel::Path { start, chain } => start.variable == k || exists|i: int|
            0 <= i < chain.len() && (#[trigger] chain[i]).1.variable == k,
    }
}

/// `k` names an edge in the pattern.
pub open spec fn edge_var(p: PathModel, k: Seq<char>) -> bool {
    match p {
        PathModel::Node(_) => false,
        PathModel::Path { chain, .. } => exists|i: int| 0 <= i < chain.len() && (#[trigger] chain[i]).0.variable == k,
    }
}

/// No variable of a path names two of its nodes or edges.
pub open spec fn path_distinct(start: PatternModel, chain: Seq<(PatternModel, PatternModel)>) -> bool {
    &&& forall|i: int| 0 <= i < chain.len() ==> (#[trigger] chain[i]).0.variable != start.variable
        && chain[i].1.variable != start.variable && chain[i].0.variable != chain[i].1.variable
    &&& forall|i: int, j: int|
        0 <= i < chain.len() && 0 <= j < chain.len() && i != j ==> (#[trigger] chain[i]).0.variable
            != (#[trigger] chain[j]).0.variable && chain[i].1.variable != chain[j].1.variable
            && chain[i].0.variable != chain[j].1.variable
}

/// Each path names distinct things with distinct variables, and no
/// variable names a node in one pattern and an edge in another.
pub open spec fn patterns_simple(ps: Seq<PathModel>) -> bool {
    &&& forall|i: int|
        0 <= i < ps.len() ==> match #[trigger] ps[i] {
            PathModel::Node(_) => true,
            PathModel::Path { start, chain } => path_distinct(start, chain),
        }
    &&& forall|i: int, j: int, k: Seq<char>|
        0 <= i < ps.len() && 0 <= j < ps.len() ==> !(#[trigger] node_var(ps[i], k) && #[trigger] edge_var(ps[j], k))
}

/// Every binding of `row` is of a variable the pattern names: a node for
/// a node variable, an edge for an edge variable.
pub open spec fn row_from(row: RowModel, p: PathModel) -> bool {
    forall|k: Seq<char>| #[trigger]
        row.contains_key(k) ==> if row[k] is Edge {
            edge_var(p, k)
        } else {
            node_var(p, k)
        }
}

/// Every binding of `row` is of a variable some pattern of `ps` names,
/// of the kind that pattern gives it.
pub open spec fn row_from_all(row: RowModel, ps: Seq<PathModel>) -> bool {
    forall|k: Seq<char>| #[trigger]
        row.contains_key(k) ==> exists|i: int|
            0 <= i < ps.len() && if row[k] is Edge {
                edge_var(#[trigger] ps[i], k)
            } else {
                node_var(ps[i], k)
            }
}

fn label_matches(pattern_label: &Option<String>, label: &str) -> (r: bool)
    ensures
        r == label_ok(crate::query::ast::opt_view(*pattern_label), label@),
{
    match pattern_label {
        Some(l) => str_eq(l.as_str(), label),
        None => true,
    }
}

/// A row binding just `v` to `b`.
fn single_row(v: &String, b: Binding) -> (r: Bindings)
    requires
        b.wf(),
    ensures
        row_wf(r),
        r@ == Map::<Seq<char>, BindModel>::empty().insert(v@, b@),
{
    let mut row: Bindings = StrMap::new();
    let ghost bv = b;
    row.insert(v.clone(), b);
    proof {
        assert forall|i: int| 0 <= i < row.pairs().len() implies (#[trigger] row.pairs()[i]).1.wf() by {
            assert(row.pairs()[i].1 == bv);
        }
    }
    row
}

/// The other side of `id(v) = ..` (or `.. = id(v)`) when `e` is such an
/// equation.
pub open spec fn id_operand(e: ExprModel, v: Seq<char>) -> Option<ExprModel> {
    match e {
        ExprModel::Binary { op: crate::query::ast::BinOp::Eq, lhs, rhs } => match *lhs {
            ExprModel::IdOf(x) => if x == v {
                Some(*rhs)
            } else {
                match *rhs {
                    ExprModel::IdOf(y) => if y == v {
                        Some(*lhs)
                    } else {
                        None
                    },
                    _ => None,
                }
            },
            _ => match *rhs {
                ExprModel::IdOf(y) => if y == v {
                    Some(*lhs)
                } else {
                    None
                },
                _ => None,
            },
        },
        _ => None,
    }
}

/// The id that `WHERE` pins the variable `v` to: an `id(v) = <string
/// constant>` at the top of a conjunction, the leftmost one first.
pub open spec fn id_hint(e: ExprModel, v: Seq<char>, params: Map<Seq<char>, ValueModel>) -> Result<
    Option<Seq<char>>,
    IErr,
>
    decreases e,
{
    match e {
        ExprModel::Binary { op: crate::query::ast::BinOp::Eq, .. } => match id_operand(e, v) {
            Some(o) => match const_spec(o, params) {
                Ok(ValueModel::Str(x)) => Ok(Some(x)),
                Ok(_) => Ok(None),
                Err(x) => Err(x),
            },
            None => Ok(None),
        },
        ExprModel::Binary { op: crate::query::ast::BinOp::And, lhs, rhs } => match id_hint(*lhs, v, params) {
            Ok(Some(x)) => Ok(Some(x)),
            Ok(None) => id_hint(*rhs, v, params),
            Err(x) => Err(x),
        },
        _ => Ok(None),
    }
}

/// Reading an id hint never gives an error that only a `DELETE` gives.
proof fn lemma_hint_not_delete_error(e: ExprModel, v: Seq<char>, params: Map<Seq<char>, ValueModel>)
    ensures
        id_hint(e, v, params) matches Err(x) ==> !crate::query::eval::is_delete_error(x),
    decreases e,
{
    match e {
        ExprModel::Binary { op: crate::query::ast::BinOp::Eq, .. } => {
            match id_operand(e, v) {
                Some(o) => {
                    crate::query::eval::lemma_const_not_delete_error(o, params);
                },
                None => {},
            }
        },
        ExprModel::Binary { op: crate::query::ast::BinOp::And, lhs, rhs } => {
            lemma_hint_not_delete_error(*lhs, v, params);
            lemma_hint_not_delete_error(*rhs, v, params);
        },
        _ => {},
    }
}

/// The hint of an optional clause.
pub open spec fn clause_hint(w: Option<ExprModel>, v: Seq<char>, params: Map<Seq<char>, ValueModel>) -> Result<
    Option<Seq<char>>,
    IErr,
> {
    match w {
        Some(e) => id_hint(e, v, params),
        None => Ok(None),
    }
}

/// A constant evaluates, in any row, to what it is.
proof fn lemma_const_eval(o: ExprModel, row: RowModel, params: Map<Seq<char>, ValueModel>, g: GraphModel)
    requires
        const_spec(o, params) is Ok,
    ensures
        eval_spec(o, row, params, g) == const_spec(o, params),
{
}

/// A clause that holds of a row binds a pinned variable to an entity of
/// the pinned id.
proof fn lemma_hint_holds(
    e: ExprModel,
    v: Seq<char>,
    x: Seq<char>,
    row: RowModel,
    params: Map<Seq<char>, ValueModel>,
    g: GraphModel,
)
    requires
        id_hint(e, v, params) == Ok::<Option<Seq<char>>, IErr>(Some(x)),
        eval_spec(e, row, params, g) == Ok::<ValueModel, IErr>(ValueModel::Bool(true)),
    ensures
        row.contains_key(v),
        bind_id(row[v]) == x,
    decreases e,
{
    match e {
        ExprModel::Binary { op, lhs, rhs } => {
            if op == crate::query::ast::BinOp::Eq {
                let o = id_operand(e, v)->Some_0;
                lemma_const_eval(o, row, params, g);
                match *lhs {
                    ExprModel::IdOf(a) => {
                        if a == v {
                        } else {
                        }
                    },
                    _ => {},
                }
            } else if op == crate::query::ast::BinOp::And {
                match id_hint(*lhs, v, params) {
                    Ok(Some(_)) => {
                        lemma_hint_holds(*lhs, v, x, row, params, g);
                    },
                    _ => {
                        lemma_hint_holds(*rhs, v, x, row, params, g);
                    },
                }
            }
        },
        _ => {},
    }
}

/// Looks for `id(variable) = <constant>` at the top of a conjunction and
/// gives the constant when it is a string.
fn extract_id(expr: &Expr, variable: &str, params: &Params) -> (r: Result<Option<String>, InterpretError>)
    requires
        params.wf(),
    ensures
        match (r, id_hint(expr@, variable@, params@)) {
            (Ok(Some(a)), Ok(Some(b))) => a@ == b,
            (Ok(None), Ok(None)) => true,
            (Err(a), Err(b)) => a@ == b,
            _ => false,
        },
        r matches Err(e) ==> !crate::query::eval::is_delete_error(e@),
    decreases expr,
{
    proof {
        lemma_hint_not_delete_error(expr@, variable@, params@);
    }
    match expr {
        Expr::Binary { op: crate::query::ast::BinOp::Eq, lhs, rhs } => {
            let other: Option<&Expr> = match (&**lhs, &**rhs) {
                (Expr::IdOf(v), o) => if str_eq(v.as_str(), variable) {
                    Some(o)
                } else {
                    match o {
                        Expr::IdOf(w) => if str_eq(w.as_str(), variable) {
                            Some(&**lhs)
                        } else {
                            None
                        },
                        _ => None,
                    }
                },
                (o, Expr::IdOf(w)) => if str_eq(w.as_str(), variable) {
                    Some(o)
                } else {
                    None
                },
                _ => None,
            };
            proof {
                assert(match other {
                    Some(o) => id_operand(expr@, variable@) == Some(o@),
                    None => id_operand(expr@, variable@) is None,
                });
            }
            match other {
                Some(o) => {
                    let v = eval_const(o, params)?;
                    match v {
                        Value::String(s) => Ok(Some(s)),
                        _ => Ok(None),
                    }
                },
                None => Ok(None),
            }
        },
        Expr::Binary { op: crate::query::ast::BinOp::And, lhs, rhs } => {
            match extract_id(lhs, variable, params)? {
                Some(found) => Ok(Some(found)),
                None => extract_id(rhs, variable, params),
            }
        },
        _ => Ok(None),
    }
}

/// Candidate rows for a single node pattern.
/// Every node of the pattern that honours the hint has its row among
/// `rows`.
pub open spec fn node_rows_complete(
    rows: Seq<Bindings>,
    np: PatternModel,
    h: Result<Option<Seq<char>>, IErr>,
    g: GraphModel,
) -> bool {
    forall|n: NodeModel|
        live_node(g, n) && label_ok(np.label, n.label) && hint_ok(h, #[trigger] node_row(np.variable, n), np.variable)
            ==> exists|i: int| 0 <= i < rows.len() && (#[trigger] rows[i])@ == node_row(np.variable, n)
}

fn node_candidates<S: Storage>(
    engine: &mut Engine<S>,
    np: &NodePattern,
    where_clause: &Option<Expr>,
    params: &Params,
) -> (r: Result<Vec<Bindings>, InterpretError>)
    requires
        old(engine).inv(),
        params.wf(),
    ensures
        final(engine).inv(),
        final(engine).unchanged(*old(engine)),
        r matches Ok(rows) ==> rows_ok(rows@, old(engine).graph()) && (forall|i: int|
            0 <= i < rows@.len() ==> binds_node((#[trigger] rows@[i])@, np@) && row_from(rows@[i]@, PathModel::Node(np@))
                && alone(rows@[i]@, PathModel::Node(np@), params@, old(engine).graph()))
            && node_rows_complete(
            rows@,
            np@,
            clause_hint(crate::query::ast::opt_expr_view(*where_clause), np.variable@, params@),
            old(engine).graph(),
        ),
        clause_hint(crate::query::ast::opt_expr_view(*where_clause), np.variable@, params@) is Err ==> r is Err,
        r is Err ==> clause_hint(crate::query::ast::opt_expr_view(*where_clause), np.variable@, params@) is Err
            || !old(engine).reliable(),
        r matches Ok(rows) ==> distinct_rows(rows@),
        r matches Err(e) ==> !crate::query::eval::is_delete_error(e@),
{
    let ghost g = engine.graph();
    let ghost hint = clause_hint(crate::query::ast::opt_expr_view(*where_clause), np.variable@, params@);
    proof {
        crate::engine::lemma_replay_keys(engine.records());
    }
    let id = match where_clause {
        Some(w) => extract_id(w, np.variable.as_str(), params)?,
        None => None,
    };
    let mut out: Vec<Bindings> = Vec::new();
    match id {
        Some(id) => {
            let found = match engine.get_node(id.as_str()) {
                Ok(f) => f,
                Err(e) => {
                    return Err(InterpretError::TypeMismatch(engine_error_text(&e)));
                },
            };
            if let Some(node) = found {
                let ghost nv = node@;
                if label_matches(&np.label, node.label.as_str()) {
                    let row = single_row(&np.variable, Binding::Node(node));
                    out.push(row);
                    proof {
                        assert(out@[0]@ == node_row(np.variable@, nv));
                        assert(g.nodes.contains_key(id@));
                        assert(g.nodes[id@].0.id == id@);
                        assert(live_node(g, nv));
                        assert(alone(out@[0]@, PathModel::Node(np@), params@, g));
                    }
                }
            }
            proof {
                assert forall|n: NodeModel|
                    live_node(g, n) && label_ok(np@.label, n.label) && hint_ok(hint, #[trigger] node_row(np@.variable, n), np@.variable)
                    implies exists|i: int| 0 <= i < out@.len() && (#[trigger] out@[i])@ == node_row(np@.variable, n) by {
                    assert(node_row(np@.variable, n).contains_key(np@.variable));
                    assert(n.id == id@);
                    assert(out@[0]@ == node_row(np@.variable, n));
                }
            }
        },
        None => {
            let all = match engine.iter_nodes() {
                Ok(v) => v,
                Err(e) => {
                    return Err(InterpretError::TypeMismatch(engine_error_text(&e)));
                },
            };
            let mut all = all;
            proof {
                assert forall|n: NodeModel| live_node(g, n) implies exists|i: int| 0 <= i < all@.len() && (#[trigger] all@[i])@ == n by {
                    assert(g.nodes.contains_key(n.id));
                    let i = choose|i: int| 0 <= i < all@.len() && all@[i]@.id == n.id;
                    assert(all@[i]@ == g.nodes[n.id].0);
                }
            }
            while all.len() > 0
                invariant
                    g == engine.graph(),
                    rows_ok(out@, g),
                    forall|i: int|
                        0 <= i < out@.len() ==> binds_node((#[trigger] out@[i])@, np@) && row_from(out@[i]@, PathModel::Node(np@))
                            && alone(out@[i]@, PathModel::Node(np@), params@, g),
                    forall|i: int|
                        0 <= i < all@.len() ==> g.nodes.contains_key((#[trigger] all@[i])@.id) && all@[i]@
                            == g.nodes[all@[i]@.id].0 && all@[i].wf(),
                    forall|n: NodeModel|
                        live_node(g, n) && label_ok(np@.label, n.label) && hint_ok(hint, #[trigger] node_row(np@.variable, n), np@.variable)
                            ==> (exists|i: int| 0 <= i < all@.len() && (#[trigger] all@[i])@ == n) || (exists|i: int|
                            0 <= i < out@.len() && (#[trigger] out@[i])@ == node_row(np@.variable, n)),
                    distinct_rows(out@),
                    forall|i: int, j: int| 0 <= i < j < all@.len() ==> (#[trigger] all@[i])@.id != (#[trigger] all@[j])@.id,
                    forall|t: int, k: int|
                        0 <= t < out@.len() && 0 <= k < all@.len() ==> (#[trigger] out@[t])@ != node_row(
                            np@.variable,
                            (#[trigger] all@[k])@,
                        ),
                decreases all@.len(),
            {
                let ghost all0 = all@;
                let ghost out0 = out@;
                let node = all.pop().unwrap();
                let ghost nv = node@;
                proof {
                    assert forall|k: int| 0 <= k < all@.len() implies node_row(np@.variable, nv) != node_row(
                        np@.variable,
                        (#[trigger] all@[k])@,
                    ) by {
                        assert(all0[k] == all@[k]);
                        assert(all0[all0.len() - 1]@ == nv);
                        assert(node_row(np@.variable, nv)[np@.variable] == BindModel::Node(nv));
                    }
                }
                if label_matches(&np.label, node.label.as_str()) {
                    let row = single_row(&np.variable, Binding::Node(node));
                    out.push(row);
                    proof {
                        assert(out@[out@.len() - 1]@ == node_row(np@.variable, nv));
                        assert(live_node(g, nv));
                        assert(alone(out@[out@.len() - 1]@, PathModel::Node(np@), params@, g));
                    }
                }
                proof {
                    assert forall|i: int, j: int| 0 <= i < j < out@.len() implies (#[trigger] out@[i])@ != (#[trigger] out@[j])@ by {
                        if j < out0.len() {
                            assert(out@[i] == out0[i] && out@[j] == out0[j]);
                        } else {
                            assert(out@[i] == out0[i]);
                            assert(out0[i]@ != node_row(np@.variable, all0[all0.len() - 1]@));
                        }
                    }
                    assert forall|t: int, k: int|
                        0 <= t < out@.len() && 0 <= k < all@.len() implies (#[trigger] out@[t])@ != node_row(
                        np@.variable,
                        (#[trigger] all@[k])@,
                    ) by {
                        assert(all@[k] == all0[k]);
                        if t < out0.len() {
                            assert(out@[t] == out0[t]);
                        }
                    }
                }
                proof {
                    assert forall|n: NodeModel|
                        live_node(g, n) && label_ok(np@.label, n.label) && hint_ok(hint, #[trigger] node_row(np@.variable, n), np@.variable)
                        implies (exists|i: int| 0 <= i < all@.len() && (#[trigger] all@[i])@ == n) || (exists|i: int|
                        0 <= i < out@.len() && (#[trigger] out@[i])@ == node_row(np@.variable, n)) by {
                        if exists|i: int| 0 <= i < all0.len() && (#[trigger] all0[i])@ == n {
                            let i = choose|i: int| 0 <= i < all0.len() && (#[trigger] all0[i])@ == n;
                            if i == all0.len() - 1 {
                                assert(out@[out@.len() - 1]@ == node_row(np@.variable, n));
                            } else {
                                assert(all@[i] == all0[i]);
                            }
                        } else {
                            let i = choose|i: int| 0 <= i < out0.len() && (#[trigger] out0[i])@ == node_row(np@.variable, n);
                            assert(out@[i] == out0[i]);
                        }
                    }
                }
            }
        },
    }
    Ok(out)
}

/// The inline properties of an edge pattern hold of an edge's
/// properties: each is present and `=` to the given value.
pub open spec fn inline_ok(expected: Map<Seq<char>, ValueModel>, props: Map<Seq<char>, ValueModel>) -> bool {
    forall|k: Seq<char>| #[trigger]
        expected.contains_key(k) ==> props.contains_key(k) && values_equal_spec(props[k], expected[k])
}

fn edge_pattern_matches(ep: &EdgePattern, edge: &crate::graph::Edge, inline: &StrMap<Value>) -> (r: bool)
    requires
        edge.wf(),
        inline.wf(),
    ensures
        r == (label_ok(crate::query::ast::opt_view(ep.label), edge@.label) && inline_ok(
            inline@,
            edge@.properties,
        )),
{
    if !label_matches(&ep.label, edge.label.as_str()) {
        return false;
    }
    proof {
        inline.lemma_view();
        assert forall|j: int| #![trigger inline.pairs()[j]] 0 <= j < inline.pairs().len() implies inline@.contains_key(inline.pairs()[j].0@)
            && inline@[inline.pairs()[j].0@] == inline.pairs()[j].1@ by {
            assert(inline@.contains_key(inline.pairs()[j].0@));
        }
    }
    let n = inline.len();
    let mut i: usize = 0;
    while i < n
        invariant
            inline.wf(),
            edge.wf(),
            n == inline.pairs().len(),
            i <= n,
            forall|j: int|
                #![trigger inline.pairs()[j]]
                0 <= j < inline.pairs().len() ==> inline@.contains_key(inline.pairs()[j].0@)
                    && inline@[inline.pairs()[j].0@] == inline.pairs()[j].1@,
            forall|k: Seq<char>| #[trigger]
                inline@.contains_key(k) ==> exists|j: int| 0 <= j < inline.pairs().len() && inline.pairs()[j].0@ == k,
            forall|j: int|
                0 <= j < i ==> edge@.properties.contains_key((#[trigger] inline.pairs()[j]).0@)
                    && values_equal_spec(edge@.properties[inline.pairs()[j].0@], inline.pairs()[j].1@),
        decreases n - i,
    {
        let (k, expected) = inline.entry(i);
        proof {
            assert(inline@.contains_key(inline.pairs()[i as int].0@));
        }
        match edge.properties.get(k.as_str()) {
            Some(actual) => {
                if !values_equal(actual, expected) {
                    return false;
                }
            },
            None => {
                return false;
            },
        }
        i = i + 1;
    }
    proof {
        assert forall|k: Seq<char>| #[trigger] inline@.contains_key(k) implies edge@.properties.contains_key(k)
            && values_equal_spec(edge@.properties[k], inline@[k]) by {
            let j = choose|j: int| 0 <= j < inline.pairs().len() && inline.pairs()[j].0@ == k;
            assert(edge@.properties.contains_key(inline.pairs()[j].0@));
        }
    }
    true
}

/// A copy of a row with one more binding.
fn extend_row(row: &Bindings, v: &String, b: Binding) -> (r: Bindings)
    requires
        row_wf(*row),
        b.wf(),
    ensures
        row_wf(r),
        r@ == row@.insert(v@, b@),
{
    let mut out = copy_row(row);
    let ghost before = out;
    let ghost bv = b;
    out.insert(v.clone(), b);
    proof {
        assert forall|i: int| 0 <= i < out.pairs().len() implies (#[trigger] out.pairs()[i]).1.wf() by {
            if i < before.pairs().len() && out.pairs()[i] == before.pairs()[i] {
            } else {
                assert(out.pairs()[i].1 == bv);
            }
        }
    }
    out
}

fn copy_row(row: &Bindings) -> (r: Bindings)
    requires
        row_wf(*row),
    ensures
        row_wf(r),
        r@ == row@,
{
    let mut out: Bindings = StrMap::new();
    let n = row.len();
    let mut i: usize = 0;
    while i < n
        invariant
            row_wf(*row),
            n == row.pairs().len(),
            i <= n,
            row_wf(out),
            out@ == crate::strmap::entries_map(row.pairs().subrange(0, i as int)),
        decreases n - i,
    {
        let (k, b) = row.entry(i);
        assert(row.pairs()[i as int].1.wf());
        let c = b.duplicate();
        let ghost cv = c;
        let ghost before = out;
        out.insert(k.clone(), c);
        proof {
            assert forall|j: int| 0 <= j < out.pairs().len() implies (#[trigger] out.pairs()[j]).1.wf() by {
                if j < before.pairs().len() && out.pairs()[j] == before.pairs()[j] {
                } else {
                    assert(out.pairs()[j].1 == cv);
                }
            }
            let sub = row.pairs().subrange(0, i + 1 as int);
            assert(sub.drop_last() =~= row.pairs().subrange(0, i as int));
        }
        i = i + 1;
    }
    proof {
        assert(row.pairs().subrange(0, n as int) =~= row.pairs());
        row.lemma_pairs_view();
    }
    out
}

/// `n` is a live node of `g`, as `g` holds it.
pub open spec fn live_node(g: GraphModel, n: NodeModel) -> bool {
    g.nodes.contains_key(n.id) && g.nodes[n.id].0 == n
}

/// `e` is a live edge of `g`, as `g` holds it.
pub open spec fn live_edge(g: GraphModel, e: EdgeModel) -> bool {
    g.edges.contains_key(e.id) && g.edges[e.id].0 == e
}

/// The row binding just `v` to the node `n`.
pub open spec fn node_row(v: Seq<char>, n: NodeModel) -> RowModel {
    Map::empty().insert(v, BindModel::Node(n))
}

/// `r` extends `r0` by one hop `(src)-[ep]->(tp)` of `g`: an edge of
/// the pattern out of the node `r0` binds to `src`, and its target.
pub open spec fn hop_step(
    r0: RowModel,
    r: RowModel,
    e: EdgeModel,
    t: NodeModel,
    src: Seq<char>,
    ep: PatternModel,
    tp: PatternModel,
    params: Map<Seq<char>, ValueModel>,
    g: GraphModel,
) -> bool {
    &&& r0.contains_key(src)
    &&& r0[src] is Node
    &&& live_edge(g, e)
    &&& e.from == r0[src]->Node_0.id
    &&& label_ok(ep.label, e.label)
    &&& inline_ok(map_values_of(ep.properties, params), e.properties)
    &&& live_node(g, t)
    &&& t.id == e.to
    &&& label_ok(tp.label, t.label)
    &&& r == r0.insert(ep.variable, BindModel::Edge(e)).insert(tp.variable, BindModel::Node(t))
}

/// The row a walk through the nodes `ns` and edges `es` binds after its
/// first `h` hops: the start node, then each hop's edge and target.
pub open spec fn walk_row(
    start: PatternModel,
    chain: Seq<(PatternModel, PatternModel)>,
    ns: Seq<NodeModel>,
    es: Seq<EdgeModel>,
    h: nat,
) -> RowModel
    decreases h,
{
    if h == 0 {
        node_row(start.variable, ns[0])
    } else {
        walk_row(start, chain, ns, es, (h - 1) as nat).insert(chain[h - 1].0.variable, BindModel::Edge(es[h - 1])).insert(
            chain[h - 1].1.variable,
            BindModel::Node(ns[h as int]),
        )
    }
}

/// Hop `i` of the walk: the edge `es[i]` of the hop's pattern runs from
/// node `ns[i]` to node `ns[i + 1]`, which meets the hop's target pattern.
pub open spec fn hop_at(
    chain: Seq<(PatternModel, PatternModel)>,
    ns: Seq<NodeModel>,
    es: Seq<EdgeModel>,
    i: int,
    params: Map<Seq<char>, ValueModel>,
    g: GraphModel,
) -> bool {
    &&& live_edge(g, es[i])
    &&& es[i].from == ns[i].id
    &&& es[i].to == ns[i + 1].id
    &&& label_ok(chain[i].0.label, es[i].label)
    &&& inline_ok(map_values_of(chain[i].0.properties, params), es[i].properties)
    &&& live_node(g, ns[i + 1])
    &&& label_ok(chain[i].1.label, ns[i + 1].label)
}

/// The nodes `ns` and edges `es` walk the first `h` hops of the path
/// through `g`.
pub open spec fn walks(
    start: PatternModel,
    chain: Seq<(PatternModel, PatternModel)>,
    ns: Seq<NodeModel>,
    es: Seq<EdgeModel>,
    h: nat,
    params: Map<Seq<char>, ValueModel>,
    g: GraphModel,
) -> bool {
    &&& h <= chain.len()
    &&& ns.len() > h
    &&& es.len() >= h
    &&& live_node(g, ns[0])
    &&& label_ok(start.label, ns[0].label)
    &&& forall|i: int| 0 <= i < h ==> #[trigger] hop_at(chain, ns, es, i, params, g)
}

/// `r` is a row that walking the first `h` hops of the path through `g`
/// binds.
pub open spec fn walk(
    r: RowModel,
    start: PatternModel,
    chain: Seq<(PatternModel, PatternModel)>,
    h: nat,
    params: Map<Seq<char>, ValueModel>,
    g: GraphModel,
) -> bool {
    exists|ns: Seq<NodeModel>, es: Seq<EdgeModel>|
        walks(start, chain, ns, es, h, params, g) && r == #[trigger] walk_row(start, chain, ns, es, h)
}

/// A walk's row depends only on the nodes and edges it has walked.
proof fn lemma_walk_row_prefix(
    start: PatternModel,
    chain: Seq<(PatternModel, PatternModel)>,
    ns1: Seq<NodeModel>,
    es1: Seq<EdgeModel>,
    ns2: Seq<NodeModel>,
    es2: Seq<EdgeModel>,
    h: nat,
)
    requires
        forall|i: int| 0 <= i <= h ==> ns1[i] == ns2[i],
        forall|i: int| 0 <= i < h ==> es1[i] == es2[i],
    ensures
        walk_row(start, chain, ns1, es1, h) == walk_row(start, chain, ns2, es2, h),
    decreases h,
{
    if h > 0 {
        lemma_walk_row_prefix(start, chain, ns1, es1, ns2, es2, (h - 1) as nat);
    }
}

/// A walk's row does not yet bind the variables of the next hop.
proof fn lemma_walk_fresh(
    row: RowModel,
    start: PatternModel,
    cm: Seq<(PatternModel, PatternModel)>,
    h: nat,
    params: Map<Seq<char>, ValueModel>,
    g: GraphModel,
)
    requires
        path_distinct(start, cm),
        h < cm.len(),
        walk(row, start, cm, h, params, g),
    ensures
        !row.contains_key(cm[h as int].0.variable),
        !row.contains_key(cm[h as int].1.variable),
{
    let (ns, es) = choose|ns: Seq<NodeModel>, es: Seq<EdgeModel>|
        walks(start, cm, ns, es, h, params, g) && row == #[trigger] walk_row(start, cm, ns, es, h);
    lemma_walk_row_dom(start, cm, ns, es, h);
    let vs = walk_vars(start, cm, h as int);
    assert(cm[h as int].0.variable != start.variable && cm[h as int].1.variable != start.variable);
    if vs.contains(cm[h as int].0.variable) {
        let i = choose|i: int| 0 <= i < h && ((#[trigger] cm[i]).0.variable == cm[h as int].0.variable || cm[i].1.variable == cm[h as int].0.variable);
        assert(cm[i].0.variable != cm[h as int].0.variable && cm[i].1.variable != cm[h as int].0.variable);
    }
    if vs.contains(cm[h as int].1.variable) {
        let i = choose|i: int| 0 <= i < h && ((#[trigger] cm[i]).0.variable == cm[h as int].1.variable || cm[i].1.variable == cm[h as int].1.variable);
        assert(cm[i].0.variable != cm[h as int].1.variable && cm[i].1.variable != cm[h as int].1.variable);
    }
}

/// The row a hop extended, with the hop's variables taken out again.
pub open spec fn unhop(x: RowModel, ep: PatternModel, tp: PatternModel) -> RowModel {
    x.remove(ep.variable).remove(tp.variable)
}

/// One more hop along an edge of the pattern out of the node a walk's
/// row binds to the hop's source extends the walk.
proof fn lemma_walk_extend(
    row: RowModel,
    new_row: RowModel,
    start: PatternModel,
    cm: Seq<(PatternModel, PatternModel)>,
    h: nat,
    params: Map<Seq<char>, ValueModel>,
    g: GraphModel,
    e: EdgeModel,
    t: NodeModel,
)
    requires
        path_distinct(start, cm),
        h < cm.len(),
        walk(row, start, cm, h, params, g),
        row.contains_key(hop_source(start, cm, h as int)),
        row[hop_source(start, cm, h as int)] is Node,
        e.from == row[hop_source(start, cm, h as int)]->Node_0.id,
        live_edge(g, e),
        e.to == t.id,
        live_node(g, t),
        label_ok(cm[h as int].0.label, e.label),
        inline_ok(map_values_of(cm[h as int].0.properties, params), e.properties),
        label_ok(cm[h as int].1.label, t.label),
        new_row == row.insert(cm[h as int].0.variable, BindModel::Edge(e)).insert(cm[h as int].1.variable, BindModel::Node(t)),
    ensures
        walk(new_row, start, cm, h + 1, params, g),
{
    let (ns, es) = choose|ns: Seq<NodeModel>, es: Seq<EdgeModel>|
        walks(start, cm, ns, es, h, params, g) && row == #[trigger] walk_row(start, cm, ns, es, h);
    lemma_walk_source(start, cm, ns, es, h);
    let ns2 = ns.take(h + 1 as int).push(t);
    let es2 = es.take(h as int).push(e);
    lemma_walk_row_prefix(start, cm, ns, es, ns2, es2, h);
    let h1: nat = h + 1;
    assert((h1 - 1) as nat == h);
    assert(walk_row(start, cm, ns2, es2, h1) == walk_row(start, cm, ns2, es2, h).insert(
        cm[h as int].0.variable,
        BindModel::Edge(es2[h as int]),
    ).insert(cm[h as int].1.variable, BindModel::Node(ns2[h1 as int])));
    assert forall|i: int| 0 <= i < h1 implies #[trigger] hop_at(cm, ns2, es2, i, params, g) by {
        if i < h {
            assert(hop_at(cm, ns, es, i, params, g));
        }
    }
    assert(walks(start, cm, ns2, es2, h1, params, g));
}

/// With distinct variables, a walk's row binds each hop's source
/// variable to the node the hop starts from.
proof fn lemma_walk_source(
    start: PatternModel,
    chain: Seq<(PatternModel, PatternModel)>,
    ns: Seq<NodeModel>,
    es: Seq<EdgeModel>,
    h: nat,
)
    requires
        path_distinct(start, chain),
        h < chain.len(),
    ensures
        walk_row(start, chain, ns, es, h).contains_key(hop_source(start, chain, h as int)),
        walk_row(start, chain, ns, es, h)[hop_source(start, chain, h as int)] == BindModel::Node(ns[h as int]),
        walk_row(start, chain, ns, es, h).contains_key(start.variable),
        walk_row(start, chain, ns, es, h)[start.variable] == BindModel::Node(ns[0]),
    decreases h,
{
    if h > 0 {
        lemma_walk_source(start, chain, ns, es, (h - 1) as nat);
        assert(chain[h - 1].0.variable != start.variable && chain[h - 1].1.variable != start.variable);
    }
}

/// `r` is a row that matching the pattern `p` alone binds.
pub open spec fn alone(r: RowModel, p: PathModel, params: Map<Seq<char>, ValueModel>, g: GraphModel) -> bool {
    match p {
        PathModel::Node(np) => exists|n: NodeModel|
            live_node(g, n) && label_ok(np.label, n.label) && r == #[trigger] node_row(np.variable, n),
        PathModel::Path { start, chain } => walk(r, start, chain, chain.len(), params, g),
    }
}

/// Rows that bind each shared variable to entities of the same id.
pub open spec fn compatible(a: RowModel, b: RowModel) -> bool {
    forall|k: Seq<char>| #[trigger] b.contains_key(k) && a.contains_key(k) ==> bind_id(a[k]) == bind_id(b[k])
}

/// The rows `bs[0]`, ..., `bs[k - 1]` joined in turn: each later row adds
/// the variables the earlier ones do not bind.
pub open spec fn fold_rows(bs: Seq<RowModel>, k: nat) -> RowModel
    decreases k,
{
    if k == 0 {
        Map::<Seq<char>, BindModel>::empty()
    } else {
        bs[k - 1].union_prefer_right(fold_rows(bs, (k - 1) as nat))
    }
}

/// `bs[i]` is a row of pattern `i`, compatible with the join of the rows
/// before it.
pub open spec fn join_step_ok(
    bs: Seq<RowModel>,
    ps: Seq<PathModel>,
    i: int,
    params: Map<Seq<char>, ValueModel>,
    g: GraphModel,
) -> bool {
    alone(bs[i], ps[i], params, g) && compatible(fold_rows(bs, i as nat), bs[i])
}

/// `bs` holds a row of each of the first `k` patterns, each compatible
/// with the join of those before it.
pub open spec fn joins(
    bs: Seq<RowModel>,
    ps: Seq<PathModel>,
    k: nat,
    params: Map<Seq<char>, ValueModel>,
    g: GraphModel,
) -> bool {
    &&& k <= ps.len()
    &&& bs.len() >= k
    &&& forall|i: int| 0 <= i < k ==> #[trigger] join_step_ok(bs, ps, i, params, g)
}

/// `m` joins a row of each of the first `k` patterns.
pub open spec fn joined(
    m: RowModel,
    ps: Seq<PathModel>,
    k: nat,
    params: Map<Seq<char>, ValueModel>,
    g: GraphModel,
) -> bool {
    exists|bs: Seq<RowModel>| joins(bs, ps, k, params, g) && m == #[trigger] fold_rows(bs, k)
}

/// A shorter join is part of a longer one.
proof fn lemma_fold_sub(bs: Seq<RowModel>, k: nat, n: nat)
    requires
        k <= n,
    ensures
        forall|key: Seq<char>| #[trigger] fold_rows(bs, k).contains_key(key) ==> fold_rows(bs, n).contains_key(key)
            && fold_rows(bs, n)[key] == fold_rows(bs, k)[key],
    decreases n - k,
{
    if k < n {
        lemma_fold_sub(bs, (k + 1) as nat, n);
        let k1: nat = (k + 1) as nat;
        assert((k1 - 1) as nat == k);
        assert(fold_rows(bs, k1) == bs[k as int].union_prefer_right(fold_rows(bs, k)));
        assert forall|key: Seq<char>| #[trigger] fold_rows(bs, k).contains_key(key) implies fold_rows(bs, n).contains_key(key)
            && fold_rows(bs, n)[key] == fold_rows(bs, k)[key] by {
            assert(fold_rows(bs, k1).contains_key(key));
        }
    }
}

/// The variable a pattern starts from.
pub open spec fn start_var(p: PathModel) -> Seq<char> {
    match p {
        PathModel::Node(np) => np.variable,
        PathModel::Path { start, .. } => start.variable,
    }
}

/// The pinned id of a hint, where there is one, is that of the entity
/// the row binds.
pub open spec fn hint_ok(h: Result<Option<Seq<char>>, IErr>, row: RowModel, v: Seq<char>) -> bool {
    match h {
        Ok(Some(x)) => row.contains_key(v) ==> bind_id(row[v]) == x,
        _ => true,
    }
}

/// `m` honours the hint `WHERE` gives for the start of each of the first
/// `k` patterns.
pub open spec fn hints_ok(
    m: RowModel,
    ps: Seq<PathModel>,
    k: int,
    w: Option<ExprModel>,
    params: Map<Seq<char>, ValueModel>,
) -> bool {
    forall|i: int| 0 <= i < k ==> #[trigger] hint_ok(clause_hint(w, start_var(ps[i]), params), m, start_var(ps[i]))
}

/// A join of `k + 1` patterns that honours the hints splits into a join
/// of the first `k` and a row of pattern `k`, each honouring its hints.
proof fn lemma_joined_step(
    m: RowModel,
    ps: Seq<PathModel>,
    k: nat,
    w: Option<ExprModel>,
    params: Map<Seq<char>, ValueModel>,
    g: GraphModel,
) -> (ab: (RowModel, RowModel))
    requires
        joined(m, ps, k + 1, params, g),
        hints_ok(m, ps, k + 1 as int, w, params),
    ensures
        joined(ab.0, ps, k, params, g),
        hints_ok(ab.0, ps, k as int, w, params),
        alone(ab.1, ps[k as int], params, g),
        hint_ok(clause_hint(w, start_var(ps[k as int]), params), ab.1, start_var(ps[k as int])),
        compatible(ab.0, ab.1),
        m == ab.1.union_prefer_right(ab.0),
{
    let k1: nat = k + 1;
    let bs = choose|bs: Seq<RowModel>| joins(bs, ps, k1, params, g) && m == #[trigger] fold_rows(bs, k1);
    assert((k1 - 1) as nat == k);
    let a = fold_rows(bs, k);
    let b = bs[k as int];
    assert(m == b.union_prefer_right(a));
    assert(join_step_ok(bs, ps, k as int, params, g));
    assert(joins(bs, ps, k, params, g));
    assert forall|i: int| 0 <= i < k implies #[trigger] hint_ok(clause_hint(w, start_var(ps[i]), params), a, start_var(ps[i])) by {
        assert(hint_ok(clause_hint(w, start_var(ps[i]), params), m, start_var(ps[i])));
        if a.contains_key(start_var(ps[i])) {
            assert(m[start_var(ps[i])] == a[start_var(ps[i])]);
        }
    }
    let v = start_var(ps[k as int]);
    assert(hint_ok(clause_hint(w, v, params), m, v));
    if b.contains_key(v) && a.contains_key(v) {
        assert(m[v] == a[v]);
    }
    (a, b)
}

/// A join of `n` patterns that honours the hints holds a join of the
/// first `k` that does.
proof fn lemma_joined_prefix(
    m: RowModel,
    ps: Seq<PathModel>,
    n: nat,
    k: nat,
    w: Option<ExprModel>,
    params: Map<Seq<char>, ValueModel>,
    g: GraphModel,
) -> (a: RowModel)
    requires
        joined(m, ps, n, params, g),
        hints_ok(m, ps, n as int, w, params),
        k <= n,
    ensures
        joined(a, ps, k, params, g),
        hints_ok(a, ps, k as int, w, params),
{
    let bs = choose|bs: Seq<RowModel>| joins(bs, ps, n, params, g) && m == #[trigger] fold_rows(bs, n);
    lemma_fold_sub(bs, k, n);
    let a = fold_rows(bs, k);
    assert(joins(bs, ps, k, params, g));
    assert forall|i: int| 0 <= i < k implies #[trigger] hint_ok(clause_hint(w, start_var(ps[i]), params), a, start_var(ps[i])) by {
        assert(hint_ok(clause_hint(w, start_var(ps[i]), params), m, start_var(ps[i])));
        if a.contains_key(start_var(ps[i])) {
            assert(m[start_var(ps[i])] == a[start_var(ps[i])]);
        }
    }
    a
}

/// A row that meets `WHERE` honours every hint `WHERE` gives.
proof fn lemma_hints_hold(
    m: RowModel,
    ps: Seq<PathModel>,
    w: Option<ExprModel>,
    params: Map<Seq<char>, ValueModel>,
    g: GraphModel,
)
    requires
        pred_spec(w, m, params, g) == Ok::<bool, IErr>(true),
    ensures
        hints_ok(m, ps, ps.len() as int, w, params),
{
    assert forall|i: int| 0 <= i < ps.len() implies #[trigger] hint_ok(clause_hint(w, start_var(ps[i]), params), m, start_var(ps[i])) by {
        match clause_hint(w, start_var(ps[i]), params) {
            Ok(Some(x)) => {
                lemma_hint_holds(w->Some_0, start_var(ps[i]), x, m, params, g);
            },
            _ => {},
        }
    }
}

/// Joins agree on rows that agree.
proof fn lemma_fold_prefix(bs1: Seq<RowModel>, bs2: Seq<RowModel>, k: nat)
    requires
        forall|i: int| 0 <= i < k ==> bs1[i] == bs2[i],
    ensures
        fold_rows(bs1, k) == fold_rows(bs2, k),
    decreases k,
{
    if k > 0 {
        lemma_fold_prefix(bs1, bs2, (k - 1) as nat);
    }
}

/// A join of the first `k` patterns and a compatible row of pattern `k`
/// join to a join of the first `k + 1`.
proof fn lemma_joined_extend(
    a: RowModel,
    b: RowModel,
    ps: Seq<PathModel>,
    k: nat,
    params: Map<Seq<char>, ValueModel>,
    g: GraphModel,
)
    requires
        joined(a, ps, k, params, g),
        k < ps.len(),
        alone(b, ps[k as int], params, g),
        compatible(a, b),
    ensures
        joined(b.union_prefer_right(a), ps, k + 1, params, g),
{
    let bs = choose|bs: Seq<RowModel>| joins(bs, ps, k, params, g) && a == #[trigger] fold_rows(bs, k);
    assert(joins(bs, ps, k, params, g));
    let bs2 = bs.take(k as int).push(b);
    lemma_fold_prefix(bs, bs2, k);
    assert forall|i: int| 0 <= i < k + 1 implies #[trigger] join_step_ok(bs2, ps, i, params, g) by {
        lemma_fold_prefix(bs, bs2, i as nat);
        if i < k {
            assert(join_step_ok(bs, ps, i, params, g));
        }
    }
    let k1: nat = k + 1;
    assert((k1 - 1) as nat == k);
    assert(joins(bs2, ps, k1, params, g));
    assert(fold_rows(bs2, k1) == b.union_prefer_right(a));
}

/// Pattern `p`'s hop `h` has inline properties that do not evaluate.
pub open spec fn hop_inline_fails(p: PathModel, h: int, params: Map<Seq<char>, ValueModel>) -> bool {
    match p {
        PathModel::Node(_) => false,
        PathModel::Path { chain, .. } => 0 <= h < chain.len() && !map_evaluates(chain[h].0.properties, params),
    }
}

/// Matching the patterns runs into an error: a hint of `WHERE` or an
/// inline property of an edge pattern does not evaluate, or `WHERE` does
/// not evaluate to a boolean or `NULL` on some join of the patterns.
pub open spec fn find_fails(
    ps: Seq<PathModel>,
    w: Option<ExprModel>,
    params: Map<Seq<char>, ValueModel>,
    g: GraphModel,
) -> bool {
    ||| exists|i: int| 0 <= i < ps.len() && (#[trigger] clause_hint(w, start_var(ps[i]), params)) is Err
    ||| exists|i: int, h: int| 0 <= i < ps.len() && #[trigger] hop_inline_fails(ps[i], h, params)
    ||| exists|m: RowModel| #[trigger] joined(m, ps, ps.len(), params, g) && pred_spec(w, m, params, g) is Err
}

/// The variables the first `h` hops of a path bind.
pub open spec fn walk_vars(start: PatternModel, chain: Seq<(PatternModel, PatternModel)>, h: int) -> Set<Seq<char>> {
    Set::new(
        |k: Seq<char>|
            k == start.variable || exists|i: int|
                0 <= i < h && ((#[trigger] chain[i]).0.variable == k || chain[i].1.variable == k),
    )
}

/// The variables a pattern binds.
pub open spec fn pattern_vars(p: PathModel) -> Set<Seq<char>> {
    match p {
        PathModel::Node(np) => set![np.variable],
        PathModel::Path { start, chain } => walk_vars(start, chain, chain.len() as int),
    }
}

/// The variables the first `k` patterns bind.
pub open spec fn join_vars(ps: Seq<PathModel>, k: int) -> Set<Seq<char>> {
    Set::new(|x: Seq<char>| exists|i: int| 0 <= i < k && #[trigger] pattern_vars(ps[i]).contains(x))
}

/// A walk's row binds exactly the variables of the hops walked.
proof fn lemma_walk_row_dom(
    start: PatternModel,
    chain: Seq<(PatternModel, PatternModel)>,
    ns: Seq<NodeModel>,
    es: Seq<EdgeModel>,
    h: nat,
)
    ensures
        walk_row(start, chain, ns, es, h).dom() == walk_vars(start, chain, h as int),
    decreases h,
{
    if h > 0 {
        lemma_walk_row_dom(start, chain, ns, es, (h - 1) as nat);
        let d0 = walk_vars(start, chain, h - 1);
        let d1 = walk_vars(start, chain, h as int);
        assert forall|k: Seq<char>| d1.contains(k) <==> (d0.contains(k) || k == chain[h - 1].0.variable || k
            == chain[h - 1].1.variable) by {
            if d1.contains(k) && k != start.variable {
                let i = choose|i: int| 0 <= i < h && ((#[trigger] chain[i]).0.variable == k || chain[i].1.variable == k);
                if i < h - 1 {
                    assert(d0.contains(k));
                }
            }
            if d0.contains(k) && k != start.variable {
                let i = choose|i: int| 0 <= i < h - 1 && ((#[trigger] chain[i]).0.variable == k || chain[i].1.variable == k);
                assert(d1.contains(k));
            }
            if k == chain[h - 1].0.variable || k == chain[h - 1].1.variable {
                assert(d1.contains(k));
            }
        }
        assert(walk_row(start, chain, ns, es, h).dom() =~= d1);
    } else {
        assert(walk_row(start, chain, ns, es, h).dom() =~= walk_vars(start, chain, 0));
    }
}

/// A row of a pattern alone binds exactly the pattern's variables.
proof fn lemma_alone_dom(b: RowModel, p: PathModel, params: Map<Seq<char>, ValueModel>, g: GraphModel)
    requires
        alone(b, p, params, g),
    ensures
        b.dom() == pattern_vars(p),
{
    match p {
        PathModel::Node(np) => {
            let n = choose|n: NodeModel| live_node(g, n) && label_ok(np.label, n.label) && b == #[trigger] node_row(np.variable, n);
            assert(b.dom() =~= set![np.variable]);
        },
        PathModel::Path { start, chain } => {
            let (ns, es) = choose|ns: Seq<NodeModel>, es: Seq<EdgeModel>|
                walks(start, chain, ns, es, chain.len(), params, g) && b == #[trigger] walk_row(start, chain, ns, es, chain.len());
            lemma_walk_row_dom(start, chain, ns, es, chain.len());
        },
    }
}

/// A join of the first `k` patterns binds exactly their variables.
proof fn lemma_fold_dom(bs: Seq<RowModel>, ps: Seq<PathModel>, k: nat, params: Map<Seq<char>, ValueModel>, g: GraphModel)
    requires
        joins(bs, ps, k, params, g),
    ensures
        fold_rows(bs, k).dom() == join_vars(ps, k as int),
    decreases k,
{
    if k == 0 {
        assert(fold_rows(bs, 0).dom() =~= join_vars(ps, 0));
    } else {
        let k0 = (k - 1) as nat;
        assert(joins(bs, ps, k0, params, g)) by {
            assert forall|i: int| 0 <= i < k0 implies #[trigger] join_step_ok(bs, ps, i, params, g) by {
                assert(join_step_ok(bs, ps, i, params, g));
            }
        }
        lemma_fold_dom(bs, ps, k0, params, g);
        assert(join_step_ok(bs, ps, k0 as int, params, g));
        lemma_alone_dom(bs[k0 as int], ps[k0 as int], params, g);
        let d1 = join_vars(ps, k as int);
        let d0 = join_vars(ps, k0 as int);
        assert forall|x: Seq<char>| d1.contains(x) <==> (d0.contains(x) || pattern_vars(ps[k0 as int]).contains(x)) by {
            if d1.contains(x) {
                let i = choose|i: int| 0 <= i < k && #[trigger] pattern_vars(ps[i]).contains(x);
                if i < k0 {
                    assert(d0.contains(x));
                }
            }
            if d0.contains(x) {
                let i = choose|i: int| 0 <= i < k0 && #[trigger] pattern_vars(ps[i]).contains(x);
                assert(d1.contains(x));
            }
            if pattern_vars(ps[k0 as int]).contains(x) {
                assert(d1.contains(x));
            }
        }
        assert(fold_rows(bs, k).dom() =~= d1);
    }
}

/// A join of the first `k` patterns binds exactly their variables.
proof fn lemma_joined_dom(m: RowModel, ps: Seq<PathModel>, k: nat, params: Map<Seq<char>, ValueModel>, g: GraphModel)
    requires
        joined(m, ps, k, params, g),
    ensures
        m.dom() == join_vars(ps, k as int),
{
    let bs = choose|bs: Seq<RowModel>| joins(bs, ps, k, params, g) && m == #[trigger] fold_rows(bs, k);
    lemma_fold_dom(bs, ps, k, params, g);
}

/// Joining a row of the first `pi` patterns with a row of pattern `pi`
/// loses nothing: the join determines both.
proof fn lemma_join_injective(
    a1: RowModel,
    b1: RowModel,
    a2: RowModel,
    b2: RowModel,
    ps: Seq<PathModel>,
    pi: nat,
    params: Map<Seq<char>, ValueModel>,
    g: GraphModel,
)
    requires
        patterns_simple(ps),
        pi < ps.len(),
        joined(a1, ps, pi, params, g),
        joined(a2, ps, pi, params, g),
        alone(b1, ps[pi as int], params, g),
        alone(b2, ps[pi as int], params, g),
        compatible(a1, b1),
        compatible(a2, b2),
        row_in_graph(b1, g),
        row_in_graph(b2, g),
        row_from(b1, ps[pi as int]),
        row_from(b2, ps[pi as int]),
        b1.union_prefer_right(a1) == b2.union_prefer_right(a2),
    ensures
        a1 == a2,
        b1 == b2,
{
    lemma_joined_dom(a1, ps, pi, params, g);
    lemma_joined_dom(a2, ps, pi, params, g);
    lemma_alone_dom(b1, ps[pi as int], params, g);
    lemma_alone_dom(b2, ps[pi as int], params, g);
    let m = b1.union_prefer_right(a1);
    assert forall|k: Seq<char>| a1.contains_key(k) implies a1[k] == a2[k] by {
        assert(m[k] == a1[k]);
    }
    assert(a1 =~= a2);
    assert forall|k: Seq<char>| b1.contains_key(k) implies b1[k] == b2[k] by {
        assert(b2.contains_key(k));
        if !a1.contains_key(k) {
            assert(m[k] == b1[k]);
        } else {
            assert(bind_id(a1[k]) == bind_id(b1[k]));
            assert(bind_id(a2[k]) == bind_id(b2[k]));
            if b1[k] is Edge {
                assert(edge_var(ps[pi as int], k));
                if b2[k] is Node {
                    assert(node_var(ps[pi as int], k));
                }
            } else {
                assert(node_var(ps[pi as int], k));
                if b2[k] is Edge {
                    assert(edge_var(ps[pi as int], k));
                }
            }
        }
    }
    assert(b1 =~= b2);
}

/// `m` is a match of the patterns in `g`: a join of a row of each, that
/// meets `WHERE`.
pub open spec fn is_match(
    m: RowModel,
    ps: Seq<PathModel>,
    w: Option<ExprModel>,
    params: Map<Seq<char>, ValueModel>,
    g: GraphModel,
) -> bool {
    joined(m, ps, ps.len(), params, g) && pred_spec(w, m, params, g) == Ok::<bool, IErr>(true)
}

/// `x` is the model of one of the rows.
pub open spec fn in_rows(x: RowModel, rows: Seq<Bindings>) -> bool {
    exists|k: int| 0 <= k < rows.len() && (#[trigger] rows[k])@ == x
}

/// No two of the rows are equal.
pub open spec fn distinct_rows(rows: Seq<Bindings>) -> bool {
    forall|i: int, j: int| 0 <= i < j < rows.len() ==> (#[trigger] rows[i])@ != (#[trigger] rows[j])@
}

/// Rows stay among rows that only grow.
proof fn lemma_rows_grow(a: Seq<Bindings>, b: Seq<Bindings>)
    requires
        a.len() <= b.len(),
        forall|k: int| 0 <= k < a.len() ==> #[trigger] b[k] == a[k],
    ensures
        forall|x: RowModel| #[trigger] in_rows(x, a) ==> in_rows(x, b),
{
    assert forall|x: RowModel| #[trigger] in_rows(x, a) implies in_rows(x, b) by {
        let k = choose|k: int| 0 <= k < a.len() && (#[trigger] a[k])@ == x;
        assert(b[k] == a[k]);
    }
}

/// A path of the first `n` hops of `chain`.
pub open spec fn path_upto(start: PatternModel, chain: Seq<(PatternModel, PatternModel)>, n: int) -> PathModel {
    PathModel::Path { start, chain: chain.subrange(0, n) }
}

/// Binding hop `h`'s edge and target extends a row that holds the first
/// `h` hops to one that holds the first `h + 1`.
proof fn lemma_hop_extend(
    row: RowModel,
    new_row: RowModel,
    start: PatternModel,
    cm: Seq<(PatternModel, PatternModel)>,
    h: int,
    params: Map<Seq<char>, ValueModel>,
    e: crate::graph::EdgeModel,
    t: NodeModel,
)
    requires
        path_distinct(start, cm),
        0 <= h < cm.len(),
        path_prefix_ok(row, start, cm, h, params),
        new_row == row.insert(cm[h].0.variable, BindModel::Edge(e)).insert(cm[h].1.variable, BindModel::Node(t)),
        row.contains_key(hop_source(start, cm, h)),
        row[hop_source(start, cm, h)] is Node,
        e.from == row[hop_source(start, cm, h)]->Node_0.id,
        e.to == t.id,
        label_ok(cm[h].0.label, e.label),
        inline_ok(map_values_of(cm[h].0.properties, params), e.properties),
        label_ok(cm[h].1.label, t.label),
    ensures
        path_prefix_ok(new_row, start, cm, h + 1, params),
{
    let ev = cm[h].0.variable;
    let tv = cm[h].1.variable;
    assert(cm[h].0.variable != start.variable && cm[h].1.variable != start.variable);
    assert(ev != tv);
    let src = hop_source(start, cm, h);
    if h > 0 {
        assert(cm[h - 1].1.variable != cm[h].0.variable && cm[h - 1].1.variable != cm[h].1.variable);
    }
    assert(src != ev && src != tv);
    assert(new_row[src] == row[src]);
    assert forall|hh: int| 0 <= hh < h + 1 implies #[trigger] hop_ok(
        new_row,
        hop_source(start, cm, hh),
        cm[hh].0,
        cm[hh].1,
        map_values_of(cm[hh].0.properties, params),
    ) by {
        if hh < h {
            assert(hop_ok(row, hop_source(start, cm, hh), cm[hh].0, cm[hh].1, map_values_of(cm[hh].0.properties, params)));
            assert(cm[hh].0.variable != ev && cm[hh].0.variable != tv);
            assert(cm[hh].1.variable != ev && cm[hh].1.variable != tv);
            let s2 = hop_source(start, cm, hh);
            if hh > 0 {
                assert(cm[hh - 1].1.variable != ev && cm[hh - 1].1.variable != tv);
            }
            assert(s2 != ev && s2 != tv);
        }
    }
}

/// The same extension keeps every binding one the path names.
proof fn lemma_from_extend(
    row: RowModel,
    new_row: RowModel,
    start: PatternModel,
    cm: Seq<(PatternModel, PatternModel)>,
    h: int,
    e: crate::graph::EdgeModel,
    t: NodeModel,
)
    requires
        0 <= h < cm.len(),
        row_from(row, path_upto(start, cm, h)),
        new_row == row.insert(cm[h].0.variable, BindModel::Edge(e)).insert(cm[h].1.variable, BindModel::Node(t)),
    ensures
        row_from(new_row, path_upto(start, cm, h + 1)),
{
    let c0 = cm.subrange(0, h);
    let c1 = cm.subrange(0, h + 1);
    assert forall|k: Seq<char>| #[trigger] new_row.contains_key(k) implies if new_row[k] is Edge {
        edge_var(path_upto(start, cm, h + 1), k)
    } else {
        node_var(path_upto(start, cm, h + 1), k)
    } by {
        if k == cm[h].1.variable {
            assert(c1[h].1.variable == k);
        } else if k == cm[h].0.variable {
            assert(c1[h].0.variable == k);
        } else {
            assert(row.contains_key(k) && new_row[k] == row[k]);
            if row[k] is Edge {
                let i = choose|i: int| 0 <= i < c0.len() && (#[trigger] c0[i]).0.variable == k;
                assert(c1[i] == c0[i]);
            } else if start.variable != k {
                let i = choose|i: int| 0 <= i < c0.len() && (#[trigger] c0[i]).1.variable == k;
                assert(c1[i] == c0[i]);
            }
        }
    }
}

/// Candidate rows for a path pattern, walked hop by hop from its start.
fn path_candidates<S: Storage>(
    engine: &mut Engine<S>,
    start: &NodePattern,
    chain: &Vec<(EdgePattern, NodePattern)>,
    where_clause: &Option<Expr>,
    params: &Params,
) -> (r: Result<Vec<Bindings>, InterpretError>)
    requires
        old(engine).inv(),
        params.wf(),
        forall|i: int| 0 <= i < chain@.len() ==> (#[trigger] chain@[i]).0.properties.wf(),
    ensures
        final(engine).inv(),
        final(engine).unchanged(*old(engine)),
        r matches Ok(rows) ==> rows_ok(rows@, old(engine).graph()) && (forall|i: int|
            0 <= i < rows@.len() ==> row_from(
                (#[trigger] rows@[i])@,
                PathModel::Path { start: start@, chain: crate::query::ast::chain_view(chain@) },
            ) && (path_distinct(start@, crate::query::ast::chain_view(chain@)) ==> pattern_ok(
                rows@[i]@,
                PathModel::Path { start: start@, chain: crate::query::ast::chain_view(chain@) },
                params@,
            ))) && (path_distinct(start@, crate::query::ast::chain_view(chain@)) ==> forall|x: RowModel|
                #[trigger] walk(
                    x,
                    start@,
                    crate::query::ast::chain_view(chain@),
                    chain@.len() as nat,
                    params@,
                    old(engine).graph(),
                ) && hint_ok(
                    clause_hint(crate::query::ast::opt_expr_view(*where_clause), start.variable@, params@),
                    x,
                    start.variable@,
                ) ==> in_rows(x, rows@)) && (path_distinct(start@, crate::query::ast::chain_view(chain@)) ==> forall|i: int|
                0 <= i < rows@.len() ==> walk(
                    (#[trigger] rows@[i])@,
                    start@,
                    crate::query::ast::chain_view(chain@),
                    chain@.len() as nat,
                    params@,
                    old(engine).graph(),
                )),
        clause_hint(crate::query::ast::opt_expr_view(*where_clause), start.variable@, params@) is Err ==> r is Err,
        r is Err ==> clause_hint(crate::query::ast::opt_expr_view(*where_clause), start.variable@, params@) is Err
            || !old(engine).reliable() || exists|h: int|
            0 <= h < chain@.len() && !map_evaluates((#[trigger] chain@[h]).0.properties@, params@),
        r matches Ok(rows) ==> (path_distinct(start@, crate::query::ast::chain_view(chain@)) ==> distinct_rows(rows@)),
        r matches Err(e) ==> !crate::query::eval::is_delete_error(e@),
{
    let ghost cm = crate::query::ast::chain_view(chain@);
    let ghost hint = clause_hint(crate::query::ast::opt_expr_view(*where_clause), start.variable@, params@);
    let ghost g = engine.graph();
    proof {
        crate::engine::lemma_replay_keys(engine.records());
    }
    let mut rows = node_candidates(engine, start, where_clause, params)?;
    proof {
        assert forall|x: RowModel| #[trigger] walk(x, start@, cm, 0, params@, g) && hint_ok(hint, x, start@.variable) implies in_rows(
            x,
            rows@,
        ) by {
            let (ns, es) = choose|ns: Seq<NodeModel>, es: Seq<EdgeModel>|
                walks(start@, cm, ns, es, 0, params@, g) && x == #[trigger] walk_row(start@, cm, ns, es, 0);
            let n = ns[0];
            assert(x == node_row(start@.variable, n));
            let i = choose|i: int| 0 <= i < rows@.len() && (#[trigger] rows@[i])@ == node_row(start@.variable, n);
        }
        assert forall|i: int| 0 <= i < rows@.len() implies walk((#[trigger] rows@[i])@, start@, cm, 0, params@, g) by {
            assert(alone(rows@[i]@, PathModel::Node(start@), params@, g));
            let n = choose|n: NodeModel|
                live_node(g, n) && label_ok(start@.label, n.label) && rows@[i]@ == #[trigger] node_row(start@.variable, n);
            let ns = seq![n];
            let es = Seq::<EdgeModel>::empty();
            assert(walk_row(start@, cm, ns, es, 0) == node_row(start@.variable, n));
            assert(walks(start@, cm, ns, es, 0, params@, g));
        }
        assert forall|i: int| 0 <= i < rows@.len() implies row_from((#[trigger] rows@[i])@, path_upto(start@, cm, 0)) by {
            assert(row_from(rows@[i]@, PathModel::Node(start@)));
        }
    }
    let mut prev_var = start.variable.clone();
    let mut h: usize = 0;
    while h < chain.len()
        invariant
            engine.inv(),
            engine.unchanged(*old(engine)),
            g == engine.graph(),
            g == old(engine).graph(),
            params.wf(),
            forall|i: int| 0 <= i < chain@.len() ==> (#[trigger] chain@[i]).0.properties.wf(),
            rows_ok(rows@, g),
            forall|k: Seq<char>| #[trigger] g.nodes.contains_key(k) ==> g.nodes[k].0.id == k,
            forall|k: Seq<char>| #[trigger] g.edges.contains_key(k) ==> g.edges[k].0.id == k,
            h <= chain@.len(),
            cm == crate::query::ast::chain_view(chain@),
            prev_var@ == hop_source(start@, cm, h as int),
            forall|i: int|
                0 <= i < rows@.len() ==> row_from((#[trigger] rows@[i])@, path_upto(start@, cm, h as int)) && (
                path_distinct(start@, cm) ==> path_prefix_ok(rows@[i]@, start@, cm, h as int, params@)),
            hint == clause_hint(crate::query::ast::opt_expr_view(*where_clause), start.variable@, params@),
            path_distinct(start@, cm) ==> forall|x: RowModel|
                #[trigger] walk(x, start@, cm, h as nat, params@, g) && hint_ok(hint, x, start@.variable) ==> in_rows(x, rows@),
            path_distinct(start@, cm) ==> forall|i: int| 0 <= i < rows@.len() ==> walk((#[trigger] rows@[i])@, start@, cm, h as nat, params@, g),
            path_distinct(start@, cm) ==> distinct_rows(rows@),
        decreases chain@.len() - h,
    {
        let ep = &chain[h].0;
        let tp = &chain[h].1;
        let inline = eval_property_map(&ep.properties, params)?;
        proof {
            assert(cm[h as int] == (chain@[h as int].0@, chain@[h as int].1@));
        }
        let mut next: Vec<Bindings> = Vec::new();
        let mut ri: usize = 0;
        while ri < rows.len()
            invariant
                engine.inv(),
                engine.unchanged(*old(engine)),
                g == engine.graph(),
                g == old(engine).graph(),
                inline.wf(),
                rows_ok(rows@, g),
                rows_ok(next@, g),
                forall|k: Seq<char>| #[trigger] g.nodes.contains_key(k) ==> g.nodes[k].0.id == k,
                forall|k: Seq<char>| #[trigger] g.edges.contains_key(k) ==> g.edges[k].0.id == k,
                ri <= rows@.len(),
                h < chain@.len(),
                cm == crate::query::ast::chain_view(chain@),
                cm[h as int] == (ep@, tp@),
                inline@ == map_values_of(ep.properties@, params@),
                prev_var@ == hop_source(start@, cm, h as int),
                forall|i: int|
                    0 <= i < rows@.len() ==> row_from((#[trigger] rows@[i])@, path_upto(start@, cm, h as int)) && (
                    path_distinct(start@, cm) ==> path_prefix_ok(rows@[i]@, start@, cm, h as int, params@)),
                forall|i: int|
                    0 <= i < next@.len() ==> row_from((#[trigger] next@[i])@, path_upto(start@, cm, h + 1)) && (
                    path_distinct(start@, cm) ==> path_prefix_ok(next@[i]@, start@, cm, h + 1, params@)),
                forall|i: int, e: EdgeModel, t: NodeModel, x: RowModel|
                    0 <= i < ri && #[trigger] hop_step(rows@[i]@, x, e, t, prev_var@, ep@, tp@, params@, g) ==> in_rows(
                        x,
                        next@,
                    ),
                path_distinct(start@, cm) ==> forall|i: int| 0 <= i < rows@.len() ==> walk((#[trigger] rows@[i])@, start@, cm, h as nat, params@, g),
                path_distinct(start@, cm) ==> forall|i: int| 0 <= i < next@.len() ==> walk((#[trigger] next@[i])@, start@, cm, (h + 1) as nat, params@, g),
                path_distinct(start@, cm) ==> distinct_rows(rows@),
                path_distinct(start@, cm) ==> distinct_rows(next@),
                path_distinct(start@, cm) ==> forall|t: int|
                    0 <= t < next@.len() ==> exists|i: int|
                        0 <= i < ri && unhop((#[trigger] next@[t])@, ep@, tp@) == (#[trigger] rows@[i])@,
            decreases rows@.len() - ri,
        {
            let row = &rows[ri];
            let ghost next_r = next@;
            let prev_id: Option<String> = match get_binding(row, prev_var.as_str()) {
                Some(Binding::Node(n)) => Some(n.id.clone()),
                _ => None,
            };
            if let Some(pid) = prev_id {
                let label_ref: Option<&str> = match &ep.label {
                    Some(l) => Some(l.as_str()),
                    None => None,
                };
                let edges = match engine.iter_edges_from(pid.as_str(), label_ref) {
                    Ok(v) => v,
                    Err(e) => {
                        return Err(InterpretError::TypeMismatch(engine_error_text(&e)));
                    },
                };
                proof {
                    assert forall|e: EdgeModel| live_edge(g, e) && e.from == pid@ && label_ok(ep@.label, e.label) implies exists|j: int|
                        0 <= j < edges@.len() && (#[trigger] edges@[j])@ == e by {
                        assert(g.edges.contains_key(e.id));
                        assert(crate::engine::edge_passes(
                            crate::engine::FilterModel::From(
                                pid@,
                                match label_ref {
                                    Some(l) => Some(l@),
                                    None => None,
                                },
                            ),
                            g.edges[e.id].0,
                        ));
                        let j = choose|j: int| 0 <= j < edges@.len() && edges@[j]@.id == e.id;
                        assert(edges@[j]@ == g.edges[e.id].0);
                    }
                }
                let mut ei: usize = 0;
                while ei < edges.len()
                    invariant
                        engine.inv(),
                        engine.unchanged(*old(engine)),
                        g == engine.graph(),
                        g == old(engine).graph(),
                        inline.wf(),
                        row_wf(*row),
                        row_in_graph(row@, g),
                        rows_ok(next@, g),
                        h < chain@.len(),
                        cm == crate::query::ast::chain_view(chain@),
                        cm[h as int] == (ep@, tp@),
                        inline@ == map_values_of(ep.properties@, params@),
                        row@.contains_key(hop_source(start@, cm, h as int)),
                        row@[hop_source(start@, cm, h as int)] is Node,
                        row@[hop_source(start@, cm, h as int)]->Node_0.id == pid@,
                        row_from(row@, path_upto(start@, cm, h as int)),
                        path_distinct(start@, cm) ==> path_prefix_ok(row@, start@, cm, h as int, params@),
                        forall|i: int| 0 <= i < edges@.len() ==> (#[trigger] edges@[i])@.from == pid@,
                        forall|i: int|
                            0 <= i < next@.len() ==> row_from((#[trigger] next@[i])@, path_upto(start@, cm, h + 1)) && (
                            path_distinct(start@, cm) ==> path_prefix_ok(next@[i]@, start@, cm, h + 1, params@)),
                        forall|i: int|
                            0 <= i < edges@.len() ==> g.edges.contains_key((#[trigger] edges@[i])@.id)
                                && edges@[i]@ == g.edges[edges@[i]@.id].0 && edges@[i].wf(),
                        forall|k: Seq<char>| #[trigger] g.nodes.contains_key(k) ==> g.nodes[k].0.id == k,
                        forall|k: Seq<char>| #[trigger] g.edges.contains_key(k) ==> g.edges[k].0.id == k,
                        ei <= edges@.len(),
                        ri < rows@.len(),
                        *row == rows@[ri as int],
                        prev_var@ == hop_source(start@, cm, h as int),
                        forall|i: int, e: EdgeModel, t: NodeModel, x: RowModel|
                            0 <= i < ri && #[trigger] hop_step(rows@[i]@, x, e, t, prev_var@, ep@, tp@, params@, g) ==> in_rows(
                                x,
                                next@,
                            ),
                        forall|j: int, t: NodeModel, x: RowModel|
                            0 <= j < ei && #[trigger] hop_step(row@, x, edges@[j]@, t, prev_var@, ep@, tp@, params@, g)
                                ==> in_rows(x, next@),
                        path_distinct(start@, cm) ==> walk(row@, start@, cm, h as nat, params@, g),
                        path_distinct(start@, cm) ==> forall|i: int| 0 <= i < next@.len() ==> walk((#[trigger] next@[i])@, start@, cm, (h + 1) as nat, params@, g),
                        path_distinct(start@, cm) ==> distinct_rows(rows@),
                        path_distinct(start@, cm) ==> distinct_rows(next@),
                        forall|i: int, j: int| 0 <= i < j < edges@.len() ==> (#[trigger] edges@[i])@.id != (#[trigger] edges@[j])@.id,
                        path_distinct(start@, cm) ==> forall|t: int|
                            0 <= t < next@.len() ==> (exists|i: int|
                                0 <= i < ri && unhop((#[trigger] next@[t])@, ep@, tp@) == (#[trigger] rows@[i])@) || (unhop(
                                next@[t]@,
                                ep@,
                                tp@,
                            ) == row@ && next@[t]@.contains_key(ep@.variable) && next@[t]@[ep@.variable] is Edge && exists|j: int|
                                0 <= j < ei && next@[t]@[ep@.variable]->Edge_0.id == (#[trigger] edges@[j])@.id),
                    decreases edges@.len() - ei,
                {
                    let edge = &edges[ei];
                    let ghost next_e = next@;
                    if edge_pattern_matches(ep, edge, &inline) {
                        let target = match engine.get_node(edge.to.as_str()) {
                            Ok(t) => t,
                            Err(e) => {
                                return Err(InterpretError::TypeMismatch(engine_error_text(&e)));
                            },
                        };
                        if let Some(t) = target {
                            if label_matches(&tp.label, t.label.as_str()) {
                                let with_edge = extend_row(row, &ep.variable, Binding::Edge(edge.duplicate()));
                                let new_row = extend_row(&with_edge, &tp.variable, Binding::Node(t));
                                proof {
                                    assert forall|k: Seq<char>| #[trigger] new_row@.contains_key(k) implies match new_row@[k] {
                                        BindModel::Node(n) => g.nodes.contains_key(n.id) && g.nodes[n.id].0 == n,
                                        BindModel::Edge(e) => g.edges.contains_key(e.id) && g.edges[e.id].0 == e,
                                    } by {
                                        if k != tp.variable@ && k != ep.variable@ {
                                            assert(row@.contains_key(k));
                                        }
                                    }
                                }
                                proof {
                                    lemma_from_extend(row@, new_row@, start@, cm, h as int, edge@, t@);
                                    if path_distinct(start@, cm) {
                                        lemma_hop_extend(row@, new_row@, start@, cm, h as int, params@, edge@, t@);
                                        assert(t@.id == edge@.to);
                                        lemma_walk_extend(row@, new_row@, start@, cm, h as nat, params@, g, edge@, t@);
                                    }
                                }
                                let ghost before = next@;
                                let ghost nr = new_row@;
                                proof {
                                    if path_distinct(start@, cm) {
                                        lemma_walk_fresh(row@, start@, cm, h as nat, params@, g);
                                        assert(unhop(nr, ep@, tp@) =~= row@);
                                        assert forall|t: int| 0 <= t < before.len() implies before[t]@ != nr by {
                                            if exists|i: int| 0 <= i < ri && unhop(before[t]@, ep@, tp@) == (#[trigger] rows@[i])@ {
                                                let i = choose|i: int| 0 <= i < ri && unhop(before[t]@, ep@, tp@) == (#[trigger] rows@[i])@;
                                                assert(rows@[i]@ != rows@[ri as int]@);
                                            } else {
                                                let j = choose|j: int| 0 <= j < ei && before[t]@[ep@.variable]->Edge_0.id == (#[trigger] edges@[j])@.id;
                                                assert(edges@[j]@.id != edges@[ei as int]@.id);
                                                assert(nr[ep@.variable] == BindModel::Edge(edge@));
                                            }
                                        }
                                    }
                                }
                                next.push(new_row);
                                proof {
                                    assert(next@[next@.len() - 1]@ == nr);
                                    assert(in_rows(nr, next@));
                                    if path_distinct(start@, cm) {
                                        assert forall|t: int|
                                            0 <= t < next@.len() implies (exists|i: int|
                                            0 <= i < ri && unhop((#[trigger] next@[t])@, ep@, tp@) == (#[trigger] rows@[i])@) || (unhop(
                                            next@[t]@,
                                            ep@,
                                            tp@,
                                        ) == row@ && next@[t]@.contains_key(ep@.variable) && next@[t]@[ep@.variable] is Edge && exists|j: int|
                                            0 <= j < ei + 1 && next@[t]@[ep@.variable]->Edge_0.id == (#[trigger] edges@[j])@.id) by {
                                            if t < before.len() {
                                                assert(next@[t] == before[t]);
                                                if !(exists|i: int| 0 <= i < ri && unhop(before[t]@, ep@, tp@) == (#[trigger] rows@[i])@) {
                                                    let j = choose|j: int| 0 <= j < ei && before[t]@[ep@.variable]->Edge_0.id == (#[trigger] edges@[j])@.id;
                                                }
                                            } else {
                                                assert(nr[ep@.variable] == BindModel::Edge(edge@));
                                                assert(edges@[ei as int]@.id == edge@.id);
                                            }
                                        }
                                    }
                                    assert forall|i: int| path_distinct(start@, cm) && 0 <= i < next@.len() implies walk(
                                        (#[trigger] next@[i])@,
                                        start@,
                                        cm,
                                        (h + 1) as nat,
                                        params@,
                                        g,
                                    ) by {
                                        if i < before.len() {
                                            assert(next@[i] == before[i]);
                                        }
                                    }
                                    assert forall|i: int| 0 <= i < next@.len() implies row_from((#[trigger] next@[i])@, path_upto(start@, cm, h + 1)) && (
                                        path_distinct(start@, cm) ==> path_prefix_ok(next@[i]@, start@, cm, h + 1, params@)) by {
                                        if i < before.len() {
                                            assert(next@[i] == before[i]);
                                        }
                                    }
                                }
                            }
                        }
                    }
                    proof {
                        lemma_rows_grow(next_e, next@);
                        assert forall|t: NodeModel, x: RowModel| #[trigger] hop_step(row@, x, edges@[ei as int]@, t, prev_var@, ep@, tp@, params@, g)
                            implies in_rows(x, next@) by {
                            assert(t == g.nodes[t.id].0);
                        }
                        assert forall|j: int, t: NodeModel, x: RowModel|
                            0 <= j < ei + 1 && #[trigger] hop_step(row@, x, edges@[j]@, t, prev_var@, ep@, tp@, params@, g)
                            implies in_rows(x, next@) by {
                            if j < ei {
                                assert(in_rows(x, next_e));
                            }
                        }
                        assert forall|i: int, e: EdgeModel, t: NodeModel, x: RowModel|
                            0 <= i < ri && #[trigger] hop_step(rows@[i]@, x, e, t, prev_var@, ep@, tp@, params@, g)
                            implies in_rows(x, next@) by {
                            assert(in_rows(x, next_e));
                        }
                    }
                    ei = ei + 1;
                }
                proof {
                    assert forall|i: int, e: EdgeModel, t: NodeModel, x: RowModel|
                        0 <= i < ri + 1 && #[trigger] hop_step(rows@[i]@, x, e, t, prev_var@, ep@, tp@, params@, g)
                        implies in_rows(x, next@) by {
                        if i == ri {
                            let j = choose|j: int| 0 <= j < edges@.len() && (#[trigger] edges@[j])@ == e;
                            assert(hop_step(row@, x, edges@[j]@, t, prev_var@, ep@, tp@, params@, g));
                        }
                    }
                    if path_distinct(start@, cm) {
                        assert forall|t: int|
                            0 <= t < next@.len() implies exists|i: int|
                            0 <= i < ri + 1 && unhop((#[trigger] next@[t])@, ep@, tp@) == (#[trigger] rows@[i])@ by {
                            if !(exists|i: int| 0 <= i < ri && unhop(next@[t]@, ep@, tp@) == (#[trigger] rows@[i])@) {
                                assert(unhop(next@[t]@, ep@, tp@) == rows@[ri as int]@);
                            }
                        }
                    }
                }
            } else {
                proof {
                    assert(next@ == next_r);
                    if path_distinct(start@, cm) {
                        assert forall|t: int|
                            0 <= t < next@.len() implies exists|i: int|
                            0 <= i < ri + 1 && unhop((#[trigger] next@[t])@, ep@, tp@) == (#[trigger] rows@[i])@ by {
                            let i = choose|i: int| 0 <= i < ri && unhop(next@[t]@, ep@, tp@) == (#[trigger] rows@[i])@;
                        }
                    }
                    lemma_rows_grow(next_r, next@);
                    assert forall|i: int, e: EdgeModel, t: NodeModel, x: RowModel|
                        0 <= i < ri + 1 && #[trigger] hop_step(rows@[i]@, x, e, t, prev_var@, ep@, tp@, params@, g)
                        implies in_rows(x, next@) by {
                        if i < ri {
                            assert(in_rows(x, next_r));
                        }
                    }
                }
            }
            ri = ri + 1;
        }
        proof {
            if path_distinct(start@, cm) {
                assert forall|x: RowModel|
                    #[trigger] walk(x, start@, cm, (h + 1) as nat, params@, g) && hint_ok(hint, x, start@.variable)
                    implies in_rows(x, next@) by {
                    let (ns, es) = choose|ns: Seq<NodeModel>, es: Seq<EdgeModel>|
                        walks(start@, cm, ns, es, (h + 1) as nat, params@, g) && x == #[trigger] walk_row(start@, cm, ns, es, (h + 1) as nat);
                    let r0 = walk_row(start@, cm, ns, es, h as nat);
                    assert(hop_at(cm, ns, es, h as int, params@, g));
                    assert(walks(start@, cm, ns, es, h as nat, params@, g));
                    assert(walk(r0, start@, cm, h as nat, params@, g));
                    lemma_walk_source(start@, cm, ns, es, h as nat);
                    assert(x == r0.insert(cm[h as int].0.variable, BindModel::Edge(es[h as int])).insert(
                        cm[h as int].1.variable,
                        BindModel::Node(ns[h + 1]),
                    ));
                    assert(cm[h as int].0.variable != start@.variable && cm[h as int].1.variable != start@.variable);
                    assert(x[start@.variable] == r0[start@.variable]);
                    assert(hint_ok(hint, r0, start@.variable));
                    assert(in_rows(r0, rows@));
                    let k = choose|k: int| 0 <= k < rows@.len() && (#[trigger] rows@[k])@ == r0;
                    assert(hop_step(rows@[k]@, x, es[h as int], ns[h + 1], prev_var@, ep@, tp@, params@, g));
                }
            }
        }
        rows = next;
        prev_var = tp.variable.clone();
        let ghost h0 = h;
        h = h + 1;
        proof {
            assert(h as nat == (h0 + 1) as nat);
            assert(path_distinct(start@, cm) ==> forall|x: RowModel|
                #[trigger] walk(x, start@, cm, h as nat, params@, g) && hint_ok(hint, x, start@.variable) ==> in_rows(x, rows@));
        }
    }
    proof {
        assert(cm.subrange(0, cm.len() as int) =~= cm);
    }
    Ok(rows)
}

/// A row with the bindings of `a`, and those of `b` for variables `a`
/// does not bind; `None` when a shared variable is bound to entities of
/// different ids.
fn unify(a: &Bindings, b: &Bindings) -> (r: Option<Bindings>)
    requires
        row_wf(*a),
        row_wf(*b),
    ensures
        r is Some <==> forall|k: Seq<char>|
            #[trigger] b@.contains_key(k) && a@.contains_key(k) ==> bind_id(a@[k]) == bind_id(b@[k]),
        r matches Some(m) ==> row_wf(m) && m@ == b@.union_prefer_right(a@),
{
    proof {
        a.lemma_view();
        b.lemma_view();
    }
    let n = b.len();
    let mut i: usize = 0;
    while i < n
        invariant
            row_wf(*a),
            row_wf(*b),
            n == b.pairs().len(),
            i <= n,
            forall|j2: int|
                #![trigger b.pairs()[j2]]
                0 <= j2 < b.pairs().len() ==> b@.contains_key(b.pairs()[j2].0@)
                    && b@[b.pairs()[j2].0@] == b.pairs()[j2].1@,
            forall|j2: int|
                0 <= j2 < i ==> a@.contains_key((#[trigger] b.pairs()[j2]).0@) ==> bind_id(a@[b.pairs()[j2].0@])
                    == bind_id(b.pairs()[j2].1@),
        decreases n - i,
    {
        let (k, v) = b.entry(i);
        match get_binding(a, k.as_str()) {
            Some(existing) => {
                if !str_eq(existing.id(), v.id()) {
                    proof {
                        assert(b@.contains_key(b.pairs()[i as int].0@));
                    }
                    return None;
                }
            },
            None => {},
        }
        i = i + 1;
    }
    proof {
        assert forall|k: Seq<char>| #[trigger] b@.contains_key(k) && a@.contains_key(k) implies bind_id(a@[k])
            == bind_id(b@[k]) by {
            let j = choose|j: int| 0 <= j < b.pairs().len() && b.pairs()[j].0@ == k;
            assert(b@.contains_key(b.pairs()[j].0@));
        }
    }
    let mut out = copy_row(a);
    let mut j: usize = 0;
    while j < n
        invariant
            row_wf(*a),
            row_wf(*b),
            n == b.pairs().len(),
            j <= n,
            row_wf(out),
            forall|j2: int|
                #![trigger b.pairs()[j2]]
                0 <= j2 < b.pairs().len() ==> b@.contains_key(b.pairs()[j2].0@)
                    && b@[b.pairs()[j2].0@] == b.pairs()[j2].1@,
            forall|k: Seq<char>| #[trigger] b@.contains_key(k) ==> exists|x: int|
                0 <= x < b.pairs().len() && b.pairs()[x].0@ == k,
            crate::strmap::distinct_keys(b.pairs()),
            out@ == crate::strmap::entries_map(b.pairs().subrange(0, j as int)).union_prefer_right(a@),
        decreases n - j,
    {
        let (k, v) = b.entry(j);
        assert(b.pairs()[j as int].1.wf());
        proof {
            assert(b@.contains_key(b.pairs()[j as int].0@));
            let sub = b.pairs().subrange(0, j + 1 as int);
            assert(sub.drop_last() =~= b.pairs().subrange(0, j as int));
            let pre = b.pairs().subrange(0, j as int);
            crate::strmap::lemma_entries_map(pre);
            if crate::strmap::entries_map(pre).contains_key(k@) {
                let x = choose|x: int| 0 <= x < pre.len() && pre[x].0@ == k@;
                assert(b.pairs()[x].0@ == b.pairs()[j as int].0@);
            }
        }
        if !out.contains_key(k.as_str()) {
            let c = v.duplicate();
            let ghost cv = c;
            let ghost before = out;
            out.insert(k.clone(), c);
            proof {
                assert forall|x: int| 0 <= x < out.pairs().len() implies (#[trigger] out.pairs()[x]).1.wf() by {
                    if x < before.pairs().len() && out.pairs()[x] == before.pairs()[x] {
                    } else {
                        assert(out.pairs()[x].1 == cv);
                    }
                }
                assert(out@ =~= crate::strmap::entries_map(b.pairs().subrange(0, j + 1 as int)).union_prefer_right(a@));
            }
        } else {
            proof {
                assert(out@ =~= crate::strmap::entries_map(b.pairs().subrange(0, j + 1 as int)).union_prefer_right(a@));
            }
        }
        j = j + 1;
    }
    proof {
        assert(b.pairs().subrange(0, n as int) =~= b.pairs());
        b.lemma_pairs_view();
    }
    Some(out)
}

/// What a `WHERE` clause says of a row: no clause holds, `NULL` does not
/// hold, a non-boolean is an error.
pub open spec fn pred_spec(
    w: Option<ExprModel>,
    row: RowModel,
    params: Map<Seq<char>, ValueModel>,
    g: GraphModel,
) -> Result<bool, IErr> {
    match w {
        None => Ok(true),
        Some(e) => match eval_spec(e, row, params, g) {
            Ok(ValueModel::Bool(b)) => Ok(b),
            Ok(ValueModel::Null) => Ok(false),
            Ok(other) => Err(IErr::ExpectedBool(crate::value::type_name_of(other))),
            Err(x) => Err(x),
        },
    }
}

fn eval_predicate<S: Storage>(
    w: &Option<Expr>,
    row: &Bindings,
    params: &Params,
    engine: &Engine<S>,
) -> (r: Result<bool, InterpretError>)
    requires
        row_wf(*row),
        params.wf(),
        engine.inv(),
    ensures
        match (r, pred_spec(crate::query::ast::opt_expr_view(*w), row@, params@, engine.graph())) {
            (Ok(b), Ok(c)) => b == c,
            (Err(e), Err(x)) => e@ == x,
            _ => false,
        },
        r matches Err(e) ==> !crate::query::eval::is_delete_error(e@),
{
    match w {
        None => Ok(true),
        Some(e) => {
            let v = eval_expr(e, row, params, engine)?;
            match v {
                Value::Bool(b) => Ok(b),
                Value::Null => Ok(false),
                other => Err(InterpretError::ExpectedBool(other.kind_name())),
            }
        },
    }
}

/// The patterns as models.
pub open spec fn patterns_model(ps: Seq<Pattern>) -> Seq<PathModel> {
    ps.map_values(|p: Pattern| p@)
}

/// `row` binds only variables the patterns name and, where the patterns
/// are simple, meets every one of them.
pub open spec fn row_matches(row: RowModel, ps: Seq<PathModel>, params: Map<Seq<char>, ValueModel>) -> bool {
    &&& row_from_all(row, ps)
    &&& patterns_simple(ps) ==> forall|p: int| 0 <= p < ps.len() ==> #[trigger] pattern_ok(row, ps[p], params)
}

/// A pattern keeps holding in a row that keeps every binding.
proof fn lemma_pattern_ok_mono(a: RowModel, m: RowModel, p: PathModel, params: Map<Seq<char>, ValueModel>)
    requires
        pattern_ok(a, p, params),
        forall|k: Seq<char>| #[trigger] a.contains_key(k) ==> m.contains_key(k) && m[k] == a[k],
    ensures
        pattern_ok(m, p, params),
{
    match p {
        PathModel::Node(n) => {
            assert(a.contains_key(n.variable));
        },
        PathModel::Path { start, chain } => {
            assert(a.contains_key(start.variable));
            assert forall|h: int| 0 <= h < chain.len() implies #[trigger] hop_ok(
                m,
                hop_source(start, chain, h),
                chain[h].0,
                chain[h].1,
                map_values_of(chain[h].0.properties, params),
            ) by {
                assert(hop_ok(a, hop_source(start, chain, h), chain[h].0, chain[h].1, map_values_of(chain[h].0.properties, params)));
                assert(a.contains_key(chain[h].0.variable));
                assert(a.contains_key(chain[h].1.variable));
                assert(a.contains_key(hop_source(start, chain, h)));
            }
        },
    }
}

/// Joining a row of the first `pi` patterns with a candidate of pattern
/// `pi` gives a row of the first `pi + 1`.
proof fn lemma_join_rows(
    a: RowModel,
    b: RowModel,
    ps: Seq<PathModel>,
    pi: int,
    params: Map<Seq<char>, ValueModel>,
    g: GraphModel,
)
    requires
        0 <= pi < ps.len(),
        row_from_all(a, ps.subrange(0, pi)),
        row_from(b, ps[pi]),
        row_in_graph(a, g),
        row_in_graph(b, g),
        forall|k: Seq<char>| #[trigger] b.contains_key(k) && a.contains_key(k) ==> bind_id(a[k]) == bind_id(b[k]),
        patterns_simple(ps) ==> forall|p: int| 0 <= p < pi ==> #[trigger] pattern_ok(a, ps[p], params),
        patterns_simple(ps) ==> pattern_ok(b, ps[pi], params),
    ensures
        row_from_all(b.union_prefer_right(a), ps.subrange(0, pi + 1)),
        patterns_simple(ps) ==> forall|p: int| 0 <= p < pi + 1 ==> #[trigger] pattern_ok(b.union_prefer_right(a), ps[p], params),
{
    let m = b.union_prefer_right(a);
    let s0 = ps.subrange(0, pi);
    let s1 = ps.subrange(0, pi + 1);
    assert forall|k: Seq<char>| #[trigger] m.contains_key(k) implies exists|i: int|
        0 <= i < s1.len() && if m[k] is Edge {
            edge_var(#[trigger] s1[i], k)
        } else {
            node_var(s1[i], k)
        } by {
        if a.contains_key(k) {
            let i = choose|i: int| 0 <= i < s0.len() && if a[k] is Edge {
                edge_var(#[trigger] s0[i], k)
            } else {
                node_var(s0[i], k)
            };
            assert(s1[i] == s0[i]);
        } else {
            assert(s1[pi] == ps[pi]);
        }
    }
    if patterns_simple(ps) {
        assert forall|k: Seq<char>| #[trigger] a.contains_key(k) implies m.contains_key(k) && m[k] == a[k] by {}
        assert forall|k: Seq<char>| #[trigger] b.contains_key(k) implies m.contains_key(k) && m[k] == b[k] by {
            if a.contains_key(k) {
                let i = choose|i: int| 0 <= i < s0.len() && if a[k] is Edge {
                    edge_var(#[trigger] s0[i], k)
                } else {
                    node_var(s0[i], k)
                };
                assert(s0[i] == ps[i]);
                if a[k] is Edge {
                    assert(edge_var(ps[i], k));
                    if b[k] is Node {
                        assert(node_var(ps[pi], k));
                    }
                } else {
                    assert(node_var(ps[i], k));
                    if b[k] is Edge {
                        assert(edge_var(ps[pi], k));
                    }
                }
                assert(row_in_graph(a, g) && a.contains_key(k));
                assert(row_in_graph(b, g) && b.contains_key(k));
            }
        }
        assert forall|p: int| 0 <= p < pi + 1 implies #[trigger] pattern_ok(m, ps[p], params) by {
            if p < pi {
                lemma_pattern_ok_mono(a, m, ps[p], params);
            } else {
                lemma_pattern_ok_mono(b, m, ps[p], params);
            }
        }
    }
}

/// Patterns whose property maps are well formed.
pub open spec fn patterns_wf(ps: Seq<Pattern>) -> bool {
    forall|i: int|
        0 <= i < ps.len() ==> match #[trigger] ps[i] {
            Pattern::Node(n) => n.properties.wf(),
            Pattern::Path { start, chain } => start.properties.wf() && forall|j: int|
                0 <= j < chain@.len() ==> (#[trigger] chain@[j]).0.properties.wf(),
        }
}

/// `x` joins row `i` with the compatible candidate `c`.
pub open spec fn joined_from(x: RowModel, rows: Seq<Bindings>, cands: Seq<Bindings>, i: int, c: int) -> bool {
    &&& 0 <= i < rows.len()
    &&& 0 <= c < cands.len()
    &&& compatible(rows[i]@, cands[c]@)
    &&& x == cands[c]@.union_prefer_right(rows[i]@)
}

/// `x` joins a row before `ri` with a compatible candidate, or row `ri`
/// with a candidate before `ci`.
pub open spec fn join_source(x: RowModel, rows: Seq<Bindings>, cands: Seq<Bindings>, ri: int, ci: int) -> bool {
    exists|i: int, c: int| (i < ri || (i == ri && c < ci)) && #[trigger] joined_from(x, rows, cands, i, c)
}

/// A source found earlier is still one later.
proof fn lemma_join_source_mono(
    x: RowModel,
    rows: Seq<Bindings>,
    cands: Seq<Bindings>,
    ri: int,
    ci: int,
    ri2: int,
    ci2: int,
)
    requires
        join_source(x, rows, cands, ri, ci),
        ri < ri2 || (ri == ri2 && ci <= ci2),
        ci <= cands.len(),
    ensures
        join_source(x, rows, cands, ri2, ci2),
{
    let (i, c) = choose|i: int, c: int| (i < ri || (i == ri && c < ci)) && #[trigger] joined_from(x, rows, cands, i, c);
    assert(joined_from(x, rows, cands, i, c));
}

/// The rows that match every pattern, joined on shared variables, and
/// satisfy `WHERE`; with a limit, at most that many (at least one is
/// always taken before the limit is checked).
#[verifier::rlimit(60)]
fn find_match_rows<S: Storage>(
    engine: &mut Engine<S>,
    patterns: &Vec<Pattern>,
    where_clause: &Option<Expr>,
    params: &Params,
    limit: Option<u64>,
) -> (r: Result<Vec<Bindings>, InterpretError>)
    requires
        old(engine).inv(),
        params.wf(),
        patterns_wf(patterns@),
    ensures
        final(engine).inv(),
        final(engine).unchanged(*old(engine)),
        r matches Ok(rows) ==> rows_ok(rows@, old(engine).graph()) && (forall|i: int|
            0 <= i < rows@.len() ==> pred_spec(
                crate::query::ast::opt_expr_view(*where_clause),
                (#[trigger] rows@[i])@,
                params@,
                old(engine).graph(),
            ) == Ok::<bool, IErr>(true)) && (limit matches Some(l) ==> rows@.len() <= l || rows@.len()
            <= 1) && (forall|i: int|
            0 <= i < rows@.len() ==> row_matches((#[trigger] rows@[i])@, patterns_model(patterns@), params@)) && (
        patterns_simple(patterns_model(patterns@)) && !(limit matches Some(l) && rows@.len() >= l) ==> forall|m: RowModel|
            #[trigger] is_match(
                m,
                patterns_model(patterns@),
                crate::query::ast::opt_expr_view(*where_clause),
                params@,
                old(engine).graph(),
            ) ==> in_rows(m, rows@)) && (patterns_simple(patterns_model(patterns@)) ==> forall|i: int|
            0 <= i < rows@.len() ==> is_match(
                (#[trigger] rows@[i])@,
                patterns_model(patterns@),
                crate::query::ast::opt_expr_view(*where_clause),
                params@,
                old(engine).graph(),
            )),
        r matches Ok(rows) ==> (patterns_simple(patterns_model(patterns@)) ==> distinct_rows(rows@)),
        r matches Err(e) ==> !crate::query::eval::is_delete_error(e@),
        r is Err ==> !old(engine).reliable() || !patterns_simple(patterns_model(patterns@)) || find_fails(
            patterns_model(patterns@),
            crate::query::ast::opt_expr_view(*where_clause),
            params@,
            old(engine).graph(),
        ),
{
    let ghost g = engine.graph();
    let ghost ps = patterns_model(patterns@);
    let ghost wv = crate::query::ast::opt_expr_view(*where_clause);
    let mut rows: Vec<Bindings> = Vec::new();
    let first: Bindings = StrMap::new();
    rows.push(first);
    proof {
        assert forall|m: RowModel| #[trigger] joined(m, ps, 0, params@, g) && hints_ok(m, ps, 0, wv, params@) implies in_rows(m, rows@) by {
            let bs = choose|bs: Seq<RowModel>| joins(bs, ps, 0, params@, g) && m == #[trigger] fold_rows(bs, 0);
            assert(rows@[0]@ == m);
        }
        assert(fold_rows(Seq::<RowModel>::empty(), 0) == rows@[0]@);
        assert(joins(Seq::<RowModel>::empty(), ps, 0, params@, g));
        assert(joined(rows@[0]@, ps, 0, params@, g));
    }
    let mut pi: usize = 0;
    while pi < patterns.len()
        invariant
            engine.inv(),
            engine.unchanged(*old(engine)),
            g == engine.graph(),
            g == old(engine).graph(),
            params.wf(),
            patterns_wf(patterns@),
            rows_ok(rows@, g),
            pi <= patterns@.len(),
            ps == patterns_model(patterns@),
            forall|i: int|
                0 <= i < rows@.len() ==> row_from_all((#[trigger] rows@[i])@, ps.subrange(0, pi as int)) && (
                patterns_simple(ps) ==> forall|p: int| 0 <= p < pi ==> #[trigger] pattern_ok(rows@[i]@, ps[p], params@)),
            wv == crate::query::ast::opt_expr_view(*where_clause),
            patterns_simple(ps) ==> forall|m: RowModel|
                #[trigger] joined(m, ps, pi as nat, params@, g) && hints_ok(m, ps, pi as int, wv, params@) ==> in_rows(m, rows@),
            patterns_simple(ps) ==> forall|i: int| 0 <= i < rows@.len() ==> joined((#[trigger] rows@[i])@, ps, pi as nat, params@, g),
            engine.reliable() == old(engine).reliable(),
            patterns_simple(ps) ==> distinct_rows(rows@),
        decreases patterns@.len() - pi,
    {
        let candidates = match &patterns[pi] {
            Pattern::Node(np) => {
                let c = node_candidates(engine, np, where_clause, params);
                match c {
                    Ok(c) => c,
                    Err(e) => {
                        proof {
                            assert(ps[pi as int] == patterns@[pi as int]@);
                            if old(engine).reliable() {
                                assert(clause_hint(wv, start_var(ps[pi as int]), params@) is Err);
                            }
                        }
                        return Err(e);
                    },
                }
            },
            Pattern::Path { start, chain } => {
                let c = path_candidates(engine, start, chain, where_clause, params);
                match c {
                    Ok(c) => c,
                    Err(e) => {
                        proof {
                            assert(ps[pi as int] == patterns@[pi as int]@);
                            if old(engine).reliable() && clause_hint(wv, start_var(ps[pi as int]), params@) is Ok {
                                let h = choose|h: int| 0 <= h < chain@.len() && !map_evaluates((#[trigger] chain@[h]).0.properties@, params@);
                                assert(crate::query::ast::chain_view(chain@)[h] == (chain@[h].0@, chain@[h].1@));
                                assert(hop_inline_fails(ps[pi as int], h, params@));
                            }
                        }
                        return Err(e);
                    },
                }
            },
        };
        proof {
            assert(ps[pi as int] == patterns@[pi as int]@);
            assert(patterns_simple(ps) ==> match ps[pi as int] {
                PathModel::Node(_) => true,
                PathModel::Path { start, chain } => path_distinct(start, chain),
            });
            if patterns_simple(ps) {
                match patterns@[pi as int] {
                    Pattern::Node(np) => {},
                    Pattern::Path { start, chain } => {
                        assert(path_distinct(start@, crate::query::ast::chain_view(chain@)));
                    },
                }
                assert(distinct_rows(candidates@));
                assert forall|c: int| 0 <= c < candidates@.len() implies #[trigger] alone(candidates@[c]@, ps[pi as int], params@, g) by {
                    match patterns@[pi as int] {
                        Pattern::Node(np) => {},
                        Pattern::Path { start, chain } => {
                            assert(walk(candidates@[c]@, start@, crate::query::ast::chain_view(chain@), chain@.len() as nat, params@, g));
                        },
                    }
                }
                let sv = start_var(ps[pi as int]);
                let h = clause_hint(wv, sv, params@);
                assert forall|b: RowModel| #[trigger] alone(b, ps[pi as int], params@, g) && hint_ok(h, b, sv) implies in_rows(
                    b,
                    candidates@,
                ) by {
                    match patterns@[pi as int] {
                        Pattern::Node(np) => {
                            assert(ps[pi as int] == PathModel::Node(np@));
                            let n = choose|n: NodeModel|
                                live_node(g, n) && label_ok(np@.label, n.label) && b == #[trigger] node_row(np@.variable, n);
                            assert(node_rows_complete(candidates@, np@, h, g));
                            assert(hint_ok(h, node_row(np@.variable, n), np@.variable));
                            assert(exists|i: int| 0 <= i < candidates@.len() && (#[trigger] candidates@[i])@ == node_row(np@.variable, n));
                            let i = choose|i: int| 0 <= i < candidates@.len() && (#[trigger] candidates@[i])@ == node_row(np@.variable, n);
                            assert(in_rows(b, candidates@));
                        },
                        Pattern::Path { start, chain } => {
                            assert(ps[pi as int] == PathModel::Path { start: start@, chain: crate::query::ast::chain_view(chain@) });
                            assert(path_distinct(start@, crate::query::ast::chain_view(chain@)));
                            assert(walk(b, start@, crate::query::ast::chain_view(chain@), chain@.len() as nat, params@, g));
                            assert(sv == start.variable@);
                            assert(hint_ok(clause_hint(crate::query::ast::opt_expr_view(*where_clause), start.variable@, params@), b, start.variable@));
                            assert(in_rows(b, candidates@));
                        },
                    }
                }
            }
        }
        let mut next: Vec<Bindings> = Vec::new();
        let mut ri: usize = 0;
        while ri < rows.len()
            invariant
                rows_ok(rows@, g),
                rows_ok(candidates@, g),
                rows_ok(next@, g),
                ri <= rows@.len(),
                pi < patterns@.len(),
                ps == patterns_model(patterns@),
                forall|i: int|
                    0 <= i < rows@.len() ==> row_from_all((#[trigger] rows@[i])@, ps.subrange(0, pi as int)) && (
                    patterns_simple(ps) ==> forall|p: int| 0 <= p < pi ==> #[trigger] pattern_ok(rows@[i]@, ps[p], params@)),
                forall|i: int|
                    0 <= i < candidates@.len() ==> row_from((#[trigger] candidates@[i])@, ps[pi as int]) && (
                    patterns_simple(ps) ==> pattern_ok(candidates@[i]@, ps[pi as int], params@)),
                forall|i: int|
                    0 <= i < next@.len() ==> row_from_all((#[trigger] next@[i])@, ps.subrange(0, pi + 1)) && (
                    patterns_simple(ps) ==> forall|p: int| 0 <= p < pi + 1 ==> #[trigger] pattern_ok(next@[i]@, ps[p], params@)),
                forall|i: int, c: int|
                    #![trigger rows@[i], candidates@[c]]
                    0 <= i < ri && 0 <= c < candidates@.len() && compatible(rows@[i]@, candidates@[c]@) ==> in_rows(
                        candidates@[c]@.union_prefer_right(rows@[i]@),
                        next@,
                    ),
                patterns_simple(ps) ==> forall|i: int| 0 <= i < rows@.len() ==> joined((#[trigger] rows@[i])@, ps, pi as nat, params@, g),
                patterns_simple(ps) ==> forall|c: int| 0 <= c < candidates@.len() ==> #[trigger] alone(candidates@[c]@, ps[pi as int], params@, g),
                patterns_simple(ps) ==> forall|i: int| 0 <= i < next@.len() ==> joined((#[trigger] next@[i])@, ps, (pi + 1) as nat, params@, g),
                patterns_simple(ps) ==> distinct_rows(rows@) && distinct_rows(candidates@) && distinct_rows(next@),
                forall|t: int| 0 <= t < next@.len() ==> #[trigger] join_source(next@[t]@, rows@, candidates@, ri as int, 0),
            decreases rows@.len() - ri,
        {
            let mut ci: usize = 0;
            while ci < candidates.len()
                invariant
                    rows_ok(rows@, g),
                    rows_ok(candidates@, g),
                    rows_ok(next@, g),
                    ri < rows@.len(),
                    ci <= candidates@.len(),
                    pi < patterns@.len(),
                    ps == patterns_model(patterns@),
                ps == patterns_model(patterns@),
                    forall|i: int|
                        0 <= i < rows@.len() ==> row_from_all((#[trigger] rows@[i])@, ps.subrange(0, pi as int)) && (
                        patterns_simple(ps) ==> forall|p: int| 0 <= p < pi ==> #[trigger] pattern_ok(rows@[i]@, ps[p], params@)),
                    forall|i: int|
                        0 <= i < candidates@.len() ==> row_from((#[trigger] candidates@[i])@, ps[pi as int]) && (
                        patterns_simple(ps) ==> pattern_ok(candidates@[i]@, ps[pi as int], params@)),
                    forall|i: int|
                        0 <= i < next@.len() ==> row_from_all((#[trigger] next@[i])@, ps.subrange(0, pi + 1)) && (
                        patterns_simple(ps) ==> forall|p: int| 0 <= p < pi + 1 ==> #[trigger] pattern_ok(next@[i]@, ps[p], params@)),
                    forall|i: int, c: int|
                        #![trigger rows@[i], candidates@[c]]
                        0 <= i < ri && 0 <= c < candidates@.len() && compatible(rows@[i]@, candidates@[c]@) ==> in_rows(
                            candidates@[c]@.union_prefer_right(rows@[i]@),
                            next@,
                        ),
                    forall|c: int|
                        0 <= c < ci && compatible(rows@[ri as int]@, (#[trigger] candidates@[c])@) ==> in_rows(
                            candidates@[c]@.union_prefer_right(rows@[ri as int]@),
                            next@,
                        ),
                    patterns_simple(ps) ==> forall|i: int| 0 <= i < rows@.len() ==> joined((#[trigger] rows@[i])@, ps, pi as nat, params@, g),
                    patterns_simple(ps) ==> forall|c: int| 0 <= c < candidates@.len() ==> #[trigger] alone(candidates@[c]@, ps[pi as int], params@, g),
                    patterns_simple(ps) ==> forall|i: int| 0 <= i < next@.len() ==> joined((#[trigger] next@[i])@, ps, (pi + 1) as nat, params@, g),
                    patterns_simple(ps) ==> distinct_rows(rows@) && distinct_rows(candidates@) && distinct_rows(next@),
                    forall|t: int| 0 <= t < next@.len() ==> #[trigger] join_source(next@[t]@, rows@, candidates@, ri as int, ci as int),
                decreases candidates@.len() - ci,
            {
                let ghost next0 = next@;
                match unify(&rows[ri], &candidates[ci]) {
                    Some(m) => {
                        proof {
                            assert(row_in_graph(rows@[ri as int]@, g));
                            assert(row_in_graph(candidates@[ci as int]@, g));
                            assert forall|k: Seq<char>| #[trigger] m@.contains_key(k) implies match m@[k] {
                                BindModel::Node(n) => g.nodes.contains_key(n.id) && g.nodes[n.id].0 == n,
                                BindModel::Edge(e) => g.edges.contains_key(e.id) && g.edges[e.id].0 == e,
                            } by {
                                if rows@[ri as int]@.contains_key(k) && m@[k] == rows@[ri as int]@[k] {
                                } else {
                                    assert(candidates@[ci as int]@.contains_key(k));
                                }
                            }
                        }
                        proof {
                            lemma_join_rows(rows@[ri as int]@, candidates@[ci as int]@, ps, pi as int, params@, g);
                            if patterns_simple(ps) {
                                assert(joined(rows@[ri as int]@, ps, pi as nat, params@, g));
                                assert(alone(candidates@[ci as int]@, ps[pi as int], params@, g));
                                lemma_joined_extend(rows@[ri as int]@, candidates@[ci as int]@, ps, pi as nat, params@, g);
                            }
                        }
                        let ghost before = next@;
                        let ghost mv = m@;
                        proof {
                            if patterns_simple(ps) {
                                assert forall|t: int| 0 <= t < before.len() implies before[t]@ != mv by {
                                    assert(join_source(before[t]@, rows@, candidates@, ri as int, ci as int));
                                    let (i, c) = choose|i: int, c: int|
                                        (i < ri || (i == ri && c < ci)) && #[trigger] joined_from(before[t]@, rows@, candidates@, i, c);
                                    if before[t]@ == mv {
                                        assert(row_from(candidates@[c]@, ps[pi as int]));
                                        assert(row_from(candidates@[ci as int]@, ps[pi as int]));
                                        assert(row_in_graph(candidates@[c]@, g));
                                        lemma_join_injective(
                                            rows@[i]@,
                                            candidates@[c]@,
                                            rows@[ri as int]@,
                                            candidates@[ci as int]@,
                                            ps,
                                            pi as nat,
                                            params@,
                                            g,
                                        );
                                        assert(false);
                                    }
                                }
                            }
                        }
                        next.push(m);
                        proof {
                            assert forall|i: int| 0 <= i < next@.len() implies row_from_all((#[trigger] next@[i])@, ps.subrange(0, pi + 1)) && (
                                patterns_simple(ps) ==> forall|p: int| 0 <= p < pi + 1 ==> #[trigger] pattern_ok(next@[i]@, ps[p], params@)) && (
                                patterns_simple(ps) ==> joined(next@[i]@, ps, (pi + 1) as nat, params@, g)) by {
                                if i < before.len() {
                                    assert(next@[i] == before[i]);
                                }
                            }
                        }
                    },
                    None => {},
                }
                proof {
                    assert forall|t: int| 0 <= t < next@.len() implies #[trigger] join_source(
                        next@[t]@,
                        rows@,
                        candidates@,
                        ri as int,
                        ci + 1,
                    ) by {
                        if t < next0.len() {
                            assert(next@[t] == next0[t]);
                            assert(join_source(next0[t]@, rows@, candidates@, ri as int, ci as int));
                            lemma_join_source_mono(next@[t]@, rows@, candidates@, ri as int, ci as int, ri as int, ci + 1);
                        } else {
                            assert(joined_from(next@[t]@, rows@, candidates@, ri as int, ci as int));
                        }
                    }
                    lemma_rows_grow(next0, next@);
                    assert forall|c: int|
                        0 <= c < ci + 1 && compatible(rows@[ri as int]@, (#[trigger] candidates@[c])@) implies in_rows(
                            candidates@[c]@.union_prefer_right(rows@[ri as int]@),
                            next@,
                        ) by {
                        if c < ci {
                            assert(in_rows(candidates@[c]@.union_prefer_right(rows@[ri as int]@), next0));
                        } else {
                            assert(next@[next@.len() - 1]@ == candidates@[c]@.union_prefer_right(rows@[ri as int]@));
                        }
                    }
                    assert forall|i: int, c: int|
                        #![trigger rows@[i], candidates@[c]]
                        0 <= i < ri && 0 <= c < candidates@.len() && compatible(rows@[i]@, candidates@[c]@) implies in_rows(
                            candidates@[c]@.union_prefer_right(rows@[i]@),
                            next@,
                        ) by {
                        assert(in_rows(candidates@[c]@.union_prefer_right(rows@[i]@), next0));
                    }
                }
                ci = ci + 1;
            }
            proof {
                assert forall|t: int| 0 <= t < next@.len() implies #[trigger] join_source(
                    next@[t]@,
                    rows@,
                    candidates@,
                    ri + 1,
                    0,
                ) by {
                    lemma_join_source_mono(next@[t]@, rows@, candidates@, ri as int, ci as int, ri + 1, 0);
                }
            }
            ri = ri + 1;
        }
        proof {
            if patterns_simple(ps) {
                assert forall|m: RowModel|
                    #[trigger] joined(m, ps, (pi + 1) as nat, params@, g) && hints_ok(m, ps, pi + 1, wv, params@) implies in_rows(
                    m,
                    next@,
                ) by {
                    let (a, b) = lemma_joined_step(m, ps, pi as nat, wv, params@, g);
                    assert(in_rows(a, rows@));
                    assert(in_rows(b, candidates@));
                    let i = choose|i: int| 0 <= i < rows@.len() && (#[trigger] rows@[i])@ == a;
                    let c = choose|c: int| 0 <= c < candidates@.len() && (#[trigger] candidates@[c])@ == b;
                    assert(compatible(rows@[i]@, candidates@[c]@));
                }
            }
        }
        rows = next;
        if rows.len() == 0 {
            proof {
                if patterns_simple(ps) {
                    assert forall|m: RowModel| #[trigger] is_match(m, ps, wv, params@, g) implies in_rows(m, rows@) by {
                        lemma_hints_hold(m, ps, wv, params@, g);
                        let a = lemma_joined_prefix(m, ps, ps.len(), (pi + 1) as nat, wv, params@, g);
                        assert(in_rows(a, rows@));
                    }
                }
            }
            return Ok(rows);
        }
        let ghost pi0 = pi;
        pi = pi + 1;
        proof {
            assert(pi as nat == (pi0 + 1) as nat);
            assert(patterns_simple(ps) ==> forall|i: int| 0 <= i < rows@.len() ==> joined((#[trigger] rows@[i])@, ps, pi as nat, params@, g));
            assert(patterns_simple(ps) ==> forall|m: RowModel|
                #[trigger] joined(m, ps, pi as nat, params@, g) && hints_ok(m, ps, pi as int, wv, params@) ==> in_rows(m, rows@));
        }
    }
    proof {
        assert(ps.subrange(0, ps.len() as int) =~= ps);
        assert forall|t: int| 0 <= t < rows@.len() implies row_matches((#[trigger] rows@[t])@, ps, params@) by {
            assert(row_from_all(rows@[t]@, ps.subrange(0, pi as int)));
        }
    }
    let mut out: Vec<Bindings> = Vec::new();
    let mut i: usize = 0;
    while i < rows.len()
        invariant
            engine.inv(),
            engine.unchanged(*old(engine)),
            g == engine.graph(),
            params.wf(),
            rows_ok(rows@, g),
            rows_ok(out@, g),
            i <= rows@.len(),
            forall|t: int|
                0 <= t < out@.len() ==> pred_spec(
                    crate::query::ast::opt_expr_view(*where_clause),
                    (#[trigger] out@[t])@,
                    params@,
                    g,
                ) == Ok::<bool, IErr>(true),
            limit matches Some(l) ==> out@.len() <= l || out@.len() <= 1,
            limit matches Some(l) ==> out@.len() < l || out@.len() == 0,
            ps == patterns_model(patterns@),
            forall|t: int| 0 <= t < rows@.len() ==> row_matches((#[trigger] rows@[t])@, ps, params@),
            forall|t: int| 0 <= t < out@.len() ==> row_matches((#[trigger] out@[t])@, ps, params@),
            wv == crate::query::ast::opt_expr_view(*where_clause),
            patterns_simple(ps) ==> forall|m: RowModel|
                #[trigger] joined(m, ps, ps.len(), params@, g) && hints_ok(m, ps, ps.len() as int, wv, params@) ==> in_rows(m, rows@),
            forall|t: int|
                0 <= t < i && pred_spec(wv, (#[trigger] rows@[t])@, params@, g) == Ok::<bool, IErr>(true) ==> in_rows(rows@[t]@, out@),
            patterns_simple(ps) ==> forall|t: int| 0 <= t < rows@.len() ==> joined((#[trigger] rows@[t])@, ps, ps.len(), params@, g),
            patterns_simple(ps) ==> forall|t: int| 0 <= t < out@.len() ==> is_match((#[trigger] out@[t])@, ps, wv, params@, g),
            engine.reliable() == old(engine).reliable(),
            patterns_simple(ps) ==> distinct_rows(rows@) && distinct_rows(out@),
            forall|t: int| 0 <= t < out@.len() ==> exists|k: int| 0 <= k < i && (#[trigger] out@[t])@ == (#[trigger] rows@[k])@,
        decreases rows@.len() - i,
    {
        let ghost out0 = out@;
        let keep = match eval_predicate(where_clause, &rows[i], params, engine) {
            Ok(k) => k,
            Err(e) => {
                proof {
                    if patterns_simple(ps) {
                        assert(joined(rows@[i as int]@, ps, ps.len(), params@, g));
                        assert(pred_spec(wv, rows@[i as int]@, params@, g) is Err);
                    }
                }
                return Err(e);
            },
        };
        if keep {
            let row = copy_row(&rows[i]);
            let ghost before = out@;
            proof {
                if patterns_simple(ps) {
                    assert forall|t: int| 0 <= t < before.len() implies before[t]@ != rows@[i as int]@ by {
                        let k = choose|k: int| 0 <= k < i && (#[trigger] before[t])@ == (#[trigger] rows@[k])@;
                    }
                }
            }
            out.push(row);
            proof {
                assert forall|t: int| 0 <= t < out@.len() implies row_matches((#[trigger] out@[t])@, ps, params@) && (
                    patterns_simple(ps) ==> is_match(out@[t]@, ps, wv, params@, g)) by {
                    if t < before.len() {
                        assert(out@[t] == before[t]);
                    } else {
                        assert(out@[t]@ == rows@[i as int]@);
                    }
                }
            }
            match limit {
                Some(l) => {
                    if out.len() as u64 >= l {
                        return Ok(out);
                    }
                },
                None => {},
            }
        }
        proof {
            assert forall|t: int| 0 <= t < out@.len() implies exists|k: int| 0 <= k < i + 1 && (#[trigger] out@[t])@ == (#[trigger] rows@[k])@ by {
                if t < out0.len() {
                    assert(out@[t] == out0[t]);
                    let k = choose|k: int| 0 <= k < i && (#[trigger] out0[t])@ == (#[trigger] rows@[k])@;
                } else {
                    assert(out@[t]@ == rows@[i as int]@);
                }
            }
            lemma_rows_grow(out0, out@);
            assert forall|t: int|
                0 <= t < i + 1 && pred_spec(wv, (#[trigger] rows@[t])@, params@, g) == Ok::<bool, IErr>(true) implies in_rows(
                rows@[t]@,
                out@,
            ) by {
                if t < i {
                    assert(in_rows(rows@[t]@, out0));
                } else {
                    assert(out@[out@.len() - 1]@ == rows@[t]@);
                }
            }
        }
        i = i + 1;
    }
    proof {
        if patterns_simple(ps) {
            assert forall|m: RowModel| #[trigger] is_match(m, ps, wv, params@, g) implies in_rows(m, out@) by {
                lemma_hints_hold(m, ps, wv, params@, g);
                assert(in_rows(m, rows@));
                let t = choose|t: int| 0 <= t < rows@.len() && (#[trigger] rows@[t])@ == m;
            }
        }
    }
    Ok(out)
}

// ---------- ordering ----------

pub open spec fn int_order(a: int, b: int) -> FloatOrder {
    if a < b {
        FloatOrder::Less
    } else if a == b {
        FloatOrder::Equal
    } else {
        FloatOrder::Greater
    }
}

pub open spec fn reverse(o: FloatOrder) -> FloatOrder {
    match o {
        FloatOrder::Less => FloatOrder::Greater,
        FloatOrder::Equal => FloatOrder::Equal,
        FloatOrder::Greater => FloatOrder::Less,
    }
}

pub open spec fn or_equal(o: Option<FloatOrder>) -> FloatOrder {
    match o {
        Some(x) => x,
        None => FloatOrder::Equal,
    }
}

/// How `ORDER BY` orders two keys: `NULL` last when ascending, numbers as
/// doubles (integers exactly among themselves), strings byte-wise,
/// `false` before `true`, timestamps by value, and keys of kinds that do
/// not compare as equal.
#[verifier::opaque]
pub open spec fn sort_order(a: ValueModel, b: ValueModel, dir: SortDirection) -> FloatOrder {
    let natural = match (a, b) {
        (ValueModel::Null, ValueModel::Null) => FloatOrder::Equal,
        (ValueModel::Null, _) => FloatOrder::Greater,
        (_, ValueModel::Null) => FloatOrder::Less,
        (ValueModel::I64(x), ValueModel::I64(y)) => int_order(x as int, y as int),
        (ValueModel::F64(x), ValueModel::F64(y)) => or_equal(order_spec(x, y)),
        (ValueModel::I64(x), ValueModel::F64(y)) => or_equal(order_spec(int_bits(x) as u64, y)),
        (ValueModel::F64(x), ValueModel::I64(y)) => or_equal(order_spec(x, int_bits(y) as u64)),
        (ValueModel::Str(x), ValueModel::Str(y)) => str_order(x, y),
        (ValueModel::Bool(x), ValueModel::Bool(y)) => int_order(if x { 1int } else { 0int }, if y { 1int } else { 0int }),
        (ValueModel::Timestamp(x), ValueModel::Timestamp(y)) => int_order(x as int, y as int),
        _ => FloatOrder::Equal,
    };
    match dir {
        SortDirection::Asc => natural,
        SortDirection::Desc => reverse(natural),
    }
}

fn int_compare(a: i64, b: i64) -> (r: FloatOrder)
    ensures
        r == int_order(a as int, b as int),
{
    if a < b {
        FloatOrder::Less
    } else if a == b {
        FloatOrder::Equal
    } else {
        FloatOrder::Greater
    }
}

fn or_equal_exec(o: Option<FloatOrder>) -> (r: FloatOrder)
    ensures
        r == or_equal(o),
{
    match o {
        Some(x) => x,
        None => FloatOrder::Equal,
    }
}

fn compare_for_sort(a: &Value, b: &Value, dir: SortDirection) -> (r: FloatOrder)
    ensures
        r == sort_order(a@, b@, dir),
{
    proof {
        reveal(sort_order);
    }
    let natural = match (a, b) {
        (Value::Null, Value::Null) => FloatOrder::Equal,
        (Value::Null, _) => FloatOrder::Greater,
        (_, Value::Null) => FloatOrder::Less,
        (Value::I64(x), Value::I64(y)) => int_compare(*x, *y),
        (Value::F64(x), Value::F64(y)) => or_equal_exec(compare_bits(*x, *y)),
        (Value::I64(x), Value::F64(y)) => or_equal_exec(compare_bits(i64_to_f64_bits(*x), *y)),
        (Value::F64(x), Value::I64(y)) => or_equal_exec(compare_bits(*x, i64_to_f64_bits(*y))),
        (Value::String(x), Value::String(y)) => crate::query::eval::str_compare(x.as_str(), y.as_str()),
        (Value::Bool(x), Value::Bool(y)) => int_compare(
            if *x {
                1
            } else {
                0
            },
            if *y {
                1
            } else {
                0
            },
        ),
        (Value::Timestamp(x), Value::Timestamp(y)) => int_compare(*x, *y),
        _ => FloatOrder::Equal,
    };
    match dir {
        SortDirection::Asc => natural,
        SortDirection::Desc => match natural {
            FloatOrder::Less => FloatOrder::Greater,
            FloatOrder::Equal => FloatOrder::Equal,
            FloatOrder::Greater => FloatOrder::Less,
        },
    }
}

proof fn lemma_bytes_order_antisym(x: Seq<u8>, y: Seq<u8>, i: int)
    ensures
        bytes_order_from(x, y, i) == reverse(bytes_order_from(y, x, i)),
    decreases x.len() + y.len() - 2 * i,
{
    if i >= 0 && i < x.len() && i < y.len() && x[i] == y[i] {
        lemma_bytes_order_antisym(x, y, i + 1);
    }
}

proof fn lemma_bytes_order_refl(x: Seq<u8>, i: int)
    ensures
        bytes_order_from(x, x, i) == FloatOrder::Equal,
    decreases x.len() - i,
{
    if i >= 0 && i < x.len() {
        lemma_bytes_order_refl(x, i + 1);
    }
}

/// How comparisons relate, for any two values: `>` is `<` with the
/// operands swapped and `>=` is `<=` swapped; where a strict comparison
/// gives a truth value, the non-strict one in the other direction gives
/// the opposite; and no value is strictly greater or less than itself.
pub proof fn lemma_comparison_laws(l: ValueModel, r: ValueModel)
    ensures
        crate::query::eval::binop_spec(BinOp::Gt, l, r) is Ok ==> crate::query::eval::binop_spec(BinOp::Gt, l, r)
            == crate::query::eval::binop_spec(BinOp::Lt, r, l),
        crate::query::eval::binop_spec(BinOp::GtEq, l, r) is Ok ==> crate::query::eval::binop_spec(BinOp::GtEq, l, r)
            == crate::query::eval::binop_spec(BinOp::LtEq, r, l),
        crate::query::eval::binop_spec(BinOp::Gt, l, r) matches Ok(ValueModel::Bool(b))
            ==> crate::query::eval::binop_spec(BinOp::LtEq, l, r) == Ok::<ValueModel, IErr>(ValueModel::Bool(!b)),
        crate::query::eval::binop_spec(BinOp::Lt, l, r) matches Ok(ValueModel::Bool(b))
            ==> crate::query::eval::binop_spec(BinOp::GtEq, l, r) == Ok::<ValueModel, IErr>(ValueModel::Bool(!b)),
        crate::query::eval::binop_spec(BinOp::Gt, l, l) != Ok::<ValueModel, IErr>(ValueModel::Bool(true)),
        crate::query::eval::binop_spec(BinOp::Lt, l, l) != Ok::<ValueModel, IErr>(ValueModel::Bool(true)),
{
    match (l, r) {
        (ValueModel::Str(x), ValueModel::Str(y)) => {
            lemma_bytes_order_antisym(vstd::utf8::encode_utf8(x), vstd::utf8::encode_utf8(y), 0);
        },
        _ => {},
    }
    match l {
        ValueModel::Str(x) => {
            lemma_bytes_order_refl(vstd::utf8::encode_utf8(x), 0);
        },
        _ => {},
    }
}

/// Two doubles that are numbers compare by where they stand in the order
/// of doubles; a NaN on either side makes any comparison `NULL`.
pub proof fn lemma_double_comparisons(a: u64, b: u64)
    ensures
        !crate::float::is_nan(a) && !crate::float::is_nan(b) ==> {
            let (ka, kb) = (crate::float::order_key(a), crate::float::order_key(b));
            &&& crate::query::eval::binop_spec(BinOp::Lt, ValueModel::F64(a), ValueModel::F64(b))
                == Ok::<ValueModel, IErr>(ValueModel::Bool(ka < kb))
            &&& crate::query::eval::binop_spec(BinOp::LtEq, ValueModel::F64(a), ValueModel::F64(b))
                == Ok::<ValueModel, IErr>(ValueModel::Bool(ka <= kb))
            &&& crate::query::eval::binop_spec(BinOp::Gt, ValueModel::F64(a), ValueModel::F64(b))
                == Ok::<ValueModel, IErr>(ValueModel::Bool(ka > kb))
            &&& crate::query::eval::binop_spec(BinOp::GtEq, ValueModel::F64(a), ValueModel::F64(b))
                == Ok::<ValueModel, IErr>(ValueModel::Bool(ka >= kb))
        },
        crate::float::is_nan(a) || crate::float::is_nan(b) ==> crate::query::eval::binop_spec(
            BinOp::Gt,
            ValueModel::F64(a),
            ValueModel::F64(b),
        ) == Ok::<ValueModel, IErr>(ValueModel::Null),
{
}

/// `ORDER BY`'s order is antisymmetric.
pub proof fn lemma_sort_order_antisym(a: ValueModel, b: ValueModel, dir: SortDirection)
    ensures
        sort_order(a, b, dir) == reverse(sort_order(b, a, dir)),
{
    reveal(sort_order);
    match (a, b) {
        (ValueModel::Str(x), ValueModel::Str(y)) => {
            lemma_bytes_order_antisym(vstd::utf8::encode_utf8(x), vstd::utf8::encode_utf8(y), 0);
        },
        _ => {},
    }
}

/// Keys in a sequence, no adjacent pair out of order.
pub open spec fn adjacent_sorted(keys: Seq<ValueModel>, dir: SortDirection) -> bool {
    forall|i: int| 0 <= i < keys.len() - 1 ==> #[trigger] sort_order(keys[i], keys[i + 1], dir) != FloatOrder::Greater
}

/// The keys in the order an index sequence picks them.
pub open spec fn keys_at(keys: Seq<Value>, idx: Seq<usize>) -> Seq<ValueModel> {
    idx.map_values(|k: usize| keys[k as int]@)
}

proof fn lemma_swap_step(ks: Seq<ValueModel>, ka: Seq<ValueModel>, j: int, i: int, dir: SortDirection)
    requires
        0 < j <= i < ks.len(),
        ka.len() == ks.len(),
        ka == ks.update(j - 1, ks[j]).update(j, ks[j - 1]),
        adjacent_sorted(ks.subrange(0, j), dir),
        adjacent_sorted(ks.subrange(j, i + 1), dir),
        j < i ==> sort_order(ks[j - 1], ks[j + 1], dir) != FloatOrder::Greater,
        sort_order(ks[j - 1], ks[j], dir) == FloatOrder::Greater,
    ensures
        adjacent_sorted(ka.subrange(0, j - 1), dir),
        adjacent_sorted(ka.subrange(j - 1, i + 1), dir),
        j - 1 > 0 ==> sort_order(ka[j - 2], ka[j], dir) != FloatOrder::Greater,
{
    lemma_sort_order_antisym(ks[j - 1], ks[j], dir);
    let l = ka.subrange(0, j - 1);
    assert forall|t: int| 0 <= t < l.len() - 1 implies #[trigger] sort_order(l[t], l[t + 1], dir) != FloatOrder::Greater by {
        let l2 = ks.subrange(0, j);
        assert(l2[t] == l[t]);
        assert(l2[t + 1] == l[t + 1]);
        assert(sort_order(l2[t], l2[t + 1], dir) != FloatOrder::Greater);
    }
    let r = ka.subrange(j - 1, i + 1);
    let rb = ks.subrange(j, i + 1);
    assert forall|t: int| 0 <= t < r.len() - 1 implies #[trigger] sort_order(r[t], r[t + 1], dir) != FloatOrder::Greater by {
        if t == 0 {
            assert(r[0] == ks[j]);
            assert(r[1] == ks[j - 1]);
        } else if t == 1 {
            assert(r[1] == ks[j - 1]);
            assert(r[2] == ks[j + 1]);
        } else {
            let u = t - 1;
            assert(r[t] == rb[u]);
            assert(r[t + 1] == rb[u + 1]);
            assert(sort_order(rb[u], rb[u + 1], dir) != FloatOrder::Greater);
        }
    }
    if j - 1 > 0 {
        let l2 = ks.subrange(0, j);
        let u = j - 2;
        assert(l2[u] == ks[j - 2]);
        assert(l2[u + 1] == ks[j - 1]);
        assert(sort_order(l2[u], l2[u + 1], dir) != FloatOrder::Greater);
        assert(ka[j - 2] == ks[j - 2]);
        assert(ka[j] == ks[j - 1]);
    }
}

proof fn lemma_join(ks: Seq<ValueModel>, j: int, i: int, dir: SortDirection)
    requires
        0 <= j <= i < ks.len(),
        adjacent_sorted(ks.subrange(0, j), dir),
        adjacent_sorted(ks.subrange(j, i + 1), dir),
        j > 0 ==> sort_order(ks[j - 1], ks[j], dir) != FloatOrder::Greater,
    ensures
        adjacent_sorted(ks.subrange(0, i + 1), dir),
{
    let all = ks.subrange(0, i + 1);
    let l = ks.subrange(0, j);
    let r = ks.subrange(j, i + 1);
    assert forall|t: int| 0 <= t < all.len() - 1 implies #[trigger] sort_order(all[t], all[t + 1], dir) != FloatOrder::Greater by {
        if t + 1 < j {
            assert(all[t] == l[t] && all[t + 1] == l[t + 1]);
            assert(sort_order(l[t], l[t + 1], dir) != FloatOrder::Greater);
        } else if t + 1 == j {
        } else {
            let u = t - j;
            assert(all[t] == r[u] && all[t + 1] == r[u + 1]);
            assert(sort_order(r[u], r[u + 1], dir) != FloatOrder::Greater);
        }
    }
}

/// The positions of `keys` in a stable sorted order (insertion sort).
/// The index `z` occurs in `idx`.
pub open spec fn listed(idx: Seq<usize>, z: int) -> bool {
    exists|y: int| 0 <= y < idx.len() && #[trigger] idx[y] == z
}

fn sort_indices(keys: &Vec<Value>, dir: SortDirection) -> (idx: Vec<usize>)
    ensures
        idx@.len() == keys@.len(),
        forall|x: int| 0 <= x < idx@.len() ==> (#[trigger] idx@[x]) < keys@.len(),
        adjacent_sorted(keys_at(keys@, idx@), dir),
        forall|z: int| 0 <= z < keys@.len() ==> #[trigger] listed(idx@, z),
        forall|x: int, y: int| 0 <= x < y < idx@.len() ==> (#[trigger] idx@[x]) != (#[trigger] idx@[y]),
{
    let n = keys.len();
    let mut idx: Vec<usize> = Vec::new();
    let mut k: usize = 0;
    while k < n
        invariant
            k <= n,
            n == keys@.len(),
            idx@.len() == k,
            forall|x: int| 0 <= x < k ==> idx@[x] == x,
        decreases n - k,
    {
        idx.push(k);
        k = k + 1;
    }
    proof {
        assert forall|z: int| 0 <= z < n implies #[trigger] listed(idx@, z) by {
            assert(idx@[z] == z);
        }
    }
    if n == 0 {
        proof {
            assert(keys_at(keys@, idx@).len() == 0);
        }
        return idx;
    }
    let mut i: usize = 1;
    proof {
        assert(keys_at(keys@, idx@).subrange(0, 1).len() == 1);
    }
    while i < n
        invariant
            1 <= i <= n,
            n == keys@.len(),
            idx@.len() == n,
            forall|x: int| 0 <= x < idx@.len() ==> (#[trigger] idx@[x]) < n,
            adjacent_sorted(keys_at(keys@, idx@).subrange(0, i as int), dir),
            forall|z: int| 0 <= z < n ==> #[trigger] listed(idx@, z),
            forall|x: int, y: int| 0 <= x < y < idx@.len() ==> (#[trigger] idx@[x]) != (#[trigger] idx@[y]),
        decreases n - i,
    {
        let mut j: usize = i;
        proof {
            assert(keys_at(keys@, idx@).subrange(i as int, i + 1).len() == 1);
        }
        while j > 0 && compare_for_sort(&keys[idx[j - 1]], &keys[idx[j]], dir) == FloatOrder::Greater
            invariant
                0 <= j <= i < n,
                n == keys@.len(),
                idx@.len() == n,
                forall|x: int| 0 <= x < idx@.len() ==> (#[trigger] idx@[x]) < n,
                adjacent_sorted(keys_at(keys@, idx@).subrange(0, j as int), dir),
                adjacent_sorted(keys_at(keys@, idx@).subrange(j as int, i + 1), dir),
                j > 0 && j < i ==> sort_order(
                    keys_at(keys@, idx@)[j - 1],
                    keys_at(keys@, idx@)[j + 1],
                    dir,
                ) != FloatOrder::Greater,
                forall|z: int| 0 <= z < n ==> #[trigger] listed(idx@, z),
                forall|x: int, y: int| 0 <= x < y < idx@.len() ==> (#[trigger] idx@[x]) != (#[trigger] idx@[y]),
            decreases j,
        {
            let ghost ks = keys_at(keys@, idx@);
            let ghost idx0 = idx@;
            let a = idx[j - 1];
            let b = idx[j];
            idx.set(j - 1, b);
            idx.set(j, a);
            proof {
                let ka = keys_at(keys@, idx@);
                assert(ka =~= ks.update(j - 1, ks[j as int]).update(j as int, ks[j - 1]));
                lemma_swap_step(ks, ka, j as int, i as int, dir);
                assert forall|x: int, y: int| 0 <= x < y < idx@.len() implies (#[trigger] idx@[x]) != (#[trigger] idx@[y]) by {
                    assert(idx@ == idx0.update(j - 1, idx0[j as int]).update(j as int, idx0[j - 1]));
                    let x0 = if x == j - 1 { j as int } else if x == j { j - 1 } else { x };
                    let y0 = if y == j - 1 { j as int } else if y == j { j - 1 } else { y };
                    assert(idx@[x] == idx0[x0] && idx@[y] == idx0[y0]);
                    if x0 < y0 {
                        assert(idx0[x0] != idx0[y0]);
                    } else {
                        assert(idx0[y0] != idx0[x0]);
                    }
                }
                assert forall|z: int| 0 <= z < n implies #[trigger] listed(idx@, z) by {
                    assert(listed(idx0, z));
                    let y0 = choose|y: int| 0 <= y < idx0.len() && #[trigger] idx0[y] == z;
                    assert(idx@ == idx0.update(j - 1, idx0[j as int]).update(j as int, idx0[j - 1]));
                    if y0 == j - 1 {
                        assert(idx@[j as int] == z);
                    } else if y0 == j {
                        assert(idx@[j - 1] == z);
                    } else {
                        assert(idx@[y0] == z);
                    }
                }
            }
            j = j - 1;
        }
        proof {
            lemma_join(keys_at(keys@, idx@), j as int, i as int, dir);
        }
        i = i + 1;
    }
    proof {
        assert(keys_at(keys@, idx@).subrange(0, n as int) =~= keys_at(keys@, idx@));
    }
    idx
}

// ---------- statements ----------

pub open spec fn is_aggregate(item: ItemModel) -> bool {
    item is Count || item is CollectVariable || item is CollectProperty
}

/// The key `ORDER BY` computes for a row.
pub open spec fn sort_key(e: ExprModel, m: RowModel, params: Map<Seq<char>, ValueModel>, g: GraphModel) -> ValueModel {
    eval_spec(e, m, params, g)->Ok_0
}

/// Along `ms`, the `ORDER BY` keys evaluate and no adjacent pair is out
/// of order.
pub open spec fn ordered_by(
    ms: Seq<RowModel>,
    order: Option<(ExprModel, SortDirection)>,
    params: Map<Seq<char>, ValueModel>,
    g: GraphModel,
) -> bool {
    match order {
        None => true,
        Some((e, dir)) => {
            &&& forall|i: int| 0 <= i < ms.len() ==> (#[trigger] eval_spec(e, ms[i], params, g)) is Ok
            &&& forall|i: int|
                0 <= i < ms.len() - 1 ==> #[trigger] sort_order(
                    sort_key(e, ms[i], params, g),
                    sort_key(e, ms[i + 1], params, g),
                    dir,
                ) != FloatOrder::Greater
        },
    }
}

/// What `collect` gathers over the rows `ms`.
pub open spec fn collect_list(item: ItemModel, ms: Seq<RowModel>, g: GraphModel) -> Seq<ValueModel> {
    Seq::new(ms.len(), |j: int| collect_spec(item, ms[j], g)->Ok_0)
}

/// The cell an aggregate item gives over the rows `ms`.
pub open spec fn aggregate_cell(item: ItemModel, ms: Seq<RowModel>, g: GraphModel) -> CellModel {
    match item {
        ItemModel::Count { .. } => CellModel::Value(ValueModel::I64(ms.len() as i64)),
        _ => CellModel::Value(ValueModel::List(collect_list(item, ms, g))),
    }
}

/// How many rows a `LIMIT` of `l` cuts the result to when there are more:
/// `l`, except that the first row is taken before the limit is checked,
/// so that `LIMIT 0` still gives one row.
pub open spec fn limit_rows(l: u64) -> int {
    if l == 0 {
        1
    } else {
        l as int
    }
}

/// A `LIMIT` of `l` without `ORDER BY` or aggregates stopped the search
/// once `n >= l` matches were found.
pub open spec fn cut_by_limit(
    limit: Option<u64>,
    items: Seq<ItemModel>,
    order: Option<(ExprModel, SortDirection)>,
    n: int,
) -> bool {
    limit matches Some(l) && !aggregating_m(items) && order is None && n >= l
}

/// The result of `MATCH ... RETURN` for the sequence `ms` of rows of
/// bindings, each drawn from the graph and satisfying `WHERE`, in
/// `ORDER BY` order: one row of aggregates over all of `ms`, or one
/// projected row per row of `ms` until the limit.
pub open spec fn outcome_for(
    q: ResultModel,
    ps: Seq<PathModel>,
    items: Seq<ItemModel>,
    w: Option<ExprModel>,
    order: Option<(ExprModel, SortDirection)>,
    limit: Option<u64>,
    params: Map<Seq<char>, ValueModel>,
    g: GraphModel,
    ms: Seq<RowModel>,
) -> bool {
    &&& forall|i: int|
        0 <= i < ms.len() ==> row_in_graph(#[trigger] ms[i], g) && row_matches(ms[i], ps, params) && pred_spec(
            w,
            ms[i],
            params,
            g,
        ) == Ok::<bool, IErr>(true)
    &&& ordered_by(ms, order, params, g)
    &&& patterns_simple(ps) ==> forall|i: int| 0 <= i < ms.len() ==> is_match(#[trigger] ms[i], ps, w, params, g)
    &&& patterns_simple(ps) ==> ms.no_duplicates()
    &&& patterns_simple(ps) && !cut_by_limit(limit, items, order, ms.len() as int) ==> forall|m: RowModel|
        #[trigger] is_match(m, ps, w, params, g) ==> ms.contains(m)
    &&& aggregating_m(items) ==> {
        &&& q.rows.len() == 1
        &&& q.rows[0].len() == items.len()
        &&& forall|c: int|
            0 <= c < items.len() ==> (#[trigger] q.rows[0][c]) == aggregate_cell(items[c], ms, g)
                && (is_aggregate(items[c]) && !(items[c] is Count) ==> forall|j: int|
                0 <= j < ms.len() ==> (#[trigger] collect_spec(items[c], ms[j], g)) is Ok)
    }
    &&& !aggregating_m(items) ==> {
        &&& q.rows.len() <= ms.len()
        &&& forall|i: int| 0 <= i < q.rows.len() ==> projects_m(items, ms[i], g, #[trigger] q.rows[i])
        &&& q.rows.len() < ms.len() ==> (limit matches Some(l) && q.rows.len() == limit_rows(l))
        &&& limit matches Some(l) ==> q.rows.len() <= limit_rows(l)
    }
}

/// Return item `c` does not evaluate on the match `m`: an aggregate
/// `collect` that does not, or a projected item that does not.
pub open spec fn item_fails(items: Seq<ItemModel>, c: int, m: RowModel, g: GraphModel) -> bool {
    if aggregating_m(items) {
        is_aggregate(items[c]) && !(items[c] is Count) && collect_spec(items[c], m, g) is Err
    } else {
        project_spec(items[c], m, g) is Err
    }
}

/// The `ORDER BY` key does not evaluate on `m`.
pub open spec fn key_fails(
    order: Option<(ExprModel, SortDirection)>,
    m: RowModel,
    params: Map<Seq<char>, ValueModel>,
    g: GraphModel,
) -> bool {
    match order {
        Some((e, _)) => eval_spec(e, m, params, g) is Err,
        None => false,
    }
}

/// Returning the matches runs into an error: an `ORDER BY` key or a
/// return item does not evaluate on some match, or aggregates are mixed
/// with other items.
pub open spec fn return_fails(
    ps: Seq<PathModel>,
    w: Option<ExprModel>,
    items: Seq<ItemModel>,
    order: Option<(ExprModel, SortDirection)>,
    params: Map<Seq<char>, ValueModel>,
    g: GraphModel,
) -> bool {
    ||| exists|m: RowModel|
        #[trigger] is_match(m, ps, w, params, g) && key_fails(order, m, params, g)
    ||| exists|m: RowModel, c: int|
        is_match(m, ps, w, params, g) && 0 <= c < items.len() && #[trigger] item_fails(items, c, m, g)
    ||| aggregating_m(items) && exists|c: int| 0 <= c < items.len() && !is_aggregate(#[trigger] items[c])
}

/// The result of `MATCH ... RETURN`: the column names, and the rows
/// [`outcome_for`] gives for some sequence of matching rows.
pub open spec fn match_outcome(
    q: ResultModel,
    ps: Seq<PathModel>,
    items: Seq<ItemModel>,
    w: Option<ExprModel>,
    order: Option<(ExprModel, SortDirection)>,
    limit: Option<u64>,
    params: Map<Seq<char>, ValueModel>,
    g: GraphModel,
) -> bool {
    &&& q.columns == items.map_values(|i: ItemModel| column_name(i))
    &&& exists|ms: Seq<RowModel>| #[trigger] outcome_for(q, ps, items, w, order, limit, params, g, ms)
}

/// The model rows of a sequence of rows.
pub open spec fn rows_model(rows: Seq<Bindings>) -> Seq<RowModel> {
    rows.map_values(|b: Bindings| b@)
}

/// The `ORDER BY` clause as a model.
pub open spec fn order_model(o: Option<OrderBy>) -> Option<(ExprModel, SortDirection)> {
    match o {
        Some(x) => Some((x.expr@, x.direction)),
        None => None,
    }
}

proof fn lemma_outcome_rows(
    res: QueryResult,
    ps: Seq<PathModel>,
    im: Seq<ItemModel>,
    wv: Option<ExprModel>,
    order: Option<(ExprModel, SortDirection)>,
    limit: Option<u64>,
    params: Map<Seq<char>, ValueModel>,
    g: GraphModel,
    ms: Seq<RowModel>,
    rows: Seq<Bindings>,
)
    requires
        ms == rows_model(rows),
        rows_ok(rows, g),
        forall|y: int| 0 <= y < rows.len() ==> pred_spec(wv, (#[trigger] rows[y])@, params, g) == Ok::<bool, IErr>(true),
        forall|y: int| 0 <= y < rows.len() ==> row_matches((#[trigger] rows[y])@, ps, params),
        patterns_simple(ps) ==> forall|y: int| 0 <= y < rows.len() ==> is_match((#[trigger] rows[y])@, ps, wv, params, g),
        patterns_simple(ps) ==> distinct_rows(rows),
        ordered_by(ms, order, params, g),
        patterns_simple(ps) && !cut_by_limit(limit, im, order, ms.len() as int) ==> forall|m: RowModel|
            #[trigger] is_match(m, ps, wv, params, g) ==> ms.contains(m),
        !aggregating_m(im),
        res@.columns == im.map_values(|i: ItemModel| column_name(i)),
        res.rows@.len() <= ms.len(),
        forall|i: int| 0 <= i < res.rows@.len() ==> projects_m(im, ms[i], g, row_view((#[trigger] res.rows@[i])@)),
        res.rows@.len() < ms.len() ==> (limit matches Some(l) && res.rows@.len() == limit_rows(l)),
        limit matches Some(l) ==> res.rows@.len() <= l || res.rows@.len() <= 1,
    ensures
        match_outcome(res@, ps, im, wv, order, limit, params, g),
{
    let q = res@;
    assert forall|i: int| 0 <= i < ms.len() implies row_in_graph(#[trigger] ms[i], g) && row_matches(ms[i], ps, params) && pred_spec(wv, ms[i], params, g) == Ok::<bool, IErr>(true)
        && (patterns_simple(ps) ==> is_match(ms[i], ps, wv, params, g)) by {
        assert(ms[i] == rows[i]@);
    }
    assert forall|i: int| 0 <= i < q.rows.len() implies projects_m(im, ms[i], g, #[trigger] q.rows[i]) by {
        assert(q.rows[i] == row_view(res.rows@[i]@));
    }
    if patterns_simple(ps) {
        assert forall|i: int, j: int| 0 <= i < ms.len() && 0 <= j < ms.len() && i != j implies ms[i] != ms[j] by {
            assert(ms[i] == rows[i]@ && ms[j] == rows[j]@);
        }
    }
    assert(outcome_for(q, ps, im, wv, order, limit, params, g, ms));
}

fn exec_match_return<S: Storage>(
    engine: &mut Engine<S>,
    patterns: &Vec<Pattern>,
    where_clause: &Option<Expr>,
    items: &Vec<ReturnItem>,
    order_by: &Option<OrderBy>,
    limit: Option<u64>,
    params: &Params,
) -> (r: Result<QueryResult, InterpretError>)
    requires
        old(engine).inv(),
        params.wf(),
        patterns_wf(patterns@),
    ensures
        final(engine).inv(),
        final(engine).unchanged(*old(engine)),
        r matches Ok(q) ==> match_outcome(
            q@,
            patterns_model(patterns@),
            items_model(items@),
            crate::query::ast::opt_expr_view(*where_clause),
            order_model(*order_by),
            limit,
            params@,
            old(engine).graph(),
        ),
        r is Err ==> !old(engine).reliable() || !patterns_simple(patterns_model(patterns@)) || find_fails(
            patterns_model(patterns@),
            crate::query::ast::opt_expr_view(*where_clause),
            params@,
            old(engine).graph(),
        ) || return_fails(
            patterns_model(patterns@),
            crate::query::ast::opt_expr_view(*where_clause),
            items_model(items@),
            order_model(*order_by),
            params@,
            old(engine).graph(),
        ),
{
    let ghost g = engine.graph();
    let ghost wv = crate::query::ast::opt_expr_view(*where_clause);
    let ghost im = items_model(items@);
    let ghost ps = patterns_model(patterns@);
    let mut agg = false;
    let mut t: usize = 0;
    while t < items.len()
        invariant
            t <= items@.len(),
            im == items_model(items@),
            agg == exists|i: int| 0 <= i < t && is_aggregate(#[trigger] im[i]),
        decreases items@.len() - t,
    {
        let this = match &items[t] {
            ReturnItem::Count { .. } | ReturnItem::Collect(_) => true,
            _ => false,
        };
        proof {
            if this {
                assert(is_aggregate(im[t as int]));
            }
        }
        agg = agg || this;
        t = t + 1;
    }
    proof {
        assert(agg == aggregating_m(im));
    }
    let inline_limit = if agg || order_by.is_some() {
        None
    } else {
        limit
    };
    let mut rows = match find_match_rows(engine, patterns, where_clause, params, inline_limit) {
        Ok(rows) => rows,
        Err(e) => {
            return Err(e);
        },
    };
    let ghost complete = patterns_simple(ps) && !cut_by_limit(limit, im, order_model(*order_by), rows@.len() as int);
    proof {
        assert(complete ==> !(inline_limit matches Some(l) && rows@.len() >= l));
    }
    let ghost mut ordered = order_model(*order_by) is None;
    if let Some(order) = order_by {
        let mut keys: Vec<Value> = Vec::new();
        let mut k: usize = 0;
        while k < rows.len()
            invariant
                engine.inv(),
                engine.unchanged(*old(engine)),
                g == engine.graph(),
                params.wf(),
                rows_ok(rows@, g),
                k <= rows@.len(),
                keys@.len() == k,
                forall|x: int| 0 <= x < k ==> eval_spec(order.expr@, rows@[x]@, params@, g) == Ok::<ValueModel, IErr>(#[trigger] keys@[x]@),
                patterns_simple(ps) ==> forall|t: int| 0 <= t < rows@.len() ==> is_match((#[trigger] rows@[t])@, ps, wv, params@, g),
                patterns_simple(ps) ==> distinct_rows(rows@),
                ps == patterns_model(patterns@),
                wv == crate::query::ast::opt_expr_view(*where_clause),
                order_model(*order_by) == Some((order.expr@, order.direction)),
            decreases rows@.len() - k,
        {
            let key = match eval_expr(&order.expr, &rows[k], params, engine) {
                Ok(v) => v,
                Err(e) => {
                    proof {
                        if patterns_simple(ps) {
                            assert(is_match(rows@[k as int]@, ps, wv, params@, g));
                            assert(eval_spec(order.expr@, rows@[k as int]@, params@, g) is Err);
                        }
                    }
                    return Err(e);
                },
            };
            keys.push(key);
            k = k + 1;
        }
        let idx = sort_indices(&keys, order.direction);
        let mut sorted: Vec<Bindings> = Vec::new();
        let mut x: usize = 0;
        while x < idx.len()
            invariant
                rows_ok(rows@, g),
                rows_ok(sorted@, g),
                idx@.len() == rows@.len(),
                keys@.len() == rows@.len(),
                forall|z: int| 0 <= z < rows@.len() ==> eval_spec(order.expr@, rows@[z]@, params@, g) == Ok::<ValueModel, IErr>(#[trigger] keys@[z]@),
                adjacent_sorted(keys_at(keys@, idx@), order.direction),
                sorted@.len() == x,
                forall|y: int| 0 <= y < idx@.len() ==> (#[trigger] idx@[y]) < rows@.len(),
                forall|y: int| 0 <= y < x ==> (#[trigger] sorted@[y])@ == rows@[idx@[y] as int]@,
                forall|y: int|
                    0 <= y < sorted@.len() ==> pred_spec(wv, (#[trigger] sorted@[y])@, params@, g) == Ok::<bool, IErr>(true),
                forall|y: int|
                    0 <= y < rows@.len() ==> pred_spec(wv, (#[trigger] rows@[y])@, params@, g) == Ok::<bool, IErr>(true),
                forall|y: int|
                    0 <= y < sorted@.len() ==> row_matches((#[trigger] sorted@[y])@, ps, params@),
                forall|y: int|
                    0 <= y < rows@.len() ==> row_matches((#[trigger] rows@[y])@, ps, params@),
                x <= idx@.len(),
                forall|z: int| 0 <= z < rows@.len() ==> #[trigger] listed(idx@, z),
                patterns_simple(ps) ==> forall|t: int| 0 <= t < rows@.len() ==> is_match((#[trigger] rows@[t])@, ps, wv, params@, g),
                patterns_simple(ps) ==> distinct_rows(rows@),
                patterns_simple(ps) ==> forall|t: int| 0 <= t < sorted@.len() ==> is_match((#[trigger] sorted@[t])@, ps, wv, params@, g),
                patterns_simple(ps) ==> distinct_rows(rows@),
                forall|a: int, b: int| 0 <= a < b < idx@.len() ==> (#[trigger] idx@[a]) != (#[trigger] idx@[b]),
            decreases idx@.len() - x,
        {
            let src = idx[x];
            let c = copy_row(&rows[src]);
            sorted.push(c);
            x = x + 1;
        }
        proof {
            let ms = rows_model(sorted@);
            let e = order.expr@;
            let dir = order.direction;
            assert forall|i: int| 0 <= i < ms.len() implies (#[trigger] eval_spec(e, ms[i], params@, g)) is Ok by {
                assert(ms[i] == rows@[idx@[i] as int]@);
                assert(eval_spec(e, rows@[idx@[i] as int]@, params@, g) == Ok::<ValueModel, IErr>(keys@[idx@[i] as int]@));
            }
            assert forall|i: int| 0 <= i < ms.len() - 1 implies #[trigger] sort_order(
                sort_key(e, ms[i], params@, g),
                sort_key(e, ms[i + 1], params@, g),
                dir,
            ) != FloatOrder::Greater by {
                let ks = keys_at(keys@, idx@);
                assert(sort_order(ks[i], ks[i + 1], dir) != FloatOrder::Greater);
                assert(ms[i] == rows@[idx@[i] as int]@);
                assert(ms[i + 1] == rows@[idx@[i + 1] as int]@);
                assert(ks[i] == keys@[idx@[i] as int]@);
                assert(ks[i + 1] == keys@[idx@[i + 1] as int]@);
                assert(eval_spec(e, rows@[idx@[i] as int]@, params@, g) == Ok::<ValueModel, IErr>(keys@[idx@[i] as int]@));
                assert(eval_spec(e, rows@[idx@[i + 1] as int]@, params@, g) == Ok::<ValueModel, IErr>(keys@[idx@[i + 1] as int]@));
            }
            ordered = ordered_by(ms, order_model(*order_by), params@, g);
            if patterns_simple(ps) {
                assert forall|a: int, b: int| 0 <= a < b < sorted@.len() implies (#[trigger] sorted@[a])@ != (#[trigger] sorted@[b])@ by {
                    assert(sorted@[a]@ == rows@[idx@[a] as int]@);
                    assert(sorted@[b]@ == rows@[idx@[b] as int]@);
                    assert(idx@[a] != idx@[b]);
                    if idx@[a] < idx@[b] {
                        assert(rows@[idx@[a] as int]@ != rows@[idx@[b] as int]@);
                    } else {
                        assert(rows@[idx@[b] as int]@ != rows@[idx@[a] as int]@);
                    }
                }
            }
            assert forall|m: RowModel| #[trigger] in_rows(m, rows@) implies in_rows(m, sorted@) by {
                let k = choose|k: int| 0 <= k < rows@.len() && (#[trigger] rows@[k])@ == m;
                assert(listed(idx@, k));
                let y = choose|y: int| 0 <= y < idx@.len() && #[trigger] idx@[y] == k;
                assert(sorted@[y]@ == rows@[idx@[y] as int]@);
            }
        }
        rows = sorted;
    }
    let ghost ms = rows_model(rows@);
    proof {
        assert(ordered_by(ms, order_model(*order_by), params@, g));
        if complete {
            assert forall|m: RowModel| #[trigger] is_match(m, ps, wv, params@, g) implies ms.contains(m) by {
                assert(in_rows(m, rows@));
                let k = choose|k: int| 0 <= k < rows@.len() && (#[trigger] rows@[k])@ == m;
                assert(ms[k] == m);
            }
        }
    }
    let mut columns: Vec<String> = Vec::new();
    let mut c: usize = 0;
    while c < items.len()
        invariant
            c <= items@.len(),
            im == items_model(items@),
            strs_view(columns@) == im.map_values(|i: ItemModel| column_name(i)).subrange(0, c as int),
        decreases items@.len() - c,
    {
        let name = item_column_name(&items[c]);
        let ghost before = columns@;
        columns.push(name);
        proof {
            assert(strs_view(columns@) =~= strs_view(before).push(column_name(im[c as int])));
            assert(im.map_values(|i: ItemModel| column_name(i)).subrange(0, c + 1 as int) =~= im.map_values(|i: ItemModel| column_name(i)).subrange(0, c as int).push(column_name(im[c as int])));
        }
        c = c + 1;
    }
    proof {
        assert(im.map_values(|i: ItemModel| column_name(i)).subrange(0, items@.len() as int) =~= im.map_values(|i: ItemModel| column_name(i)));
    }
    let mut out: Vec<Vec<ResultCell>> = Vec::new();
    if agg {
        let mut cells: Vec<ResultCell> = Vec::new();
        let mut c: usize = 0;
        while c < items.len()
            invariant
                engine.inv(),
                engine.unchanged(*old(engine)),
                g == engine.graph(),
                rows_ok(rows@, g),
                ms == rows_model(rows@),
                im == items_model(items@),
                c <= items@.len(),
                cells@.len() == c,
                complete ==> forall|m: RowModel| #[trigger] is_match(m, ps, wv, params@, g) ==> ms.contains(m),
                forall|d: int|
                    0 <= d < c ==> (#[trigger] cells@[d])@ == aggregate_cell(im[d], ms, g) && (is_aggregate(im[d])
                        && !(im[d] is Count) ==> forall|j: int| 0 <= j < ms.len() ==> (#[trigger] collect_spec(im[d], ms[j], g)) is Ok),
                aggregating_m(im),
                patterns_simple(ps) ==> forall|t: int| 0 <= t < rows@.len() ==> is_match((#[trigger] rows@[t])@, ps, wv, params@, g),
                patterns_simple(ps) ==> distinct_rows(rows@),
                ps == patterns_model(patterns@),
                wv == crate::query::ast::opt_expr_view(*where_clause),
            decreases items@.len() - c,
        {
            proof {
                assert(ms.len() == rows@.len());
            }
            let cell = match &items[c] {
                ReturnItem::Count { .. } => ResultCell::Value(Value::I64(rows.len() as i64)),
                ReturnItem::Collect(target) => {
                    let mut list: Vec<Value> = Vec::new();
                    let mut y: usize = 0;
                    while y < rows.len()
                        invariant
                            engine.inv(),
                            engine.unchanged(*old(engine)),
                            g == engine.graph(),
                            rows_ok(rows@, g),
                            ms == rows_model(rows@),
                            im == items_model(items@),
                            c < items@.len(),
                            items@[c as int] == ReturnItem::Collect(*target),
                            aggregating_m(im),
                            patterns_simple(ps) ==> forall|t: int| 0 <= t < rows@.len() ==> is_match((#[trigger] rows@[t])@, ps, wv, params@, g),
                patterns_simple(ps) ==> distinct_rows(rows@),
                            ps == patterns_model(patterns@),
                            wv == crate::query::ast::opt_expr_view(*where_clause),
                            y <= rows@.len(),
                            list@.len() == y,
                            forall|j: int| 0 <= j < y ==> collect_spec(im[c as int], ms[j], g) == Ok::<ValueModel, IErr>((#[trigger] list@[j])@),
                        decreases rows@.len() - y,
                    {
                        let v = match collect_one(target, &rows[y], engine) {
                            Ok(v) => v,
                            Err(e) => {
                                proof {
                                    assert(im[c as int] == items@[c as int]@);
                                    if patterns_simple(ps) {
                                        assert(is_match(rows@[y as int]@, ps, wv, params@, g));
                                        assert(item_fails(im, c as int, rows@[y as int]@, g));
                                    }
                                }
                                return Err(e);
                            },
                        };
                        list.push(v);
                        y = y + 1;
                    }
                    proof {
                        crate::value::lemma_values_view(list@);
                        assert(crate::value::values_view(list@) =~= collect_list(im[c as int], ms, g));
                        assert forall|j: int| 0 <= j < ms.len() implies (#[trigger] collect_spec(im[c as int], ms[j], g)) is Ok by {
                            assert(collect_spec(im[c as int], ms[j], g) == Ok::<ValueModel, IErr>(list@[j]@));
                        }
                    }
                    ResultCell::Value(Value::List(list))
                },
                _ => {
                    proof {
                        assert(im[c as int] == items@[c as int]@);
                        assert(!is_aggregate(im[c as int]));
                    }
                    return Err(
                        InterpretError::TypeMismatch(
                            "mixing aggregate and non-aggregate columns is not supported".to_owned(),
                        ),
                    );
                },
            };
            let ghost before_cells = cells@;
            cells.push(cell);
            proof {
                assert(cells@[c as int]@ == aggregate_cell(im[c as int], ms, g));
                assert forall|d: int| 0 <= d < c implies cells@[d] == before_cells[d] by {}
            }
            c = c + 1;
        }
        out.push(cells);
        proof {
            let q = QueryResult { columns, rows: out }@;
            assert(q.rows[0] == row_view(out@[0]@));
            assert forall|d: int| 0 <= d < im.len() implies (#[trigger] q.rows[0][d]) == aggregate_cell(im[d], ms, g) by {
                assert(q.rows[0][d] == out@[0]@[d]@);
            }
        }
    } else {
        let mut y: usize = 0;
        while y < rows.len()
            invariant
                engine.inv(),
                engine.unchanged(*old(engine)),
                g == engine.graph(),
                g == old(engine).graph(),
                wv == crate::query::ast::opt_expr_view(*where_clause),
                ms == rows_model(rows@),
                im == items_model(items@),
                !agg,
                !aggregating_m(im),
                strs_view(columns@) == im.map_values(|i: ItemModel| column_name(i)),
                rows_ok(rows@, g),
                y <= rows@.len(),
                out@.len() == y,
                forall|i: int| 0 <= i < y ==> projects_m(im, ms[i], g, row_view((#[trigger] out@[i])@)),
                inline_limit == limit ==> (limit matches Some(l) ==> rows@.len() <= l || rows@.len() <= 1),
                inline_limit == limit || order_by.is_some(),
                limit matches Some(l) ==> out@.len() < l || out@.len() == 0,
                ordered_by(ms, order_model(*order_by), params@, g),
                complete == (patterns_simple(ps) && !cut_by_limit(limit, im, order_model(*order_by), ms.len() as int)),
                complete ==> forall|m: RowModel| #[trigger] is_match(m, ps, wv, params@, g) ==> ms.contains(m),
                forall|z: int|
                    0 <= z < rows@.len() ==> pred_spec(wv, (#[trigger] rows@[z])@, params@, g) == Ok::<bool, IErr>(true),
                forall|z: int| 0 <= z < rows@.len() ==> row_matches((#[trigger] rows@[z])@, ps, params@),
                ps == patterns_model(patterns@),
                patterns_simple(ps) ==> forall|t: int| 0 <= t < rows@.len() ==> is_match((#[trigger] rows@[t])@, ps, wv, params@, g),
                patterns_simple(ps) ==> distinct_rows(rows@),
            decreases rows@.len() - y,
        {
            let mut cells: Vec<ResultCell> = Vec::new();
            let mut c: usize = 0;
            while c < items.len()
                invariant
                    engine.inv(),
                    engine.unchanged(*old(engine)),
                    g == engine.graph(),
                    rows_ok(rows@, g),
                    ms == rows_model(rows@),
                    im == items_model(items@),
                    y < rows@.len(),
                    c <= items@.len(),
                    cells@.len() == c,
                    forall|d: int|
                        0 <= d < c ==> project_spec(im[d], ms[y as int], g) == Ok::<CellModel, IErr>(
                            (#[trigger] cells@[d])@,
                        ),
                    !aggregating_m(im),
                    patterns_simple(ps) ==> forall|t: int| 0 <= t < rows@.len() ==> is_match((#[trigger] rows@[t])@, ps, wv, params@, g),
                patterns_simple(ps) ==> distinct_rows(rows@),
                    ps == patterns_model(patterns@),
                    wv == crate::query::ast::opt_expr_view(*where_clause),
                decreases items@.len() - c,
            {
                let cell = match project(&items[c], &rows[y], engine) {
                    Ok(cell) => cell,
                    Err(e) => {
                        proof {
                            assert(im[c as int] == items@[c as int]@);
                            assert(ms[y as int] == rows@[y as int]@);
                            if patterns_simple(ps) {
                                assert(is_match(rows@[y as int]@, ps, wv, params@, g));
                                assert(item_fails(im, c as int, rows@[y as int]@, g));
                            }
                        }
                        return Err(e);
                    },
                };
                cells.push(cell);
                c = c + 1;
            }
            proof {
                assert forall|d: int| 0 <= d < im.len() implies project_spec(im[d], ms[y as int], g) == Ok::<CellModel, IErr>(#[trigger] row_view(cells@)[d]) by {
                    assert(row_view(cells@)[d] == cells@[d]@);
                }
                assert(projects_m(im, ms[y as int], g, row_view(cells@)));
            }
            let ghost before = out@;
            out.push(cells);
            proof {
                assert forall|i: int| 0 <= i < y + 1 implies projects_m(im, ms[i], g, row_view((#[trigger] out@[i])@)) by {
                    if i < y {
                        assert(out@[i] == before[i]);
                    }
                }
            }
            match limit {
                Some(l) => {
                    if out.len() as u64 >= l {
                        let res = QueryResult { columns, rows: out };
                        proof {
                            lemma_outcome_rows(res, ps, im, wv, order_model(*order_by), limit, params@, g, ms, rows@);
                        }
                        return Ok(res);
                    }
                },
                None => {},
            }
            y = y + 1;
        }
    }
    let res = QueryResult { columns, rows: out };
    proof {
        if !agg {
            lemma_outcome_rows(res, ps, im, wv, order_model(*order_by), limit, params@, g, ms, rows@);
        } else {
            let q = res@;
            assert(aggregating_m(im));
            assert(q.rows[0] == row_view(out@[0]@));
            assert forall|d: int| 0 <= d < im.len() implies (#[trigger] q.rows[0][d]) == aggregate_cell(im[d], ms, g) by {
                assert(q.rows[0][d] == out@[0]@[d]@);
            }
            assert forall|i: int| 0 <= i < ms.len() implies row_in_graph(#[trigger] ms[i], g) && row_matches(ms[i], ps, params@) && pred_spec(wv, ms[i], params@, g) == Ok::<bool, IErr>(true)
                && (patterns_simple(ps) ==> is_match(ms[i], ps, wv, params@, g)) by {
                assert(ms[i] == rows@[i]@);
            }
            assert(outcome_for(q, ps, im, wv, order_model(*order_by), limit, params@, g, ms));
        }
    }
    Ok(res)
}

/// The ids of the nodes the rows bind to `v`.
pub open spec fn bound_ids(ms: Seq<RowModel>, v: Seq<char>) -> Set<Seq<char>> {
    ms.map_values(|m: RowModel| m[v]->Node_0.id).to_set()
}

/// The edges of `edges` with an endpoint among `ids`.
pub open spec fn touching(edges: Map<Seq<char>, (EdgeModel, bool)>, ids: Set<Seq<char>>) -> Set<Seq<char>> {
    edges.dom().filter(|k: Seq<char>| ids.contains(edges[k].0.from) || ids.contains(edges[k].0.to))
}

/// The graph `MATCH ... [DETACH] DELETE v` leaves for the rows `ms`, each
/// drawn from the graph, meeting the patterns and `WHERE`, and binding
/// `v` to a node: those nodes are gone and, under `DETACH`, so is every
/// edge that touched one of them.
pub open spec fn delete_outcome(
    old: GraphModel,
    new: GraphModel,
    ps: Seq<PathModel>,
    w: Option<ExprModel>,
    v: Seq<char>,
    detach: bool,
    params: Map<Seq<char>, ValueModel>,
    ms: Seq<RowModel>,
) -> bool {
    &&& forall|i: int|
        0 <= i < ms.len() ==> row_in_graph(#[trigger] ms[i], old) && row_matches(ms[i], ps, params) && pred_spec(
            w,
            ms[i],
            params,
            old,
        ) == Ok::<bool, IErr>(true) && ms[i].contains_key(v) && ms[i][v] is Node
    &&& patterns_simple(ps) ==> forall|m: RowModel| #[trigger] is_match(m, ps, w, params, old) ==> ms.contains(m)
    &&& patterns_simple(ps) ==> forall|i: int| 0 <= i < ms.len() ==> is_match(#[trigger] ms[i], ps, w, params, old)
    &&& new.nodes == old.nodes.remove_keys(bound_ids(ms, v))
    &&& new.edges == if detach {
        old.edges.remove_keys(touching(old.edges, bound_ids(ms, v)))
    } else {
        old.edges
    }
    &&& new.schema == old.schema
}

/// The edge `k` of `g` touches the node `m` binds to `v`, and a record
/// deleting it would not fit.
pub open spec fn edge_unfit<S: Storage>(e: Engine<S>, m: RowModel, v: Seq<char>, k: Seq<char>) -> bool {
    let g = e.graph();
    &&& g.edges.contains_key(k)
    &&& (g.edges[k].0.from == m[v]->Node_0.id || g.edges[k].0.to == m[v]->Node_0.id)
    &&& !e.delete_fits(k)
}

/// Deleting the matches runs into an error: a match does not bind `v` to
/// a node, or a record deleting a matched node (or, under `DETACH`, an
/// edge touching one) would not fit.
pub open spec fn delete_fails<S: Storage>(
    e: Engine<S>,
    ps: Seq<PathModel>,
    w: Option<ExprModel>,
    v: Seq<char>,
    detach: bool,
    params: Map<Seq<char>, ValueModel>,
) -> bool {
    ||| exists|m: RowModel| #[trigger] is_match(m, ps, w, params, e.graph()) && !(m.contains_key(v) && m[v] is Node)
    ||| exists|m: RowModel|
        #[trigger] is_match(m, ps, w, params, e.graph()) && m.contains_key(v) && !e.delete_fits(m[v]->Node_0.id)
    ||| detach && exists|m: RowModel, k: Seq<char>|
        is_match(m, ps, w, params, e.graph()) && m.contains_key(v) && #[trigger] edge_unfit(e, m, v, k)
}

/// `ms` are matches of the patterns in `g` that satisfy `WHERE`; for
/// patterns that are simple, each match exactly once and all of them.
pub open spec fn matches_taken(
    g: GraphModel,
    ps: Seq<PathModel>,
    w: Option<ExprModel>,
    params: Map<Seq<char>, ValueModel>,
    ms: Seq<RowModel>,
) -> bool {
    &&& forall|i: int|
        0 <= i < ms.len() ==> row_in_graph(#[trigger] ms[i], g) && row_matches(ms[i], ps, params) && pred_spec(
            w,
            ms[i],
            params,
            g,
        ) == Ok::<bool, IErr>(true)
    &&& patterns_simple(ps) ==> forall|m: RowModel| #[trigger] is_match(m, ps, w, params, g) ==> ms.contains(m)
    &&& patterns_simple(ps) ==> forall|i: int| 0 <= i < ms.len() ==> is_match(#[trigger] ms[i], ps, w, params, g)
}

/// How a `MATCH ... DELETE` that stopped at the match `ms[y]` leaves
/// things: `ms` are the matches, in the order they were taken; those
/// before `y` bind `v` to a node and were deleted (under `DETACH`, with
/// their edges). If `ms[y]` does not bind `v` the error is a variable
/// mismatch, if it binds `v` to an edge the error says edges cannot be
/// deleted, and in both cases nothing else changed, so that a stop at the
/// first match leaves the engine as it was; if it binds a node, deleting
/// that node failed.
pub open spec fn delete_stopped<S: Storage>(
    old: Engine<S>,
    new: Engine<S>,
    ps: Seq<PathModel>,
    w: Option<ExprModel>,
    v: Seq<char>,
    detach: bool,
    params: Map<Seq<char>, ValueModel>,
    ms: Seq<RowModel>,
    y: int,
    e: IErr,
) -> bool {
    let g = old.graph();
    let done = bound_ids(ms.take(y), v);
    &&& 0 <= y < ms.len()
    &&& matches_taken(g, ps, w, params, ms)
    &&& forall|i: int| 0 <= i < y ==> (#[trigger] ms[i]).contains_key(v) && ms[i][v] is Node
    &&& if ms[y].contains_key(v) && ms[y][v] is Node {
        e matches IErr::TypeMismatch(msg) && engine_message(msg)
    } else {
        &&& e == if ms[y].contains_key(v) {
            IErr::DeleteEdgeUnsupported
        } else {
            IErr::DeleteVariableMismatch(v)
        }
        &&& new.graph().nodes == g.nodes.remove_keys(done)
        &&& new.graph().edges == if detach {
            g.edges.remove_keys(touching(g.edges, done))
        } else {
            g.edges
        }
        &&& new.graph().schema == g.schema
        &&& y == 0 ==> new.unchanged(old)
    }
}

fn exec_match_delete<S: Storage>(
    engine: &mut Engine<S>,
    patterns: &Vec<Pattern>,
    where_clause: &Option<Expr>,
    variable: &String,
    detach: bool,
    params: &Params,
) -> (r: Result<QueryResult, InterpretError>)
    requires
        old(engine).inv(),
        params.wf(),
        patterns_wf(patterns@),
    ensures
        final(engine).inv(),
        final(engine).actor_ids() == old(engine).actor_ids(),
        final(engine).settings() == old(engine).settings(),
        crate::engine::sub_graph(final(engine).graph(), old(engine).graph()),
        r matches Ok(q) ==> q@.columns.len() == 0 && q@.rows.len() == 0 && exists|ms: Seq<RowModel>|
            #[trigger] delete_outcome(
                old(engine).graph(),
                final(engine).graph(),
                patterns_model(patterns@),
                crate::query::ast::opt_expr_view(*where_clause),
                variable@,
                detach,
                params@,
                ms,
            ),
        r is Err ==> !old(engine).reliable() || !patterns_simple(patterns_model(patterns@)) || find_fails(
            patterns_model(patterns@),
            crate::query::ast::opt_expr_view(*where_clause),
            params@,
            old(engine).graph(),
        ) || delete_fails(
            *old(engine),
            patterns_model(patterns@),
            crate::query::ast::opt_expr_view(*where_clause),
            variable@,
            detach,
            params@,
        ),
        r matches Err(e) ==> (final(engine).unchanged(*old(engine)) && !crate::query::eval::is_delete_error(e@)) || exists|ms: Seq<RowModel>, y: int|
            #[trigger] delete_stopped(
                *old(engine),
                *final(engine),
                patterns_model(patterns@),
                crate::query::ast::opt_expr_view(*where_clause),
                variable@,
                detach,
                params@,
                ms,
                y,
                e@,
            ),
{
    let ghost g0 = engine.graph();
    let ghost ps = patterns_model(patterns@);
    let ghost wv = crate::query::ast::opt_expr_view(*where_clause);
    let rows = match find_match_rows(engine, patterns, where_clause, params, None) {
        Ok(rows) => rows,
        Err(e) => {
            return Err(e);
        },
    };
    let ghost ms = rows_model(rows@);
    let ghost ids = ms.map_values(|m: RowModel| m[variable@]->Node_0.id);
    proof {
        crate::engine::lemma_replay_keys(engine.records());
        if patterns_simple(ps) {
            assert forall|i: int| 0 <= i < ms.len() implies is_match(#[trigger] ms[i], ps, wv, params@, g0) by {
                assert(ms[i] == rows@[i]@);
            }
            assert forall|m: RowModel| #[trigger] is_match(m, ps, wv, params@, g0) implies ms.contains(m) by {
                assert(in_rows(m, rows@));
                let k = choose|k: int| 0 <= k < rows@.len() && (#[trigger] rows@[k])@ == m;
                assert(ms[k] == m);
            }
        }
        assert forall|i: int| 0 <= i < ms.len() implies row_in_graph(#[trigger] ms[i], g0) && row_matches(ms[i], ps, params@)
            && pred_spec(wv, ms[i], params@, g0) == Ok::<bool, IErr>(true) by {
            assert(ms[i] == rows@[i]@);
        }
        assert(matches_taken(g0, ps, wv, params@, ms));
    }
    let mut y: usize = 0;
    while y < rows.len()
        invariant
            engine.inv(),
            old(engine).inv(),
            g0 == old(engine).graph(),
            engine.actor_ids() == old(engine).actor_ids(),
            engine.settings() == old(engine).settings(),
            crate::engine::sub_graph(engine.graph(), g0),
            rows_ok(rows@, g0),
            ms == rows_model(rows@),
            ids == ms.map_values(|m: RowModel| m[variable@]->Node_0.id),
            y <= rows@.len(),
            forall|z: int| 0 <= z < y ==> (#[trigger] ms[z]).contains_key(variable@) && ms[z][variable@] is Node,
            engine.graph().nodes == g0.nodes.remove_keys(ids.subrange(0, y as int).to_set()),
            engine.graph().edges == if detach {
                g0.edges.remove_keys(touching(g0.edges, ids.subrange(0, y as int).to_set()))
            } else {
                g0.edges
            },
            engine.graph().schema == g0.schema,
            engine.reliable() == old(engine).reliable(),
            patterns_simple(ps) ==> forall|z: int| 0 <= z < rows@.len() ==> is_match((#[trigger] rows@[z])@, ps, wv, params@, g0),
            ps == patterns_model(patterns@),
            wv == crate::query::ast::opt_expr_view(*where_clause),
            matches_taken(g0, ps, wv, params@, ms),
            y == 0 ==> engine.unchanged(*old(engine)),
        decreases rows@.len() - y,
    {
        assert(row_wf(rows@[y as int]));
        proof {
            assert(ms.take(y as int).map_values(|m: RowModel| m[variable@]->Node_0.id) =~= ids.subrange(0, y as int));
            assert(ms[y as int] == rows@[y as int]@);
        }
        let target: Option<String> = match get_binding(&rows[y], variable.as_str()) {
            Some(Binding::Node(n)) => Some(n.id.clone()),
            Some(Binding::Edge(_)) => {
                proof {
                    if patterns_simple(ps) {
                        assert(is_match(rows@[y as int]@, ps, wv, params@, g0));
                    }
                }
                let err = InterpretError::DeleteEdgeUnsupported;
                proof {
                    assert(delete_stopped(*old(engine), *engine, ps, wv, variable@, detach, params@, ms, y as int, err@));
                }
                return Err(err);
            },
            None => {
                proof {
                    if patterns_simple(ps) {
                        assert(is_match(rows@[y as int]@, ps, wv, params@, g0));
                    }
                    assert(delete_stopped(
                        *old(engine),
                        *engine,
                        ps,
                        wv,
                        variable@,
                        detach,
                        params@,
                        ms,
                        y as int,
                        IErr::DeleteVariableMismatch(variable@),
                    ));
                }
                let err = InterpretError::DeleteVariableMismatch(variable.clone());
                proof {
                    assert(delete_stopped(*old(engine), *engine, ps, wv, variable@, detach, params@, ms, y as int, err@));
                }
                return Err(err);
            },
        };
        proof {
            assert(ms[y as int] == rows@[y as int]@);
            assert(row_in_graph(rows@[y as int]@, g0));
            crate::engine::lemma_prefix_set_step(ids, y as int);
        }
        if let Some(id) = target {
            let ghost before = *engine;
            let ghost gb = engine.graph();
            let ghost s0 = ids.subrange(0, y as int).to_set();
            let ghost s1 = ids.subrange(0, y + 1 as int).to_set();
            proof {
                assert(ids[y as int] == id@);
                assert(g0.nodes.contains_key(id@));
                if !gb.nodes.contains_key(id@) {
                    assert(s0.contains(id@));
                    assert(s1 =~= s0);
                }
            }
            if detach {
                let res = engine.delete_node_with_cascade(id.as_str());
                proof {
                    lemma_sub_graph_trans(engine.graph(), gb, g0);
                }
                match res {
                    Ok(_) => {
                        proof {
                            if gb.nodes.contains_key(id@) {
                                let e1 = engine.graph().edges;
                                let e2 = g0.edges.remove_keys(touching(g0.edges, s1));
                                let t0 = touching(g0.edges, s0);
                                let t1 = touching(g0.edges, s1);
                                let inc = crate::engine::incident_ids(gb.edges, id@);
                                assert(e1 == gb.edges.remove_keys(inc));
                                assert forall|k: Seq<char>| e1.contains_key(k) <==> e2.contains_key(k) by {
                                    if g0.edges.contains_key(k) {
                                        let ed = g0.edges[k].0;
                                        assert(t1.contains(k) <==> (s1.contains(ed.from) || s1.contains(ed.to)));
                                        assert(t0.contains(k) <==> (s0.contains(ed.from) || s0.contains(ed.to)));
                                        if gb.edges.contains_key(k) {
                                            assert(gb.edges[k] == g0.edges[k]);
                                            assert(inc.contains(k) <==> (ed.from == id@ || ed.to == id@));
                                        }
                                    }
                                }
                                assert forall|k: Seq<char>| #[trigger] e1.contains_key(k) implies e1[k] == e2[k] by {}
                                assert(e1 =~= e2);
                                assert(engine.graph().nodes =~= g0.nodes.remove_keys(s1));
                            }
                        }
                    },
                    Err(e) => {
                        proof {
                            if old(engine).reliable() && patterns_simple(ps) {
                                let m = rows@[y as int]@;
                                assert(is_match(m, ps, wv, params@, g0));
                                if before.delete_fits(id@) {
                                    let k = choose|k: Seq<char>|
                                        #[trigger] crate::engine::incident_ids(gb.edges, id@).contains(k) && !before.delete_fits(k);
                                    assert(gb.edges.contains_key(k));
                                    assert(g0.edges.contains_key(k) && g0.edges[k] == gb.edges[k]);
                                    assert(edge_unfit(*old(engine), m, variable@, k));
                                }
                            }
                        }
                        let err = InterpretError::TypeMismatch(engine_error_text(&e));
                        proof {
                            assert(ms[y as int].contains_key(variable@) && ms[y as int][variable@] is Node);
                            assert(delete_stopped(*old(engine), *engine, ps, wv, variable@, detach, params@, ms, y as int, err@));
                        }
                        return Err(err);
                    },
                }
            } else {
                let res = engine.delete_node(id.as_str());
                proof {
                    match res {
                        Ok(true) => {
                            crate::engine::lemma_committed_graph(*engine, before, crate::sync::mutation::OpModel::NodeDelete(id@));
                            assert(engine.graph().nodes =~= g0.nodes.remove_keys(s1));
                        },
                        _ => {},
                    }
                    assert(crate::engine::sub_graph(engine.graph(), gb));
                    lemma_sub_graph_trans(engine.graph(), gb, g0);
                }
                match res {
                    Ok(_) => {},
                    Err(e) => {
                        proof {
                            if old(engine).reliable() && patterns_simple(ps) {
                                assert(is_match(rows@[y as int]@, ps, wv, params@, g0));
                            }
                        }
                        let err = InterpretError::TypeMismatch(engine_error_text(&e));
                        proof {
                            assert(ms[y as int].contains_key(variable@) && ms[y as int][variable@] is Node);
                            assert(delete_stopped(*old(engine), *engine, ps, wv, variable@, detach, params@, ms, y as int, err@));
                        }
                        return Err(err);
                    },
                }
            }
        }
        y = y + 1;
    }
    let res = QueryResult::empty();
    proof {
        assert(ids.subrange(0, rows@.len() as int) =~= ids);
        assert(delete_outcome(g0, engine.graph(), ps, wv, variable@, detach, params@, ms)) by {
            if patterns_simple(ps) {
                assert forall|i: int| 0 <= i < ms.len() implies is_match(#[trigger] ms[i], ps, wv, params@, g0) by {
                    assert(ms[i] == rows@[i]@);
                }
                assert forall|m: RowModel| #[trigger] is_match(m, ps, wv, params@, g0) implies ms.contains(m) by {
                    assert(in_rows(m, rows@));
                    let k = choose|k: int| 0 <= k < rows@.len() && (#[trigger] rows@[k])@ == m;
                    assert(ms[k] == m);
                }
            }
            assert forall|i: int| 0 <= i < ms.len() implies row_in_graph(#[trigger] ms[i], g0) && row_matches(ms[i], ps, params@)
                && pred_spec(wv, ms[i], params@, g0) == Ok::<bool, IErr>(true) by {
                assert(ms[i] == rows@[i]@);
            }
        }
    }
    Ok(res)
}

proof fn lemma_sub_graph_trans(a: GraphModel, b: GraphModel, c: GraphModel)
    requires
        crate::engine::sub_graph(a, b),
        crate::engine::sub_graph(b, c),
    ensures
        crate::engine::sub_graph(a, c),
{
    vstd::map_lib::lemma_submap_of_trans(a.nodes, b.nodes, c.nodes);
    vstd::map_lib::lemma_submap_of_trans(a.edges, b.edges, c.edges);
}

// ---------- statement outcomes, over models ----------

pub open spec fn items_model(items: Seq<ReturnItem>) -> Seq<ItemModel> {
    items.map_values(|i: ReturnItem| i@)
}

/// Some return item aggregates.
pub open spec fn aggregating_m(items: Seq<ItemModel>) -> bool {
    exists|i: int| 0 <= i < items.len() && is_aggregate(#[trigger] items[i])
}

/// The row `cells` is what the return items give for a match `m`.
pub open spec fn projects_m(items: Seq<ItemModel>, m: RowModel, g: GraphModel, cells: Seq<CellModel>) -> bool {
    &&& cells.len() == items.len()
    &&& forall|c: int| 0 <= c < items.len() ==> project_spec(items[c], m, g) == Ok::<CellModel, IErr>(#[trigger] cells[c])
}

/// The engine refuses to insert `n` into `g`: its id is live, or the
/// schema does not admit its label and properties.
pub open spec fn insert_refused(g: GraphModel, n: NodeModel) -> bool {
    g.nodes.contains_key(n.id) || !(crate::engine::label_known(g.schema, n.label) && crate::engine::props_conform(
        g.schema,
        n.label,
        n.properties,
    ))
}

/// Why a write of `n` gave an error: the engine refused it and nothing
/// changed, or the write itself failed; on a store that cannot fail, only
/// because the node's record would be too long.
pub open spec fn insert_failed<S: Storage>(old: Engine<S>, new: Engine<S>, n: NodeModel) -> bool {
    &&& new.graph() == old.graph()
    &&& insert_refused(old.graph(), n) ==> new.unchanged(old)
    &&& !insert_refused(old.graph(), n) ==> exists|ee: EngineError| #[trigger] new.write_failed(old, ee)
    &&& !insert_refused(old.graph(), n) && old.reliable() ==> exists|nd: Node|
        nd@ == n && #[trigger] old.too_long(crate::sync::mutation::MutationOp::NodeInsert(nd))
}

/// What `CREATE` does: with a pattern that gives no node, an error and
/// nothing written; else the node's insertion committed, or a refused
/// insertion with the graph unchanged.
pub open spec fn create_outcome<S: Storage>(
    old: Engine<S>,
    new: Engine<S>,
    pattern: PatternModel,
    params: Map<Seq<char>, ValueModel>,
    r: Result<ResultModel, IErr>,
) -> bool {
    &&& pattern_node_error(pattern, params) is Some ==> r is Err && new.unchanged(old)
    &&& pattern_node_error(pattern, params) is None ==> match r {
        Ok(q) => q.columns.len() == 0 && q.rows.len() == 0 && new.committed(
            old,
            crate::sync::mutation::OpModel::NodeInsert(node_of(pattern.label->Some_0, map_values_of(pattern.properties, params))),
        ),
        Err(e) => {
            let n = node_of(pattern.label->Some_0, map_values_of(pattern.properties, params));
            &&& e matches IErr::TypeMismatch(msg) && engine_message(msg) && (old.graph().nodes.contains_key(n.id)
                ==> msg == "duplicate id: "@ + n.id)
            &&& insert_failed(old, new, n)
        },
    }
}

/// What `MERGE` does: as `CREATE`, but a node whose id is already live is
/// left as it is.
pub open spec fn merge_outcome<S: Storage>(
    old: Engine<S>,
    new: Engine<S>,
    pattern: PatternModel,
    params: Map<Seq<char>, ValueModel>,
    r: Result<ResultModel, IErr>,
) -> bool {
    &&& pattern_node_error(pattern, params) is Some ==> r is Err && new.unchanged(old)
    &&& pattern_node_error(pattern, params) is None ==> {
        let n = node_of(pattern.label->Some_0, map_values_of(pattern.properties, params));
        if old.graph().nodes.contains_key(n.id) {
            r matches Ok(q) && q.columns.len() == 0 && q.rows.len() == 0 && new.unchanged(old)
        } else {
            match r {
                Ok(q) => q.columns.len() == 0 && q.rows.len() == 0 && new.committed(
                    old,
                    crate::sync::mutation::OpModel::NodeInsert(n),
                ),
                Err(e) => e matches IErr::TypeMismatch(msg) && engine_message(msg) && insert_failed(old, new, n),
            }
        }
    }
}

/// What a statement does to the engine and gives back, for a result `r`.
pub open spec fn statement_outcome<S: Storage>(
    old: Engine<S>,
    new: Engine<S>,
    stmt: crate::query::ast::StatementModel,
    params: Map<Seq<char>, ValueModel>,
    r: Result<ResultModel, IErr>,
) -> bool {
    match stmt {
        crate::query::ast::StatementModel::Create { pattern } => create_outcome(old, new, pattern, params, r),
        crate::query::ast::StatementModel::Merge { pattern } => merge_outcome(old, new, pattern, params, r),
        crate::query::ast::StatementModel::MatchReturn { patterns, where_clause, return_items, order_by, limit } => {
            &&& new.unchanged(old)
            &&& r matches Ok(q) ==> match_outcome(q, patterns, return_items, where_clause, order_by, limit, params, old.graph())
            &&& r is Err ==> !old.reliable() || !patterns_simple(patterns) || find_fails(patterns, where_clause, params, old.graph())
                || return_fails(patterns, where_clause, return_items, order_by, params, old.graph())
        },
        crate::query::ast::StatementModel::MatchDelete { patterns, where_clause, variable, detach } => {
            &&& crate::engine::sub_graph(new.graph(), old.graph())
            &&& r matches Ok(q) ==> q.columns.len() == 0 && q.rows.len() == 0 && exists|ms: Seq<RowModel>|
                #[trigger] delete_outcome(old.graph(), new.graph(), patterns, where_clause, variable, detach, params, ms)
            &&& r is Err ==> !old.reliable() || !patterns_simple(patterns) || find_fails(patterns, where_clause, params, old.graph())
                || delete_fails(old, patterns, where_clause, variable, detach, params)
            &&& r matches Err(e) ==> (new.unchanged(old) && !crate::query::eval::is_delete_error(e)) || exists|ms: Seq<RowModel>, y: int|
                #[trigger] delete_stopped(old, new, patterns, where_clause, variable, detach, params, ms, y, e)
        },
    }
}

/// A node that `CREATE` wrote is found again: a later
/// `MATCH (v[:Label]) RETURN ...` of a label it has, with no `WHERE` and
/// no `LIMIT`, draws its rows from a sequence of matches that holds the
/// row binding `v` to that node.
pub proof fn lemma_create_then_match<S: Storage>(
    e0: Engine<S>,
    e1: Engine<S>,
    e2: Engine<S>,
    pattern: PatternModel,
    params: Map<Seq<char>, ValueModel>,
    q0: ResultModel,
    v: Seq<char>,
    label: Option<Seq<char>>,
    items: Seq<ItemModel>,
    order: Option<(ExprModel, SortDirection)>,
    params2: Map<Seq<char>, ValueModel>,
    q: ResultModel,
)
    requires
        statement_outcome(
            e0,
            e1,
            crate::query::ast::StatementModel::Create { pattern },
            params,
            Ok::<ResultModel, IErr>(q0),
        ),
        statement_outcome(
            e1,
            e2,
            crate::query::ast::StatementModel::MatchReturn {
                patterns: seq![PathModel::Node(PatternModel { variable: v, label, properties: Map::empty() })],
                where_clause: None,
                return_items: items,
                order_by: order,
                limit: None,
            },
            params2,
            Ok::<ResultModel, IErr>(q),
        ),
        label_ok(label, pattern.label->Some_0),
    ensures
        exists|ms: Seq<RowModel>|
            #[trigger] outcome_for(
                q,
                seq![PathModel::Node(PatternModel { variable: v, label, properties: Map::empty() })],
                items,
                None,
                order,
                None,
                params2,
                e1.graph(),
                ms,
            ) && ms.contains(node_row(v, node_of(pattern.label->Some_0, map_values_of(pattern.properties, params)))),
{
    let n = node_of(pattern.label->Some_0, map_values_of(pattern.properties, params));
    let np = PatternModel { variable: v, label, properties: Map::empty() };
    let ps = seq![PathModel::Node(np)];
    crate::engine::lemma_committed_graph(e1, e0, crate::sync::mutation::OpModel::NodeInsert(n));
    let g = e1.graph();
    assert(live_node(g, n));
    let b = node_row(v, n);
    assert(ps[0] == PathModel::Node(np));
    assert(label_ok(np.label, n.label) && b == node_row(np.variable, n));
    assert(alone(b, ps[0], params2, g));
    let bs = seq![b];
    assert(bs[0] == b);
    assert(fold_rows(bs, 0) == Map::<Seq<char>, BindModel>::empty());
    assert(b.union_prefer_right(Map::<Seq<char>, BindModel>::empty()) =~= b);
    assert(fold_rows(bs, 1) == b);
    assert(joins(bs, ps, 1, params2, g));
    assert(joined(b, ps, 1, params2, g));
    assert(is_match(b, ps, None, params2, g));
    assert(patterns_simple(ps));
    let ms = choose|ms: Seq<RowModel>| #[trigger] outcome_for(q, ps, items, None, order, None, params2, g, ms);
    assert(ms.contains(b));
}

/// The matches of the patterns in `g`.
pub open spec fn matches_of(
    ps: Seq<PathModel>,
    w: Option<ExprModel>,
    params: Map<Seq<char>, ValueModel>,
    g: GraphModel,
) -> Set<RowModel> {
    Set::new(|m: RowModel| is_match(m, ps, w, params, g))
}

/// `a` sorts strictly before `b` under `ORDER BY ... ASC`.
pub open spec fn sorts_before(a: ValueModel, b: ValueModel) -> bool {
    sort_order(a, b, SortDirection::Asc) == FloatOrder::Less
}

/// The `ORDER BY` keys of the matches are mutually comparable and no two
/// matches tie: the keys of two different matches never compare equal.
pub open spec fn keys_comparable(
    ps: Seq<PathModel>,
    w: Option<ExprModel>,
    e: ExprModel,
    params: Map<Seq<char>, ValueModel>,
    g: GraphModel,
) -> bool {
    forall|m1: RowModel, m2: RowModel|
        #[trigger] is_match(m1, ps, w, params, g) && #[trigger] is_match(m2, ps, w, params, g) && m1 != m2
            ==> sort_order(sort_key(e, m1, params, g), sort_key(e, m2, params, g), SortDirection::Asc)
            != FloatOrder::Equal
}

proof fn lemma_sorts_before_asym(a: ValueModel, b: ValueModel)
    ensures
        sorts_before(a, b) ==> !sorts_before(b, a),
{
    lemma_sort_order_antisym(a, b, SortDirection::Asc);
}

proof fn lemma_bytes_order_trans(x: Seq<u8>, y: Seq<u8>, z: Seq<u8>, i: int)
    requires
        0 <= i,
        bytes_order_from(x, y, i) == FloatOrder::Less,
        bytes_order_from(y, z, i) == FloatOrder::Less,
    ensures
        bytes_order_from(x, z, i) == FloatOrder::Less,
    decreases x.len() + y.len() - 2 * i,
{
    if i < x.len() && i < y.len() && x[i] == y[i] && i < z.len() && y[i] == z[i] {
        lemma_bytes_order_trans(x, y, z, i + 1);
    }
}

proof fn lemma_sorts_before_trans(a: ValueModel, b: ValueModel, c: ValueModel)
    requires
        sorts_before(a, b),
        sorts_before(b, c),
    ensures
        sorts_before(a, c),
{
    reveal(sort_order);
    match (a, b, c) {
        (ValueModel::Str(x), ValueModel::Str(y), ValueModel::Str(z)) => {
            lemma_bytes_order_trans(vstd::utf8::encode_utf8(x), vstd::utf8::encode_utf8(y), vstd::utf8::encode_utf8(z), 0);
        },
        (ValueModel::I64(x), ValueModel::I64(y), ValueModel::F64(_)) => {
            crate::float::lemma_int_bits_key(x);
            crate::float::lemma_int_bits_mono(x, y);
        },
        (ValueModel::I64(x), ValueModel::F64(_), ValueModel::I64(z)) => {
            crate::float::lemma_int_bits_key(x);
            crate::float::lemma_int_bits_key(z);
            if z <= x {
                crate::float::lemma_int_bits_mono(z, x);
            }
        },
        (ValueModel::F64(_), ValueModel::I64(y), ValueModel::I64(z)) => {
            crate::float::lemma_int_bits_key(z);
            crate::float::lemma_int_bits_mono(y, z);
        },
        (ValueModel::I64(x), ValueModel::F64(_), ValueModel::F64(_)) => {
            crate::float::lemma_int_bits_key(x);
        },
        (ValueModel::F64(_), ValueModel::I64(y), ValueModel::F64(_)) => {
            crate::float::lemma_int_bits_key(y);
        },
        (ValueModel::F64(_), ValueModel::F64(_), ValueModel::I64(z)) => {
            crate::float::lemma_int_bits_key(z);
        },
        _ => {},
    }
}

/// Untied keys in order step strictly: up under `ASC`, down under
/// `DESC`.
proof fn lemma_key_step(a: ValueModel, b: ValueModel, dir: SortDirection)
    requires
        sort_order(a, b, SortDirection::Asc) != FloatOrder::Equal,
        sort_order(a, b, dir) != FloatOrder::Greater,
    ensures
        dir == SortDirection::Asc ==> sorts_before(a, b),
        dir == SortDirection::Desc ==> sorts_before(b, a),
{
    lemma_sort_order_antisym(a, b, SortDirection::Asc);
    reveal(sort_order);
}

/// Along `ms`, each element comes strictly before every later one by `r`.
pub open spec fn chained(ms: Seq<RowModel>, r: spec_fn(RowModel, RowModel) -> bool) -> bool {
    forall|i: int, j: int| 0 <= i < j < ms.len() ==> r(#[trigger] ms[i], #[trigger] ms[j])
}

/// Two sequences holding the same elements, each chained by an
/// asymmetric relation, are the same sequence.
proof fn lemma_chained_unique(a: Seq<RowModel>, b: Seq<RowModel>, r: spec_fn(RowModel, RowModel) -> bool)
    requires
        chained(a, r),
        chained(b, r),
        forall|x: RowModel, y: RowModel| #[trigger] r(x, y) ==> !r(y, x),
        forall|x: RowModel| a.contains(x) <==> b.contains(x),
    ensures
        a == b,
    decreases a.len(),
{
    if a.len() == 0 {
        if b.len() > 0 {
            assert(b.contains(b[0]));
        }
        assert(a =~= b);
    } else {
        assert(a.contains(a[0]));
        assert(b.len() > 0);
        assert(b.contains(b[0]));
        let i = choose|i: int| 0 <= i < a.len() && a[i] == b[0];
        let j = choose|j: int| 0 <= j < b.len() && b[j] == a[0];
        if i > 0 && j > 0 {
            assert(r(a[0], a[i]));
            assert(r(b[0], b[j]));
        }
        assert(a[0] == b[0]);
        let a1 = a.drop_first();
        let b1 = b.drop_first();
        assert forall|x: RowModel| a1.contains(x) <==> b1.contains(x) by {
            if a1.contains(x) {
                let p = choose|p: int| 0 <= p < a1.len() && a1[p] == x;
                assert(a[p + 1] == x);
                assert(r(a[0], a[p + 1]));
                assert(b.contains(x));
                let q = choose|q: int| 0 <= q < b.len() && b[q] == x;
                assert(q != 0);
                assert(b1[q - 1] == x);
            }
            if b1.contains(x) {
                let p = choose|p: int| 0 <= p < b1.len() && b1[p] == x;
                assert(b[p + 1] == x);
                assert(r(b[0], b[p + 1]));
                assert(a.contains(x));
                let q = choose|q: int| 0 <= q < a.len() && a[q] == x;
                assert(q != 0);
                assert(a1[q - 1] == x);
            }
        }
        assert forall|p: int, q: int| 0 <= p < q < a1.len() implies r(#[trigger] a1[p], #[trigger] a1[q]) by {
            assert(a1[p] == a[p + 1] && a1[q] == a[q + 1]);
        }
        assert forall|p: int, q: int| 0 <= p < q < b1.len() implies r(#[trigger] b1[p], #[trigger] b1[q]) by {
            assert(b1[p] == b[p + 1] && b1[q] == b[q + 1]);
        }
        lemma_chained_unique(a1, b1, r);
        assert(a =~= b) by {
            assert forall|p: int| 0 <= p < a.len() implies a[p] == b[p] by {
                if p > 0 {
                    assert(a[p] == a1[p - 1] && b[p] == b1[p - 1]);
                }
            }
        }
    }
}

/// A step by a relation that is transitive on the elements, at each
/// adjacent pair, chains the whole sequence.
proof fn lemma_steps_chain(ms: Seq<RowModel>, r: spec_fn(RowModel, RowModel) -> bool, i: int, j: int)
    requires
        forall|t: int| 0 <= t < ms.len() - 1 ==> r(#[trigger] ms[t], ms[t + 1]),
        forall|x: int, y: int, z: int|
            0 <= x < ms.len() && 0 <= y < ms.len() && 0 <= z < ms.len() && #[trigger] r(ms[x], ms[y]) && #[trigger] r(
                ms[y],
                ms[z],
            ) ==> r(ms[x], ms[z]),
        0 <= i < j < ms.len(),
    ensures
        r(ms[i], ms[j]),
    decreases j - i,
{
    assert(r(ms[j - 1], ms[j]));
    if i < j - 1 {
        lemma_steps_chain(ms, r, i, j - 1);
    }
}

/// What an outcome with an `ORDER BY`, no `LIMIT` and no aggregate says
/// of its matches and rows, on patterns that use each variable for one
/// thing.
proof fn lemma_sorted_outcome(
    q: ResultModel,
    ps: Seq<PathModel>,
    items: Seq<ItemModel>,
    w: Option<ExprModel>,
    e: ExprModel,
    dir: SortDirection,
    params: Map<Seq<char>, ValueModel>,
    g: GraphModel,
    ms: Seq<RowModel>,
)
    requires
        outcome_for(q, ps, items, w, Some((e, dir)), None, params, g, ms),
        patterns_simple(ps),
        !aggregating_m(items),
    ensures
        ordered_by(ms, Some((e, dir)), params, g),
        ms.no_duplicates(),
        forall|i: int| 0 <= i < ms.len() ==> is_match(#[trigger] ms[i], ps, w, params, g),
        forall|m: RowModel| #[trigger] is_match(m, ps, w, params, g) ==> ms.contains(m),
        q.rows.len() == ms.len(),
        forall|i: int| 0 <= i < q.rows.len() ==> projects_m(items, ms[i], g, #[trigger] q.rows[i]),
{
    assert(!cut_by_limit(None, items, Some((e, dir)), ms.len() as int));
}

/// Matches ordered by comparable keys on which no two matches tie come
/// in strictly descending key order under `DESC`, and strictly ascending
/// under `ASC` (read backwards: strictly descending).
proof fn lemma_ordered_chain(
    ms: Seq<RowModel>,
    ps: Seq<PathModel>,
    w: Option<ExprModel>,
    e: ExprModel,
    dir: SortDirection,
    params: Map<Seq<char>, ValueModel>,
    g: GraphModel,
)
    requires
        ordered_by(ms, Some((e, dir)), params, g),
        ms.no_duplicates(),
        forall|i: int| 0 <= i < ms.len() ==> is_match(#[trigger] ms[i], ps, w, params, g),
        keys_comparable(ps, w, e, params, g),
    ensures
        dir == SortDirection::Desc ==> chained(ms, |x: RowModel, y: RowModel| sorts_before(sort_key(e, y, params, g), sort_key(e, x, params, g))),
        dir == SortDirection::Asc ==> chained(ms.reverse(), |x: RowModel, y: RowModel| sorts_before(sort_key(e, y, params, g), sort_key(e, x, params, g))),
{
    let r = |x: RowModel, y: RowModel| sorts_before(sort_key(e, y, params, g), sort_key(e, x, params, g));
    let s = if dir == SortDirection::Desc { ms } else { ms.reverse() };
    assert forall|i: int, j: int| 0 <= i < ms.len() && 0 <= j < ms.len() && i != j implies sort_order(
        sort_key(e, #[trigger] ms[i], params, g),
        sort_key(e, #[trigger] ms[j], params, g),
        SortDirection::Asc,
    ) != FloatOrder::Equal by {
        assert(is_match(ms[i], ps, w, params, g));
        assert(is_match(ms[j], ps, w, params, g));
        if i != j {
            assert(ms[i] != ms[j]);
        }
    }
    assert forall|t: int| 0 <= t < s.len() - 1 implies r(#[trigger] s[t], s[t + 1]) by {
        let (a, b) = if dir == SortDirection::Desc { (t, t + 1) } else { (ms.len() - 2 - t, ms.len() - 1 - t) };
        assert(s[t] == ms[if dir == SortDirection::Desc { a } else { b }]);
        assert(s[t + 1] == ms[if dir == SortDirection::Desc { b } else { a }]);
        assert(is_match(ms[a], ps, w, params, g));
        assert(is_match(ms[a + 1], ps, w, params, g));
        assert(ms[a] != ms[a + 1]);
        assert(sort_order(sort_key(e, ms[a], params, g), sort_key(e, ms[a + 1], params, g), dir) != FloatOrder::Greater);
        assert(sort_order(sort_key(e, ms[a], params, g), sort_key(e, ms[a + 1], params, g), SortDirection::Asc) != FloatOrder::Equal);
        lemma_key_step(sort_key(e, ms[a], params, g), sort_key(e, ms[a + 1], params, g), dir);
    }
    assert forall|x: int, y: int, z: int|
        0 <= x < s.len() && 0 <= y < s.len() && 0 <= z < s.len() && #[trigger] r(s[x], s[y]) && #[trigger] r(s[y], s[z]) implies r(
        s[x],
        s[z],
    ) by {
        let ix = if dir == SortDirection::Desc { x } else { ms.len() - 1 - x };
        let iy = if dir == SortDirection::Desc { y } else { ms.len() - 1 - y };
        let iz = if dir == SortDirection::Desc { z } else { ms.len() - 1 - z };
        assert(s[x] == ms[ix] && s[y] == ms[iy] && s[z] == ms[iz]);
        lemma_sorts_before_trans(sort_key(e, ms[iz], params, g), sort_key(e, ms[iy], params, g), sort_key(e, ms[ix], params, g));
    }
    assert forall|i: int, j: int| 0 <= i < j < s.len() implies r(#[trigger] s[i], #[trigger] s[j]) by {
        lemma_steps_chain(s, r, i, j);
    }
}

/// `ORDER BY ... DESC` gives the rows of `ORDER BY ... ASC` in reverse:
/// with no `LIMIT` and no aggregate, on patterns that use each variable
/// for one thing, where the keys of the matches are mutually comparable
/// and no two of them tie.
pub proof fn lemma_desc_reverses_asc(
    qa: ResultModel,
    qd: ResultModel,
    ps: Seq<PathModel>,
    items: Seq<ItemModel>,
    w: Option<ExprModel>,
    e: ExprModel,
    params: Map<Seq<char>, ValueModel>,
    g: GraphModel,
)
    requires
        match_outcome(qa, ps, items, w, Some((e, SortDirection::Asc)), None, params, g),
        match_outcome(qd, ps, items, w, Some((e, SortDirection::Desc)), None, params, g),
        patterns_simple(ps),
        !aggregating_m(items),
        keys_comparable(ps, w, e, params, g),
    ensures
        qd.rows == qa.rows.reverse(),
        qd.columns == qa.columns,
{
    let ma = choose|ms: Seq<RowModel>| #[trigger] outcome_for(qa, ps, items, w, Some((e, SortDirection::Asc)), None, params, g, ms);
    let md = choose|ms: Seq<RowModel>| #[trigger] outcome_for(qd, ps, items, w, Some((e, SortDirection::Desc)), None, params, g, ms);
    lemma_sorted_outcome(qa, ps, items, w, e, SortDirection::Asc, params, g, ma);
    lemma_sorted_outcome(qd, ps, items, w, e, SortDirection::Desc, params, g, md);
    let r = |x: RowModel, y: RowModel| sorts_before(sort_key(e, y, params, g), sort_key(e, x, params, g));
    lemma_ordered_chain(ma, ps, w, e, SortDirection::Asc, params, g);
    lemma_ordered_chain(md, ps, w, e, SortDirection::Desc, params, g);
    let ra = ma.reverse();
    assert forall|x: RowModel, y: RowModel| #[trigger] r(x, y) implies !r(y, x) by {
        lemma_sorts_before_asym(sort_key(e, y, params, g), sort_key(e, x, params, g));
    }
    assert forall|x: RowModel| ra.contains(x) <==> md.contains(x) by {
        if ra.contains(x) {
            let p = choose|p: int| 0 <= p < ra.len() && ra[p] == x;
            assert(ma[ma.len() - 1 - p] == x);
            assert(is_match(ma[ma.len() - 1 - p], ps, w, params, g));
        }
        if md.contains(x) {
            let p = choose|p: int| 0 <= p < md.len() && md[p] == x;
            assert(is_match(md[p], ps, w, params, g));
            let q = choose|q: int| 0 <= q < ma.len() && ma[q] == x;
            assert(ra[ma.len() - 1 - q] == x);
        }
    }
    lemma_chained_unique(ra, md, r);
    lemma_rows_reversed(qa, qd, items, g, ma, md);
}

/// Rows projected from the same matches in reverse order are the rows in
/// reverse order.
proof fn lemma_rows_reversed(qa: ResultModel, qd: ResultModel, items: Seq<ItemModel>, g: GraphModel, ma: Seq<RowModel>, md: Seq<RowModel>)
    requires
        md == ma.reverse(),
        qa.rows.len() == ma.len(),
        qd.rows.len() == md.len(),
        forall|i: int| 0 <= i < qa.rows.len() ==> projects_m(items, ma[i], g, #[trigger] qa.rows[i]),
        forall|i: int| 0 <= i < qd.rows.len() ==> projects_m(items, md[i], g, #[trigger] qd.rows[i]),
    ensures
        qd.rows == qa.rows.reverse(),
{
    assert forall|i: int| 0 <= i < qd.rows.len() implies qd.rows[i] == qa.rows.reverse()[i] by {
        let j = qa.rows.len() - 1 - i;
        assert(md[i] == ma[j]);
        assert(projects_m(items, md[i], g, qd.rows[i]));
        assert(projects_m(items, ma[j], g, qa.rows[j]));
        assert(qd.rows[i] =~= qa.rows[j]) by {
            assert forall|c: int| 0 <= c < items.len() implies qd.rows[i][c] == qa.rows[j][c] by {
                assert(project_spec(items[c], md[i], g) == Ok::<CellModel, IErr>(qd.rows[i][c]));
                assert(project_spec(items[c], ma[j], g) == Ok::<CellModel, IErr>(qa.rows[j][c]));
            }
        }
    }
    assert(qd.rows =~= qa.rows.reverse());
}

/// `collect(v)` gathers the ids of what `v` is bound to: its cell is one
/// list holding, match by match in order, the id of the node or edge that
/// the match binds to `v`.
pub proof fn lemma_collect_gathers_ids(
    q: ResultModel,
    ps: Seq<PathModel>,
    items: Seq<ItemModel>,
    w: Option<ExprModel>,
    order: Option<(ExprModel, SortDirection)>,
    limit: Option<u64>,
    params: Map<Seq<char>, ValueModel>,
    g: GraphModel,
    ms: Seq<RowModel>,
    c: int,
    v: Seq<char>,
)
    requires
        outcome_for(q, ps, items, w, order, limit, params, g, ms),
        0 <= c < items.len(),
        items[c] == ItemModel::CollectVariable(v),
    ensures
        q.rows.len() == 1,
        q.rows[0][c] matches CellModel::Value(ValueModel::List(l)) && l.len() == ms.len() && forall|j: int|
            0 <= j < ms.len() ==> (#[trigger] ms[j]).contains_key(v) && l[j] == ValueModel::Str(
                match ms[j][v] {
                    BindModel::Node(n) => n.id,
                    BindModel::Edge(e) => e.id,
                },
            ),
{
    assert(is_aggregate(items[c]));
    assert(aggregating_m(items));
    assert(q.rows[0][c] == aggregate_cell(items[c], ms, g));
    let l = collect_list(items[c], ms, g);
    assert forall|j: int| 0 <= j < ms.len() implies (#[trigger] ms[j]).contains_key(v) && l[j] == ValueModel::Str(
        match ms[j][v] {
            BindModel::Node(n) => n.id,
            BindModel::Edge(e) => e.id,
        },
    ) by {
        assert(collect_spec(items[c], ms[j], g) is Ok);
    }
}

/// `ORDER BY` sorts by value: on timestamp, integer, double (not NaN) or
/// boolean keys, under `ASC` each row's key is at most every later row's
/// (`false` before `true`), under `DESC` at least.
pub proof fn lemma_sorted_by_value(
    ms: Seq<RowModel>,
    e: ExprModel,
    dir: SortDirection,
    params: Map<Seq<char>, ValueModel>,
    g: GraphModel,
)
    requires
        ordered_by(ms, Some((e, dir)), params, g),
    ensures
        (forall|i: int| 0 <= i < ms.len() ==> (#[trigger] sort_key(e, ms[i], params, g)) is Timestamp) ==> forall|
            i: int,
            j: int,
        |
            0 <= i < j < ms.len() ==> (dir == SortDirection::Asc ==> sort_key(e, #[trigger] ms[i], params, g)->Timestamp_0
                <= sort_key(e, #[trigger] ms[j], params, g)->Timestamp_0) && (dir == SortDirection::Desc ==> sort_key(
                e,
                ms[i],
                params,
                g,
            )->Timestamp_0 >= sort_key(e, ms[j], params, g)->Timestamp_0),
        (forall|i: int| 0 <= i < ms.len() ==> (#[trigger] sort_key(e, ms[i], params, g)) is I64) ==> forall|
            i: int,
            j: int,
        |
            0 <= i < j < ms.len() ==> (dir == SortDirection::Asc ==> sort_key(e, #[trigger] ms[i], params, g)->I64_0
                <= sort_key(e, #[trigger] ms[j], params, g)->I64_0) && (dir == SortDirection::Desc ==> sort_key(
                e,
                ms[i],
                params,
                g,
            )->I64_0 >= sort_key(e, ms[j], params, g)->I64_0),
        (forall|i: int|
            0 <= i < ms.len() ==> (#[trigger] sort_key(e, ms[i], params, g)) is F64 && !crate::float::is_nan(
                sort_key(e, ms[i], params, g)->F64_0,
            )) ==> forall|i: int, j: int|
            0 <= i < j < ms.len() ==> (dir == SortDirection::Asc ==> crate::float::order_key(
                sort_key(e, #[trigger] ms[i], params, g)->F64_0,
            ) <= crate::float::order_key(sort_key(e, #[trigger] ms[j], params, g)->F64_0)) && (dir
                == SortDirection::Desc ==> crate::float::order_key(sort_key(e, ms[i], params, g)->F64_0)
                >= crate::float::order_key(sort_key(e, ms[j], params, g)->F64_0)),
        (forall|i: int| 0 <= i < ms.len() ==> (#[trigger] sort_key(e, ms[i], params, g)) is Bool) ==> forall|
            i: int,
            j: int,
        |
            0 <= i < j < ms.len() ==> (dir == SortDirection::Asc ==> (sort_key(e, #[trigger] ms[i], params, g)->Bool_0
                ==> sort_key(e, #[trigger] ms[j], params, g)->Bool_0)) && (dir == SortDirection::Desc ==> (sort_key(
                e,
                ms[j],
                params,
                g,
            )->Bool_0 ==> sort_key(e, ms[i], params, g)->Bool_0)),
{
    reveal(sort_order);
    let num = |m: RowModel| match sort_key(e, m, params, g) {
        ValueModel::Timestamp(x) => x as int,
        ValueModel::I64(x) => x as int,
        ValueModel::F64(x) => crate::float::order_key(x),
        ValueModel::Bool(x) => if x { 1int } else { 0int },
        _ => 0,
    };
    let r = |x: RowModel, y: RowModel| if dir == SortDirection::Asc {
        num(x) <= num(y)
    } else {
        num(x) >= num(y)
    };
    let ts = forall|i: int| 0 <= i < ms.len() ==> (#[trigger] sort_key(e, ms[i], params, g)) is Timestamp;
    let is = forall|i: int| 0 <= i < ms.len() ==> (#[trigger] sort_key(e, ms[i], params, g)) is I64;
    let fs = forall|i: int|
        0 <= i < ms.len() ==> (#[trigger] sort_key(e, ms[i], params, g)) is F64 && !crate::float::is_nan(
            sort_key(e, ms[i], params, g)->F64_0,
        );
    let bs = forall|i: int| 0 <= i < ms.len() ==> (#[trigger] sort_key(e, ms[i], params, g)) is Bool;
    if ts || is || fs || bs {
        assert forall|t: int| 0 <= t < ms.len() - 1 implies r(#[trigger] ms[t], ms[t + 1]) by {
            assert(sort_order(sort_key(e, ms[t], params, g), sort_key(e, ms[t + 1], params, g), dir) != FloatOrder::Greater);
            let a = sort_key(e, ms[t], params, g);
            let b = sort_key(e, ms[t + 1], params, g);
            if ts {
                assert(a is Timestamp && b is Timestamp);
            } else if is {
                assert(a is I64 && b is I64);
            } else if fs {
                assert(a is F64 && b is F64);
            } else {
                assert(a is Bool && b is Bool);
            }
        }
        assert forall|i: int, j: int| 0 <= i < j < ms.len() implies r(#[trigger] ms[i], #[trigger] ms[j]) by {
            lemma_steps_chain(ms, r, i, j);
        }
    }
}

/// `count` counts the matches: for patterns that use each variable for
/// one thing, the matches are finitely many and a `count` item's cell is
/// their number.
pub proof fn lemma_count_counts_matches(
    q: ResultModel,
    ps: Seq<PathModel>,
    items: Seq<ItemModel>,
    w: Option<ExprModel>,
    order: Option<(ExprModel, SortDirection)>,
    limit: Option<u64>,
    params: Map<Seq<char>, ValueModel>,
    g: GraphModel,
    ms: Seq<RowModel>,
    c: int,
)
    requires
        outcome_for(q, ps, items, w, order, limit, params, g, ms),
        patterns_simple(ps),
        0 <= c < items.len(),
        items[c] is Count,
    ensures
        matches_of(ps, w, params, g).finite(),
        q.rows[0][c] == CellModel::Value(ValueModel::I64(matches_of(ps, w, params, g).len() as i64)),
{
    assert(is_aggregate(items[c]));
    assert(aggregating_m(items));
    let all = matches_of(ps, w, params, g);
    assert forall|m: RowModel| all.contains(m) <==> ms.to_set().contains(m) by {
        if ms.to_set().contains(m) {
            let i = choose|i: int| 0 <= i < ms.len() && ms[i] == m;
            assert(is_match(ms[i], ps, w, params, g));
        }
        if all.contains(m) {
            assert(is_match(m, ps, w, params, g));
            assert(ms.contains(m));
        }
    }
    assert(all =~= ms.to_set());
    ms.unique_seq_to_set();
    assert(q.rows[0][c] == aggregate_cell(items[c], ms, g));
}

/// A query result or interpreter error, as models.
pub open spec fn result_model(r: Result<QueryResult, InterpretError>) -> Result<ResultModel, IErr> {
    match r {
        Ok(q) => Ok(q@),
        Err(e) => Err(e@),
    }
}

/// Every pattern map in the statement is well formed.
pub open spec fn statement_wf(stmt: Statement) -> bool {
    match stmt {
        Statement::Create { pattern } => pattern.properties.wf(),
        Statement::Merge { pattern } => pattern.properties.wf(),
        Statement::MatchReturn { patterns, .. } => patterns_wf(patterns@),
        Statement::MatchDelete { patterns, .. } => patterns_wf(patterns@),
    }
}

/// Runs a statement against the engine.
pub fn execute<S: Storage>(engine: &mut Engine<S>, stmt: &Statement, params: &Params) -> (r: Result<
    QueryResult,
    InterpretError,
>)
    requires
        old(engine).inv(),
        params.wf(),
        statement_wf(*stmt),
    ensures
        final(engine).inv(),
        final(engine).actor_ids() == old(engine).actor_ids(),
        final(engine).settings() == old(engine).settings(),
        statement_outcome(*old(engine), *final(engine), stmt@, params@, result_model(r)),
{
    match stmt {
        Statement::Create { pattern } => exec_create(engine, pattern, params),
        Statement::Merge { pattern } => exec_merge(engine, pattern, params),
        Statement::MatchReturn { patterns, where_clause, return_items, order_by, limit } => {
            let r = exec_match_return(engine, patterns, where_clause, return_items, order_by, *limit, params);
            proof {
                assert(items_model(return_items@) == return_items@.map_values(|i: ReturnItem| i@));
                assert(patterns_model(patterns@) =~= patterns@.map_values(|p: Pattern| p@));
            }
            r
        },
        Statement::MatchDelete { patterns, where_clause, variable, detach } => {
            let r = exec_match_delete(engine, patterns, where_clause, variable, *detach, params);
            proof {
                let ps = patterns_model(patterns@);
                assert(ps =~= patterns@.map_values(|p: Pattern| p@));
                if r is Ok {
                    let wv = crate::query::ast::opt_expr_view(*where_clause);
                    let ms = choose|ms: Seq<RowModel>|
                        #[trigger] delete_outcome(old(engine).graph(), engine.graph(), ps, wv, variable@, *detach, params@, ms);
                    assert(delete_outcome(old(engine).graph(), engine.graph(), ps, wv, variable@, *detach, params@, ms));
                    let so = stmt@;
                    match so {
                        crate::query::ast::StatementModel::MatchDelete { patterns: p2, where_clause: w2, variable: v2, detach: d2 } => {
                            assert(p2 == ps && w2 == wv && v2 == variable@ && d2 == *detach);
                        },
                        _ => {},
                    }
                }
                if r is Err {
                    let e = r->Err_0;
                    let wv = crate::query::ast::opt_expr_view(*where_clause);
                    match stmt@ {
                        crate::query::ast::StatementModel::MatchDelete { patterns: p2, where_clause: w2, variable: v2, detach: d2 } => {
                            assert(p2 == ps && w2 == wv && v2 == variable@ && d2 == *detach);
                        },
                        _ => {},
                    }
                    if !(engine.unchanged(*old(engine)) && !crate::query::eval::is_delete_error(e@)) {
                        let (ms, y) = choose|ms: Seq<RowModel>, y: int|
                            #[trigger] delete_stopped(*old(engine), *engine, ps, wv, variable@, *detach, params@, ms, y, e@);
                        assert(delete_stopped(*old(engine), *engine, ps, wv, variable@, *detach, params@, ms, y, e@));
                    }
                }
            }
            r
        },
    }
}

} // verus!
