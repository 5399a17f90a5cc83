//! The store as a log: what a byte string holds as a sequence of records,
//! and the graph state that replaying those records builds.

use vstd::prelude::*;
use crate::wire::read_u32;
use crate::record::{dec_mutation, unframe, frame, enc_mutation, mutation_fits, lemma_framed_round_trip};
use crate::graph::{NodeModel, EdgeModel};
use crate::schema::SchemaModel;
use crate::sync::mutation::{Mutation, MutationModel, OpModel};

verus! {

/// The graph that a log describes: each live node and edge with the
/// foreshadow flag of the record that wrote it, and the latest schema.
pub struct GraphModel {
    pub nodes: Map<Seq<char>, (NodeModel, bool)>,
    pub edges: Map<Seq<char>, (EdgeModel, bool)>,
    pub schema: Option<SchemaModel>,
}

/// The empty graph.
pub open spec fn empty_graph() -> GraphModel {
    GraphModel { nodes: Map::empty(), edges: Map::empty(), schema: None }
}

/// The graph after one mutation.
pub open spec fn apply_mutation(g: GraphModel, m: MutationModel) -> GraphModel {
    match m.op {
        OpModel::NodeInsert(n) => GraphModel { nodes: g.nodes.insert(n.id, (n, m.foreshadow)), ..g },
        OpModel::EdgeInsert(e) => GraphModel { edges: g.edges.insert(e.id, (e, m.foreshadow)), ..g },
        OpModel::NodeDelete(id) => GraphModel { nodes: g.nodes.remove(id), ..g },
        OpModel::EdgeDelete(id) => GraphModel { edges: g.edges.remove(id), ..g },
        OpModel::SchemaApply(s) => GraphModel { schema: Some(s), ..g },
    }
}

/// Applying a mutation a second time changes nothing more.
pub proof fn lemma_apply_idempotent(g: GraphModel, m: MutationModel)
    ensures
        apply_mutation(apply_mutation(g, m), m) == apply_mutation(g, m),
{
    let once = apply_mutation(g, m);
    let twice = apply_mutation(once, m);
    assert(twice.nodes =~= once.nodes);
    assert(twice.edges =~= once.edges);
}

/// The graph that replaying `rs` in order builds.
pub open spec fn replay(rs: Seq<MutationModel>) -> GraphModel
    decreases rs.len(),
{
    if rs.len() == 0 {
        empty_graph()
    } else {
        apply_mutation(replay(rs.drop_last()), rs.last())
    }
}

/// The sequence number that follows the records `rs`: one past the
/// highest, and at least 1 (past `u64::MAX` it wraps to 0).
pub open spec fn next_seq_after(rs: Seq<MutationModel>) -> u64
    decreases rs.len(),
{
    if rs.len() == 0 {
        1
    } else {
        let prev = next_seq_after(rs.drop_last());
        let s = rs.last().local_seq;
        if s >= prev {
            if s == u64::MAX {
                0
            } else {
                (s + 1) as u64
            }
        } else {
            prev
        }
    }
}

/// How a store's bytes read as a log.
pub enum Scan {
    /// Whole records up to the end.
    Clean(Seq<MutationModel>),
    /// Whole records, then an incomplete one starting at the offset.
    Torn(Seq<MutationModel>, int),
    /// A complete record at the offset whose payload is not a mutation.
    Corrupt(int),
}

/// Reads the records from `pos` on, after those already in `acc`.
pub open spec fn scan(b: Seq<u8>, pos: int, acc: Seq<MutationModel>) -> Scan
    decreases b.len() - pos,
{
    if pos < 0 || pos >= b.len() {
        Scan::Clean(acc)
    } else if b.len() - pos < 4 {
        Scan::Torn(acc, pos)
    } else {
        let n = read_u32(b, pos) as int;
        if b.len() - pos < 4 + n {
            Scan::Torn(acc, pos)
        } else {
            match dec_mutation(b.subrange(pos + 4, pos + 4 + n), 0) {
                Some((m, _)) => scan(b, pos + 4 + n, acc.push(m)),
                None => Scan::Corrupt(pos),
            }
        }
    }
}

/// The mutation of the record at `off` whose payload is `plen` bytes long.
pub open spec fn frame_at(b: Seq<u8>, off: int, plen: int) -> Option<MutationModel> {
    if 0 <= off && 0 <= plen && off + 4 + plen <= b.len() {
        match unframe(b.subrange(off, off + 4 + plen)) {
            Some(Some((m, n))) => if n == 4 + plen {
                Some(m)
            } else {
                None
            },
            _ => None,
        }
    } else {
        None
    }
}

/// A byte string that unframes to `m` in exactly its length.
pub open spec fn is_record_of(f: Seq<u8>, m: MutationModel) -> bool {
    &&& f.len() >= 4
    &&& read_u32(f, 0) == f.len() - 4
    &&& (dec_mutation(f.subrange(4, f.len() as int), 0) matches Some((x, _)) && x == m)
}

/// The subrange of a prefix is the subrange of the whole.
pub proof fn lemma_prefix_subrange(b: Seq<u8>, f: Seq<u8>, lo: int, hi: int)
    requires
        0 <= lo <= hi <= b.len(),
    ensures
        (b + f).subrange(lo, hi) == b.subrange(lo, hi),
{
    assert((b + f).subrange(lo, hi) =~= b.subrange(lo, hi));
}

/// A record appended to a clean log is read back as one more record.
pub proof fn lemma_scan_append(
    b: Seq<u8>,
    f: Seq<u8>,
    m: MutationModel,
    pos: int,
    acc: Seq<MutationModel>,
    rs: Seq<MutationModel>,
)
    requires
        0 <= pos <= b.len(),
        scan(b, pos, acc) == Scan::Clean(rs),
        is_record_of(f, m),
    ensures
        scan(b + f, pos, acc) == Scan::Clean(rs.push(m)),
    decreases b.len() - pos,
{
    let bf = b + f;
    if pos == b.len() {
        assert(bf.subrange(pos, pos + 4) =~= f.subrange(0, 4));
        assert(read_u32(bf, pos) == read_u32(f, 0)) by {
            assert(bf[pos] == f[0]);
            assert(bf[pos + 1] == f[1]);
            assert(bf[pos + 2] == f[2]);
            assert(bf[pos + 3] == f[3]);
        }
        let n = read_u32(f, 0) as int;
        assert(bf.subrange(pos + 4, pos + 4 + n) =~= f.subrange(4, f.len() as int));
        assert(scan(bf, pos + 4 + n, acc.push(m)) == Scan::Clean(acc.push(m)));
    } else {
        let n = read_u32(b, pos) as int;
        assert(read_u32(bf, pos) == read_u32(b, pos)) by {
            assert(bf[pos] == b[pos]);
            assert(bf[pos + 1] == b[pos + 1]);
            assert(bf[pos + 2] == b[pos + 2]);
            assert(bf[pos + 3] == b[pos + 3]);
        }
        lemma_prefix_subrange(b, f, pos + 4, pos + 4 + n);
        let x = dec_mutation(b.subrange(pos + 4, pos + 4 + n), 0)->Some_0.0;
        lemma_scan_append(b, f, m, pos + 4 + n, acc.push(x), rs);
    }
}

/// The record of a mutation is a record of its model.
pub proof fn lemma_frame_is_record(m: Mutation)
    requires
        mutation_fits(m),
        enc_mutation(m).len() <= u32::MAX,
    ensures
        is_record_of(frame(enc_mutation(m)), m@),
        frame_at(frame(enc_mutation(m)), 0, enc_mutation(m).len() as int) == Some(m@),
{
    let e = enc_mutation(m);
    let f = frame(e);
    lemma_framed_round_trip(m, Seq::empty());
    assert(f + Seq::<u8>::empty() =~= f);
    assert(f.subrange(0, f.len() as int) =~= f);
}

/// A record whose bytes lie inside a prefix reads the same in the whole.
pub proof fn lemma_frame_at_prefix(b: Seq<u8>, f: Seq<u8>, off: int, plen: int)
    requires
        0 <= off,
        0 <= plen,
        off + 4 + plen <= b.len(),
    ensures
        frame_at(b + f, off, plen) == frame_at(b, off, plen),
{
    lemma_prefix_subrange(b, f, off, off + 4 + plen);
}

/// The record appended at the end of `b` reads back at that offset.
pub proof fn lemma_frame_at_appended(b: Seq<u8>, m: Mutation)
    requires
        mutation_fits(m),
        enc_mutation(m).len() <= u32::MAX,
    ensures
        frame_at(b + frame(enc_mutation(m)), b.len() as int, enc_mutation(m).len() as int) == Some(
            m@,
        ),
{
    let f = frame(enc_mutation(m));
    lemma_frame_is_record(m);
    assert((b + f).subrange(b.len() as int, (b.len() + f.len()) as int) =~= f);
    assert(f.subrange(0, f.len() as int) =~= f);
}

} // verus!
