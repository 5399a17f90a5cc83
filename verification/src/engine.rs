//! The storage engine: a [`Storage`] backend holding the log of framed
//! mutations, with in-memory indexes of where each live node and edge
//! was written.
//!
//! The engine's state is the graph that replaying its log builds
//! ([`Engine::graph`]). Every write appends one record and changes the
//! graph by exactly that record; every read returns what the graph holds;
//! opening an engine on a log rebuilds that graph, cutting off a torn
//! tail. Nodes and edges have separate id namespaces.

use vstd::prelude::*;
use crate::config::{CapabilityConfig, EdgeConfig, MotifConfig};
use crate::graph::{Edge, EdgeModel, Node, NodeModel, PropsModel};
use crate::log::{
    GraphModel, Scan, apply_mutation, frame_at, is_record_of, lemma_frame_at_appended,
    lemma_frame_at_prefix, lemma_frame_is_record, lemma_scan_append, next_seq_after, replay, scan,
};
use crate::record::{
    LEN_PREFIX_BYTES, RecordError, decode_framed, enc_mutation, encode_framed, frame, mutation_fits,
    unframe,
};
use crate::schema::{PropertyType, Schema, SchemaModel, conforms, value_conforms};
use crate::storage::{HEADER_LEN, MemoryStorage, Storage, StorageError};
use crate::strmap::StrMap;
use crate::sync::mutation::{ActorId, Mutation, MutationModel, MutationOp, OpModel};
use crate::sync::mutation_log::MutationLog;
use crate::value::type_name_of;
use crate::wire::read_u32;
use crate::text::str_eq;

verus! {

#[derive(Debug)]
pub enum EngineError {
    Storage(StorageError),
    Record(RecordError),
    /// A node (or edge) with this id already exists in its namespace.
    DuplicateId(String),
    /// An edge endpoint names no live node.
    MissingNode(String),
    /// The record at `offset` could not be read back.
    Recovery { offset: u64, source: RecordError },
    /// The label is not declared in the current schema.
    SchemaUnknown { label: String, schema_version: u64 },
    /// A property's value is not of the type the schema declares for it.
    SchemaPropertyTypeMismatch {
        label: String,
        property: String,
        declared: PropertyType,
        actual: String,
        schema_version: u64,
    },
    /// The controller being wired is not of the configured kind.
    ControllerKindMismatch { declared: String, wired: String },
    /// The query did not parse or did not run.
    Query(crate::query::run::QueryError),
}

/// Where a node's record lies, and its foreshadow flag.
struct NodeEntry {
    offset: u64,
    payload_len: u32,
    foreshadow: bool,
}

impl View for NodeEntry {
    type V = (u64, u32, bool);

    closed spec fn view(&self) -> (u64, u32, bool) {
        (self.offset, self.payload_len, self.foreshadow)
    }
}

/// Where an edge's record lies, its foreshadow flag, and the label and
/// endpoints by which edges are looked up.
struct EdgeEntry {
    offset: u64,
    payload_len: u32,
    foreshadow: bool,
    label: String,
    from: String,
    to: String,
}

impl View for EdgeEntry {
    type V = (u64, u32, bool, Seq<char>, Seq<char>, Seq<char>);

    closed spec fn view(&self) -> (u64, u32, bool, Seq<char>, Seq<char>, Seq<char>) {
        (self.offset, self.payload_len, self.foreshadow, self.label@, self.from@, self.to@)
    }
}

/// The index entry of a node matches the record it points at.
pub open spec fn node_entry_ok(b: Seq<u8>, e: (u64, u32, bool), v: (NodeModel, bool)) -> bool {
    &&& frame_at(b, e.0 as int, e.1 as int) matches Some(m)
    &&& m.op == OpModel::NodeInsert(v.0)
    &&& m.foreshadow == v.1
    &&& e.2 == v.1
}

/// The index entry of an edge matches the record it points at.
pub open spec fn edge_entry_ok(
    b: Seq<u8>,
    e: (u64, u32, bool, Seq<char>, Seq<char>, Seq<char>),
    v: (EdgeModel, bool),
) -> bool {
    &&& frame_at(b, e.0 as int, e.1 as int) matches Some(m)
    &&& m.op == OpModel::EdgeInsert(v.0)
    &&& m.foreshadow == v.1
    &&& e.2 == v.1
    &&& e.3 == v.0.label
    &&& e.4 == v.0.from
    &&& e.5 == v.0.to
}

/// The records of a clean log (empty for any other).
pub open spec fn log_records(b: Seq<u8>) -> Seq<MutationModel> {
    match scan(b, HEADER_LEN as int, Seq::empty()) {
        Scan::Clean(rs) => rs,
        _ => Seq::empty(),
    }
}

/// A store whose bytes after the header are whole records.
pub open spec fn log_is_clean(b: Seq<u8>) -> bool {
    b.len() >= HEADER_LEN && scan(b, HEADER_LEN as int, Seq::empty()) is Clean
}

/// A schema held by the engine agrees with the graph's.
pub open spec fn schema_matches(s: Option<Schema>, m: Option<SchemaModel>) -> bool {
    match (s, m) {
        (None, None) => true,
        (Some(x), Some(y)) => x.wf() && x@ == y,
        _ => false,
    }
}

pub struct Engine<S: Storage> {
    storage: S,
    nodes: StrMap<NodeEntry>,
    edges: StrMap<EdgeEntry>,
    actor: ActorId,
    next_local_seq: u64,
    mutation_log: Option<MutationLog>,
    current_schema: Option<Schema>,
    capability: CapabilityConfig,
    edge_config: EdgeConfig,
    controller_kind: String,
}

impl<S: Storage> Engine<S> {
    /// The store's bytes.
    pub closed spec fn bytes(&self) -> Seq<u8> {
        self.storage.bytes()
    }

    /// The backend answers every append and every read within the store,
    /// and a record's length fits this platform's addresses.
    pub closed spec fn reliable(&self) -> bool {
        self.storage.reliable() && usize::MAX >= u32::MAX + 4
    }

    /// The records of the log, in order.
    pub open spec fn records(&self) -> Seq<MutationModel> {
        log_records(self.bytes())
    }

    /// The graph the log describes.
    pub open spec fn graph(&self) -> GraphModel {
        replay(self.records())
    }

    /// The sequence number the next commit will carry.
    pub closed spec fn next_seq(&self) -> u64 {
        self.next_local_seq
    }

    /// The actor's user and device ids.
    pub closed spec fn actor_ids(&self) -> (Seq<char>, Seq<char>) {
        (self.actor.user_id@, self.actor.device_id@)
    }

    /// The mutations buffered for a controller, if a log is wired.
    pub closed spec fn outbox(&self) -> Option<Seq<MutationModel>> {
        match self.mutation_log {
            Some(l) => Some(l@),
            None => None,
        }
    }

    /// The indexes agree with the graph `g` over the bytes `b`.
    closed spec fn index_matches(&self, b: Seq<u8>, g: GraphModel) -> bool {
        &&& self.nodes.wf()
        &&& self.edges.wf()
        &&& self.nodes@.dom() == g.nodes.dom()
        &&& self.edges@.dom() == g.edges.dom()
        &&& forall|k: Seq<char>| #[trigger]
            self.nodes@.contains_key(k) ==> node_entry_ok(b, self.nodes@[k], g.nodes[k])
        &&& forall|k: Seq<char>| #[trigger]
            self.edges@.contains_key(k) ==> edge_entry_ok(b, self.edges@[k], g.edges[k])
        &&& schema_matches(self.current_schema, g.schema)
    }

    /// The engine's invariant: a clean log that the indexes describe.
    pub closed spec fn inv(&self) -> bool {
        &&& log_is_clean(self.bytes())
        &&& self.index_matches(self.bytes(), self.graph())
        &&& match self.mutation_log {
            Some(l) => l.wf(),
            None => true,
        }
    }

    /// An engine's log reads back, record for record, as the records that
    /// built its graph: opening an engine on these bytes (see
    /// [`Engine::open_with`]) truncates nothing and rebuilds the same graph.
    pub proof fn lemma_log_reopens(&self)
        requires
            self.inv(),
        ensures
            log_is_clean(self.bytes()),
            scan(self.bytes(), HEADER_LEN as int, Seq::empty()) == Scan::Clean(self.records()),
    {
    }
}

impl<S: Storage> Engine<S> {
    /// Opens an engine on `storage`, replaying its log. A torn tail (an
    /// incomplete last record) is cut off; a complete record whose
    /// payload is not a mutation is a `Recovery` error at its offset.
    /// The capability profile is the configured one, with RAM and free
    /// storage probed where the configuration leaves them out.
    pub fn open_with(config: &MotifConfig, storage: S) -> (r: Result<Engine<S>, EngineError>)
        requires
            storage.bytes().len() >= HEADER_LEN,
        ensures
            r matches Ok(e) ==> {
                &&& e.inv()
                &&& e.settings().0.storage_mb == crate::capability::prefer(
                    config.capability.storage_mb,
                    match storage.free_bytes() {
                        Some(b) => Some(crate::capability::whole_mb(b)),
                        None => None,
                    },
                )
                &&& config.capability.ram_mb is Some ==> e.settings().0.ram_mb == config.capability.ram_mb
                &&& e.settings().0.cpu_cores == config.capability.cpu_cores
                &&& e.settings().0.gpu_present == config.capability.gpu_present
                &&& e.settings().1 == config.edge
                &&& e.settings().2 == config.controller.kind@
                &&& e.actor_ids() == (config.identity.user_id@, config.identity.device_id@)
                &&& e.outbox() is None
                &&& e.reliable() == (storage.reliable() && usize::MAX >= u32::MAX + 4)
                &&& match scan(storage.bytes(), HEADER_LEN as int, Seq::empty()) {
                    Scan::Clean(rs) => e.bytes() == storage.bytes() && e.records() == rs
                        && e.next_seq() == next_seq_after(rs),
                    Scan::Torn(rs, cut) => e.bytes() == storage.bytes().subrange(0, cut)
                        && e.records() == rs && e.next_seq() == next_seq_after(rs),
                    Scan::Corrupt(_) => false,
                }
            },
            scan(storage.bytes(), HEADER_LEN as int, Seq::empty()) matches Scan::Corrupt(off) ==> (
            r matches Err(err) && (err matches EngineError::Recovery { offset, .. } && offset
                == off || err is Storage)),
            r matches Err(err) ==> err is Recovery || err is Storage,
            storage.reliable() && usize::MAX >= u32::MAX + 4 && !(scan(
                storage.bytes(),
                HEADER_LEN as int,
                Seq::empty(),
            ) is Corrupt) ==> r is Ok,
    {
        let probed = CapabilityConfig {
            ram_mb: crate::capability::probe_ram_mb(),
            cpu_cores: None,
            storage_mb: crate::capability::probe_storage_mb(&storage),
            arch: None,
            gpu_present: None,
        };
        let capability = crate::capability::resolve(&config.capability, probed);
        let mut engine = Engine {
            storage,
            nodes: StrMap::new(),
            edges: StrMap::new(),
            actor: ActorId {
                user_id: config.identity.user_id.clone(),
                device_id: config.identity.device_id.clone(),
            },
            next_local_seq: 1,
            mutation_log: None,
            current_schema: None,
            capability,
            edge_config: copy_edge_config(&config.edge),
            controller_kind: config.controller.kind.clone(),
        };
        match engine.recover() {
            Ok(()) => Ok(engine),
            Err(e) => Err(e),
        }
    }

    /// Replays the log from the header on, rebuilding the indexes.
    fn recover(&mut self) -> (r: Result<(), EngineError>)
        requires
            old(self).bytes().len() >= HEADER_LEN,
            old(self).nodes.wf() && old(self).nodes@ == Map::<Seq<char>, (u64, u32, bool)>::empty(),
            old(self).edges.wf() && old(self).edges@ == Map::<
                Seq<char>,
                (u64, u32, bool, Seq<char>, Seq<char>, Seq<char>),
            >::empty(),
            old(self).current_schema is None,
            old(self).next_local_seq == 1,
            old(self).mutation_log is None,
        ensures
            final(self).storage.reliable() == old(self).storage.reliable(),
            old(self).storage.reliable() && usize::MAX >= u32::MAX + 4 && !(scan(
                old(self).bytes(),
                HEADER_LEN as int,
                Seq::empty(),
            ) is Corrupt) ==> r is Ok,
            final(self).actor == old(self).actor,
            final(self).mutation_log is None,
            final(self).capability == old(self).capability,
            final(self).edge_config == old(self).edge_config,
            final(self).controller_kind == old(self).controller_kind,
            r is Ok ==> {
                &&& final(self).inv()
                &&& match scan(old(self).bytes(), HEADER_LEN as int, Seq::empty()) {
                    Scan::Clean(rs) => final(self).bytes() == old(self).bytes() && final(self).records() == rs && final(self).next_seq() == next_seq_after(rs),
                    Scan::Torn(rs, cut) => final(self).bytes() == old(self).bytes().subrange(0, cut)
                        && final(self).records() == rs && final(self).next_seq() == next_seq_after(
                        rs,
                    ),
                    Scan::Corrupt(_) => false,
                }
            },
            scan(old(self).bytes(), HEADER_LEN as int, Seq::empty()) matches Scan::Corrupt(off) ==> (
            r matches Err(err) && (err matches EngineError::Recovery { offset, .. } && offset
                == off || err is Storage)),
            r matches Err(err) ==> err is Recovery || err is Storage,
    {
        let total = self.storage.len();
        let ghost b = self.storage.bytes();
        let ghost mut rs: Seq<MutationModel> = Seq::empty();
        let mut cursor: u64 = HEADER_LEN;
        proof {
            assert(b.subrange(0, HEADER_LEN as int).len() == HEADER_LEN);
        }
        while cursor < total
            invariant
                b == self.storage.bytes(),
                b == old(self).bytes(),
                self.storage.reliable() == old(self).storage.reliable(),
                total == b.len(),
                HEADER_LEN <= cursor <= total,
                self.actor == old(self).actor,
                self.mutation_log is None,
                self.capability == old(self).capability,
                self.edge_config == old(self).edge_config,
                self.controller_kind == old(self).controller_kind,
                scan(b, HEADER_LEN as int, Seq::empty()) == scan(b, cursor as int, rs),
                scan(b.subrange(0, cursor as int), HEADER_LEN as int, Seq::empty()) == Scan::Clean(rs),
                self.index_matches(b.subrange(0, cursor as int), replay(rs)),
                self.next_local_seq == next_seq_after(rs),
            decreases total - cursor,
        {
            let remaining = total - cursor;
            if remaining < LEN_PREFIX_BYTES as u64 {
                match self.storage.truncate(cursor) {
                    Ok(()) => {},
                    Err(e) => {
                        return Err(EngineError::Storage(e));
                    },
                }
                proof {
                    assert(scan(b, cursor as int, rs) == Scan::Torn(rs, cursor as int));
                }
                return Ok(());
            }
            let len_bytes = match self.storage.read_at(cursor, LEN_PREFIX_BYTES) {
                Ok(v) => v,
                Err(e) => {
                    return Err(EngineError::Storage(e));
                },
            };
            let payload_len = crate::wire::get_u32_le(len_bytes.as_slice(), 0);
            proof {
                assert(read_u32(len_bytes@, 0) == read_u32(b, cursor as int)) by {
                    assert(len_bytes@[0] == b[cursor as int]);
                    assert(len_bytes@[1] == b[cursor + 1]);
                    assert(len_bytes@[2] == b[cursor + 2]);
                    assert(len_bytes@[3] == b[cursor + 3]);
                }
            }
            let total_record: u64 = LEN_PREFIX_BYTES as u64 + payload_len as u64;
            if remaining < total_record {
                match self.storage.truncate(cursor) {
                    Ok(()) => {},
                    Err(e) => {
                        return Err(EngineError::Storage(e));
                    },
                }
                proof {
                    assert(scan(b, cursor as int, rs) == Scan::Torn(rs, cursor as int));
                }
                return Ok(());
            }
            if total_record > usize::MAX as u64 {
                return Err(
                    EngineError::Storage(
                        StorageError::Io {
                            path: String::new(),
                            message: "record longer than this platform can address".to_owned(),
                        },
                    ),
                );
            }
            let framed = match self.storage.read_at(cursor, total_record as usize) {
                Ok(v) => v,
                Err(e) => {
                    return Err(EngineError::Storage(e));
                },
            };
            let ghost fb = framed@;
            proof {
                assert(fb.subrange(0, 4) =~= b.subrange(cursor as int, cursor + 4));
                assert(read_u32(fb, 0) == read_u32(b, cursor as int)) by {
                    assert(fb[0] == b[cursor as int]);
                    assert(fb[1] == b[cursor + 1]);
                    assert(fb[2] == b[cursor + 2]);
                    assert(fb[3] == b[cursor + 3]);
                }
                assert(fb.subrange(4, 4 + payload_len as int) =~= b.subrange(
                    cursor + 4,
                    cursor + 4 + payload_len,
                ));
            }
            match decode_framed(framed.as_slice()) {
                Ok(Some((m, consumed))) => {
                    let ghost mm = m@;
                    let ghost old_prefix = b.subrange(0, cursor as int);
                    let ghost g0 = replay(rs);
                    proof {
                        assert(fb.subrange(4, fb.len() as int) =~= fb.subrange(4, 4 + payload_len as int));
                        assert(is_record_of(fb, mm));
                        lemma_scan_append(old_prefix, fb, mm, HEADER_LEN as int, Seq::empty(), rs);
                        assert(old_prefix + fb =~= b.subrange(0, cursor + total_record));
                        assert(frame_at(old_prefix + fb, cursor as int, payload_len as int) == Some(mm)) by {
                            assert((old_prefix + fb).subrange(cursor as int, cursor + 4 + payload_len)
                                =~= fb);
                        }
                        self.lemma_index_extend(old_prefix, fb, g0);
                    }
                    if m.local_seq >= self.next_local_seq {
                        self.next_local_seq = m.local_seq.wrapping_add(1);
                    }
                    self.apply_recovered(m, cursor, payload_len);
                    proof {
                        let new_prefix = old_prefix + fb;
                        assert(self.index_matches(new_prefix, apply_mutation(g0, mm)));
                        assert(rs.push(mm).drop_last() =~= rs);
                        rs = rs.push(mm);
                    }
                    cursor = cursor + total_record;
                },
                Ok(None) => {
                    proof {
                        assert(fb.len() >= 4);
                        assert(false);
                    }
                    return Ok(());
                },
                Err(e) => {
                    return Err(EngineError::Recovery { offset: cursor, source: e });
                },
            }
        }
        proof {
            assert(b.subrange(0, cursor as int) =~= b);
        }
        Ok(())
    }

    /// Indexes a mutation read back during recovery from the record at
    /// `offset`.
    fn apply_recovered(&mut self, m: Mutation, offset: u64, payload_len: u32)
        requires
            m.wf(),
            old(self).nodes.wf(),
            old(self).edges.wf(),
        ensures
            final(self).storage == old(self).storage,
            final(self).actor == old(self).actor,
            final(self).mutation_log == old(self).mutation_log,
            final(self).next_local_seq == old(self).next_local_seq,
            final(self).capability == old(self).capability,
            final(self).edge_config == old(self).edge_config,
            final(self).controller_kind == old(self).controller_kind,
            forall|b: Seq<u8>, g: GraphModel|
                old(self).index_matches(b, g) && frame_at(b, offset as int, payload_len as int)
                    == Some(m@) ==> #[trigger] final(self).index_matches(b, apply_mutation(g, m@)),
    {
        let ghost mm = m@;
        let ghost old_nodes = self.nodes;
        let ghost old_edges = self.edges;
        let ghost old_schema = self.current_schema;
        let foreshadow = m.foreshadow;
        match m.op {
            MutationOp::NodeInsert(n) => {
                self.nodes.insert(n.id, NodeEntry { offset, payload_len, foreshadow });
            },
            MutationOp::EdgeInsert(e) => {
                let entry = EdgeEntry {
                    offset,
                    payload_len,
                    foreshadow,
                    label: e.label,
                    from: e.from,
                    to: e.to,
                };
                self.edges.insert(e.id, entry);
            },
            MutationOp::NodeDelete(id) => {
                let _ = self.nodes.remove(id.as_str());
            },
            MutationOp::EdgeDelete(id) => {
                let _ = self.edges.remove(id.as_str());
            },
            MutationOp::SchemaApply(sch) => {
                self.current_schema = Some(sch);
            },
        }
        proof {
            assert forall|b: Seq<u8>, g: GraphModel|
                old(self).index_matches(b, g) && frame_at(b, offset as int, payload_len as int)
                    == Some(mm) implies #[trigger] self.index_matches(b, apply_mutation(g, mm)) by {
                let g2 = apply_mutation(g, mm);
                match mm.op {
                    OpModel::NodeInsert(nm) => {
                        assert(self.nodes@.dom() =~= g2.nodes.dom());
                    },
                    OpModel::EdgeInsert(em) => {
                        assert(self.edges@.dom() =~= g2.edges.dom());
                    },
                    OpModel::NodeDelete(id) => {
                        assert(self.nodes@.dom() =~= g2.nodes.dom());
                    },
                    OpModel::EdgeDelete(id) => {
                        assert(self.edges@.dom() =~= g2.edges.dom());
                    },
                    OpModel::SchemaApply(sm) => {},
                }
            }
        }
    }

    /// Indexes that agree with `g` over a prefix agree over the bytes
    /// after that prefix is extended.
    proof fn lemma_index_extend(&self, p: Seq<u8>, f: Seq<u8>, g: GraphModel)
        requires
            self.index_matches(p, g),
        ensures
            self.index_matches(p + f, g),
    {
        assert forall|k: Seq<char>| #[trigger] self.nodes@.contains_key(k) implies node_entry_ok(
            p + f,
            self.nodes@[k],
            g.nodes[k],
        ) by {
            let e = self.nodes@[k];
            lemma_frame_at_prefix(p, f, e.0 as int, e.1 as int);
        }
        assert forall|k: Seq<char>| #[trigger] self.edges@.contains_key(k) implies edge_entry_ok(
            p + f,
            self.edges@[k],
            g.edges[k],
        ) by {
            let e = self.edges@[k];
            lemma_frame_at_prefix(p, f, e.0 as int, e.1 as int);
        }
    }
}

/// The outbox after one more mutation is recorded in it, if one is wired.
pub open spec fn outbox_push(o: Option<Seq<MutationModel>>, m: MutationModel) -> Option<
    Seq<MutationModel>,
> {
    match o {
        Some(q) => Some(q.push(m)),
        None => None,
    }
}

/// The sequence number after `n`, wrapping past `u64::MAX`.
pub open spec fn seq_after(n: u64) -> u64 {
    if n == u64::MAX {
        0
    } else {
        (n + 1) as u64
    }
}

/// The schema knows `label`, or there is no schema.
pub open spec fn label_known(schema: Option<SchemaModel>, label: Seq<char>) -> bool {
    match schema {
        None => true,
        Some(s) => s.tables.contains_key(label),
    }
}

/// The property `k` of `props` is declared for `label` with a type its
/// value does not have.
pub open spec fn prop_mismatch(
    schema: Option<SchemaModel>,
    label: Seq<char>,
    props: PropsModel,
    k: Seq<char>,
) -> bool {
    match schema {
        None => false,
        Some(s) => {
            &&& s.tables.contains_key(label)
            &&& props.contains_key(k)
            &&& s.tables[label].properties.contains_key(k)
            &&& !conforms(props[k], s.tables[label].properties[k])
        },
    }
}

/// Every property conforms to the declared types.
pub open spec fn props_conform(schema: Option<SchemaModel>, label: Seq<char>, props: PropsModel) -> bool {
    forall|k: Seq<char>| !#[trigger] prop_mismatch(schema, label, props, k)
}

/// What a schema error says, for a write of `label` with `props`.
pub open spec fn schema_error_ok(
    err: EngineError,
    schema: Option<SchemaModel>,
    label: Seq<char>,
    props: PropsModel,
) -> bool {
    match err {
        EngineError::SchemaUnknown { label: l, schema_version: v } => {
            &&& l@ == label
            &&& schema matches Some(s)
            &&& v == s.version
            &&& !label_known(schema, label)
        },
        EngineError::SchemaPropertyTypeMismatch {
            label: l,
            property: p,
            declared: d,
            actual: a,
            schema_version: v,
        } => {
            &&& l@ == label
            &&& schema matches Some(s)
            &&& v == s.version
            &&& label_known(schema, label)
            &&& prop_mismatch(schema, label, props, p@)
            &&& d == s.tables[label].properties[p@]
            &&& a@ == type_name_of(props[p@])
        },
        _ => false,
    }
}

impl<S: Storage> Engine<S> {
    /// The mutation that committing `op` now would write.
    pub closed spec fn pending(&self, op: MutationOp) -> Mutation {
        Mutation { local_seq: self.next_local_seq, actor: self.actor, foreshadow: true, op }
    }

    /// The model of the mutation that committing `op` now would write.
    pub open spec fn commit_model(&self, op: OpModel) -> MutationModel {
        MutationModel {
            local_seq: self.next_seq(),
            user_id: self.actor_ids().0,
            device_id: self.actor_ids().1,
            foreshadow: true,
            op,
        }
    }

    /// The record of `op` would not fit the 4-byte length prefix.
    pub open spec fn too_long(&self, op: MutationOp) -> bool {
        enc_mutation(self.pending(op)).len() > u32::MAX
    }

    /// Any record deleting `id` that this actor writes fits the 4-byte
    /// length prefix.
    pub open spec fn delete_fits(&self, id: Seq<char>) -> bool {
        crate::wire::str_bytes(self.actor_ids().0).len() + crate::wire::str_bytes(self.actor_ids().1).len()
            + crate::wire::str_bytes(id).len() + 11 <= u32::MAX
    }

    /// A delete record that fits is not too long.
    pub proof fn lemma_delete_fits(&self, id: String)
        requires
            self.delete_fits(id@),
        ensures
            !self.too_long(MutationOp::NodeDelete(id)),
            !self.too_long(MutationOp::EdgeDelete(id)),
    {
        reveal(enc_mutation);
        let n = self.next_local_seq;
        assert(crate::wire::varint(n).len() <= 9);
        assert(crate::wire::bool_byte(true).len() == 1);
        let pn = self.pending(MutationOp::NodeDelete(id));
        let pe = self.pending(MutationOp::EdgeDelete(id));
        assert(enc_mutation(pn).len() == crate::wire::varint(n).len() + crate::wire::str_bytes(self.actor.user_id@).len()
            + crate::wire::str_bytes(self.actor.device_id@).len() + 1 + crate::record::enc_op(pn.op).len());
        assert(enc_mutation(pe).len() == crate::wire::varint(n).len() + crate::wire::str_bytes(self.actor.user_id@).len()
            + crate::wire::str_bytes(self.actor.device_id@).len() + 1 + crate::record::enc_op(pe.op).len());
        assert(crate::record::enc_op(MutationOp::NodeDelete(id)).len() == 1 + crate::wire::str_bytes(id@).len());
        assert(crate::record::enc_op(MutationOp::EdgeDelete(id)).len() == 1 + crate::wire::str_bytes(id@).len());
    }

    /// The settings copied from the configuration.
    pub closed spec fn settings(&self) -> (CapabilityConfig, EdgeConfig, Seq<char>) {
        (self.capability, self.edge_config, self.controller_kind@)
    }

    /// Frames `op` as a foreshadowed mutation of this actor, appends it,
    /// indexes it and records it in the outbox. The sequence number
    /// advances even when the write fails.
    fn commit(&mut self, op: MutationOp) -> (r: Result<(), EngineError>)
        requires
            old(self).inv(),
            op.wf(),
        ensures
            final(self).inv(),
            final(self).next_seq() == seq_after(old(self).next_seq()),
            final(self).actor_ids() == old(self).actor_ids(),
            final(self).settings() == old(self).settings(),
            r is Ok ==> final(self).records() == old(self).records().push(
                old(self).commit_model(op@),
            ) && final(self).outbox() == outbox_push(old(self).outbox(), old(self).commit_model(op@)),
            r is Err ==> final(self).bytes() == old(self).bytes() && final(self).outbox() == old(self).outbox(),
            r matches Err(e) ==> (e is Storage && !old(self).too_long(op)) || (e matches EngineError::Record(
                RecordError::LengthOverflow(_),
            ) && old(self).too_long(op)),
            old(self).too_long(op) ==> r is Err,
            final(self).reliable() == old(self).reliable(),
            old(self).reliable() && r is Err ==> r matches Err(EngineError::Record(_)),
    {
        let ghost b = self.storage.bytes();
        let ghost rs = self.records();
        let ghost g = self.graph();
        let ghost pend = self.pending(op);
        let local_seq = self.next_local_seq;
        self.next_local_seq = self.next_local_seq.wrapping_add(1);
        let m = Mutation {
            local_seq,
            actor: ActorId {
                user_id: self.actor.user_id.clone(),
                device_id: self.actor.device_id.clone(),
            },
            foreshadow: true,
            op,
        };
        proof {
            assert(m@ == pend@);
            assert(enc_mutation(m) == enc_mutation(pend)) by {
                reveal(enc_mutation);
            }
        }
        let framed = match encode_framed(&m) {
            Ok(f) => f,
            Err(e) => {
                return Err(EngineError::Record(e));
            },
        };
        let payload_len = (framed.len() - LEN_PREFIX_BYTES) as u32;
        let offset = match self.storage.append(framed.as_slice()) {
            Ok(o) => o,
            Err(e) => {
                return Err(EngineError::Storage(e));
            },
        };
        let ghost f = framed@;
        proof {
            lemma_frame_is_record(m);
            lemma_scan_append(b, f, m@, HEADER_LEN as int, Seq::empty(), rs);
            self.lemma_index_extend(b, f, g);
            lemma_frame_at_appended(b, m);
            assert(rs.push(m@).drop_last() =~= rs);
        }
        let ghost mm = m@;
        match self.mutation_log {
            Some(ref mut log) => {
                let copy = m.duplicate();
                log.record(m);
                self.apply_recovered(copy, offset, payload_len);
            },
            None => {
                self.apply_recovered(m, offset, payload_len);
            },
        }
        proof {
            assert(self.index_matches(b + f, apply_mutation(g, mm)));
        }
        Ok(())
    }
}

impl<S: Storage> Engine<S> {
    /// Nothing observable changed since `prev`.
    pub open spec fn unchanged(&self, prev: Self) -> bool {
        &&& self.bytes() == prev.bytes()
        &&& self.reliable() == prev.reliable()
        &&& self.outbox() == prev.outbox()
        &&& self.next_seq() == prev.next_seq()
        &&& self.actor_ids() == prev.actor_ids()
        &&& self.settings() == prev.settings()
    }

    /// Since `prev`, exactly the record of `op` was appended (and buffered
    /// for the controller, if a log is wired).
    pub open spec fn committed(&self, prev: Self, op: OpModel) -> bool {
        &&& self.records() == prev.records().push(prev.commit_model(op))
        &&& self.reliable() == prev.reliable()
        &&& self.outbox() == outbox_push(prev.outbox(), prev.commit_model(op))
        &&& self.next_seq() == seq_after(prev.next_seq())
        &&& self.actor_ids() == prev.actor_ids()
        &&& self.settings() == prev.settings()
    }

    /// Since `prev`, a write of `op` was attempted and failed: only the
    /// sequence number moved.
    pub open spec fn write_failed(&self, prev: Self, e: EngineError) -> bool {
        &&& self.bytes() == prev.bytes()
        &&& self.reliable() == prev.reliable()
        &&& (prev.reliable() ==> e matches EngineError::Record(RecordError::LengthOverflow(_)))
        &&& self.outbox() == prev.outbox()
        &&& self.next_seq() == seq_after(prev.next_seq())
        &&& self.actor_ids() == prev.actor_ids()
        &&& self.settings() == prev.settings()
        &&& (e is Storage || e matches EngineError::Record(RecordError::LengthOverflow(_)))
    }

    /// True iff a node with this id is live.
    pub fn has_node(&self, id: &str) -> (r: bool)
        requires
            self.inv(),
        ensures
            r == self.graph().nodes.contains_key(id@),
    {
        self.nodes.contains_key(id)
    }

    /// True iff an edge with this id is live.
    pub fn has_edge(&self, id: &str) -> (r: bool)
        requires
            self.inv(),
        ensures
            r == self.graph().edges.contains_key(id@),
    {
        self.edges.contains_key(id)
    }

    /// The foreshadow flag of the live node with this id, else of the live
    /// edge with this id, else `false`.
    pub fn is_foreshadow(&self, id: &str) -> (r: bool)
        requires
            self.inv(),
        ensures
            r == if self.graph().nodes.contains_key(id@) {
                self.graph().nodes[id@].1
            } else if self.graph().edges.contains_key(id@) {
                self.graph().edges[id@].1
            } else {
                false
            },
    {
        match self.nodes.get(id) {
            Some(e) => e.foreshadow,
            None => match self.edges.get(id) {
                Some(e) => e.foreshadow,
                None => false,
            },
        }
    }

    pub fn node_count(&self) -> (r: usize)
        requires
            self.inv(),
        ensures
            r == self.graph().nodes.dom().len(),
    {
        self.nodes.len()
    }

    pub fn edge_count(&self) -> (r: usize)
        requires
            self.inv(),
        ensures
            r == self.graph().edges.dom().len(),
    {
        self.edges.len()
    }

    /// Checks a write of `label` with `props` against the current schema:
    /// an undeclared label is `SchemaUnknown`; a declared property whose
    /// value is neither `Null` nor of the declared type is
    /// `SchemaPropertyTypeMismatch`. Without a schema anything passes.
    fn validate(&self, label: &str, props: &crate::graph::Properties) -> (r: Result<(), EngineError>)
        requires
            self.inv(),
            props.wf(),
        ensures
            r is Ok <==> label_known(self.graph().schema, label@) && props_conform(
                self.graph().schema,
                label@,
                props@,
            ),
            r matches Err(e) ==> schema_error_ok(e, self.graph().schema, label@, props@),
    {
        let ghost sm = self.graph().schema;
        match &self.current_schema {
            None => Ok(()),
            Some(schema) => match schema.table(label) {
                None => Err(
                    EngineError::SchemaUnknown { label: label.to_owned(), schema_version: schema.version },
                ),
                Some(table) => {
                    let n = props.len();
                    let mut i: usize = 0;
                    proof {
                        props.lemma_view();
                    }
                    while i < n
                        invariant
                            n == props.pairs().len(),
                            i <= n,
                            props.wf(),
                            table.wf(),
                            sm == self.graph().schema,
                            sm matches Some(s) && s == schema@ && s.tables.contains_key(label@)
                                && s.tables[label@] == table@,
                            forall|k: Seq<char>| #[trigger]
                                props@.contains_key(k) ==> exists|j: int|
                                    0 <= j < props.pairs().len() && props.pairs()[j].0@ == k,
                            forall|j: int|
                                0 <= j < props.pairs().len() ==> #[trigger] props@.contains_key(
                                    props.pairs()[j].0@,
                                ) && props@[props.pairs()[j].0@] == props.pairs()[j].1@,
                            forall|j: int|
                                0 <= j < i ==> !prop_mismatch(
                                    sm,
                                    label@,
                                    props@,
                                    (#[trigger] props.pairs()[j]).0@,
                                ),
                        decreases n - i,
                    {
                        let (k, v) = props.entry(i);
                        match table.properties.get(k.as_str()) {
                            Some(t) => {
                                if !value_conforms(v, *t) {
                                    proof {
                                        assert(props@.contains_key(props.pairs()[i as int].0@));
                                        assert(prop_mismatch(sm, label@, props@, k@));
                                    }
                                    return Err(
                                        EngineError::SchemaPropertyTypeMismatch {
                                            label: label.to_owned(),
                                            property: k.clone(),
                                            declared: *t,
                                            actual: v.kind_name().to_owned(),
                                            schema_version: schema.version,
                                        },
                                    );
                                }
                            },
                            None => {},
                        }
                        i = i + 1;
                    }
                    proof {
                        assert forall|k: Seq<char>| !#[trigger] prop_mismatch(sm, label@, props@, k) by {
                            if props@.contains_key(k) {
                                let j = choose|j: int|
                                    0 <= j < props.pairs().len() && props.pairs()[j].0@ == k;
                                assert(!prop_mismatch(sm, label@, props@, props.pairs()[j].0@));
                            }
                        }
                    }
                    Ok(())
                },
            },
        }
    }
}

impl<S: Storage> Engine<S> {
    /// Inserts a node. Refused with `DuplicateId` when a live node has its
    /// id, and with a schema error when the current schema does not know
    /// its label or a declared property has a value of another type.
    pub fn insert_node(&mut self, node: Node) -> (r: Result<(), EngineError>)
        requires
            old(self).inv(),
            node.wf(),
        ensures
            final(self).inv(),
            old(self).graph().nodes.contains_key(node@.id) ==> (r matches Err(
                EngineError::DuplicateId(x),
            ) && x@ == node@.id && final(self).unchanged(*old(self))),
            !old(self).graph().nodes.contains_key(node@.id) && !(label_known(
                old(self).graph().schema,
                node@.label,
            ) && props_conform(old(self).graph().schema, node@.label, node@.properties)) ==> (
            r matches Err(e) && schema_error_ok(
                e,
                old(self).graph().schema,
                node@.label,
                node@.properties,
            ) && final(self).unchanged(*old(self))),
            !old(self).graph().nodes.contains_key(node@.id) && label_known(
                old(self).graph().schema,
                node@.label,
            ) && props_conform(old(self).graph().schema, node@.label, node@.properties) ==> (
            (old(self).too_long(MutationOp::NodeInsert(node)) ==> r matches Err(EngineError::Record(_))) &&
            match r {
                Ok(()) => final(self).committed(*old(self), OpModel::NodeInsert(node@)),
                Err(e) => final(self).write_failed(*old(self), e),
            }),
            r matches Err(EngineError::Record(_)) ==> old(self).too_long(MutationOp::NodeInsert(node)),
    {
        if self.nodes.contains_key(node.id.as_str()) {
            return Err(EngineError::DuplicateId(node.id));
        }
        match self.validate(node.label.as_str(), &node.properties) {
            Ok(()) => {},
            Err(e) => {
                return Err(e);
            },
        }
        self.commit(MutationOp::NodeInsert(node))
    }

    /// Inserts an edge. Refused with `DuplicateId` when a live edge has
    /// its id, with `MissingNode` when an endpoint names no live node (the
    /// source is checked first), and with a schema error as for nodes.
    pub fn insert_edge(&mut self, edge: Edge) -> (r: Result<(), EngineError>)
        requires
            old(self).inv(),
            edge.wf(),
        ensures
            final(self).inv(),
            old(self).graph().edges.contains_key(edge@.id) ==> (r matches Err(
                EngineError::DuplicateId(x),
            ) && x@ == edge@.id && final(self).unchanged(*old(self))),
            !old(self).graph().edges.contains_key(edge@.id) && !old(self).graph().nodes.contains_key(
                edge@.from,
            ) ==> (r matches Err(EngineError::MissingNode(x)) && x@ == edge@.from && final(self).unchanged(*old(self))),
            !old(self).graph().edges.contains_key(edge@.id) && old(self).graph().nodes.contains_key(
                edge@.from,
            ) && !old(self).graph().nodes.contains_key(edge@.to) ==> (r matches Err(
                EngineError::MissingNode(x),
            ) && x@ == edge@.to && final(self).unchanged(*old(self))),
            !old(self).graph().edges.contains_key(edge@.id) && old(self).graph().nodes.contains_key(
                edge@.from,
            ) && old(self).graph().nodes.contains_key(edge@.to) && !(label_known(
                old(self).graph().schema,
                edge@.label,
            ) && props_conform(old(self).graph().schema, edge@.label, edge@.properties)) ==> (
            r matches Err(e) && schema_error_ok(
                e,
                old(self).graph().schema,
                edge@.label,
                edge@.properties,
            ) && final(self).unchanged(*old(self))),
            !old(self).graph().edges.contains_key(edge@.id) && old(self).graph().nodes.contains_key(
                edge@.from,
            ) && old(self).graph().nodes.contains_key(edge@.to) && label_known(
                old(self).graph().schema,
                edge@.label,
            ) && props_conform(old(self).graph().schema, edge@.label, edge@.properties) ==> (
            (old(self).too_long(MutationOp::EdgeInsert(edge)) ==> r matches Err(EngineError::Record(_))) &&
            match r {
                Ok(()) => final(self).committed(*old(self), OpModel::EdgeInsert(edge@)),
                Err(e) => final(self).write_failed(*old(self), e),
            }),
            r matches Err(EngineError::Record(_)) ==> old(self).too_long(MutationOp::EdgeInsert(edge)),
    {
        if self.edges.contains_key(edge.id.as_str()) {
            return Err(EngineError::DuplicateId(edge.id));
        }
        if !self.has_node(edge.from.as_str()) {
            return Err(EngineError::MissingNode(edge.from));
        }
        if !self.has_node(edge.to.as_str()) {
            return Err(EngineError::MissingNode(edge.to));
        }
        match self.validate(edge.label.as_str(), &edge.properties) {
            Ok(()) => {},
            Err(e) => {
                return Err(e);
            },
        }
        self.commit(MutationOp::EdgeInsert(edge))
    }

    /// Applies a controller-pushed schema: it is written to the log like
    /// any mutation and replaces the current schema as a whole.
    pub fn apply_schema(&mut self, schema: Schema) -> (r: Result<(), EngineError>)
        requires
            old(self).inv(),
            schema.wf(),
        ensures
            final(self).inv(),
            match r {
                Ok(()) => final(self).committed(*old(self), OpModel::SchemaApply(schema@)),
                Err(e) => final(self).write_failed(*old(self), e),
            },
            r matches Err(EngineError::Record(_)) <==> old(self).too_long(MutationOp::SchemaApply(schema)),
    {
        self.commit(MutationOp::SchemaApply(schema))
    }

    /// The latest applied schema, if any.
    pub fn current_schema(&self) -> (r: Option<&Schema>)
        requires
            self.inv(),
        ensures
            match (r, self.graph().schema) {
                (None, None) => true,
                (Some(s), Some(m)) => s@ == m && s.wf(),
                _ => false,
            },
    {
        self.current_schema.as_ref()
    }

    /// Deletes a live node; `Ok(false)` when there is none. Edges that
    /// reference it stay, dangling.
    pub fn delete_node(&mut self, id: &str) -> (r: Result<bool, EngineError>)
        requires
            old(self).inv(),
        ensures
            final(self).inv(),
            !old(self).graph().nodes.contains_key(id@) ==> (r matches Ok(false) && final(self).unchanged(*old(self))),
            old(self).graph().nodes.contains_key(id@) ==> match r {
                Ok(b) => b && final(self).committed(*old(self), OpModel::NodeDelete(id@)),
                Err(e) => final(self).write_failed(*old(self), e),
            },
            old(self).reliable() && old(self).delete_fits(id@) ==> r is Ok,
    {
        if !self.has_node(id) {
            return Ok(false);
        }
        let owned = id.to_owned();
        proof {
            if self.delete_fits(id@) {
                self.lemma_delete_fits(owned);
            }
        }
        match self.commit(MutationOp::NodeDelete(owned)) {
            Ok(()) => Ok(true),
            Err(e) => Err(e),
        }
    }
}

/// The graph's maps are keyed by the ids of what they hold.
pub proof fn lemma_replay_keys(rs: Seq<MutationModel>)
    ensures
        forall|k: Seq<char>| #[trigger]
            replay(rs).nodes.contains_key(k) ==> replay(rs).nodes[k].0.id == k,
        forall|k: Seq<char>| #[trigger]
            replay(rs).edges.contains_key(k) ==> replay(rs).edges[k].0.id == k,
    decreases rs.len(),
{
    if rs.len() > 0 {
        lemma_replay_keys(rs.drop_last());
    }
}

/// Which edges a listing returns.
pub enum EdgeFilter {
    All,
    Label(String),
    From(String, Option<String>),
    Incident(String),
}

/// Model of an [`EdgeFilter`].
pub enum FilterModel {
    All,
    Label(Seq<char>),
    From(Seq<char>, Option<Seq<char>>),
    Incident(Seq<char>),
}

impl View for EdgeFilter {
    type V = FilterModel;

    open spec fn view(&self) -> FilterModel {
        match self {
            EdgeFilter::All => FilterModel::All,
            EdgeFilter::Label(l) => FilterModel::Label(l@),
            EdgeFilter::From(x, l) => FilterModel::From(
                x@,
                match l {
                    Some(l) => Some(l@),
                    None => None,
                },
            ),
            EdgeFilter::Incident(id) => FilterModel::Incident(id@),
        }
    }
}

/// An edge of this label and endpoints passes the filter.
pub open spec fn passes(f: FilterModel, label: Seq<char>, from: Seq<char>, to: Seq<char>) -> bool {
    match f {
        FilterModel::All => true,
        FilterModel::Label(l) => label == l,
        FilterModel::From(x, l) => from == x && match l {
            Some(l) => label == l,
            None => true,
        },
        FilterModel::Incident(id) => from == id || to == id,
    }
}

/// The edge `e` passes the filter.
pub open spec fn edge_passes(f: FilterModel, e: EdgeModel) -> bool {
    passes(f, e.label, e.from, e.to)
}

fn filter_passes(f: &EdgeFilter, label: &str, from: &str, to: &str) -> (r: bool)
    ensures
        r == passes(f@, label@, from@, to@),
{
    match f {
        EdgeFilter::All => true,
        EdgeFilter::Label(l) => str_eq(label, l.as_str()),
        EdgeFilter::From(x, l) => str_eq(from, x.as_str()) && match l {
            Some(l) => str_eq(label, l.as_str()),
            None => true,
        },
        EdgeFilter::Incident(id) => str_eq(from, id.as_str()) || str_eq(to, id.as_str()),
    }
}

/// `v` lists, once each and in some order, the edges of `edges` that
/// pass `f`.
pub open spec fn lists_edges(v: Seq<Edge>, edges: Map<Seq<char>, (EdgeModel, bool)>, f: FilterModel) -> bool {
    &&& forall|i: int|
        0 <= i < v.len() ==> edges.contains_key((#[trigger] v[i])@.id) && v[i]@ == edges[v[i]@.id].0
            && edge_passes(f, v[i]@) && v[i].wf()
    &&& forall|i: int, j: int| 0 <= i < j < v.len() ==> v[i]@.id != v[j]@.id
    &&& forall|k: Seq<char>|
        #[trigger] edges.contains_key(k) && edge_passes(f, edges[k].0) ==> exists|i: int|
            0 <= i < v.len() && v[i]@.id == k
}

/// `v` lists, once each and in some order, the nodes of `nodes`.
pub open spec fn lists_nodes(v: Seq<Node>, nodes: Map<Seq<char>, (NodeModel, bool)>) -> bool {
    &&& forall|i: int|
        0 <= i < v.len() ==> nodes.contains_key((#[trigger] v[i])@.id) && v[i]@ == nodes[v[i]@.id].0
            && v[i].wf()
    &&& forall|i: int, j: int| 0 <= i < j < v.len() ==> v[i]@.id != v[j]@.id
    &&& forall|k: Seq<char>| #[trigger]
        nodes.contains_key(k) ==> exists|i: int| 0 <= i < v.len() && v[i]@.id == k
}

impl<S: Storage> Engine<S> {
    /// Only the backend's internals may have changed since `prev`.
    closed spec fn same_state(&self, prev: Self) -> bool {
        &&& self.bytes() == prev.bytes()
        &&& self.reliable() == prev.reliable()
        &&& self.nodes == prev.nodes
        &&& self.edges == prev.edges
        &&& self.current_schema == prev.current_schema
        &&& self.actor == prev.actor
        &&& self.next_local_seq == prev.next_local_seq
        &&& self.mutation_log == prev.mutation_log
        &&& self.capability == prev.capability
        &&& self.edge_config == prev.edge_config
        &&& self.controller_kind == prev.controller_kind
    }

    /// Reads back the mutation of the record at `offset`.
    fn read_frame(&mut self, offset: u64, payload_len: u32) -> (r: Result<Mutation, EngineError>)
        requires
            old(self).inv(),
            frame_at(old(self).bytes(), offset as int, payload_len as int) is Some,
        ensures
            final(self).same_state(*old(self)),
            final(self).inv(),
            r matches Ok(m) ==> Some(m@) == frame_at(old(self).bytes(), offset as int, payload_len as int)
                && m.wf(),
            r matches Err(e) ==> e is Storage,
            old(self).reliable() ==> r is Ok,
    {
        if payload_len as u64 + 4 > usize::MAX as u64 {
            return Err(
                EngineError::Storage(
                    StorageError::Io {
                        path: String::new(),
                        message: "record longer than this platform can address".to_owned(),
                    },
                ),
            );
        }
        let n: usize = LEN_PREFIX_BYTES + payload_len as usize;
        let bytes = match self.storage.read_at(offset, n) {
            Ok(v) => v,
            Err(e) => {
                return Err(EngineError::Storage(e));
            },
        };
        match decode_framed(bytes.as_slice()) {
            Ok(Some((m, _))) => Ok(m),
            _ => {
                proof {
                    assert(false);
                }
                Err(
                    EngineError::Storage(
                        StorageError::Io { path: String::new(), message: String::new() },
                    ),
                )
            },
        }
    }

    /// The live node with this id.
    pub fn get_node(&mut self, id: &str) -> (r: Result<Option<Node>, EngineError>)
        requires
            old(self).inv(),
        ensures
            final(self).inv(),
            final(self).unchanged(*old(self)),
            r matches Ok(None) <==> !old(self).graph().nodes.contains_key(id@),
            r matches Ok(Some(n)) ==> n@ == old(self).graph().nodes[id@].0 && n.wf(),
            r matches Err(e) ==> e is Storage,
            old(self).reliable() ==> r is Ok,
    {
        let (offset, payload_len) = match self.nodes.get(id) {
            Some(e) => (e.offset, e.payload_len),
            None => {
                return Ok(None);
            },
        };
        let m = self.read_frame(offset, payload_len)?;
        match m.op {
            MutationOp::NodeInsert(n) => Ok(Some(n)),
            _ => {
                proof {
                    assert(false);
                }
                Ok(None)
            },
        }
    }

    /// The live edge with this id.
    pub fn get_edge(&mut self, id: &str) -> (r: Result<Option<Edge>, EngineError>)
        requires
            old(self).inv(),
        ensures
            final(self).inv(),
            final(self).unchanged(*old(self)),
            r matches Ok(None) <==> !old(self).graph().edges.contains_key(id@),
            r matches Ok(Some(e)) ==> e@ == old(self).graph().edges[id@].0 && e.wf(),
            r matches Err(e) ==> e is Storage,
            old(self).reliable() ==> r is Ok,
    {
        let (offset, payload_len) = match self.edges.get(id) {
            Some(e) => (e.offset, e.payload_len),
            None => {
                return Ok(None);
            },
        };
        let m = self.read_frame(offset, payload_len)?;
        match m.op {
            MutationOp::EdgeInsert(e) => Ok(Some(e)),
            _ => {
                proof {
                    assert(false);
                }
                Ok(None)
            },
        }
    }
}

impl<S: Storage> Engine<S> {
    /// The live edges that pass `f`, in index order.
    fn collect_edges(&mut self, f: &EdgeFilter) -> (r: Result<Vec<Edge>, EngineError>)
        requires
            old(self).inv(),
        ensures
            final(self).inv(),
            final(self).same_state(*old(self)),
            r matches Ok(v) ==> lists_edges(v@, old(self).graph().edges, f@),
            r matches Err(e) ==> e is Storage,
            old(self).reliable() ==> r is Ok,
    {
        let ghost s0 = *self;
        let ghost g = self.graph();
        let ghost ps = self.edges.pairs();
        proof {
            self.edges.lemma_view();
            lemma_replay_keys(self.records());
        }
        let n = self.edges.len();
        let mut out: Vec<Edge> = Vec::new();
        let mut i: usize = 0;
        while i < n
            invariant
                self.inv(),
                s0 == *old(self),
                self.same_state(s0),
                g == self.graph(),
                ps == self.edges.pairs(),
                n == ps.len(),
                i <= n,
                forall|k: Seq<char>| #[trigger]
                    g.edges.contains_key(k) ==> g.edges[k].0.id == k,
                forall|k: Seq<char>| #[trigger]
                    self.edges@.contains_key(k) ==> exists|j: int| 0 <= j < ps.len() && ps[j].0@ == k,
                forall|j: int|
                    0 <= j < ps.len() ==> #[trigger] self.edges@.contains_key(ps[j].0@)
                        && self.edges@[ps[j].0@] == ps[j].1@,
                forall|t: int|
                    0 <= t < out@.len() ==> exists|j: int| 0 <= j < i && ps[j].0@ == (#[trigger] out@[t])@.id,
                forall|t: int|
                    0 <= t < out@.len() ==> g.edges.contains_key((#[trigger] out@[t])@.id) && out@[t]@
                        == g.edges[out@[t]@.id].0 && edge_passes(f@, out@[t]@) && out@[t].wf(),
                forall|t1: int, t2: int| 0 <= t1 < t2 < out@.len() ==> out@[t1]@.id != out@[t2]@.id,
                forall|j: int|
                    0 <= j < i && edge_passes(f@, g.edges[(#[trigger] ps[j]).0@].0) ==> exists|t: int|
                        0 <= t < out@.len() && out@[t]@.id == ps[j].0@,
            decreases n - i,
        {
            let (key, entry) = self.edges.entry(i);
            let ghost k = key@;
            proof {
                assert(self.edges@.contains_key(ps[i as int].0@));
            }
            let pass = filter_passes(f, entry.label.as_str(), entry.from.as_str(), entry.to.as_str());
            proof {
                assert(edge_entry_ok(self.bytes(), self.edges@[k], g.edges[k]));
                assert(self.edges@[k] == entry@);
                assert(pass == edge_passes(f@, g.edges[k].0));
            }
            let ghost old_out = out@;
            if pass {
                let offset = entry.offset;
                let payload_len = entry.payload_len;
                let m = self.read_frame(offset, payload_len)?;
                match m.op {
                    MutationOp::EdgeInsert(e) => {
                        proof {
                            assert forall|t: int| 0 <= t < out@.len() implies out@[t]@.id != k by {
                                let j = choose|j: int| 0 <= j < i && ps[j].0@ == (#[trigger] out@[t])@.id;
                                assert(ps[j].0@ != ps[i as int].0@);
                            }
                        }
                        out.push(e);
                        proof {
                            assert(out@[out@.len() - 1]@.id == k);
                        }
                    },
                    _ => {
                        proof {
                            assert(false);
                        }
                    },
                }
            }
            proof {
                assert forall|j: int|
                    0 <= j < i + 1 && edge_passes(f@, g.edges[(#[trigger] ps[j]).0@].0) implies exists|t: int|
                        0 <= t < out@.len() && out@[t]@.id == ps[j].0@ by {
                    if j < i {
                        let t = choose|t: int| 0 <= t < old_out.len() && old_out[t]@.id == ps[j].0@;
                        assert(out@[t] == old_out[t]);
                    } else {
                        assert(out@[out@.len() - 1]@.id == k);
                    }
                }
            }
            i = i + 1;
        }
        proof {
            assert forall|k: Seq<char>|
                #[trigger] g.edges.contains_key(k) && edge_passes(f@, g.edges[k].0) implies exists|i: int|
                    0 <= i < out@.len() && out@[i]@.id == k by {
                assert(self.edges@.contains_key(k));
                let j = choose|j: int| 0 <= j < ps.len() && ps[j].0@ == k;
                assert(edge_passes(f@, g.edges[ps[j].0@].0));
            }
        }
        Ok(out)
    }

    /// Every live edge, in no particular order.
    pub fn iter_edges(&mut self) -> (r: Result<Vec<Edge>, EngineError>)
        requires
            old(self).inv(),
        ensures
            final(self).inv(),
            final(self).unchanged(*old(self)),
            r matches Ok(v) ==> lists_edges(v@, old(self).graph().edges, FilterModel::All),
            r matches Err(e) ==> e is Storage,
            old(self).reliable() ==> r is Ok,
    {
        self.collect_edges(&EdgeFilter::All)
    }

    /// The live edges with this label.
    pub fn iter_edges_by_label(&mut self, label: &str) -> (r: Result<Vec<Edge>, EngineError>)
        requires
            old(self).inv(),
        ensures
            final(self).inv(),
            final(self).unchanged(*old(self)),
            r matches Ok(v) ==> lists_edges(
                v@,
                old(self).graph().edges,
                FilterModel::Label(label@),
            ),
            r matches Err(e) ==> e is Storage,
            old(self).reliable() ==> r is Ok,
    {
        self.collect_edges(&EdgeFilter::Label(label.to_owned()))
    }
}

impl<S: Storage> Engine<S> {
    /// The live edges out of `from`, of `label` where one is given.
    pub fn iter_edges_from(&mut self, from: &str, label: Option<&str>) -> (r: Result<Vec<Edge>, EngineError>)
        requires
            old(self).inv(),
        ensures
            final(self).inv(),
            final(self).unchanged(*old(self)),
            r matches Ok(v) ==> lists_edges(
                v@,
                old(self).graph().edges,
                FilterModel::From(
                    from@,
                    match label {
                        Some(l) => Some(l@),
                        None => None,
                    },
                ),
            ),
            r matches Err(e) ==> e is Storage,
            old(self).reliable() ==> r is Ok,
    {
        let l = match label {
            Some(l) => Some(l.to_owned()),
            None => None,
        };
        self.collect_edges(&EdgeFilter::From(from.to_owned(), l))
    }

    /// The live edges with `id` as either endpoint.
    pub fn iter_edges_incident_to(&mut self, id: &str) -> (r: Result<Vec<Edge>, EngineError>)
        requires
            old(self).inv(),
        ensures
            final(self).inv(),
            final(self).unchanged(*old(self)),
            r matches Ok(v) ==> lists_edges(v@, old(self).graph().edges, FilterModel::Incident(id@)),
            r matches Err(e) ==> e is Storage,
            old(self).reliable() ==> r is Ok,
    {
        self.collect_edges(&EdgeFilter::Incident(id.to_owned()))
    }

    /// Every live node, in no particular order.
    pub fn iter_nodes(&mut self) -> (r: Result<Vec<Node>, EngineError>)
        requires
            old(self).inv(),
        ensures
            final(self).inv(),
            final(self).unchanged(*old(self)),
            r matches Ok(v) ==> lists_nodes(v@, old(self).graph().nodes),
            r matches Err(e) ==> e is Storage,
            old(self).reliable() ==> r is Ok,
    {
        let ghost s0 = *self;
        let ghost g = self.graph();
        let ghost ps = self.nodes.pairs();
        proof {
            self.nodes.lemma_view();
            lemma_replay_keys(self.records());
        }
        let n = self.nodes.len();
        let mut out: Vec<Node> = Vec::new();
        let mut i: usize = 0;
        while i < n
            invariant
                self.inv(),
                s0 == *old(self),
                self.same_state(s0),
                g == self.graph(),
                ps == self.nodes.pairs(),
                n == ps.len(),
                i <= n,
                forall|k: Seq<char>| #[trigger]
                    g.nodes.contains_key(k) ==> g.nodes[k].0.id == k,
                forall|k: Seq<char>| #[trigger]
                    self.nodes@.contains_key(k) ==> exists|j: int| 0 <= j < ps.len() && ps[j].0@ == k,
                forall|j: int|
                    0 <= j < ps.len() ==> #[trigger] self.nodes@.contains_key(ps[j].0@)
                        && self.nodes@[ps[j].0@] == ps[j].1@,
                out@.len() == i,
                forall|t: int| 0 <= t < i ==> (#[trigger] out@[t])@.id == ps[t].0@,
                forall|t: int|
                    0 <= t < out@.len() ==> g.nodes.contains_key((#[trigger] out@[t])@.id) && out@[t]@
                        == g.nodes[out@[t]@.id].0 && out@[t].wf(),
            decreases n - i,
        {
            let (key, entry) = self.nodes.entry(i);
            let ghost k = key@;
            proof {
                assert(self.nodes@.contains_key(ps[i as int].0@));
                assert(node_entry_ok(self.bytes(), self.nodes@[k], g.nodes[k]));
                assert(self.nodes@[k] == entry@);
            }
            let offset = entry.offset;
            let payload_len = entry.payload_len;
            let m = self.read_frame(offset, payload_len)?;
            match m.op {
                MutationOp::NodeInsert(x) => {
                    out.push(x);
                },
                _ => {
                    proof {
                        assert(false);
                    }
                },
            }
            i = i + 1;
        }
        proof {
            assert forall|t1: int, t2: int| 0 <= t1 < t2 < out@.len() implies out@[t1]@.id != out@[t2]@.id by {
                assert(out@[t1]@.id == ps[t1].0@);
                assert(out@[t2]@.id == ps[t2].0@);
            }
            assert forall|k: Seq<char>| #[trigger] g.nodes.contains_key(k) implies exists|i: int|
                0 <= i < out@.len() && out@[i]@.id == k by {
                assert(self.nodes@.contains_key(k));
                let j = choose|j: int| 0 <= j < ps.len() && ps[j].0@ == k;
                assert(out@[j]@.id == ps[j].0@);
            }
        }
        Ok(out)
    }

    /// Deletes a live edge; `Ok(false)` when there is none.
    pub fn delete_edge(&mut self, id: &str) -> (r: Result<bool, EngineError>)
        requires
            old(self).inv(),
        ensures
            final(self).inv(),
            !old(self).graph().edges.contains_key(id@) ==> (r matches Ok(false) && final(self).unchanged(*old(self))),
            old(self).graph().edges.contains_key(id@) ==> match r {
                Ok(b) => b && final(self).committed(*old(self), OpModel::EdgeDelete(id@)),
                Err(e) => final(self).write_failed(*old(self), e),
            },
            old(self).reliable() && old(self).delete_fits(id@) ==> r is Ok,
    {
        if !self.has_edge(id) {
            return Ok(false);
        }
        let owned = id.to_owned();
        proof {
            if self.delete_fits(id@) {
                self.lemma_delete_fits(owned);
            }
        }
        match self.commit(MutationOp::EdgeDelete(owned)) {
            Ok(()) => Ok(true),
            Err(e) => Err(e),
        }
    }
}

/// `new` holds only nodes and edges of `old`, unchanged, and the same
/// schema.
pub open spec fn sub_graph(new: GraphModel, old: GraphModel) -> bool {
    &&& new.nodes.submap_of(old.nodes)
    &&& new.edges.submap_of(old.edges)
    &&& new.schema == old.schema
}

/// The ids of the edges of `edges` with `id` as an endpoint.
pub open spec fn incident_ids(edges: Map<Seq<char>, (EdgeModel, bool)>, id: Seq<char>) -> Set<Seq<char>> {
    edges.dom().filter(|k: Seq<char>| edges[k].0.from == id || edges[k].0.to == id)
}

impl<S: Storage> Engine<S> {
    /// Deletes a live node together with every live edge that has it as
    /// an endpoint: the edges' deletions are written first, then the
    /// node's. Returns whether the node existed and how many edges went.
    #[verifier::rlimit(80)]
    #[verifier::spinoff_prover]
    pub fn delete_node_with_cascade(&mut self, id: &str) -> (r: Result<(bool, usize), EngineError>)
        requires
            old(self).inv(),
        ensures
            final(self).inv(),
            final(self).actor_ids() == old(self).actor_ids(),
            final(self).settings() == old(self).settings(),
            !old(self).graph().nodes.contains_key(id@) ==> (r matches Ok((false, 0usize)) && final(self).unchanged(*old(self))),
            r matches Ok((true, n)) ==> {
                &&& old(self).graph().nodes.contains_key(id@)
                &&& final(self).graph().nodes == old(self).graph().nodes.remove(id@)
                &&& final(self).graph().edges == old(self).graph().edges.remove_keys(
                    incident_ids(old(self).graph().edges, id@),
                )
                &&& final(self).graph().schema == old(self).graph().schema
                &&& n == incident_ids(old(self).graph().edges, id@).len()
            },
            r is Err ==> final(self).graph().nodes == old(self).graph().nodes,
            r matches Ok((b, _)) ==> b == old(self).graph().nodes.contains_key(id@),
            sub_graph(final(self).graph(), old(self).graph()),
            r matches Err(e) ==> e is Storage || e is Record,
            final(self).reliable() == old(self).reliable(),
            old(self).reliable() && r is Err ==> r matches Err(EngineError::Record(_)),
            old(self).reliable() && old(self).delete_fits(id@) && (forall|k: Seq<char>|
                #[trigger] incident_ids(old(self).graph().edges, id@).contains(k) ==> old(self).delete_fits(k)) ==> r is Ok,
    {
        if !self.has_node(id) {
            return Ok((false, 0));
        }
        let ghost g0 = self.graph();
        let ghost ps = self.edges.pairs();
        let ghost inc = incident_ids(g0.edges, id@);
        proof {
            self.edges.lemma_view();
            lemma_replay_keys(self.records());
        }
        let n = self.edges.len();
        let mut ids: Vec<String> = Vec::new();
        let mut i: usize = 0;
        while i < n
            invariant
                self.inv(),
                g0 == self.graph(),
                g0 == old(self).graph(),
                g0.nodes.contains_key(id@),
                self.unchanged(*old(self)),
                ps == self.edges.pairs(),
                n == ps.len(),
                i <= n,
                inc == incident_ids(g0.edges, id@),
                forall|k: Seq<char>| #[trigger]
                    self.edges@.contains_key(k) ==> exists|j: int| 0 <= j < ps.len() && ps[j].0@ == k,
                forall|j: int|
                    0 <= j < ps.len() ==> #[trigger] self.edges@.contains_key(ps[j].0@)
                        && self.edges@[ps[j].0@] == ps[j].1@,
                forall|t: int|
                    0 <= t < ids@.len() ==> exists|j: int| 0 <= j < i && ps[j].0@ == (#[trigger] ids@[t])@,
                forall|t: int| 0 <= t < ids@.len() ==> inc.contains((#[trigger] ids@[t])@),
                forall|t1: int, t2: int| 0 <= t1 < t2 < ids@.len() ==> ids@[t1]@ != ids@[t2]@,
                forall|j: int|
                    0 <= j < i && inc.contains((#[trigger] ps[j]).0@) ==> exists|t: int|
                        0 <= t < ids@.len() && ids@[t]@ == ps[j].0@,
            decreases n - i,
        {
            let (key, entry) = self.edges.entry(i);
            let ghost k = key@;
            proof {
                assert(self.edges@.contains_key(ps[i as int].0@));
                assert(edge_entry_ok(self.bytes(), self.edges@[k], g0.edges[k]));
                assert(self.edges@[k] == entry@);
            }
            let ghost old_ids = ids@;
            if str_eq(entry.from.as_str(), id) || str_eq(entry.to.as_str(), id) {
                proof {
                    assert(inc.contains(k));
                    assert forall|t: int| 0 <= t < ids@.len() implies ids@[t]@ != k by {
                        let j = choose|j: int| 0 <= j < i && ps[j].0@ == (#[trigger] ids@[t])@;
                        assert(ps[j].0@ != ps[i as int].0@);
                    }
                }
                ids.push(key.clone());
            } else {
                proof {
                    assert(!inc.contains(k));
                }
            }
            proof {
                assert forall|j: int|
                    0 <= j < i + 1 && inc.contains((#[trigger] ps[j]).0@) implies exists|t: int|
                        0 <= t < ids@.len() && ids@[t]@ == ps[j].0@ by {
                    if j < i {
                        let t = choose|t: int| 0 <= t < old_ids.len() && old_ids[t]@ == ps[j].0@;
                        assert(ids@[t] == old_ids[t]);
                    } else {
                        assert(ids@[ids@.len() - 1]@ == k);
                    }
                }
                assert forall|t: int| 0 <= t < ids@.len() implies exists|j: int| 0 <= j < i + 1 && ps[j].0@ == (#[trigger] ids@[t])@ by {
                    if t < old_ids.len() {
                        assert(ids@[t] == old_ids[t]);
                        let j = choose|j: int| 0 <= j < i && ps[j].0@ == old_ids[t]@;
                    } else {
                        assert(ps[i as int].0@ == ids@[t]@);
                    }
                }
            }
            i = i + 1;
        }
        let ghost idv = ids@.map_values(|x: String| x@);
        proof {
            assert(idv.len() == ids@.len());
            assert forall|a: int, b: int| 0 <= a < idv.len() && 0 <= b < idv.len() && a != b implies idv[a] != idv[b] by {
                assert(idv[a] == ids@[a]@);
                assert(idv[b] == ids@[b]@);
                if a < b {
                    assert(ids@[a]@ != ids@[b]@);
                } else {
                    assert(ids@[b]@ != ids@[a]@);
                }
            }
            assert(idv.no_duplicates());
            idv.unique_seq_to_set();
            assert(idv.to_set() =~= inc) by {
                assert forall|k: Seq<char>| inc.contains(k) implies idv.to_set().contains(k) by {
                    assert(self.edges@.contains_key(k));
                    let j = choose|j: int| 0 <= j < ps.len() && ps[j].0@ == k;
                    let t = choose|t: int| 0 <= t < ids@.len() && ids@[t]@ == ps[j].0@;
                    assert(idv[t] == k);
                    assert(idv.contains(k));
                }
                assert forall|k: Seq<char>| idv.to_set().contains(k) implies inc.contains(k) by {
                    let t = choose|t: int| 0 <= t < idv.len() && idv[t] == k;
                    assert(idv[t] == ids@[t]@);
                    assert(inc.contains(ids@[t]@));
                }
            }
        }
        let mut j: usize = 0;
        while j < ids.len()
            invariant
                self.inv(),
                old(self).inv(),
                g0 == old(self).graph(),
                g0.nodes.contains_key(id@),
                inc == incident_ids(g0.edges, id@),
                idv == ids@.map_values(|x: String| x@),
                idv.to_set() == inc,
                idv.no_duplicates(),
                j <= ids@.len(),
                self.graph().nodes == g0.nodes,
                self.graph().schema == g0.schema,
                self.graph().edges == g0.edges.remove_keys(idv.subrange(0, j as int).to_set()),
                self.reliable() == old(self).reliable(),
                forall|t: int| 0 <= t < idv.len() ==> #[trigger] idv[t] == ids@[t]@,
                self.actor_ids() == old(self).actor_ids(),
                self.settings() == old(self).settings(),
            decreases ids@.len() - j,
        {
            let ghost before = *self;
            proof {
                assert(idv[j as int] == ids@[j as int]@);
            }
            let eid = ids[j].clone();
            proof {
                if old(self).delete_fits(eid@) {
                    self.lemma_delete_fits(eid);
                }
                assert(inc.contains(idv[j as int]));
            }
            match self.commit(MutationOp::EdgeDelete(eid)) {
                Ok(()) => {},
                Err(e) => {
                    return Err(e);
                },
            }
            proof {
                lemma_committed_graph(*self, before, OpModel::EdgeDelete(idv[j as int]));
                lemma_prefix_set_step(idv, j as int);
                assert(self.graph().edges =~= g0.edges.remove_keys(idv.subrange(0, j + 1 as int).to_set()));
            }
            j = j + 1;
        }
        proof {
            assert(idv.subrange(0, ids@.len() as int) =~= idv);
        }
        let ghost before = *self;
        let nid = id.to_owned();
        proof {
            if old(self).delete_fits(id@) {
                self.lemma_delete_fits(nid);
            }
        }
        match self.commit(MutationOp::NodeDelete(nid)) {
            Ok(()) => {},
            Err(e) => {
                return Err(e);
            },
        }
        proof {
            lemma_committed_graph(*self, before, OpModel::NodeDelete(id@));
        }
        Ok((true, ids.len()))
    }
}

/// The records still awaiting the controller's confirmation, in order.
pub open spec fn unconfirmed(rs: Seq<MutationModel>) -> Seq<MutationModel>
    decreases rs.len(),
{
    if rs.len() == 0 {
        Seq::empty()
    } else if rs.last().foreshadow {
        unconfirmed(rs.drop_last()).push(rs.last())
    } else {
        unconfirmed(rs.drop_last())
    }
}

impl Engine<MemoryStorage> {
    /// Opens an engine on a fresh in-memory store.
    pub fn open_in_memory(config: &MotifConfig) -> (r: Result<Engine<MemoryStorage>, EngineError>)
        ensures
            r matches Ok(e) ==> e.inv() && e.records() == Seq::<MutationModel>::empty()
                && e.reliable() == (usize::MAX >= u32::MAX + 4)
                && e.next_seq() == 1 && e.outbox() is None && e.actor_ids() == (
                config.identity.user_id@,
                config.identity.device_id@,
            ),
            usize::MAX >= u32::MAX + 4 ==> r is Ok,
    {
        let storage = MemoryStorage::new();
        proof {
            assert(scan(storage.bytes(), HEADER_LEN as int, Seq::empty()) == Scan::Clean(
                Seq::<MutationModel>::empty(),
            ));
        }
        Self::open_with(config, storage)
    }
}

impl<S: Storage> Engine<S> {
    /// Closes the engine and hands its backend back.
    pub fn into_storage(self) -> (r: S)
        ensures
            r.bytes() == self.bytes(),
    {
        self.storage
    }

    /// The capability profile copied from the configuration.
    pub fn capability(&self) -> (r: &CapabilityConfig)
        ensures
            *r == self.settings().0,
    {
        &self.capability
    }

    /// The edge-strategy settings copied from the configuration.
    pub fn edge_config(&self) -> (r: &EdgeConfig)
        ensures
            *r == self.settings().1,
    {
        &self.edge_config
    }

    /// The actor stamped on this engine's mutations.
    pub fn actor(&self) -> (r: &ActorId)
        ensures
            (r.user_id@, r.device_id@) == self.actor_ids(),
    {
        &self.actor
    }

    /// The sequence number the next commit will carry.
    pub fn next_local_seq(&self) -> (r: u64)
        ensures
            r == self.next_seq(),
    {
        self.next_local_seq
    }

    /// How many mutations wait in the outbox; 0 when none is wired.
    pub fn buffered_mutation_count(&self) -> (r: usize)
        ensures
            r == match self.outbox() {
                Some(q) => q.len(),
                None => 0,
            },
    {
        match &self.mutation_log {
            Some(l) => l.buffered_len(),
            None => 0,
        }
    }

    /// Wires `log` as the outbox: every later commit is recorded in it.
    pub fn with_mutation_log(self, log: MutationLog) -> (r: Engine<S>)
        requires
            self.inv(),
            log.wf(),
        ensures
            r.inv(),
            r.outbox() == Some(log@),
            r.bytes() == self.bytes(),
            r.next_seq() == self.next_seq(),
            r.actor_ids() == self.actor_ids(),
            r.settings() == self.settings(),
    {
        let mut e = self;
        e.mutation_log = Some(log);
        e
    }

    /// Takes the mutations waiting in the outbox, oldest first; empty when
    /// none is wired.
    pub fn take_mutation_buffer(&mut self) -> (r: Vec<Mutation>)
        requires
            old(self).inv(),
        ensures
            final(self).inv(),
            final(self).bytes() == old(self).bytes(),
            final(self).next_seq() == old(self).next_seq(),
            final(self).actor_ids() == old(self).actor_ids(),
            final(self).settings() == old(self).settings(),
            match old(self).outbox() {
                Some(q) => crate::sync::mutation_log::mutations_view(r@) == q && final(self).outbox()
                    == Some(Seq::<MutationModel>::empty()),
                None => r@.len() == 0 && final(self).outbox() is None,
            },
    {
        match self.mutation_log {
            Some(ref mut l) => l.take_buffer(),
            None => Vec::new(),
        }
    }

    /// Wires an outbox for a controller of kind `wired`, which must be the
    /// configured kind; otherwise `ControllerKindMismatch`.
    pub fn with_named_controller(self, wired: &str) -> (r: Result<Engine<S>, EngineError>)
        requires
            self.inv(),
        ensures
            self.settings().2 == wired@ ==> (r matches Ok(e) && e.inv() && e.bytes() == self.bytes()
                && e.outbox() == match self.outbox() {
                Some(q) => Some(q),
                None => Some(Seq::<MutationModel>::empty()),
            } && e.next_seq() == self.next_seq() && e.actor_ids() == self.actor_ids()
                && e.settings() == self.settings()),
            self.settings().2 != wired@ ==> (r matches Err(EngineError::ControllerKindMismatch {
                declared,
                wired: w,
            }) && declared@ == self.settings().2 && w@ == wired@),
    {
        if !str_eq(self.controller_kind.as_str(), wired) {
            return Err(
                EngineError::ControllerKindMismatch {
                    declared: self.controller_kind.clone(),
                    wired: wired.to_owned(),
                },
            );
        }
        let mut e = self;
        if e.mutation_log.is_none() {
            e.mutation_log = Some(MutationLog::new());
        }
        Ok(e)
    }

    /// Feeds every logged mutation that is still foreshadowed to the
    /// outbox again, in log order, and returns how many. Without an
    /// outbox it does nothing and returns 0.
    pub fn replay_unconfirmed(&mut self) -> (r: Result<usize, EngineError>)
        requires
            old(self).inv(),
        ensures
            final(self).inv(),
            final(self).bytes() == old(self).bytes(),
            final(self).next_seq() == old(self).next_seq(),
            final(self).actor_ids() == old(self).actor_ids(),
            final(self).settings() == old(self).settings(),
            old(self).outbox() is None ==> (r matches Ok(0usize) && final(self).outbox() is None),
            r matches Ok(n) ==> match old(self).outbox() {
                Some(q) => final(self).outbox() == Some(q + unconfirmed(old(self).records())) && n
                    == unconfirmed(old(self).records()).len(),
                None => n == 0,
            },
            r matches Err(e) ==> e is Storage,
    {
        if self.mutation_log.is_none() {
            return Ok(0);
        }
        let ghost b = self.bytes();
        let ghost rs = self.records();
        let ghost q0 = self.outbox()->Some_0;
        let ghost mut acc: Seq<MutationModel> = Seq::empty();
        let total = self.storage.len();
        let mut cursor: u64 = HEADER_LEN;
        let mut count: usize = 0;
        while cursor < total
            invariant
                self.inv(),
                b == self.bytes(),
                b == old(self).bytes(),
                rs == self.records(),
                scan(b, HEADER_LEN as int, Seq::empty()) == Scan::Clean(rs),
                scan(b, cursor as int, acc) == Scan::Clean(rs),
                total == b.len(),
                HEADER_LEN <= cursor <= total,
                self.outbox() == Some(q0 + unconfirmed(acc)),
                count == unconfirmed(acc).len(),
                self.next_seq() == old(self).next_seq(),
                self.actor_ids() == old(self).actor_ids(),
                self.settings() == old(self).settings(),
                old(self).outbox() == Some(q0),
            decreases total - cursor,
        {
            let len_bytes = match self.storage.read_at(cursor, LEN_PREFIX_BYTES) {
                Ok(v) => v,
                Err(e) => {
                    return Err(EngineError::Storage(e));
                },
            };
            let payload_len = crate::wire::get_u32_le(len_bytes.as_slice(), 0);
            proof {
                assert(read_u32(len_bytes@, 0) == read_u32(b, cursor as int)) by {
                    assert(len_bytes@[0] == b[cursor as int]);
                    assert(len_bytes@[1] == b[cursor + 1]);
                    assert(len_bytes@[2] == b[cursor + 2]);
                    assert(len_bytes@[3] == b[cursor + 3]);
                }
            }
            if payload_len as u64 + 4 > usize::MAX as u64 {
                return Err(
                    EngineError::Storage(
                        StorageError::Io {
                            path: String::new(),
                            message: "record longer than this platform can address".to_owned(),
                        },
                    ),
                );
            }
            let n: usize = LEN_PREFIX_BYTES + payload_len as usize;
            let framed = match self.storage.read_at(cursor, n) {
                Ok(v) => v,
                Err(e) => {
                    return Err(EngineError::Storage(e));
                },
            };
            let ghost fb = framed@;
            proof {
                assert(read_u32(fb, 0) == read_u32(b, cursor as int)) by {
                    assert(fb[0] == b[cursor as int]);
                    assert(fb[1] == b[cursor + 1]);
                    assert(fb[2] == b[cursor + 2]);
                    assert(fb[3] == b[cursor + 3]);
                }
                assert(fb.subrange(4, 4 + payload_len as int) =~= b.subrange(
                    cursor + 4,
                    cursor + 4 + payload_len,
                ));
            }
            match decode_framed(framed.as_slice()) {
                Ok(Some((m, _))) => {
                    let ghost mm = m@;
                    proof {
                        assert(acc.push(mm).drop_last() =~= acc);
                    }
                    if m.foreshadow {
                        match self.mutation_log {
                            Some(ref mut l) => {
                                l.record(m);
                                let _total_buffered = l.buffered_len();
                            },
                            None => {},
                        }
                        count = count + 1;
                        proof {
                            assert(q0 + unconfirmed(acc.push(mm)) =~= (q0 + unconfirmed(acc)).push(mm));
                        }
                    }
                    proof {
                        acc = acc.push(mm);
                    }
                    cursor = cursor + n as u64;
                },
                _ => {
                    proof {
                        assert(false);
                    }
                    return Ok(count);
                },
            }
        }
        Ok(count)
    }
}

/// After a committed node insert the graph holds exactly that node under
/// its id, foreshadowed, and nothing else changed.
pub proof fn lemma_insert_node_visible<S: Storage>(new: Engine<S>, prev: Engine<S>, n: NodeModel)
    requires
        new.committed(prev, OpModel::NodeInsert(n)),
    ensures
        new.graph().nodes == prev.graph().nodes.insert(n.id, (n, true)),
        new.graph().nodes[n.id] == (n, true),
        new.graph().edges == prev.graph().edges,
        new.graph().schema == prev.graph().schema,
{
    lemma_committed_graph(new, prev, OpModel::NodeInsert(n));
}

/// After a committed edge insert the graph holds exactly that edge under
/// its id, foreshadowed; nodes are untouched, so a node and an edge may
/// share an id.
pub proof fn lemma_insert_edge_visible<S: Storage>(new: Engine<S>, prev: Engine<S>, e: EdgeModel)
    requires
        new.committed(prev, OpModel::EdgeInsert(e)),
    ensures
        new.graph().edges == prev.graph().edges.insert(e.id, (e, true)),
        new.graph().edges[e.id] == (e, true),
        new.graph().nodes == prev.graph().nodes,
        new.graph().schema == prev.graph().schema,
{
    lemma_committed_graph(new, prev, OpModel::EdgeInsert(e));
}

/// A committed delete removes exactly that id from its own namespace.
pub proof fn lemma_delete_removes<S: Storage>(new: Engine<S>, prev: Engine<S>, id: Seq<char>, node: bool)
    requires
        new.committed(prev, if node { OpModel::NodeDelete(id) } else { OpModel::EdgeDelete(id) }),
    ensures
        node ==> new.graph().nodes == prev.graph().nodes.remove(id) && new.graph().edges == prev.graph().edges,
        !node ==> new.graph().edges == prev.graph().edges.remove(id) && new.graph().nodes == prev.graph().nodes,
        new.graph().schema == prev.graph().schema,
{
    lemma_committed_graph(
        new,
        prev,
        if node {
            OpModel::NodeDelete(id)
        } else {
            OpModel::EdgeDelete(id)
        },
    );
}

/// A committed schema replaces the current one as a whole.
pub proof fn lemma_schema_replaced<S: Storage>(new: Engine<S>, prev: Engine<S>, s: SchemaModel)
    requires
        new.committed(prev, OpModel::SchemaApply(s)),
    ensures
        new.graph().schema == Some(s),
        new.graph().nodes == prev.graph().nodes,
        new.graph().edges == prev.graph().edges,
{
    lemma_committed_graph(new, prev, OpModel::SchemaApply(s));
}

/// Without a schema every label and every property value is accepted.
pub proof fn lemma_no_schema_permissive(label: Seq<char>, props: PropsModel)
    ensures
        label_known(None, label),
        props_conform(None, label, props),
{
}

/// `Null` conforms to every declared type.
pub proof fn lemma_null_conforms(t: PropertyType)
    ensures
        conforms(crate::value::ValueModel::Null, t),
{
}

/// After a cascading delete no live edge has the deleted node as an
/// endpoint.
pub proof fn lemma_cascade_leaves_no_dangling_edge(
    before: Map<Seq<char>, (EdgeModel, bool)>,
    after: Map<Seq<char>, (EdgeModel, bool)>,
    id: Seq<char>,
)
    requires
        after == before.remove_keys(incident_ids(before, id)),
    ensures
        forall|k: Seq<char>| #[trigger]
            after.contains_key(k) ==> after[k].0.from != id && after[k].0.to != id,
{
    assert forall|k: Seq<char>| #[trigger] after.contains_key(k) implies after[k].0.from != id
        && after[k].0.to != id by {
        assert(before.contains_key(k));
        assert(!incident_ids(before, id).contains(k));
    }
}

/// Every commit advances the sequence number by one, so the records one
/// engine writes carry consecutive numbers.
pub proof fn lemma_commit_sequence<S: Storage>(new: Engine<S>, prev: Engine<S>, op: OpModel)
    requires
        new.committed(prev, op),
        prev.next_seq() < u64::MAX,
    ensures
        new.records().last().local_seq == prev.next_seq(),
        new.next_seq() == prev.next_seq() + 1,
{
}

/// Reopening keeps the graph: an engine `e2` that [`Engine::open_with`]
/// gives on a store holding exactly the bytes of a working engine `e`
/// (after any series of writes, deletes included) has `e`'s records and
/// graph, and numbers its next record as `e` would.
pub proof fn lemma_reopen_same_graph<S: Storage, T: Storage>(e: Engine<S>, e2: Engine<T>)
    requires
        e.inv(),
        match scan(e.bytes(), HEADER_LEN as int, Seq::empty()) {
            Scan::Clean(rs) => e2.bytes() == e.bytes() && e2.records() == rs && e2.next_seq() == next_seq_after(rs),
            Scan::Torn(rs, cut) => e2.bytes() == e.bytes().subrange(0, cut) && e2.records() == rs
                && e2.next_seq() == next_seq_after(rs),
            Scan::Corrupt(_) => false,
        },
    ensures
        e2.records() == e.records(),
        e2.graph() == e.graph(),
        e2.bytes() == e.bytes(),
{
    e.lemma_log_reopens();
}

/// One step of a run of engine calls: the call committed `op`, or it was
/// refused and changed nothing.
pub open spec fn run_step<S: Storage>(prev: Engine<S>, next: Engine<S>, op: OpModel) -> bool {
    next.committed(prev, op) || next.unchanged(prev)
}

/// The records `added` were written by `prev`'s actor as fresh
/// mutations, numbered on from `first` one by one.
pub open spec fn numbered_from(added: Seq<MutationModel>, first: u64, actor: (Seq<char>, Seq<char>)) -> bool {
    forall|j: int|
        0 <= j < added.len() ==> (#[trigger] added[j]).local_seq == first + j && added[j].foreshadow
            && added[j].user_id == actor.0 && added[j].device_id == actor.1
}

/// Over a run of calls in which each one committed or was refused, the
/// log gains exactly the committed records, numbered on from the first
/// engine's sequence number one by one in call order; refused calls use
/// no number; and a wired controller log receives the same records.
pub proof fn lemma_commit_run<S: Storage>(es: Seq<Engine<S>>, ops: Seq<OpModel>)
    requires
        es.len() == ops.len() + 1,
        forall|i: int| 0 <= i < ops.len() ==> #[trigger] run_step(es[i], es[i + 1], ops[i]),
        es[0].next_seq() + ops.len() <= u64::MAX,
    ensures
        ({
            let first = es[0];
            let last = es[ops.len() as int];
            let k = last.records().len() - first.records().len();
            &&& 0 <= k <= ops.len()
            &&& last.records().subrange(0, first.records().len() as int) == first.records()
            &&& numbered_from(last.records().subrange(first.records().len() as int, last.records().len() as int), first.next_seq(), first.actor_ids())
            &&& last.next_seq() == first.next_seq() + k
            &&& last.actor_ids() == first.actor_ids()
            &&& (first.outbox() is None <==> last.outbox() is None)
            &&& first.outbox() matches Some(q0) ==> last.outbox() == Some(
                q0 + last.records().subrange(first.records().len() as int, last.records().len() as int),
            )
        }),
    decreases ops.len(),
{
    let n = ops.len() as int;
    if n > 0 {
        let es1 = es.drop_last();
        let ops1 = ops.drop_last();
        assert forall|i: int| 0 <= i < ops1.len() implies #[trigger] run_step(es1[i], es1[i + 1], ops1[i]) by {
            assert(run_step(es[i], es[i + 1], ops[i]));
        }
        lemma_commit_run(es1, ops1);
        let first = es[0];
        let mid = es[n - 1];
        let last = es[n];
        assert(es1[0] == first && es1[n - 1] == mid);
        assert(run_step(es[n - 1], es[n], ops[n - 1]));
        let a = first.records().len() as int;
        let added0 = mid.records().subrange(a, mid.records().len() as int);
        if last.committed(mid, ops[n - 1]) {
            let m = mid.commit_model(ops[n - 1]);
            let added = last.records().subrange(a, last.records().len() as int);
            assert(added =~= added0.push(m));
            assert(last.records().subrange(0, a) =~= mid.records().subrange(0, a));
            assert(numbered_from(added, first.next_seq(), first.actor_ids())) by {
                assert forall|j: int| 0 <= j < added.len() implies (#[trigger] added[j]).local_seq == first.next_seq() + j
                    && added[j].foreshadow && added[j].user_id == first.actor_ids().0 && added[j].device_id
                    == first.actor_ids().1 by {
                    if j < added0.len() {
                        assert(added[j] == added0[j]);
                    }
                }
            }
            match first.outbox() {
                Some(q0) => {
                    assert(q0 + added =~= (q0 + added0).push(m));
                },
                None => {},
            }
        } else {
            assert(last.records() == mid.records());
        }
    } else {
        assert(es[0].records().subrange(0, es[0].records().len() as int) =~= es[0].records());
        assert(es[0].records().subrange(es[0].records().len() as int, es[0].records().len() as int) =~= Seq::<MutationModel>::empty());
        match es[0].outbox() {
            Some(q0) => {
                assert(q0 + Seq::<MutationModel>::empty() =~= q0);
            },
            None => {},
        }
    }
}

/// A commit changes the graph by exactly its record.
pub proof fn lemma_committed_graph<S: Storage>(new: Engine<S>, prev: Engine<S>, op: OpModel)
    requires
        new.committed(prev, op),
    ensures
        new.graph() == apply_mutation(prev.graph(), prev.commit_model(op)),
{
    assert(new.records().drop_last() =~= prev.records());
}

/// The elements of a prefix one longer are those of the prefix and the
/// next element.
pub proof fn lemma_prefix_set_step<A>(s: Seq<A>, j: int)
    requires
        0 <= j < s.len(),
    ensures
        s.subrange(0, j + 1).to_set() == s.subrange(0, j).to_set().insert(s[j]),
{
    let a = s.subrange(0, j + 1);
    let b = s.subrange(0, j);
    assert forall|x: A| a.to_set().contains(x) implies b.to_set().insert(s[j]).contains(x) by {
        let t = choose|t: int| 0 <= t < a.len() && a[t] == x;
        if t < j {
            assert(b[t] == x);
        }
    }
    assert forall|x: A| b.to_set().insert(s[j]).contains(x) implies a.to_set().contains(x) by {
        if x == s[j] {
            assert(a[j] == x);
        } else {
            let t = choose|t: int| 0 <= t < b.len() && b[t] == x;
            assert(a[t] == x);
        }
    }
    assert(a.to_set() =~= b.to_set().insert(s[j]));
}

fn copy_edge_config(c: &EdgeConfig) -> (r: EdgeConfig)
    ensures
        r == *c,
{
    EdgeConfig {
        foreshadow_eager: c.foreshadow_eager,
        retention_confirmed_secs: c.retention_confirmed_secs,
        schema_cache: c.schema_cache.clone(),
        controller_retry_max_backoff_ms: c.controller_retry_max_backoff_ms,
        controller_retry_max_attempts: c.controller_retry_max_attempts,
    }
}

} // verus!
