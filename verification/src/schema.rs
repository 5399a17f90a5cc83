//! Controller-pushed schemas. A schema enumerates the known node and edge
//! labels and, per label, the declared type of each property. A later
//! schema replaces an earlier one as a whole.

use vstd::prelude::*;
use crate::strmap::{StrMap, Duplicate, entries_map};
use crate::value::{Value, ValueModel};

verus! {

#[derive(Debug, Clone, Copy, PartialEq, Eq, Structural)]
pub enum TableKind {
    Node,
    Edge,
}

#[derive(Debug, Clone, Copy, PartialEq, Eq, Structural)]
pub enum PropertyType {
    Bool,
    I64,
    F64,
    String,
    Timestamp,
    List,
}

impl View for PropertyType {
    type V = PropertyType;

    open spec fn view(&self) -> PropertyType {
        *self
    }
}

impl Duplicate for PropertyType {
    fn duplicate(&self) -> (r: PropertyType) {
        *self
    }
}

/// A value conforms to a declared type when it is `Null` or of that type.
pub open spec fn conforms(v: ValueModel, t: PropertyType) -> bool {
    match v {
        ValueModel::Null => true,
        ValueModel::Bool(_) => t == PropertyType::Bool,
        ValueModel::I64(_) => t == PropertyType::I64,
        ValueModel::F64(_) => t == PropertyType::F64,
        ValueModel::Str(_) => t == PropertyType::String,
        ValueModel::Timestamp(_) => t == PropertyType::Timestamp,
        ValueModel::List(_) => t == PropertyType::List,
    }
}

/// Whether `v` may be stored under a property declared as `t`.
pub fn value_conforms(v: &Value, t: PropertyType) -> (r: bool)
    ensures
        r == conforms(v@, t),
{
    match v {
        Value::Null => true,
        Value::Bool(_) => t == PropertyType::Bool,
        Value::I64(_) => t == PropertyType::I64,
        Value::F64(_) => t == PropertyType::F64,
        Value::String(_) => t == PropertyType::String,
        Value::Timestamp(_) => t == PropertyType::Timestamp,
        Value::List(_) => t == PropertyType::List,
    }
}

#[derive(Debug)]
pub struct TableSchema {
    pub label: String,
    pub kind: TableKind,
    pub properties: StrMap<PropertyType>,
}

pub struct TableModel {
    pub label: Seq<char>,
    pub kind: TableKind,
    pub properties: Map<Seq<char>, PropertyType>,
}

impl View for TableSchema {
    type V = TableModel;

    open spec fn view(&self) -> TableModel {
        TableModel { label: self.label@, kind: self.kind, properties: self.properties@ }
    }
}

#[derive(Debug)]
pub struct Schema {
    pub version: u64,
    pub tables: StrMap<TableSchema>,
}

pub struct SchemaModel {
    pub version: u64,
    pub tables: Map<Seq<char>, TableModel>,
}

impl View for Schema {
    type V = SchemaModel;

    open spec fn view(&self) -> SchemaModel {
        SchemaModel { version: self.version, tables: self.tables@ }
    }
}

impl TableSchema {
    pub open spec fn wf(&self) -> bool {
        self.properties.wf()
    }

    pub fn new(label: &str, kind: TableKind) -> (r: TableSchema)
        ensures
            r.wf(),
            r@ == (TableModel { label: label@, kind, properties: Map::empty() }),
    {
        TableSchema { label: label.to_owned(), kind, properties: StrMap::new() }
    }

    /// The same table with `key` declared as `ty`.
    pub fn with_property(self, key: &str, ty: PropertyType) -> (r: TableSchema)
        requires
            self.wf(),
        ensures
            r.wf(),
            r@ == (TableModel { properties: self@.properties.insert(key@, ty), ..self@ }),
    {
        let mut t = self;
        t.properties.insert(key.to_owned(), ty);
        t
    }
}

impl TableSchema {
    /// A well-formed copy.
    pub fn copy(&self) -> (r: TableSchema)
        requires
            self.wf(),
        ensures
            r.wf(),
            r@ == self@,
    {
        TableSchema {
            label: self.label.clone(),
            kind: self.kind,
            properties: self.properties.duplicate(),
        }
    }
}

impl Duplicate for TableSchema {
    fn duplicate(&self) -> (r: TableSchema) {
        TableSchema {
            label: self.label.clone(),
            kind: self.kind,
            properties: self.properties.duplicate(),
        }
    }
}

impl Schema {
    /// Every table is well formed.
    pub open spec fn wf(&self) -> bool {
        &&& self.tables.wf()
        &&& forall|i: int| 0 <= i < self.tables.pairs().len() ==> (#[trigger] self.tables.pairs()[i]).1.wf()
    }

    pub fn new(version: u64) -> (r: Schema)
        ensures
            r.wf(),
            r@ == (SchemaModel { version, tables: Map::empty() }),
    {
        Schema { version, tables: StrMap::new() }
    }

    /// The same schema with `t` filed under its label (replacing any table
    /// of that label).
    pub fn with_table(self, t: TableSchema) -> (r: Schema)
        requires
            self.wf(),
            t.wf(),
        ensures
            r.wf(),
            r@ == (SchemaModel { version: self.version, tables: self@.tables.insert(t.label@, t@) }),
    {
        let mut s = self;
        let key = t.label.clone();
        let ghost old_tables = s.tables;
        let ghost tv = t;
        s.tables.insert(key, t);
        proof {
            assert forall|i: int| 0 <= i < s.tables.pairs().len() implies (#[trigger] s.tables.pairs()[i]).1.wf() by {
                if i < old_tables.pairs().len() && s.tables.pairs()[i] == old_tables.pairs()[i] {
                } else {
                    assert(s.tables.pairs()[i].1 == tv);
                }
            }
        }
        s
    }

    /// A well-formed copy.
    pub fn duplicate(&self) -> (r: Schema)
        requires
            self.wf(),
        ensures
            r.wf(),
            r@ == self@,
    {
        let mut tables: StrMap<TableSchema> = StrMap::new();
        let n = self.tables.len();
        let mut i: usize = 0;
        while i < n
            invariant
                self.wf(),
                n == self.tables.pairs().len(),
                i <= n,
                tables.wf(),
                forall|j: int| 0 <= j < tables.pairs().len() ==> (#[trigger] tables.pairs()[j]).1.wf(),
                tables@ == entries_map(self.tables.pairs().subrange(0, i as int)),
            decreases n - i,
        {
            let (k, t) = self.tables.entry(i);
            assert(self.tables.pairs()[i as int].1.wf());
            let c = t.copy();
            let ghost cv = c;
            let ghost old_tables = tables;
            tables.insert(k.clone(), c);
            proof {
                assert forall|j: int| 0 <= j < tables.pairs().len() implies (#[trigger] tables.pairs()[j]).1.wf() by {
                    if j < old_tables.pairs().len() && tables.pairs()[j] == old_tables.pairs()[j] {
                    } else {
                        assert(tables.pairs()[j].1 == cv);
                    }
                }
                let sub = self.tables.pairs().subrange(0, i + 1 as int);
                assert(sub.drop_last() =~= self.tables.pairs().subrange(0, i as int));
            }
            i = i + 1;
        }
        proof {
            assert(self.tables.pairs().subrange(0, n as int) =~= self.tables.pairs());
            self.tables.lemma_pairs_view();
        }
        Schema { version: self.version, tables }
    }

    /// True iff the schema knows `label`.
    pub fn has_label(&self, label: &str) -> (r: bool)
        requires
            self.wf(),
        ensures
            r == self@.tables.contains_key(label@),
    {
        self.tables.contains_key(label)
    }

    /// The table declared for `label`.
    pub fn table(&self, label: &str) -> (r: Option<&TableSchema>)
        requires
            self.wf(),
        ensures
            r is Some <==> self@.tables.contains_key(label@),
            r matches Some(t) ==> t@ == self@.tables[label@] && t.wf(),
    {
        let r = self.tables.get(label);
        r
    }
}

} // verus!
