//! The document value model.

use vstd::prelude::*;

verus! {

/// One value of a document.
#[derive(Debug, PartialEq)]
pub enum Value {
    String(String),
    Boolean(bool),
    Int32(i32),
    Int64(i64),
    /// A 64-bit float, held as its IEEE-754 bit pattern.
    Double(u64),
    /// The payload of a binary blob.
    Binary(Vec<u8>),
    /// Milliseconds since the Unix epoch, UTC.
    DateTime(i64),
    /// An opaque identifier: twelve raw bytes.
    ObjectId([u8; 12]),
    Document(StructuredDocument),
    Array(Vec<Value>),
    Null,
    JavaScriptCode(String),
    Symbol(String),
    RegularExpression { pattern: String, options: String },
    /// A 128-bit decimal, held as its sixteen stored bytes.
    Decimal128([u8; 16]),
    Timestamp { time: u32, increment: u32 },
    MaxKey,
    MinKey,
    Undefined,
    /// A value of the document format that has no form in a script.
    Other,
}

/// A document: keys with their values, in stored order.
#[derive(Debug, PartialEq)]
pub struct StructuredDocument {
    pub entries: Vec<(String, Value)>,
}

/// Mathematical model of a [`Value`].
pub ghost enum ValueModel {
    String(Seq<char>),
    Boolean(bool),
    Int32(i32),
    Int64(i64),
    Double(u64),
    Binary(Seq<u8>),
    DateTime(i64),
    ObjectId(Seq<u8>),
    Document(DocumentModel),
    Array(Seq<ValueModel>),
    Null,
    JavaScriptCode(Seq<char>),
    Symbol(Seq<char>),
    RegularExpression { pattern: Seq<char>, options: Seq<char> },
    Decimal128(Seq<u8>),
    Timestamp { time: u32, increment: u32 },
    MaxKey,
    MinKey,
    Undefined,
    Other,
}

/// Entries of a document, modelled: keys with their values, in stored order.
pub type DocumentModel = Seq<(Seq<char>, ValueModel)>;

impl View for Value {
    type V = ValueModel;

    open spec fn view(&self) -> ValueModel
        decreases self,
    {
        match self {
            Value::String(s) => ValueModel::String(s@),
            Value::Boolean(b) => ValueModel::Boolean(*b),
            Value::Int32(i) => ValueModel::Int32(*i),
            Value::Int64(i) => ValueModel::Int64(*i),
            Value::Double(bits) => ValueModel::Double(*bits),
            Value::Binary(bytes) => ValueModel::Binary(bytes@),
            Value::DateTime(ms) => ValueModel::DateTime(*ms),
            Value::ObjectId(id) => ValueModel::ObjectId(id@),
            Value::Document(d) => ValueModel::Document(d@),
            Value::Array(items) => ValueModel::Array(array_view(items@)),
            Value::Null => ValueModel::Null,
            Value::JavaScriptCode(code) => ValueModel::JavaScriptCode(code@),
            Value::Symbol(name) => ValueModel::Symbol(name@),
            Value::RegularExpression { pattern, options } => ValueModel::RegularExpression {
                pattern: pattern@,
                options: options@,
            },
            Value::Decimal128(bytes) => ValueModel::Decimal128(bytes@),
            Value::Timestamp { time, increment } => ValueModel::Timestamp {
                time: *time,
                increment: *increment,
            },
            Value::MaxKey => ValueModel::MaxKey,
            Value::MinKey => ValueModel::MinKey,
            Value::Undefined => ValueModel::Undefined,
            Value::Other => ValueModel::Other,
        }
    }
}

impl View for StructuredDocument {
    type V = DocumentModel;

    open spec fn view(&self) -> DocumentModel
        decreases self,
    {
        entries_view(self.entries@)
    }
}

/// Model of the items of an array held in a vector.
pub open spec fn array_view(items: Seq<Value>) -> Seq<ValueModel>
    decreases items,
{
    Seq::new(
        items.len(),
        |i: int| if 0 <= i < items.len() { items[i]@ } else { ValueModel::Null },
    )
}

/// Model of the entries of a document held in a vector.
pub open spec fn entries_view(entries: Seq<(String, Value)>) -> DocumentModel
    decreases entries,
{
    Seq::new(
        entries.len(),
        |i: int|
            if 0 <= i < entries.len() {
                (entries[i].0@, entries[i].1@)
            } else {
                (Seq::empty(), ValueModel::Null)
            },
    )
}

/// Index of the entry that counts for `key` among the first `n` entries:
/// the last one stored under that key.
pub open spec fn key_position(entries: DocumentModel, key: Seq<char>, n: nat) -> Option<int>
    decreases n,
{
    if n == 0 || n > entries.len() {
        None
    } else if entries[n - 1].0 == key {
        Some(n - 1)
    } else {
        key_position(entries, key, (n - 1) as nat)
    }
}

/// No key occurs twice.
pub open spec fn distinct_keys(entries: DocumentModel) -> bool {
    forall|i: int, j: int|
        0 <= i < j < entries.len() ==> (#[trigger] entries[i]).0 != (#[trigger] entries[j]).0
}

/// No document inside `value` has a key twice, at any depth.
pub open spec fn distinct_throughout(value: ValueModel) -> bool
    decreases value,
{
    match value {
        ValueModel::Document(entries) => {
            &&& distinct_keys(entries)
            &&& forall|i: int|
                0 <= i < entries.len() ==> distinct_throughout((#[trigger] entries[i]).1)
        },
        ValueModel::Array(items) => forall|i: int|
            0 <= i < items.len() ==> distinct_throughout(#[trigger] items[i]),
        _ => true,
    }
}

/// The entries after `key` was set to `value`: the entry under that key is
/// replaced where there is one, and a new entry is added at the end
/// otherwise.
pub open spec fn upsert(entries: DocumentModel, key: Seq<char>, value: ValueModel)
    -> DocumentModel {
    match key_position(entries, key, entries.len()) {
        Some(i) => entries.update(i, (key, value)),
        None => entries.push((key, value)),
    }
}

/// What `key_position` returns is an index of an entry with that key, and
/// no later entry among the first `n` has the key.
pub proof fn lemma_key_position(entries: DocumentModel, key: Seq<char>, n: nat)
    requires
        n <= entries.len(),
    ensures
        match key_position(entries, key, n) {
            Some(i) => 0 <= i < n && entries[i].0 == key && forall|j: int|
                i < j < n ==> entries[j].0 != key,
            None => forall|j: int| 0 <= j < n ==> entries[j].0 != key,
        },
    decreases n,
{
    if n > 0 && entries[n - 1].0 != key {
        lemma_key_position(entries, key, (n - 1) as nat);
    }
}

/// Setting a key keeps the keys distinct.
pub proof fn lemma_upsert_distinct(entries: DocumentModel, key: Seq<char>, value: ValueModel)
    requires
        distinct_keys(entries),
    ensures
        distinct_keys(upsert(entries, key, value)),
{
    lemma_key_position(entries, key, entries.len());
    let after = upsert(entries, key, value);
    assert forall|i: int, j: int| 0 <= i < j < after.len() implies (#[trigger] after[i]).0 != (
    #[trigger] after[j]).0 by {
        match key_position(entries, key, entries.len()) {
            Some(k) => {
                assert(entries[i].0 != entries[j].0);
            },
            None => {
                if j < entries.len() {
                    assert(entries[i].0 != entries[j].0);
                }
            },
        }
    }
}

impl StructuredDocument {
    /// A document is well formed when no key occurs twice.
    pub open spec fn wf(&self) -> bool {
        distinct_keys(self@)
    }

    /// The empty document.
    pub fn new() -> (doc: StructuredDocument)
        ensures
            doc@ == DocumentModel::empty(),
            doc.wf(),
    {
        let doc = StructuredDocument { entries: Vec::new() };
        assert(doc@ =~= DocumentModel::empty());
        doc
    }

    /// Number of entries.
    pub fn len(&self) -> (n: usize)
        ensures
            n == self@.len(),
    {
        self.entries.len()
    }

    /// Index of the entry stored under `key`.
    pub fn find(&self, key: &str) -> (r: Option<usize>)
        ensures
            match r {
                Some(i) => key_position(self@, key@, self@.len()) == Some(i as int),
                None => key_position(self@, key@, self@.len()) is None,
            },
    {
        let wanted = String::from_str(key);
        let mut found: Option<usize> = None;
        let mut i: usize = 0;
        while i < self.entries.len()
            invariant
                i <= self.entries@.len(),
                self@.len() == self.entries@.len(),
                wanted@ == key@,
                match found {
                    Some(k) => key_position(self@, key@, i as nat) == Some(k as int),
                    None => key_position(self@, key@, i as nat) is None,
                },
            decreases self.entries@.len() - i,
        {
            if self.entries[i].0 == wanted {
                found = Some(i);
            }
            i = i + 1;
        }
        found
    }

    /// The value stored under `key`, if there is one.
    pub fn get(&self, key: &str) -> (r: Option<&Value>)
        ensures
            match r {
                Some(v) => key_position(self@, key@, self@.len()) matches Some(i) && self@[i].1
                    == v@,
                None => key_position(self@, key@, self@.len()) is None,
            },
    {
        match self.find(key) {
            Some(i) => {
                proof {
                    lemma_key_position(self@, key@, self@.len());
                }
                Some(&self.entries[i].1)
            },
            None => None,
        }
    }

    /// Sets `key` to `value`: replaces the entry under that key where there
    /// is one, and adds an entry at the end otherwise.
    pub fn insert(&mut self, key: String, value: Value)
        ensures
            final(self)@ == upsert(old(self)@, key@, value@),
            old(self).wf() ==> final(self).wf(),
    {
        let found = self.find(key.as_str());
        proof {
            lemma_key_position(self@, key@, self@.len());
            if self.wf() {
                lemma_upsert_distinct(self@, key@, value@);
            }
        }
        let ghost k = key@;
        let ghost v = value@;
        match found {
            Some(i) => {
                self.entries.push((key, value));
                self.entries.swap_remove(i);
            },
            None => {
                self.entries.push((key, value));
            },
        }
        assert(self@ =~= upsert(old(self)@, k, v));
    }
}

impl Clone for Value {
    /// A copy with the same model.
    fn clone(&self) -> (copy: Value)
        ensures
            copy@ == self@,
        decreases self, 0nat,
    {
        match self {
            Value::String(s) => Value::String(s.clone()),
            Value::Boolean(b) => Value::Boolean(*b),
            Value::Int32(i) => Value::Int32(*i),
            Value::Int64(i) => Value::Int64(*i),
            Value::Double(bits) => Value::Double(*bits),
            Value::Binary(bytes) => Value::Binary(bytes.clone()),
            Value::DateTime(ms) => Value::DateTime(*ms),
            Value::ObjectId(id) => Value::ObjectId(*id),
            Value::Document(document) => Value::Document(document.clone()),
            Value::Array(items) => Value::Array(clone_items(items)),
            Value::Null => Value::Null,
            Value::JavaScriptCode(code) => Value::JavaScriptCode(code.clone()),
            Value::Symbol(name) => Value::Symbol(name.clone()),
            Value::RegularExpression { pattern, options } => Value::RegularExpression {
                pattern: pattern.clone(),
                options: options.clone(),
            },
            Value::Decimal128(bytes) => Value::Decimal128(*bytes),
            Value::Timestamp { time, increment } => Value::Timestamp {
                time: *time,
                increment: *increment,
            },
            Value::MaxKey => Value::MaxKey,
            Value::MinKey => Value::MinKey,
            Value::Undefined => Value::Undefined,
            Value::Other => Value::Other,
        }
    }
}

/// Copies of the items of an array, with the same models.
fn clone_items(items: &Vec<Value>) -> (copies: Vec<Value>)
    ensures
        array_view(copies@) == array_view(items@),
    decreases items, 1nat,
{
    let mut copies: Vec<Value> = Vec::new();
    let mut i: usize = 0;
    while i < items.len()
        invariant
            i <= items@.len(),
            copies@.len() == i,
            forall|k: int| 0 <= k < i ==> (#[trigger] copies@[k])@ == items@[k]@,
        decreases items@.len() - i,
    {
        copies.push(items[i].clone());
        i = i + 1;
    }
    assert(array_view(copies@) =~= array_view(items@));
    copies
}

impl Clone for StructuredDocument {
    /// A copy with the same model.
    fn clone(&self) -> (copy: StructuredDocument)
        ensures
            copy@ == self@,
        decreases self, 1nat,
    {
        let mut entries: Vec<(String, Value)> = Vec::new();
        let mut i: usize = 0;
        while i < self.entries.len()
            invariant
                i <= self.entries@.len(),
                entries@.len() == i,
                forall|k: int|
                    0 <= k < i ==> (#[trigger] entries@[k]).0@ == self.entries@[k].0@
                        && entries@[k].1@ == self.entries@[k].1@,
            decreases self.entries@.len() - i,
        {
            entries.push((self.entries[i].0.clone(), self.entries[i].1.clone()));
            i = i + 1;
        }
        assert(entries_view(entries@) =~= entries_view(self.entries@));
        StructuredDocument { entries }
    }
}

} // verus!
