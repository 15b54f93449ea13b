//! Carrying document values into the scripting runtime and back.
//!
//! A value goes in as the runtime's nearest native value. Only the opaque
//! identifier has no native form: it goes in as a table that carries a type
//! tag, the twelve raw bytes and their hexadecimal text, and a table with
//! that tag comes back as an identifier.

use crate::display::{
    decimal128_string, decimal128_text, regex_debug_text, regex_text, timestamp_string,
    timestamp_text,
};
use crate::key_index::KeyIndex;
use crate::script::{
    get_index, get_text, lookup, table_view, ScriptModel, ScriptValue, TableModel,
};
use crate::text::{decimal, decimal_string, hex_of, hex_of_bytes};
use crate::value::{
    array_view, entries_view, upsert, DocumentModel, StructuredDocument, Value, ValueModel,
};
use vstd::prelude::*;

verus! {

/// Name of the global under which a script finds the document.
pub const DOCUMENT_GLOBAL: &'static str = "doc";

/// Key of the type tag of a tagged table.
pub const TYPE_KEY: &'static str = "__type";

/// Key under which an identifier table carries its raw bytes.
pub const VALUE_KEY: &'static str = "__value";

/// Key under which an identifier table carries its hexadecimal text.
pub const TEXT_KEY: &'static str = "string_repr";

/// Type tag of an identifier table.
pub const IDENTIFIER_TAG: &'static str = "ObjectId";

/// A text value of the runtime.
pub open spec fn text(s: Seq<char>) -> ScriptModel {
    ScriptModel::String(s)
}

/// Bytes as a runtime sequence: the byte at position `i` under key `i + 1`.
pub open spec fn byte_table(bytes: Seq<u8>) -> TableModel {
    Seq::new(
        bytes.len(),
        |i: int| (ScriptModel::Integer((i + 1) as i64), ScriptModel::Integer(bytes[i] as i64)),
    )
}

/// The table that stands for an identifier: tag, raw bytes, text.
pub open spec fn identifier_table(id: Seq<u8>) -> TableModel {
    seq![
        (text(TYPE_KEY@), text(IDENTIFIER_TAG@)),
        (text(VALUE_KEY@), ScriptModel::Table(byte_table(id))),
        (text(TEXT_KEY@), text(hex_of_bytes(id))),
    ]
}

/// The runtime value that a document value goes in as.
pub open spec fn marshal(value: ValueModel) -> ScriptModel
    decreases value, 0nat,
{
    match value {
        ValueModel::String(s) => text(s),
        ValueModel::Boolean(b) => ScriptModel::Boolean(b),
        ValueModel::Int32(i) => ScriptModel::Integer(i as i64),
        ValueModel::Int64(i) => ScriptModel::Integer(i),
        ValueModel::Double(bits) => ScriptModel::Number(bits),
        ValueModel::Binary(bytes) => ScriptModel::Table(byte_table(bytes)),
        ValueModel::DateTime(ms) => ScriptModel::Integer(ms),
        ValueModel::ObjectId(id) => ScriptModel::Table(identifier_table(id)),
        ValueModel::Document(entries) => ScriptModel::Table(
            marshal_entries(entries, entries.len()),
        ),
        ValueModel::Array(items) => ScriptModel::Table(marshal_items(items, items.len())),
        ValueModel::Null => ScriptModel::Nil,
        ValueModel::JavaScriptCode(code) => text(code),
        ValueModel::Symbol(name) => text(name),
        ValueModel::RegularExpression { pattern, options } => text(
            regex_debug_text(pattern, options),
        ),
        ValueModel::Decimal128(bytes) => text(decimal128_text(bytes)),
        ValueModel::Timestamp { time, increment } => text(timestamp_text(time, increment)),
        ValueModel::MaxKey => text("MaxKey"@),
        ValueModel::MinKey => text("MinKey"@),
        ValueModel::Undefined => ScriptModel::Nil,
        ValueModel::Other => ScriptModel::Nil,
    }
}

/// The table entries that the first `n` entries of a document go in as: in
/// stored order, each key as text, and no entry for a value that goes in as
/// the absent value.
pub open spec fn marshal_entries(entries: DocumentModel, n: nat) -> TableModel
    decreases entries, n,
{
    if n == 0 || n > entries.len() {
        Seq::empty()
    } else {
        let rest = marshal_entries(entries, (n - 1) as nat);
        let value = marshal(entries[n - 1].1);
        if value is Nil {
            rest
        } else {
            rest.push((text(entries[n - 1].0), value))
        }
    }
}

/// The table entries that the first `n` items of an array go in as: the
/// item at position `i` under key `i + 1`, and no entry for an item that
/// goes in as the absent value.
pub open spec fn marshal_items(items: Seq<ValueModel>, n: nat) -> TableModel
    decreases items, n,
{
    if n == 0 || n > items.len() {
        Seq::empty()
    } else {
        let rest = marshal_items(items, (n - 1) as nat);
        let value = marshal(items[n - 1]);
        if value is Nil {
            rest
        } else {
            rest.push((ScriptModel::Integer(n as i64), value))
        }
    }
}

/// Bytes as the entries of a runtime sequence.
pub fn byte_entries(bytes: &[u8]) -> (entries: Vec<(ScriptValue, ScriptValue)>)
    ensures
        table_view(entries@) == byte_table(bytes@),
{
    let mut entries: Vec<(ScriptValue, ScriptValue)> = Vec::new();
    let mut i: usize = 0;
    while i < bytes.len()
        invariant
            i <= bytes@.len(),
            entries@.len() == i,
            forall|k: int|
                0 <= k < i ==> (#[trigger] entries@[k]).0@ == ScriptModel::Integer((k + 1) as i64)
                    && entries@[k].1@ == ScriptModel::Integer(bytes@[k] as i64),
        decreases bytes@.len() - i,
    {
        entries.push((ScriptValue::Integer((i + 1) as i64), ScriptValue::Integer(bytes[i] as i64)));
        i = i + 1;
    }
    assert(table_view(entries@) =~= byte_table(bytes@));
    entries
}

/// The table that stands for an identifier.
pub fn identifier_to_script(id: &[u8; 12]) -> (table: ScriptValue)
    ensures
        table@ == ScriptModel::Table(identifier_table(id@)),
{
    let mut entries: Vec<(ScriptValue, ScriptValue)> = Vec::new();
    entries.push(
        (
            ScriptValue::String(String::from_str(TYPE_KEY)),
            ScriptValue::String(String::from_str(IDENTIFIER_TAG)),
        ),
    );
    entries.push(
        (
            ScriptValue::String(String::from_str(VALUE_KEY)),
            ScriptValue::Table(byte_entries(id.as_slice())),
        ),
    );
    entries.push(
        (
            ScriptValue::String(String::from_str(TEXT_KEY)),
            ScriptValue::String(hex_of(id.as_slice())),
        ),
    );
    assert(table_view(entries@) =~= identifier_table(id@));
    ScriptValue::Table(entries)
}

/// The runtime value that a document value goes in as.
pub fn to_script(value: &Value) -> (r: ScriptValue)
    ensures
        r@ == marshal(value@),
    decreases value, 0nat,
{
    match value {
        Value::String(s) => ScriptValue::String(s.clone()),
        Value::Boolean(b) => ScriptValue::Boolean(*b),
        Value::Int32(i) => ScriptValue::Integer(*i as i64),
        Value::Int64(i) => ScriptValue::Integer(*i),
        Value::Double(bits) => ScriptValue::Number(*bits),
        Value::Binary(bytes) => ScriptValue::Table(byte_entries(bytes.as_slice())),
        Value::DateTime(ms) => ScriptValue::Integer(*ms),
        Value::ObjectId(id) => identifier_to_script(id),
        Value::Document(doc) => document_to_script(doc),
        Value::Array(items) => array_to_script(items),
        Value::Null => ScriptValue::Nil,
        Value::JavaScriptCode(code) => ScriptValue::String(code.clone()),
        Value::Symbol(name) => ScriptValue::String(name.clone()),
        Value::RegularExpression { pattern, options } => ScriptValue::String(
            regex_text(pattern.as_str(), options.as_str()),
        ),
        Value::Decimal128(bytes) => ScriptValue::String(decimal128_string(bytes)),
        Value::Timestamp { time, increment } => ScriptValue::String(
            timestamp_string(*time, *increment),
        ),
        Value::MaxKey => ScriptValue::String(String::from_str("MaxKey")),
        Value::MinKey => ScriptValue::String(String::from_str("MinKey")),
        Value::Undefined => ScriptValue::Nil,
        Value::Other => ScriptValue::Nil,
    }
}

/// Whether a runtime value is the absent value.
pub fn is_nil(value: &ScriptValue) -> (r: bool)
    ensures
        r == (value@ is Nil),
{
    match value {
        ScriptValue::Nil => true,
        _ => false,
    }
}

/// The table that an array goes in as.
pub fn array_to_script(items: &Vec<Value>) -> (table: ScriptValue)
    ensures
        table@ == ScriptModel::Table(marshal_items(array_view(items@), items@.len())),
    decreases items, 1nat,
{
    let mut entries: Vec<(ScriptValue, ScriptValue)> = Vec::new();
    let mut i: usize = 0;
    while i < items.len()
        invariant
            i <= items@.len(),
            table_view(entries@) == marshal_items(array_view(items@), i as nat),
        decreases items@.len() - i,
    {
        let item = to_script(&items[i]);
        if !is_nil(&item) {
            let ghost before = table_view(entries@);
            entries.push((ScriptValue::Integer((i + 1) as i64), item));
            assert(table_view(entries@) =~= before.push(
                (ScriptModel::Integer((i + 1) as i64), marshal(items@[i as int]@)),
            ));
        }
        i = i + 1;
    }
    ScriptValue::Table(entries)
}

/// The table that a document goes in as.
pub fn document_to_script(doc: &StructuredDocument) -> (table: ScriptValue)
    ensures
        table@ == ScriptModel::Table(marshal_entries(doc@, doc@.len())),
    decreases doc, 1nat,
{
    let mut entries: Vec<(ScriptValue, ScriptValue)> = Vec::new();
    let mut i: usize = 0;
    while i < doc.entries.len()
        invariant
            i <= doc.entries@.len(),
            doc@ == entries_view(doc.entries@),
            table_view(entries@) == marshal_entries(doc@, i as nat),
        decreases doc.entries@.len() - i,
    {
        let item = to_script(&doc.entries[i].1);
        if !is_nil(&item) {
            let ghost before = table_view(entries@);
            let key = ScriptValue::String(doc.entries[i].0.clone());
            entries.push((key, item));
            assert(table_view(entries@) =~= before.push(
                (text(doc@[i as int].0), marshal(doc@[i as int].1)),
            ));
        }
        i = i + 1;
    }
    ScriptValue::Table(entries)
}

/// Why a runtime value could not be read back.
#[derive(Clone, Copy, Debug, PartialEq, Eq, Structural)]
pub enum BridgeError {
    /// A table carries the identifier tag but not exactly twelve bytes.
    InvalidIdentifier,
    /// A table key is neither text nor an integer.
    UnsupportedKey,
    /// The value read back under the document's name is not a document.
    NotADocument,
}

impl BridgeError {
    /// The message for this failure.
    pub open spec fn text(self) -> Seq<char> {
        match self {
            BridgeError::InvalidIdentifier => "Invalid ObjectId"@,
            BridgeError::UnsupportedKey => "Table key is neither a string nor an integer"@,
            BridgeError::NotADocument => "The script did not leave a document behind"@,
        }
    }

    /// The message for this failure.
    pub fn message(&self) -> (text: String)
        ensures
            text@ == self.text(),
    {
        match self {
            BridgeError::InvalidIdentifier => String::from_str("Invalid ObjectId"),
            BridgeError::UnsupportedKey => String::from_str(
                "Table key is neither a string nor an integer",
            ),
            BridgeError::NotADocument => String::from_str(
                "The script did not leave a document behind",
            ),
        }
    }
}

/// Whether a table carries the identifier tag.
pub open spec fn is_tagged(entries: TableModel) -> bool {
    lookup(entries, text(TYPE_KEY@)) == Some(text(IDENTIFIER_TAG@))
}

/// The byte that a runtime sequence holds at position `i`, counted from 1.
pub open spec fn byte_at(items: TableModel, i: int) -> Option<u8> {
    match lookup(items, ScriptModel::Integer(i as i64)) {
        Some(ScriptModel::Integer(b)) => if 0 <= b <= 255 {
            Some(b as u8)
        } else {
            None
        },
        _ => None,
    }
}

/// Whether a runtime sequence has an item at position `i`, counted from 1.
pub open spec fn has_item(items: TableModel, i: int) -> bool {
    match lookup(items, ScriptModel::Integer(i as i64)) {
        Some(item) => !(item is Nil),
        None => false,
    }
}

/// Whether the runtime sequence `items` is exactly twelve bytes long.
pub open spec fn twelve_bytes(items: TableModel) -> bool {
    &&& forall|i: int| 1 <= i <= 12 ==> (#[trigger] byte_at(items, i)) is Some
    &&& !has_item(items, 13)
}

/// The twelve bytes that a tagged table carries, if it carries exactly
/// twelve.
pub open spec fn identifier_bytes(entries: TableModel) -> Option<Seq<u8>> {
    match lookup(entries, text(VALUE_KEY@)) {
        Some(ScriptModel::Table(items)) => if twelve_bytes(items) {
            Some(Seq::new(12, |i: int| byte_at(items, i + 1)->0))
        } else {
            None
        },
        _ => None,
    }
}

/// The document key that a table key is read as: text as it is, an integer
/// in decimal. Other keys have none.
pub open spec fn coerce_key(key: ScriptModel) -> Option<Seq<char>> {
    match key {
        ScriptModel::String(s) => Some(s),
        ScriptModel::Integer(i) => Some(decimal(i as int)),
        _ => None,
    }
}

/// The document value that a runtime value is read back as.
pub open spec fn unmarshal(value: ScriptModel) -> Result<ValueModel, BridgeError>
    decreases value, 0nat,
{
    match value {
        ScriptModel::Nil => Ok(ValueModel::Null),
        ScriptModel::Boolean(b) => Ok(ValueModel::Boolean(b)),
        ScriptModel::Integer(i) => Ok(ValueModel::Int64(i)),
        ScriptModel::Number(bits) => Ok(ValueModel::Double(bits)),
        ScriptModel::String(s) => Ok(ValueModel::String(s)),
        ScriptModel::Table(entries) => if is_tagged(entries) {
            match identifier_bytes(entries) {
                Some(id) => Ok(ValueModel::ObjectId(id)),
                None => Err(BridgeError::InvalidIdentifier),
            }
        } else {
            match unmarshal_entries(entries, entries.len()) {
                Ok(document) => Ok(ValueModel::Document(document)),
                Err(e) => Err(e),
            }
        },
        ScriptModel::Other => Ok(ValueModel::Null),
    }
}

/// The document that the first `n` entries of a table are read back as.
/// Entries are taken in order: the first key or value that cannot be read
/// decides the error, and a key that comes again replaces the earlier value.
pub open spec fn unmarshal_entries(entries: TableModel, n: nat) -> Result<
    DocumentModel,
    BridgeError,
>
    decreases entries, n,
{
    if n == 0 || n > entries.len() {
        Ok(Seq::empty())
    } else {
        match unmarshal_entries(entries, (n - 1) as nat) {
            Err(e) => Err(e),
            Ok(rest) => match coerce_key(entries[n - 1].0) {
                None => Err(BridgeError::UnsupportedKey),
                Some(key) => match unmarshal(entries[n - 1].1) {
                    Err(e) => Err(e),
                    Ok(value) => Ok(upsert(rest, key, value)),
                },
            },
        }
    }
}

/// The identifier that a runtime value stands for: the value has to be a
/// table that carries the identifier tag and exactly twelve bytes.
pub open spec fn unmarshal_identifier(value: ScriptModel) -> Result<Seq<u8>, BridgeError> {
    match value {
        ScriptModel::Table(entries) => if is_tagged(entries) {
            match identifier_bytes(entries) {
                Some(id) => Ok(id),
                None => Err(BridgeError::InvalidIdentifier),
            }
        } else {
            Err(BridgeError::InvalidIdentifier)
        },
        _ => Err(BridgeError::InvalidIdentifier),
    }
}

/// Whether a table carries the identifier tag.
pub fn has_identifier_tag(entries: &Vec<(ScriptValue, ScriptValue)>) -> (r: bool)
    ensures
        r == is_tagged(table_view(entries@)),
{
    match get_text(entries, TYPE_KEY) {
        Some(value) => match value {
            ScriptValue::String(tag) => {
                let wanted = String::from_str(IDENTIFIER_TAG);
                *tag == wanted
            },
            _ => false,
        },
        None => false,
    }
}

/// The byte that a runtime sequence holds at position `i`, counted from 1.
pub fn read_byte(items: &Vec<(ScriptValue, ScriptValue)>, i: i64) -> (r: Option<u8>)
    ensures
        r == byte_at(table_view(items@), i as int),
{
    match get_index(items, i) {
        Some(value) => match value {
            ScriptValue::Integer(b) => if 0 <= *b && *b <= 255 {
                Some(*b as u8)
            } else {
                None
            },
            _ => None,
        },
        None => None,
    }
}

/// The twelve bytes that a tagged table carries, if it carries exactly
/// twelve.
pub fn read_identifier_bytes(entries: &Vec<(ScriptValue, ScriptValue)>) -> (r: Option<[u8; 12]>)
    ensures
        match r {
            Some(id) => identifier_bytes(table_view(entries@)) == Some(id@),
            None => identifier_bytes(table_view(entries@)) is None,
        },
{
    let items = match get_text(entries, VALUE_KEY) {
        Some(value) => match value {
            ScriptValue::Table(items) => items,
            _ => { return None; },
        },
        None => { return None; },
    };
    let mut id: [u8; 12] = [0u8; 12];
    let mut i: usize = 0;
    while i < 12
        invariant
            i <= 12,
            lookup(table_view(entries@), text(VALUE_KEY@)) == Some(
                ScriptModel::Table(table_view(items@)),
            ),
            forall|k: int|
                1 <= k <= i ==> (#[trigger] byte_at(table_view(items@), k)) == Some(id@[k - 1]),
        decreases 12 - i,
    {
        match read_byte(items, (i + 1) as i64) {
            Some(b) => {
                id[i] = b;
            },
            None => {
                assert(!twelve_bytes(table_view(items@))) by {
                    assert(byte_at(table_view(items@), i + 1) is None);
                }
                return None;
            },
        }
        i = i + 1;
    }
    let extra = match get_index(items, 13) {
        Some(value) => !is_nil(value),
        None => false,
    };
    if extra {
        return None;
    }
    proof {
        let model = table_view(items@);
        assert(twelve_bytes(model));
        assert(id@ =~= Seq::new(12, |i: int| byte_at(model, i + 1)->0));
    }
    Some(id)
}

/// The identifier that a runtime value stands for.
pub fn identifier_from_script(value: &ScriptValue) -> (r: Result<[u8; 12], BridgeError>)
    ensures
        match r {
            Ok(id) => unmarshal_identifier(value@) == Ok::<Seq<u8>, BridgeError>(id@),
            Err(e) => unmarshal_identifier(value@) == Err::<Seq<u8>, BridgeError>(e),
        },
{
    match value {
        ScriptValue::Table(entries) => {
            if !has_identifier_tag(entries) {
                return Err(BridgeError::InvalidIdentifier);
            }
            match read_identifier_bytes(entries) {
                Some(id) => Ok(id),
                None => Err(BridgeError::InvalidIdentifier),
            }
        },
        _ => Err(BridgeError::InvalidIdentifier),
    }
}

/// The document key that a table key is read as.
pub fn key_from_script(key: &ScriptValue) -> (r: Option<String>)
    ensures
        match r {
            Some(name) => coerce_key(key@) == Some(name@),
            None => coerce_key(key@) is None,
        },
{
    match key {
        ScriptValue::String(s) => Some(s.clone()),
        ScriptValue::Integer(i) => Some(decimal_string(*i)),
        _ => None,
    }
}

/// The document value that a runtime value is read back as.
pub fn from_script(value: &ScriptValue) -> (r: Result<Value, BridgeError>)
    ensures
        match r {
            Ok(v) => unmarshal(value@) == Ok::<ValueModel, BridgeError>(v@),
            Err(e) => unmarshal(value@) == Err::<ValueModel, BridgeError>(e),
        },
    decreases value, 0nat,
{
    match value {
        ScriptValue::Nil => Ok(Value::Null),
        ScriptValue::Boolean(b) => Ok(Value::Boolean(*b)),
        ScriptValue::Integer(i) => Ok(Value::Int64(*i)),
        ScriptValue::Number(bits) => Ok(Value::Double(*bits)),
        ScriptValue::String(s) => Ok(Value::String(s.clone())),
        ScriptValue::Table(entries) => {
            if has_identifier_tag(entries) {
                match read_identifier_bytes(entries) {
                    Some(id) => Ok(Value::ObjectId(id)),
                    None => Err(BridgeError::InvalidIdentifier),
                }
            } else {
                match table_from_script(entries) {
                    Ok(document) => Ok(Value::Document(document)),
                    Err(e) => Err(e),
                }
            }
        },
        ScriptValue::Other => Ok(Value::Null),
    }
}

/// The document that the entries of an untagged table are read back as.
/// Keys are found through an index, so that a table of many entries is
/// read in time in proportion to their number.
pub fn table_from_script(entries: &Vec<(ScriptValue, ScriptValue)>) -> (r: Result<
    StructuredDocument,
    BridgeError,
>)
    ensures
        match r {
            Ok(document) => unmarshal_entries(table_view(entries@), entries@.len()) == Ok::<
                DocumentModel,
                BridgeError,
            >(document@) && document.wf(),
            Err(e) => unmarshal_entries(table_view(entries@), entries@.len()) == Err::<
                DocumentModel,
                BridgeError,
            >(e),
        },
    decreases entries, 1nat,
{
    let mut document = StructuredDocument::new();
    let mut index = KeyIndex::new(entries.len());
    let mut i: usize = 0;
    while i < entries.len()
        invariant
            i <= entries@.len(),
            document.wf(),
            index.covers(document@),
            unmarshal_entries(table_view(entries@), i as nat) == Ok::<DocumentModel, BridgeError>(
                document@,
            ),
        decreases entries@.len() - i,
    {
        let key = match key_from_script(&entries[i].0) {
            Some(key) => key,
            None => {
                proof {
                    lemma_unmarshal_error_stays(
                        table_view(entries@),
                        (i + 1) as nat,
                        entries@.len(),
                    );
                }
                return Err(BridgeError::UnsupportedKey);
            },
        };
        let value = match from_script(&entries[i].1) {
            Ok(value) => value,
            Err(e) => {
                proof {
                    lemma_unmarshal_error_stays(
                        table_view(entries@),
                        (i + 1) as nat,
                        entries@.len(),
                    );
                }
                return Err(e);
            },
        };
        index.insert(&mut document, key, value);
        i = i + 1;
    }
    Ok(document)
}

/// Once the first `n` entries fail to read, every longer prefix fails with
/// the same error.
pub proof fn lemma_unmarshal_error_stays(entries: TableModel, n: nat, m: nat)
    requires
        n <= m <= entries.len(),
        unmarshal_entries(entries, n) is Err,
    ensures
        unmarshal_entries(entries, m) == unmarshal_entries(entries, n),
    decreases m,
{
    if n < m {
        lemma_unmarshal_error_stays(entries, n, (m - 1) as nat);
    }
}

/// How the run of a script ended.
#[derive(Debug, PartialEq)]
pub enum ScriptOutcome {
    /// The script ran to its end; the value is what stands under the
    /// document's name afterwards.
    Completed(ScriptValue),
    /// The interpreter stopped on a syntax or runtime error, with its text.
    Failed(String),
}

/// Why a document did not come out of a script.
#[derive(Debug, PartialEq)]
pub enum ScriptError {
    /// Script execution failed, with the interpreter's error text.
    Execution(String),
    /// The script ran, but what it left behind cannot be read back.
    Bridge(BridgeError),
    /// The script ran, but what it left behind is nested too deeply to be
    /// taken out, or holds itself.
    TooDeep,
    /// The script ran, but what it left behind holds a table with more
    /// entries than can be taken out.
    TooLarge,
}

impl ScriptError {
    /// The message for this failure. A failed script gives the
    /// interpreter's error text.
    pub open spec fn text(self) -> Seq<char> {
        match self {
            ScriptError::Execution(text) => "script execution failed: "@ + text@,
            ScriptError::Bridge(e) => e.text(),
            ScriptError::TooDeep => "The script left a value behind that is nested too deeply"@,
            ScriptError::TooLarge => "The script left a table behind that has too many entries"@,
        }
    }

    /// The message for this failure.
    pub fn message(&self) -> (text: String)
        ensures
            text@ == self.text(),
    {
        match self {
            ScriptError::Execution(cause) => {
                let mut text = String::from_str("script execution failed: ");
                text.append(cause.as_str());
                text
            },
            ScriptError::Bridge(e) => e.message(),
            ScriptError::TooDeep => String::from_str(
                "The script left a value behind that is nested too deeply",
            ),
            ScriptError::TooLarge => String::from_str(
                "The script left a table behind that has too many entries",
            ),
        }
    }
}

/// The document that a runtime value is read back as, where it is one.
pub open spec fn unmarshal_document(value: ScriptModel) -> Result<DocumentModel, BridgeError> {
    match unmarshal(value) {
        Ok(ValueModel::Document(entries)) => Ok(entries),
        Ok(_) => Err(BridgeError::NotADocument),
        Err(e) => Err(e),
    }
}

/// The table that a script finds under the document's name.
pub fn bind_document(document: &StructuredDocument) -> (table: ScriptValue)
    ensures
        table@ == marshal(ValueModel::Document(document@)),
{
    document_to_script(document)
}

/// Reads back the document that stands under the document's name.
pub fn read_document(binding: &ScriptValue) -> (r: Result<StructuredDocument, BridgeError>)
    ensures
        match r {
            Ok(document) => unmarshal_document(binding@) == Ok::<DocumentModel, BridgeError>(
                document@,
            ),
            Err(e) => unmarshal_document(binding@) == Err::<DocumentModel, BridgeError>(e),
        },
{
    match from_script(binding) {
        Ok(Value::Document(document)) => Ok(document),
        Ok(_) => Err(BridgeError::NotADocument),
        Err(e) => Err(e),
    }
}

/// What comes out of a run: the document that the script left behind, or
/// the reason why there is none. A failed run gives its error text back
/// unchanged.
pub fn harvest(outcome: ScriptOutcome) -> (r: Result<StructuredDocument, ScriptError>)
    ensures
        match outcome {
            ScriptOutcome::Failed(message) => r matches Err(ScriptError::Execution(text))
                && text@ == message@,
            ScriptOutcome::Completed(binding) => match r {
                Ok(document) => unmarshal_document(binding@) == Ok::<
                    DocumentModel,
                    BridgeError,
                >(document@),
                Err(ScriptError::Bridge(e)) => unmarshal_document(binding@) == Err::<
                    DocumentModel,
                    BridgeError,
                >(e),
                Err(_) => false,
            },
        },
{
    match outcome {
        ScriptOutcome::Failed(message) => Err(ScriptError::Execution(message)),
        ScriptOutcome::Completed(binding) => match read_document(&binding) {
            Ok(document) => Ok(document),
            Err(e) => Err(ScriptError::Bridge(e)),
        },
    }
}

} // verus!
