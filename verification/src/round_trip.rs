//! What a value is after it went into the runtime and came back untouched.

use crate::bridge::{
    byte_at, byte_table, coerce_key, has_item, identifier_bytes, identifier_table, is_tagged,
    marshal, marshal_entries, marshal_items, text, twelve_bytes, unmarshal, unmarshal_document,
    unmarshal_entries, unmarshal_identifier, BridgeError, IDENTIFIER_TAG, TEXT_KEY, TYPE_KEY,
    VALUE_KEY,
};
use crate::display::{decimal128_text, regex_debug_text, timestamp_text};
use crate::script::{lemma_position, lookup, position, storable, ScriptModel, TableModel};
use crate::text::decimal;
use crate::value::{
    distinct_keys, distinct_throughout, key_position, lemma_key_position, lemma_upsert_distinct,
    upsert, DocumentModel, ValueModel,
};
use vstd::prelude::*;

verus! {

/// A document names an identifier when it has the entry by which a table is
/// taken for one: the type key with the identifier tag as its text.
pub open spec fn names_identifier(entries: DocumentModel) -> bool {
    exists|i: int|
        0 <= i < entries.len() && (#[trigger] entries[i]) == (
            TYPE_KEY@,
            ValueModel::String(IDENTIFIER_TAG@),
        )
}

/// The values that come back exactly as they went in: text, booleans,
/// 64-bit integers, floats, identifiers of twelve bytes, and documents made
/// of such values whose keys are distinct and which do not name an
/// identifier.
pub open spec fn preserved(value: ValueModel) -> bool
    decreases value,
{
    match value {
        ValueModel::String(_) => true,
        ValueModel::Boolean(_) => true,
        ValueModel::Int64(_) => true,
        ValueModel::Double(_) => true,
        ValueModel::ObjectId(id) => id.len() == 12,
        ValueModel::Document(entries) => {
            &&& distinct_keys(entries)
            &&& !names_identifier(entries)
            &&& forall|i: int| 0 <= i < entries.len() ==> preserved((#[trigger] entries[i]).1)
        },
        _ => false,
    }
}

/// The keys of an identifier table differ from each other.
proof fn lemma_key_texts()
    ensures
        TYPE_KEY@ != VALUE_KEY@,
        TYPE_KEY@ != TEXT_KEY@,
        VALUE_KEY@ != TEXT_KEY@,
{
    reveal_strlit("__type");
    reveal_strlit("__value");
    reveal_strlit("string_repr");
    assert(TYPE_KEY@.len() == 6);
    assert(VALUE_KEY@.len() == 7);
    assert(TEXT_KEY@.len() == 11);
}

/// The entry that counts for a key is the one at `i` when that entry has
/// the key and no later one has.
proof fn lemma_position_is(entries: TableModel, key: ScriptModel, i: int)
    requires
        0 <= i < entries.len(),
        entries[i].0 == key,
        forall|j: int| i < j < entries.len() ==> entries[j].0 != key,
    ensures
        position(entries, key, entries.len()) == Some(i),
{
    lemma_position(entries, key, entries.len());
}

/// A runtime sequence of bytes holds each byte at its position, and nothing
/// past its length.
proof fn lemma_byte_table(bytes: Seq<u8>, i: int)
    requires
        bytes.len() < 1000,
        1 <= i < 1000,
    ensures
        i <= bytes.len() ==> byte_at(byte_table(bytes), i) == Some(bytes[i - 1]),
        i > bytes.len() ==> !has_item(byte_table(bytes), i),
{
    let table = byte_table(bytes);
    let key = ScriptModel::Integer(i as i64);
    lemma_position(table, key, table.len());
    if i <= bytes.len() {
        assert(table[i - 1].0 == key);
    }
}

/// An identifier of twelve bytes comes back with the same twelve bytes.
pub proof fn lemma_identifier_round_trip(id: Seq<u8>)
    requires
        id.len() == 12,
    ensures
        unmarshal_identifier(ScriptModel::Table(identifier_table(id))) == Ok::<
            Seq<u8>,
            BridgeError,
        >(id),
        unmarshal(marshal(ValueModel::ObjectId(id))) == Ok::<ValueModel, BridgeError>(
            ValueModel::ObjectId(id),
        ),
{
    let table = identifier_table(id);
    lemma_key_texts();
    lemma_position_is(table, text(TYPE_KEY@), 0);
    lemma_position_is(table, text(VALUE_KEY@), 1);
    assert(is_tagged(table));
    let items = byte_table(id);
    assert(lookup(table, text(VALUE_KEY@)) == Some(ScriptModel::Table(items)));
    assert forall|i: int| 1 <= i <= 12 implies (#[trigger] byte_at(items, i)) == Some(
        id[i - 1],
    ) by {
        lemma_byte_table(id, i);
    }
    lemma_byte_table(id, 13);
    assert(twelve_bytes(items));
    assert(Seq::new(12, |i: int| byte_at(items, i + 1)->0) =~= id);
    assert(identifier_bytes(table) == Some(id));
}

/// A preserved value does not go in as the absent value, and goes in as
/// text only where it is text.
proof fn lemma_marshal_preserved(value: ValueModel)
    requires
        preserved(value),
    ensures
        !(marshal(value) is Nil),
        marshal(value) is String ==> value == ValueModel::String(marshal(value)->String_0),
{
}

/// The entries of a preserved document go in one for one.
proof fn lemma_marshal_entries(entries: DocumentModel, n: nat)
    requires
        n <= entries.len(),
        forall|i: int| 0 <= i < entries.len() ==> preserved((#[trigger] entries[i]).1),
    ensures
        marshal_entries(entries, n).len() == n,
        forall|i: int|
            0 <= i < n ==> (#[trigger] marshal_entries(entries, n)[i]) == (
                text(entries[i].0),
                marshal(entries[i].1),
            ),
    decreases n,
{
    if n > 0 {
        lemma_marshal_entries(entries, (n - 1) as nat);
        lemma_marshal_preserved(entries[n - 1].1);
    }
}

/// The table of a preserved document reads back as the document, entry by
/// entry.
proof fn lemma_unmarshal_entries(entries: DocumentModel, table: TableModel, n: nat)
    requires
        n <= entries.len(),
        distinct_keys(entries),
        table.len() == entries.len(),
        forall|i: int|
            0 <= i < entries.len() ==> (#[trigger] table[i]) == (
                text(entries[i].0),
                marshal(entries[i].1),
            ),
        forall|i: int|
            0 <= i < entries.len() ==> unmarshal(marshal((#[trigger] entries[i]).1)) == Ok::<
                ValueModel,
                BridgeError,
            >(entries[i].1),
    ensures
        unmarshal_entries(table, n) == Ok::<DocumentModel, BridgeError>(
            entries.subrange(0, n as int),
        ),
    decreases n,
{
    if n == 0 {
        assert(entries.subrange(0, 0) =~= Seq::empty());
    } else {
        lemma_unmarshal_entries(entries, table, (n - 1) as nat);
        let rest = entries.subrange(0, n - 1);
        let key = entries[n - 1].0;
        let value = entries[n - 1].1;
        assert(table[n - 1] == (text(key), marshal(value)));
        assert(coerce_key(table[n - 1].0) == Some(key));
        assert(unmarshal(marshal(entries[n - 1].1)) == Ok::<ValueModel, BridgeError>(value));
        lemma_key_position(rest, key, rest.len());
        assert(key_position(rest, key, rest.len()) is None) by {
            if key_position(rest, key, rest.len()) is Some {
                let k = key_position(rest, key, rest.len())->0;
                assert(rest[k].0 == key);
                assert(entries[k].0 != entries[n - 1].0);
            }
        }
        assert(upsert(rest, key, value) =~= entries.subrange(0, n as int));
    }
}

/// A preserved value that goes into the runtime and is read back without a
/// change in between comes back equal to itself.
pub proof fn lemma_round_trip(value: ValueModel)
    requires
        preserved(value),
    ensures
        unmarshal(marshal(value)) == Ok::<ValueModel, BridgeError>(value),
    decreases value,
{
    match value {
        ValueModel::ObjectId(id) => {
            lemma_identifier_round_trip(id);
        },
        ValueModel::Document(entries) => {
            let table = marshal_entries(entries, entries.len());
            lemma_marshal_entries(entries, entries.len());
            assert forall|i: int| 0 <= i < entries.len() implies unmarshal(
                marshal((#[trigger] entries[i]).1),
            ) == Ok::<ValueModel, BridgeError>(entries[i].1) by {
                lemma_round_trip(entries[i].1);
            }
            assert(!is_tagged(table)) by {
                lemma_position(table, text(TYPE_KEY@), table.len());
                if is_tagged(table) {
                    let k = position(table, text(TYPE_KEY@), table.len())->0;
                    assert(table[k] == (text(entries[k].0), marshal(entries[k].1)));
                    lemma_marshal_preserved(entries[k].1);
                    assert(entries[k] == (TYPE_KEY@, ValueModel::String(IDENTIFIER_TAG@)));
                }
            }
            lemma_unmarshal_entries(entries, table, entries.len());
            assert(entries.subrange(0, entries.len() as int) =~= entries);
        },
        _ => {},
    }
}

/// A preserved document that is bound for a script and read back after a
/// script that changed nothing comes back equal to itself.
pub proof fn lemma_document_round_trip(document: DocumentModel)
    requires
        preserved(ValueModel::Document(document)),
    ensures
        unmarshal_document(marshal(ValueModel::Document(document))) == Ok::<
            DocumentModel,
            BridgeError,
        >(document),
{
    lemma_round_trip(ValueModel::Document(document));
}

/// Whether a value goes into the runtime as the absent value.
pub open spec fn is_absent(value: ValueModel) -> bool {
    value is Null || value is Undefined || value is Other
}

/// Whether a value can be read back after it went in: every identifier in
/// it has twelve bytes, and no document in it goes in as a table that
/// carries the identifier tag.
pub open spec fn readable(value: ValueModel) -> bool
    decreases value,
{
    match value {
        ValueModel::ObjectId(id) => id.len() == 12,
        ValueModel::Document(entries) => {
            &&& !is_tagged(marshal_entries(entries, entries.len()))
            &&& forall|i: int| 0 <= i < entries.len() ==> readable((#[trigger] entries[i]).1)
        },
        ValueModel::Array(items) => forall|i: int|
            0 <= i < items.len() ==> readable(#[trigger] items[i]),
        _ => true,
    }
}

/// What a value is after it went into the runtime and was read back with
/// no change in between.
///
/// Text, booleans, 64-bit integers, floats and identifiers stay as they
/// are. A 32-bit integer and a timestamp come back as 64-bit integers. A
/// document keeps the entries whose values are not absent, each value
/// harvested. An array and a binary blob come back as documents keyed by
/// the positions of their items, counted from 1. Display-only values come
/// back as their text, and absent values as null.
pub open spec fn harvested(value: ValueModel) -> ValueModel
    decreases value, 0nat,
{
    match value {
        ValueModel::String(s) => ValueModel::String(s),
        ValueModel::Boolean(b) => ValueModel::Boolean(b),
        ValueModel::Int32(i) => ValueModel::Int64(i as i64),
        ValueModel::Int64(i) => ValueModel::Int64(i),
        ValueModel::Double(bits) => ValueModel::Double(bits),
        ValueModel::Binary(bytes) => ValueModel::Document(harvested_bytes(bytes, bytes.len())),
        ValueModel::DateTime(ms) => ValueModel::Int64(ms),
        ValueModel::ObjectId(id) => ValueModel::ObjectId(id),
        ValueModel::Document(entries) => ValueModel::Document(
            harvested_entries(entries, entries.len()),
        ),
        ValueModel::Array(items) => ValueModel::Document(harvested_items(items, items.len())),
        ValueModel::Null => ValueModel::Null,
        ValueModel::JavaScriptCode(code) => ValueModel::String(code),
        ValueModel::Symbol(name) => ValueModel::String(name),
        ValueModel::RegularExpression { pattern, options } => ValueModel::String(
            regex_debug_text(pattern, options),
        ),
        ValueModel::Decimal128(bytes) => ValueModel::String(decimal128_text(bytes)),
        ValueModel::Timestamp { time, increment } => ValueModel::String(
            timestamp_text(time, increment),
        ),
        ValueModel::MaxKey => ValueModel::String("MaxKey"@),
        ValueModel::MinKey => ValueModel::String("MinKey"@),
        ValueModel::Undefined => ValueModel::Null,
        ValueModel::Other => ValueModel::Null,
    }
}

/// The harvested form of the first `n` entries of a document.
pub open spec fn harvested_entries(entries: DocumentModel, n: nat) -> DocumentModel
    decreases entries, n,
{
    if n == 0 || n > entries.len() {
        Seq::empty()
    } else {
        let rest = harvested_entries(entries, (n - 1) as nat);
        if is_absent(entries[n - 1].1) {
            rest
        } else {
            upsert(rest, entries[n - 1].0, harvested(entries[n - 1].1))
        }
    }
}

/// The harvested form of the first `n` items of an array.
pub open spec fn harvested_items(items: Seq<ValueModel>, n: nat) -> DocumentModel
    decreases items, n,
{
    if n == 0 || n > items.len() {
        Seq::empty()
    } else {
        let rest = harvested_items(items, (n - 1) as nat);
        if is_absent(items[n - 1]) {
            rest
        } else {
            upsert(rest, decimal((n as i64) as int), harvested(items[n - 1]))
        }
    }
}

/// The harvested form of the first `n` bytes of a binary blob.
pub open spec fn harvested_bytes(bytes: Seq<u8>, n: nat) -> DocumentModel
    decreases n,
{
    if n == 0 || n > bytes.len() {
        Seq::empty()
    } else {
        upsert(
            harvested_bytes(bytes, (n - 1) as nat),
            decimal((n as i64) as int),
            ValueModel::Int64(bytes[n - 1] as i64),
        )
    }
}

/// Reading the first entries of a table does not depend on the entries
/// that follow them.
proof fn lemma_unmarshal_prefix(a: TableModel, b: TableModel, n: nat)
    requires
        n <= a.len(),
        n <= b.len(),
        forall|i: int| 0 <= i < n ==> a[i] == b[i],
    ensures
        unmarshal_entries(a, n) == unmarshal_entries(b, n),
    decreases n,
{
    if n > 0 {
        lemma_unmarshal_prefix(a, b, (n - 1) as nat);
    }
}

/// A binary blob reads back as the document of its bytes.
proof fn lemma_harvest_bytes(bytes: Seq<u8>, n: nat)
    requires
        n <= bytes.len(),
    ensures
        unmarshal_entries(byte_table(bytes), n) == Ok::<DocumentModel, BridgeError>(
            harvested_bytes(bytes, n),
        ),
    decreases n,
{
    if n > 0 {
        lemma_harvest_bytes(bytes, (n - 1) as nat);
        let item = ScriptModel::Integer(bytes[n - 1] as i64);
        assert(byte_table(bytes)[n - 1] == (ScriptModel::Integer(n as i64), item));
        assert(unmarshal(item) == Ok::<ValueModel, BridgeError>(
            ValueModel::Int64(bytes[n - 1] as i64),
        ));
    }
}

/// The entries of a document read back as their harvested form.
proof fn lemma_harvest_entries(entries: DocumentModel, n: nat)
    requires
        n <= entries.len(),
        forall|i: int|
            0 <= i < entries.len() ==> unmarshal(marshal((#[trigger] entries[i]).1)) == Ok::<
                ValueModel,
                BridgeError,
            >(harvested(entries[i].1)),
    ensures
        unmarshal_entries(marshal_entries(entries, n), marshal_entries(entries, n).len()) == Ok::<
            DocumentModel,
            BridgeError,
        >(harvested_entries(entries, n)),
    decreases n,
{
    if n > 0 {
        lemma_harvest_entries(entries, (n - 1) as nat);
        let before = marshal_entries(entries, (n - 1) as nat);
        let table = marshal_entries(entries, n);
        let value = entries[n - 1].1;
        if !is_absent(value) {
            assert(table == before.push((text(entries[n - 1].0), marshal(value))));
            lemma_unmarshal_prefix(table, before, before.len());
            assert(table[table.len() - 1] == (text(entries[n - 1].0), marshal(value)));
        }
    }
}

/// The items of an array read back as their harvested form.
proof fn lemma_harvest_items(items: Seq<ValueModel>, n: nat)
    requires
        n <= items.len(),
        forall|i: int|
            0 <= i < items.len() ==> unmarshal(marshal(#[trigger] items[i])) == Ok::<
                ValueModel,
                BridgeError,
            >(harvested(items[i])),
    ensures
        unmarshal_entries(marshal_items(items, n), marshal_items(items, n).len()) == Ok::<
            DocumentModel,
            BridgeError,
        >(harvested_items(items, n)),
        forall|i: int|
            0 <= i < marshal_items(items, n).len() ==> (#[trigger] marshal_items(items, n)[i]).0
                is Integer,
    decreases n,
{
    if n > 0 {
        lemma_harvest_items(items, (n - 1) as nat);
        let before = marshal_items(items, (n - 1) as nat);
        let table = marshal_items(items, n);
        let value = items[n - 1];
        if !is_absent(value) {
            assert(table == before.push((ScriptModel::Integer(n as i64), marshal(value))));
            lemma_unmarshal_prefix(table, before, before.len());
            assert(table[table.len() - 1] == (ScriptModel::Integer(n as i64), marshal(value)));
            assert forall|i: int| 0 <= i < table.len() implies (#[trigger] table[i]).0
                is Integer by {
                if i < before.len() {
                    assert(table[i] == before[i]);
                }
            }
        }
    }
}

/// A table whose keys are all integers carries no identifier tag.
proof fn lemma_integer_keys_untagged(table: TableModel)
    requires
        forall|i: int| 0 <= i < table.len() ==> (#[trigger] table[i]).0 is Integer,
    ensures
        !is_tagged(table),
{
    lemma_position(table, text(TYPE_KEY@), table.len());
}

/// Every readable value that goes into the runtime and is read back with no
/// change in between comes back as its harvested form.
pub proof fn lemma_harvest(value: ValueModel)
    requires
        readable(value),
    ensures
        unmarshal(marshal(value)) == Ok::<ValueModel, BridgeError>(harvested(value)),
    decreases value,
{
    match value {
        ValueModel::ObjectId(id) => {
            lemma_identifier_round_trip(id);
        },
        ValueModel::Binary(bytes) => {
            let table = byte_table(bytes);
            lemma_harvest_bytes(bytes, bytes.len());
            assert forall|i: int| 0 <= i < table.len() implies (#[trigger] table[i]).0
                is Integer by {}
            lemma_integer_keys_untagged(table);
        },
        ValueModel::Document(entries) => {
            assert forall|i: int| 0 <= i < entries.len() implies unmarshal(
                marshal((#[trigger] entries[i]).1),
            ) == Ok::<ValueModel, BridgeError>(harvested(entries[i].1)) by {
                lemma_harvest(entries[i].1);
            }
            lemma_harvest_entries(entries, entries.len());
        },
        ValueModel::Array(items) => {
            assert forall|i: int| 0 <= i < items.len() implies unmarshal(
                marshal(#[trigger] items[i]),
            ) == Ok::<ValueModel, BridgeError>(harvested(items[i])) by {
                lemma_harvest(items[i]);
            }
            lemma_harvest_items(items, items.len());
            lemma_integer_keys_untagged(marshal_items(items, items.len()));
        },
        _ => {},
    }
}

/// Whatever is read back from the runtime has no key twice in any of its
/// documents.
pub proof fn lemma_unmarshal_distinct(value: ScriptModel)
    ensures
        unmarshal(value) matches Ok(read) ==> distinct_throughout(read),
    decreases value, 0nat,
{
    match value {
        ScriptModel::Table(entries) => {
            if !is_tagged(entries) {
                lemma_unmarshal_entries_distinct(entries, entries.len());
            }
        },
        _ => {},
    }
}

/// The document read from the first `n` entries of a table has no key
/// twice, in itself or further down.
proof fn lemma_unmarshal_entries_distinct(entries: TableModel, n: nat)
    requires
        n <= entries.len(),
    ensures
        unmarshal_entries(entries, n) matches Ok(document) ==> distinct_keys(document)
            && forall|i: int|
            0 <= i < document.len() ==> distinct_throughout((#[trigger] document[i]).1),
    decreases entries, n,
{
    if n > 0 {
        lemma_unmarshal_entries_distinct(entries, (n - 1) as nat);
        lemma_unmarshal_distinct(entries[n - 1].1);
        if unmarshal_entries(entries, n) is Ok {
            let rest = unmarshal_entries(entries, (n - 1) as nat)->Ok_0;
            let key = coerce_key(entries[n - 1].0)->0;
            let read = unmarshal(entries[n - 1].1)->Ok_0;
            let document = upsert(rest, key, read);
            lemma_upsert_distinct(rest, key, read);
            lemma_key_position(rest, key, rest.len());
            assert forall|i: int| 0 <= i < document.len() implies distinct_throughout(
                (#[trigger] document[i]).1,
            ) by {
                if i < rest.len() && document[i] != (key, read) {
                    assert(document[i] == rest[i]);
                }
            }
        }
    }
}

/// Whether a table can hold the entry as it is modelled.
spec fn storable_entry(entry: (ScriptModel, ScriptModel)) -> bool {
    &&& entry.0 is String || entry.0 is Integer
    &&& !(entry.1 is Nil)
    &&& storable(entry.1)
}

/// What goes into the runtime is held there as it is modelled: the tables
/// that stand for documents, arrays, blobs and identifiers have text or
/// integers as keys and no entry with the absent value.
pub proof fn lemma_marshal_storable(value: ValueModel)
    ensures
        storable(marshal(value)),
    decreases value, 0nat,
{
    match value {
        ValueModel::Binary(bytes) => {
            lemma_bytes_storable(bytes);
        },
        ValueModel::ObjectId(id) => {
            let table = identifier_table(id);
            lemma_bytes_storable(id);
            assert(storable(text(IDENTIFIER_TAG@)));
            assert(storable(text(crate::text::hex_of_bytes(id))));
            assert forall|i: int| 0 <= i < table.len() implies storable_entry(
                #[trigger] table[i],
            ) by {}
        },
        ValueModel::Document(entries) => {
            let table = marshal_entries(entries, entries.len());
            lemma_marshal_entries_storable(entries, entries.len());
            assert forall|i: int| 0 <= i < table.len() implies storable_entry(
                #[trigger] table[i],
            ) by {}
        },
        ValueModel::Array(items) => {
            let table = marshal_items(items, items.len());
            lemma_marshal_items_storable(items, items.len());
            assert forall|i: int| 0 <= i < table.len() implies storable_entry(
                #[trigger] table[i],
            ) by {}
        },
        _ => {},
    }
}

/// A runtime sequence of bytes can be held by a table.
proof fn lemma_bytes_storable(bytes: Seq<u8>)
    ensures
        storable(ScriptModel::Table(byte_table(bytes))),
{
    let table = byte_table(bytes);
    assert forall|i: int| 0 <= i < table.len() implies storable_entry(#[trigger] table[i]) by {
        assert(storable(ScriptModel::Integer(bytes[i] as i64)));
    }
}

/// The entries that a document goes in as can all be held by a table.
proof fn lemma_marshal_entries_storable(entries: DocumentModel, n: nat)
    requires
        n <= entries.len(),
    ensures
        forall|i: int|
            0 <= i < marshal_entries(entries, n).len() ==> storable_entry(
                #[trigger] marshal_entries(entries, n)[i],
            ),
    decreases entries, n,
{
    if n > 0 {
        lemma_marshal_entries_storable(entries, (n - 1) as nat);
        lemma_marshal_storable(entries[n - 1].1);
        let before = marshal_entries(entries, (n - 1) as nat);
        let table = marshal_entries(entries, n);
        assert forall|i: int| 0 <= i < table.len() implies storable_entry(
            #[trigger] table[i],
        ) by {
            if i < before.len() {
                assert(table[i] == before[i]);
            }
        }
    }
}

/// The entries that an array goes in as can all be held by a table.
proof fn lemma_marshal_items_storable(items: Seq<ValueModel>, n: nat)
    requires
        n <= items.len(),
    ensures
        forall|i: int|
            0 <= i < marshal_items(items, n).len() ==> storable_entry(
                #[trigger] marshal_items(items, n)[i],
            ),
    decreases items, n,
{
    if n > 0 {
        lemma_marshal_items_storable(items, (n - 1) as nat);
        lemma_marshal_storable(items[n - 1]);
        let before = marshal_items(items, (n - 1) as nat);
        let table = marshal_items(items, n);
        assert forall|i: int| 0 <= i < table.len() implies storable_entry(
            #[trigger] table[i],
        ) by {
            if i < before.len() {
                assert(table[i] == before[i]);
            }
        }
    }
}

} // verus!
