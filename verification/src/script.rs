//! The value model of the embedded scripting runtime.
//!
//! A script sees numbers, text, booleans, the absent value and tables. A
//! table is held here as the list of its entries in the order in which they
//! were written or walked; where a key occurs twice the later entry counts,
//! as with assignment.

use vstd::prelude::*;

verus! {

/// One value of the scripting runtime.
#[derive(Debug, PartialEq)]
pub enum ScriptValue {
    /// The absent value.
    Nil,
    Boolean(bool),
    Integer(i64),
    /// A 64-bit float, held as its IEEE-754 bit pattern.
    Number(u64),
    String(String),
    Table(Vec<(ScriptValue, ScriptValue)>),
    /// A function, a coroutine or another value that carries no data.
    Other,
}

/// Mathematical model of a [`ScriptValue`].
pub ghost enum ScriptModel {
    Nil,
    Boolean(bool),
    Integer(i64),
    Number(u64),
    String(Seq<char>),
    Table(Seq<(ScriptModel, ScriptModel)>),
    Other,
}

/// Entries of a table, modelled.
pub type TableModel = Seq<(ScriptModel, ScriptModel)>;

impl View for ScriptValue {
    type V = ScriptModel;

    open spec fn view(&self) -> ScriptModel
        decreases self,
    {
        match self {
            ScriptValue::Nil => ScriptModel::Nil,
            ScriptValue::Boolean(b) => ScriptModel::Boolean(*b),
            ScriptValue::Integer(i) => ScriptModel::Integer(*i),
            ScriptValue::Number(bits) => ScriptModel::Number(*bits),
            ScriptValue::String(s) => ScriptModel::String(s@),
            ScriptValue::Table(entries) => ScriptModel::Table(table_view(entries@)),
            ScriptValue::Other => ScriptModel::Other,
        }
    }
}

/// Model of the entries of a table held in a vector.
pub open spec fn table_view(entries: Seq<(ScriptValue, ScriptValue)>) -> TableModel
    decreases entries,
{
    Seq::new(
        entries.len(),
        |i: int|
            if 0 <= i < entries.len() {
                (entries[i].0@, entries[i].1@)
            } else {
                (ScriptModel::Nil, ScriptModel::Nil)
            },
    )
}

/// Whether a table of the runtime can hold the value as it is modelled:
/// every key in it is text or an integer, and no entry holds the absent
/// value, which a table drops.
pub open spec fn storable(value: ScriptModel) -> bool
    decreases value,
{
    match value {
        ScriptModel::Table(entries) => forall|i: int|
            0 <= i < entries.len() ==> {
                &&& (#[trigger] entries[i]).0 is String || entries[i].0 is Integer
                &&& !(entries[i].1 is Nil)
                &&& storable(entries[i].1)
            },
        _ => true,
    }
}

/// Whether tables are nested at most `depth` levels deep in a value: a
/// value without a table nests no level, and a table nests one level more
/// than the deepest of its keys and values.
pub open spec fn nests_within(value: ScriptModel, depth: nat) -> bool
    decreases value,
{
    match value {
        ScriptModel::Table(entries) => depth > 0 && forall|i: int|
            0 <= i < entries.len() ==> nests_within((#[trigger] entries[i]).0, (depth - 1) as nat)
                && nests_within(entries[i].1, (depth - 1) as nat),
        _ => true,
    }
}

/// Whether the interpreter holds the value without storing anything for
/// it: the absent value, a boolean or a number.
pub open spec fn is_immediate(value: ScriptModel) -> bool {
    value is Nil || value is Other || value is Boolean || value is Integer || value is Number
}

/// Index of the entry that counts for `key` among the first `n` entries:
/// the last one written under that key.
pub open spec fn position(entries: TableModel, key: ScriptModel, n: nat) -> Option<int>
    decreases n,
{
    if n == 0 || n > entries.len() {
        None
    } else if entries[n - 1].0 == key {
        Some(n - 1)
    } else {
        position(entries, key, (n - 1) as nat)
    }
}

/// The value stored under `key`, if the table has that key.
pub open spec fn lookup(entries: TableModel, key: ScriptModel) -> Option<ScriptModel> {
    match position(entries, key, entries.len()) {
        Some(i) => Some(entries[i].1),
        None => None,
    }
}

/// What `position` returns is an index of an entry with that key, and no
/// later entry among the first `n` has the key.
pub proof fn lemma_position(entries: TableModel, key: ScriptModel, n: nat)
    requires
        n <= entries.len(),
    ensures
        match position(entries, key, n) {
            Some(i) => 0 <= i < n && entries[i].0 == key && forall|j: int|
                i < j < n ==> entries[j].0 != key,
            None => forall|j: int| 0 <= j < n ==> entries[j].0 != key,
        },
    decreases n,
{
    if n > 0 && entries[n - 1].0 != key {
        lemma_position(entries, key, (n - 1) as nat);
    }
}

/// Index of the entry that counts for the text key `name`.
pub fn find_text(entries: &Vec<(ScriptValue, ScriptValue)>, name: &str) -> (r: Option<usize>)
    ensures
        match r {
            Some(i) => i < entries@.len() && position(
                table_view(entries@),
                ScriptModel::String(name@),
                entries@.len(),
            ) == Some(i as int),
            None => position(table_view(entries@), ScriptModel::String(name@), entries@.len())
                is None,
        },
{
    let wanted = String::from_str(name);
    let mut found: Option<usize> = None;
    let mut i: usize = 0;
    while i < entries.len()
        invariant
            i <= entries@.len(),
            wanted@ == name@,
            match found {
                Some(k) => k < i && position(table_view(entries@), ScriptModel::String(name@), i as nat)
                    == Some(k as int),
                None => position(table_view(entries@), ScriptModel::String(name@), i as nat)
                    is None,
            },
        decreases entries@.len() - i,
    {
        match &entries[i].0 {
            ScriptValue::String(s) => {
                if *s == wanted {
                    found = Some(i);
                }
            },
            _ => {},
        }
        i = i + 1;
    }
    found
}

/// Index of the entry that counts for the integer key `index`.
pub fn find_index(entries: &Vec<(ScriptValue, ScriptValue)>, index: i64) -> (r: Option<usize>)
    ensures
        match r {
            Some(i) => i < entries@.len() && position(
                table_view(entries@),
                ScriptModel::Integer(index),
                entries@.len(),
            ) == Some(i as int),
            None => position(table_view(entries@), ScriptModel::Integer(index), entries@.len())
                is None,
        },
{
    let mut found: Option<usize> = None;
    let mut i: usize = 0;
    while i < entries.len()
        invariant
            i <= entries@.len(),
            match found {
                Some(k) => k < i && position(table_view(entries@), ScriptModel::Integer(index), i as nat)
                    == Some(k as int),
                None => position(table_view(entries@), ScriptModel::Integer(index), i as nat)
                    is None,
            },
        decreases entries@.len() - i,
    {
        match &entries[i].0 {
            ScriptValue::Integer(k) => {
                if *k == index {
                    found = Some(i);
                }
            },
            _ => {},
        }
        i = i + 1;
    }
    found
}

/// The value stored under the text key `name`, if the table has that key.
pub fn get_text<'a>(entries: &'a Vec<(ScriptValue, ScriptValue)>, name: &str) -> (r: Option<
    &'a ScriptValue,
>)
    ensures
        match r {
            Some(v) => lookup(table_view(entries@), ScriptModel::String(name@)) == Some(v@),
            None => lookup(table_view(entries@), ScriptModel::String(name@)) is None,
        },
{
    match find_text(entries, name) {
        Some(i) => Some(&entries[i].1),
        None => None,
    }
}

/// The value stored under the integer key `index`, if the table has that
/// key.
pub fn get_index<'a>(entries: &'a Vec<(ScriptValue, ScriptValue)>, index: i64) -> (r: Option<
    &'a ScriptValue,
>)
    ensures
        match r {
            Some(v) => lookup(table_view(entries@), ScriptModel::Integer(index)) == Some(v@),
            None => lookup(table_view(entries@), ScriptModel::Integer(index)) is None,
        },
{
    match find_index(entries, index) {
        Some(i) => Some(&entries[i].1),
        None => None,
    }
}

impl Clone for ScriptValue {
    /// A copy with the same model.
    fn clone(&self) -> (copy: ScriptValue)
        ensures
            copy@ == self@,
        decreases self, 0nat,
    {
        match self {
            ScriptValue::Nil => ScriptValue::Nil,
            ScriptValue::Boolean(b) => ScriptValue::Boolean(*b),
            ScriptValue::Integer(i) => ScriptValue::Integer(*i),
            ScriptValue::Number(bits) => ScriptValue::Number(*bits),
            ScriptValue::String(s) => ScriptValue::String(s.clone()),
            ScriptValue::Table(entries) => ScriptValue::Table(clone_entries(entries)),
            ScriptValue::Other => ScriptValue::Other,
        }
    }
}

/// Copies of the entries of a table, with the same models.
fn clone_entries(entries: &Vec<(ScriptValue, ScriptValue)>) -> (copies: Vec<
    (ScriptValue, ScriptValue),
>)
    ensures
        table_view(copies@) == table_view(entries@),
    decreases entries, 1nat,
{
    let mut copies: Vec<(ScriptValue, ScriptValue)> = Vec::new();
    let mut i: usize = 0;
    while i < entries.len()
        invariant
            i <= entries@.len(),
            copies@.len() == i,
            forall|k: int|
                0 <= k < i ==> (#[trigger] copies@[k]).0@ == entries@[k].0@ && copies@[k].1@
                    == entries@[k].1@,
        decreases entries@.len() - i,
    {
        copies.push((entries[i].0.clone(), entries[i].1.clone()));
        i = i + 1;
    }
    assert(table_view(copies@) =~= table_view(entries@));
    copies
}

} // verus!
