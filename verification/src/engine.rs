//! The embedded Lua interpreter that runs a script on one document.
//!
//! An engine owns one interpreter. A document is bound under the
//! document's global name, a script is run, and the document is read back
//! from the same name. An engine is never shared between threads.

use crate::bridge::{
    bind_document, from_script, harvest, unmarshal, unmarshal_document, BridgeError, ScriptError,
    ScriptOutcome, DOCUMENT_GLOBAL,
};
use crate::builtins::{new_object_id, sea_hash, NEW_OBJECT_ID, SEA_HASH};
use crate::round_trip::lemma_unmarshal_distinct;
use crate::bridge::marshal;
use crate::script::{is_immediate, nests_within, table_view, ScriptModel, ScriptValue};
use crate::text::{parse_signed, signed};
use crate::value::{
    distinct_throughout, DocumentModel, StructuredDocument, Value, ValueModel,
};
use rlua::prelude::{LuaContext, LuaError, LuaNumber, LuaTable, LuaTablePairs, LuaValue};
use rlua::Lua;
use vstd::prelude::*;

verus! {

/// The interpreter of the `rlua` crate, carried through opaquely.
#[verifier::external_type_specification]
#[verifier::external_body]
pub struct ExLua(Lua);

/// The handle of `rlua` to a running interpreter, carried through opaquely.
#[verifier::external_type_specification]
#[verifier::external_body]
pub struct ExLuaContext<'lua>(LuaContext<'lua>);

/// A value of `rlua`, carried through opaquely.
#[verifier::external_type_specification]
#[verifier::external_body]
pub struct ExLuaValue<'lua>(LuaValue<'lua>);

/// A table of `rlua`, carried through opaquely.
#[verifier::external_type_specification]
#[verifier::external_body]
pub struct ExLuaTable<'lua>(LuaTable<'lua>);

/// A walk of `rlua` over the entries of a table, carried through opaquely.
#[verifier::external_type_specification]
#[verifier::external_body]
#[verifier::reject_recursive_types(K)]
#[verifier::reject_recursive_types(V)]
pub struct ExLuaTablePairs<'lua, K, V>(LuaTablePairs<'lua, K, V>);

/// The error type of `rlua`, carried through opaquely.
#[verifier::external_type_specification]
#[verifier::external_body]
pub struct ExLuaError(LuaError);

/// The absent value of the interpreter.
///
/// Trusted: the body is the `Nil` variant of `rlua::Value`.
#[verifier::external_body]
fn lua_nil<'lua>() -> LuaValue<'lua> {
    LuaValue::Nil
}

/// A boolean of the interpreter.
///
/// Trusted: the body is the `Boolean` variant of `rlua::Value`.
#[verifier::external_body]
fn lua_boolean<'lua>(b: bool) -> LuaValue<'lua> {
    LuaValue::Boolean(b)
}

/// An integer of the interpreter.
///
/// Trusted: the body is the `Integer` variant of `rlua::Value`.
#[verifier::external_body]
fn lua_integer<'lua>(i: i64) -> LuaValue<'lua> {
    LuaValue::Integer(i)
}

/// A float of the interpreter, from its bit pattern.
///
/// Trusted: the body is the `Number` variant of `rlua::Value` around the
/// float with these bits.
#[verifier::external_body]
fn lua_number<'lua>(bits: u64) -> LuaValue<'lua> {
    LuaValue::Number(LuaNumber::from_bits(bits))
}

/// A string of the interpreter.
///
/// Trusted: the body is `Context::create_string` inside the `String`
/// variant of `rlua::Value`.
#[verifier::external_body]
fn lua_string<'lua>(ctx: LuaContext<'lua>, text: &str) -> Result<LuaValue<'lua>, LuaError> {
    Ok(LuaValue::String(ctx.create_string(text)?))
}

/// A new, empty table of the interpreter.
///
/// Trusted: the body is `Context::create_table`.
#[verifier::external_body]
fn lua_table<'lua>(ctx: LuaContext<'lua>) -> Result<LuaTable<'lua>, LuaError> {
    ctx.create_table()
}

/// Stores an entry in a table of the interpreter.
///
/// Trusted: the body is `Table::set`.
#[verifier::external_body]
fn lua_set<'lua>(table: &LuaTable<'lua>, key: LuaValue<'lua>, value: LuaValue<'lua>) -> Result<
    (),
    LuaError,
> {
    table.set(key, value)
}

/// A table of the interpreter as a value.
///
/// Trusted: the body is the `Table` variant of `rlua::Value`.
#[verifier::external_body]
fn lua_table_value<'lua>(table: LuaTable<'lua>) -> LuaValue<'lua> {
    LuaValue::Table(table)
}

/// Hands a value of the script model to the interpreter: each value as the
/// interpreter's value of the same kind, a table entry by entry in order.
/// The absent value, a boolean and a number always go in; a string or a
/// table goes in unless the interpreter refuses to store it.
fn to_lua<'lua>(ctx: LuaContext<'lua>, value: &ScriptValue) -> (r: Result<LuaValue<'lua>, LuaError>)
    ensures
        is_immediate(value@) ==> r is Ok,
    decreases value, 0nat,
{
    match value {
        ScriptValue::Nil => Ok(lua_nil()),
        ScriptValue::Other => Ok(lua_nil()),
        ScriptValue::Boolean(b) => Ok(lua_boolean(*b)),
        ScriptValue::Integer(i) => Ok(lua_integer(*i)),
        ScriptValue::Number(bits) => Ok(lua_number(*bits)),
        ScriptValue::String(s) => lua_string(ctx, s.as_str()),
        ScriptValue::Table(entries) => entries_to_lua(ctx, entries),
    }
}

/// Hands the entries of a table to the interpreter.
fn entries_to_lua<'lua>(ctx: LuaContext<'lua>, entries: &Vec<(ScriptValue, ScriptValue)>) -> Result<
    LuaValue<'lua>,
    LuaError,
>
    decreases entries, 1nat,
{
    let table = match lua_table(ctx) {
        Ok(table) => table,
        Err(e) => {
            return Err(e);
        },
    };
    let mut i: usize = 0;
    while i < entries.len()
        invariant
            i <= entries@.len(),
        decreases entries@.len() - i,
    {
        let key = match to_lua(ctx, &entries[i].0) {
            Ok(key) => key,
            Err(e) => {
                return Err(e);
            },
        };
        let item = match to_lua(ctx, &entries[i].1) {
            Ok(item) => item,
            Err(e) => {
                return Err(e);
            },
        };
        match lua_set(&table, key, item) {
            Ok(()) => {},
            Err(e) => {
                return Err(e);
            },
        }
        i = i + 1;
    }
    Ok(lua_table_value(table))
}

/// A value of the interpreter, taken apart one level deep.
enum LuaShallow<'lua> {
    Nil,
    Boolean(bool),
    Integer(i64),
    /// A float, as its bit pattern.
    Number(u64),
    String(String),
    Table(LuaTable<'lua>),
    /// A function, a coroutine or another value that carries no data.
    Other,
}

/// Why a value of the interpreter could not be taken out.
enum ReadError {
    /// The interpreter refused.
    Lua(LuaError),
    /// Tables are nested deeper than [`MAX_TABLE_DEPTH`], or a table holds
    /// itself.
    TooDeep,
    /// A table has more than [`MAX_TABLE_ENTRIES`] entries.
    TooLarge,
}

/// How deep tables may be nested in a value that is taken out of the
/// interpreter.
pub const MAX_TABLE_DEPTH: usize = 128;

/// How many entries a table may have in a value that is taken out of the
/// interpreter.
pub const MAX_TABLE_ENTRIES: usize = 0x7fff_ffff;

/// Takes a value of the interpreter apart, one level deep.
///
/// Trusted: the body tells the variants of `rlua::Value` apart and moves
/// their fields; a float gives its bits through `to_bits`, a string its
/// text through `String::to_str`. Nothing is claimed of what comes back.
#[verifier::external_body]
fn lua_shallow<'lua>(value: LuaValue<'lua>) -> Result<LuaShallow<'lua>, LuaError> {
    Ok(match value {
        LuaValue::Nil => LuaShallow::Nil,
        LuaValue::Boolean(b) => LuaShallow::Boolean(b),
        LuaValue::Integer(i) => LuaShallow::Integer(i),
        LuaValue::Number(n) => LuaShallow::Number(n.to_bits()),
        LuaValue::String(s) => LuaShallow::String(s.to_str()?.to_string()),
        LuaValue::Table(table) => LuaShallow::Table(table),
        _ => LuaShallow::Other,
    })
}

/// Starts a walk over the entries of a table of the interpreter.
///
/// Trusted: the body is `Table::pairs` on a handle to the same table.
/// Nothing is claimed of the walk.
#[verifier::external_body]
fn lua_pairs<'lua>(table: &LuaTable<'lua>) -> LuaTablePairs<'lua, LuaValue<'lua>, LuaValue<'lua>> {
    table.clone().pairs::<LuaValue, LuaValue>()
}

/// Takes the next entry of a walk over a table: a key with its value, an
/// error of the interpreter, or nothing where the walk is at its end. The
/// walk holds the table and the key that it stands at, and nothing of the
/// entries that it has given out.
///
/// Trusted: the body is `Iterator::next` on `rlua::TablePairs`. Nothing is
/// claimed of the entry that comes back.
#[verifier::external_body]
fn lua_next<'lua>(walk: &mut LuaTablePairs<'lua, LuaValue<'lua>, LuaValue<'lua>>) -> Option<
    Result<(LuaValue<'lua>, LuaValue<'lua>), LuaError>,
> {
    walk.next()
}

/// Asks the interpreter a question about an entry of a table: runs a chunk
/// with the table and a key as its arguments and gives back the text that
/// the chunk returns, if it returns one.
///
/// Trusted: the body is `Context::load` and `Chunk::call` with handles to
/// the same table and key. Nothing is claimed of the text.
#[verifier::external_body]
fn lua_ask<'lua>(ctx: LuaContext<'lua>, chunk: &str, table: &LuaTable<'lua>, key: &LuaValue<'lua>)
    -> Result<Option<String>, LuaError> {
    ctx.load(chunk).call((table.clone(), key.clone()))
}

/// A chunk that gives the text of what a table holds under a key, and
/// nothing where it holds nothing there; for an integer that is its
/// decimal text. Integers are taken out of the interpreter as text,
/// because on the way out as numbers they pass through a float and lose
/// their low bits beyond 53 bits. The chunk uses no global, so that no
/// script can change what it does.
pub const INTEGER_TEXT: &'static str =
    "local t, k = ...\nlocal v = t[k]\nif v then return v .. '' end\nreturn nil";

/// The text that the interpreter gives a float.
///
/// Trusted: the body is `Context::coerce_string` on the float with these
/// bits, and `String::to_str` on what comes back. Nothing is claimed of the
/// text.
#[verifier::external_body]
fn lua_number_text<'lua>(ctx: LuaContext<'lua>, bits: u64) -> Result<Option<String>, LuaError> {
    match ctx.coerce_string(LuaValue::Number(LuaNumber::from_bits(bits)))? {
        Some(text) => Ok(Some(text.to_str()?.to_string())),
        None => Ok(None),
    }
}

/// Takes a value of the interpreter out as a value of the script model:
/// each value as the model's value of the same kind, a table entry by
/// entry in the order in which the interpreter walks it, down to `depth`
/// levels of tables. Each entry is taken out as the walk gives it, so
/// that only the entry at hand is held in the interpreter at a time.
fn from_lua<'lua>(ctx: LuaContext<'lua>, value: LuaValue<'lua>, depth: usize) -> (r: Result<
    ScriptValue,
    ReadError,
>)
    ensures
        r matches Ok(taken) ==> nests_within(taken@, depth as nat),
    decreases depth, 0nat,
{
    let shallow = match lua_shallow(value) {
        Ok(shallow) => shallow,
        Err(e) => {
            return Err(ReadError::Lua(e));
        },
    };
    match shallow {
        LuaShallow::Nil => Ok(ScriptValue::Nil),
        LuaShallow::Boolean(b) => Ok(ScriptValue::Boolean(b)),
        LuaShallow::Integer(i) => Ok(ScriptValue::Integer(i)),
        LuaShallow::Number(bits) => Ok(ScriptValue::Number(bits)),
        LuaShallow::String(s) => Ok(ScriptValue::String(s)),
        LuaShallow::Other => Ok(ScriptValue::Other),
        LuaShallow::Table(table) => {
            if depth == 0 {
                return Err(ReadError::TooDeep);
            }
            let mut walk = lua_pairs(&table);
            let mut entries: Vec<(ScriptValue, ScriptValue)> = Vec::new();
            let mut left: usize = MAX_TABLE_ENTRIES;
            loop
                invariant
                    depth > 0,
                    forall|k: int|
                        0 <= k < entries@.len() ==> nests_within(
                            (#[trigger] entries@[k]).0@,
                            (depth - 1) as nat,
                        ) && nests_within(entries@[k].1@, (depth - 1) as nat),
                decreases left,
            {
                let (key, item) = match lua_next(&mut walk) {
                    None => {
                        break ;
                    },
                    Some(Ok(pair)) => pair,
                    Some(Err(e)) => {
                        return Err(ReadError::Lua(e));
                    },
                };
                if left == 0 {
                    return Err(ReadError::TooLarge);
                }
                left = left - 1;
                let item = match from_lua(ctx, item, depth - 1) {
                    Ok(ScriptValue::Integer(i)) => match exact_integer(ctx, &table, &key, i) {
                        Ok(exact) => ScriptValue::Integer(exact),
                        Err(e) => {
                            return Err(e);
                        },
                    },
                    Ok(item) => item,
                    Err(e) => {
                        return Err(e);
                    },
                };
                let key = match key_from_lua(ctx, key, depth - 1) {
                    Ok(key) => key,
                    Err(e) => {
                        return Err(e);
                    },
                };
                entries.push((key, item));
            }
            proof {
                let model = table_view(entries@);
                assert forall|k: int| 0 <= k < model.len() implies nests_within(
                    (#[trigger] model[k]).0,
                    (depth - 1) as nat,
                ) && nests_within(model[k].1, (depth - 1) as nat) by {
                    assert(model[k] == (entries@[k].0@, entries@[k].1@));
                }
            }
            Ok(ScriptValue::Table(entries))
        },
    }
}

/// The integer to take for one that came out of the interpreter as
/// `as_number`, given the answer of the interpreter when it was asked for
/// the integer's decimal text: the integer that the text spells, and
/// `as_number` where there is no text or the text spells no integer.
pub open spec fn integer_of(answer: Option<Seq<char>>, as_number: i64) -> i64 {
    match answer {
        Some(text) => match signed(text) {
            Some(exact) => exact,
            None => as_number,
        },
        None => as_number,
    }
}

/// The integer to take for one that came out of the interpreter as
/// `as_number`, given the interpreter's answer for its decimal text.
pub fn choose_integer(answer: Option<String>, as_number: i64) -> (r: i64)
    ensures
        r == integer_of(
            match answer {
                Some(text) => Some(text@),
                None => None,
            },
            as_number,
        ),
{
    match answer {
        Some(text) => match parse_signed(text.as_str()) {
            Some(exact) => exact,
            None => as_number,
        },
        None => as_number,
    }
}

/// The integer that a table holds under a key, read from the decimal text
/// that the interpreter gives it. Where the interpreter gives no such
/// text, the integer stays as it came out as a number. Only a refusal of
/// the interpreter makes the reading fail.
fn exact_integer<'lua>(
    ctx: LuaContext<'lua>,
    table: &LuaTable<'lua>,
    key: &LuaValue<'lua>,
    as_number: i64,
) -> (r: Result<i64, ReadError>)
    ensures
        r matches Err(e) ==> e is Lua,
{
    match lua_ask(ctx, INTEGER_TEXT, table, key) {
        Ok(answer) => Ok(choose_integer(answer, as_number)),
        Err(e) => Err(ReadError::Lua(e)),
    }
}

/// Takes a table key of the interpreter out as a value of the script
/// model. A fractional key comes out as the text that the interpreter
/// gives it; every other key comes out like any value.
fn key_from_lua<'lua>(ctx: LuaContext<'lua>, key: LuaValue<'lua>, depth: usize) -> (r: Result<
    ScriptValue,
    ReadError,
>)
    ensures
        r matches Ok(taken) ==> nests_within(taken@, depth as nat),
    decreases depth, 1nat,
{
    match from_lua(ctx, key, depth) {
        Ok(ScriptValue::Number(bits)) => match lua_number_text(ctx, bits) {
            Ok(Some(text)) => Ok(ScriptValue::String(text)),
            Ok(None) => Ok(ScriptValue::Number(bits)),
            Err(e) => Err(ReadError::Lua(e)),
        },
        other => other,
    }
}

/// Starts an interpreter and gives scripts the functions of the library
/// under the two names.
///
/// Trusted: the body is `Lua::new`, and in its context two calls of
/// `create_function` whose closures call [`new_object_id`] and
/// [`sea_hash`], stored as globals with `Table::set`. Nothing is claimed of
/// the interpreter that comes back.
#[verifier::external_body]
fn start_interpreter(fresh_name: &str, hash_name: &str) -> Result<Lua, LuaError> {
    let state = Lua::new();
    state.context(|ctx| {
        let fresh = ctx.create_function(|ctx, ()| to_lua(ctx, &new_object_id()))?;
        ctx.globals().set(fresh_name, fresh)?;
        let hash = ctx.create_function(|_, text: String| Ok(sea_hash(&text)))?;
        ctx.globals().set(hash_name, hash)
    })?;
    Ok(state)
}

/// Runs a script in an interpreter.
///
/// Trusted: the body loads the text with `Context::load` and runs it with
/// `Chunk::exec`. What the script does is not modelled, so nothing is
/// claimed but that an error comes back as the interpreter gives it.
#[verifier::external_body]
fn exec_script(state: &Lua, script: &str) -> Result<(), LuaError> {
    state.context(|ctx| ctx.load(script).exec())
}

/// Stores a value under a global name of an interpreter.
///
/// Trusted: the body hands the value over with [`to_lua`] and stores it
/// with `Table::set` on `Context::globals`.
#[verifier::external_body]
fn set_global(state: &Lua, name: &str, value: &ScriptValue) -> Result<(), LuaError> {
    state.context(|ctx| ctx.globals().set(name, to_lua(ctx, value)?))
}

/// Reads the value that stands under a global name of an interpreter.
///
/// Trusted: the body reads the value with `Table::get` on
/// `Context::globals` and, in the same context, takes it out with
/// [`from_lua`]. The value depends on what ran in the interpreter before,
/// so nothing is claimed of it.
#[verifier::external_body]
fn get_global(state: &Lua, name: &str, depth: usize) -> Result<ScriptValue, ReadError> {
    state.context(|ctx| match ctx.globals().get(name) {
        Ok(value) => from_lua(ctx, value, depth),
        Err(e) => Err(ReadError::Lua(e)),
    })
}

/// The text of an error of the interpreter.
///
/// Trusted: the body is `to_string` on the error, which formats it with
/// the `Display` implementation of `rlua::Error`.
#[verifier::external_body]
fn error_text(error: &LuaError) -> String {
    error.to_string()
}

/// A failed script with the interpreter's error text.
fn script_failed(text: String) -> (r: ScriptError)
    ensures
        r == ScriptError::Execution(text),
{
    ScriptError::Execution(text)
}

/// What comes of a step that the interpreter took or refused: nothing
/// where it took the step, and a failed script with the interpreter's
/// error text where it refused.
pub fn step_outcome(outcome: Result<(), String>) -> (r: Result<(), ScriptError>)
    ensures
        r == (match outcome {
            Ok(()) => Ok::<(), ScriptError>(()),
            Err(text) => Err::<(), ScriptError>(ScriptError::Execution(text)),
        }),
{
    match outcome {
        Ok(()) => Ok(()),
        Err(text) => Err(script_failed(text)),
    }
}

/// Something that an engine handed to its interpreter.
pub ghost enum Request {
    /// A table to store under a global name.
    Bind { name: Seq<char>, table: ScriptModel },
    /// The text of a script to run.
    Run { script: Seq<char> },
}

/// One interpreter, owned by the worker that made it, together with the
/// record of what was handed to it.
pub struct LuaEngine {
    state: Lua,
    handed: Ghost<Seq<Request>>,
}

/// Whether `outcome` is what reading back some value of the runtime gives:
/// a document read from that value, or the reason why the value is not
/// read as one. A failed script is always possible.
pub open spec fn read_back(outcome: Result<StructuredDocument, ScriptError>) -> bool {
    match outcome {
        Ok(document) => exists|binding: ScriptModel|
            #[trigger] unmarshal_document(binding) == Ok::<DocumentModel, BridgeError>(
                document@,
            ),
        Err(ScriptError::Bridge(e)) => exists|binding: ScriptModel|
            #[trigger] unmarshal_document(binding) == Err::<DocumentModel, BridgeError>(e),
        Err(ScriptError::Execution(_)) => true,
        Err(ScriptError::TooDeep) => true,
        Err(ScriptError::TooLarge) => true,
    }
}

/// The request that binds a document: the table that the document goes in
/// as, under the document's global name.
pub open spec fn binding_of(document: DocumentModel) -> Request {
    Request::Bind { name: DOCUMENT_GLOBAL@, table: marshal(ValueModel::Document(document)) }
}

/// What an engine has handed to its interpreter once it ran a script on a
/// document, where it had handed `before`; `taken` tells whether the
/// interpreter took the document, so that the script was handed over too.
pub open spec fn run_log(
    before: Seq<Request>,
    document: DocumentModel,
    script: Seq<char>,
    taken: bool,
) -> Seq<Request> {
    if taken {
        before.push(binding_of(document)).push(Request::Run { script })
    } else {
        before.push(binding_of(document))
    }
}

/// What an engine has handed to its interpreter once it ran a script on
/// the first `n` documents in order, where it had handed `before`;
/// `taken` tells for each document whether the interpreter took it.
pub open spec fn batch_log(
    before: Seq<Request>,
    documents: Seq<StructuredDocument>,
    script: Seq<char>,
    taken: Seq<bool>,
    n: nat,
) -> Seq<Request>
    decreases n,
{
    if n == 0 || n > documents.len() || n > taken.len() {
        before
    } else {
        run_log(
            batch_log(before, documents, script, taken, (n - 1) as nat),
            documents[n - 1]@,
            script,
            taken[n - 1],
        )
    }
}

/// What was handed over for the first documents does not depend on whether
/// the interpreter took the documents after them.
proof fn lemma_batch_log_prefix(
    before: Seq<Request>,
    documents: Seq<StructuredDocument>,
    script: Seq<char>,
    taken: Seq<bool>,
    longer: Seq<bool>,
    n: nat,
)
    requires
        n <= taken.len() <= longer.len(),
        n <= documents.len(),
        forall|k: int| 0 <= k < n ==> taken[k] == longer[k],
    ensures
        batch_log(before, documents, script, taken, n) == batch_log(
            before,
            documents,
            script,
            longer,
            n,
        ),
    decreases n,
{
    if n > 0 {
        lemma_batch_log_prefix(before, documents, script, taken, longer, (n - 1) as nat);
    }
}

impl LuaEngine {
    /// The interpreter of the engine.
    pub closed spec fn handle(&self) -> Lua {
        self.state
    }

    /// What the engine has handed to its interpreter since it was made:
    /// the documents that it bound and the scripts that it ran, in order.
    pub closed spec fn handed(&self) -> Seq<Request> {
        self.handed@
    }

    /// A fresh interpreter in which scripts find the functions of the
    /// library under their names. Nothing was handed to it yet.
    pub fn new() -> (r: Result<LuaEngine, ScriptError>)
        ensures
            match r {
                Ok(engine) => engine.handed() == Seq::<Request>::empty(),
                Err(e) => e is Execution,
            },
    {
        match start_interpreter(NEW_OBJECT_ID, SEA_HASH) {
            Ok(state) => Ok(LuaEngine { state, handed: Ghost(Seq::empty()) }),
            Err(e) => Err(script_failed(error_text(&e))),
        }
    }

    /// The interpreter, for whoever adds functions of its own to it.
    pub fn interpreter(&self) -> (r: &Lua)
        ensures
            *r == self.handle(),
    {
        &self.state
    }

    /// Runs a script: hands its text to the interpreter. A syntax or
    /// runtime error comes back as a failed script with the interpreter's
    /// error text.
    pub fn load_script(&mut self, script: &str) -> (r: Result<(), ScriptError>)
        ensures
            final(self).handle() == old(self).handle(),
            final(self).handed() == old(self).handed().push(Request::Run { script: script@ }),
            r matches Err(e) ==> e is Execution,
    {
        let outcome = match exec_script(&self.state, script) {
            Ok(()) => Ok(()),
            Err(e) => Err(error_text(&e)),
        };
        self.handed = Ghost(self.handed@.push(Request::Run { script: script@ }));
        step_outcome(outcome)
    }

    /// Binds a document under the document's global name: hands the table
    /// that the document goes in as to the interpreter. A refusal of the
    /// interpreter comes back as a failed script with its error text.
    pub fn load_document(&mut self, val: StructuredDocument) -> (r: Result<(), ScriptError>)
        ensures
            final(self).handle() == old(self).handle(),
            final(self).handed() == old(self).handed().push(binding_of(val@)),
            r matches Err(e) ==> e is Execution,
    {
        let table = bind_document(&val);
        let outcome = match set_global(&self.state, DOCUMENT_GLOBAL, &table) {
            Ok(()) => Ok(()),
            Err(e) => Err(error_text(&e)),
        };
        self.handed = Ghost(self.handed@.push(binding_of(val@)));
        step_outcome(outcome)
    }

    /// Reads back the document that stands under the document's global
    /// name. What is read has no key twice in any of its documents.
    pub fn get_document(&self) -> (r: Result<StructuredDocument, ScriptError>)
        ensures
            read_back(r),
            r matches Ok(document) ==> distinct_throughout(ValueModel::Document(document@)),
    {
        let outcome = match get_global(&self.state, DOCUMENT_GLOBAL, MAX_TABLE_DEPTH) {
            Ok(binding) => {
                proof {
                    lemma_unmarshal_distinct(binding@);
                }
                ScriptOutcome::Completed(binding)
            },
            Err(ReadError::Lua(e)) => ScriptOutcome::Failed(error_text(&e)),
            Err(ReadError::TooDeep) => {
                return Err(ScriptError::TooDeep);
            },
            Err(ReadError::TooLarge) => {
                return Err(ScriptError::TooLarge);
            },
        };
        harvest(outcome)
    }

    /// Runs a script on one document: binds the document, runs the script
    /// and reads the document back. The first step that fails decides the
    /// outcome. The document is always handed to the interpreter, the script
    /// where the interpreter took the document.
    pub fn run(&mut self, document: StructuredDocument, script: &str) -> (r: Result<
        StructuredDocument,
        ScriptError,
    >)
        ensures
            read_back(r),
            r matches Ok(document) ==> distinct_throughout(ValueModel::Document(document@)),
            final(self).handle() == old(self).handle(),
            exists|taken: bool|
                final(self).handed() == #[trigger] run_log(
                    old(self).handed(),
                    document@,
                    script@,
                    taken,
                ),
            r is Ok ==> final(self).handed() == run_log(old(self).handed(), document@, script@, true),
    {
        let ghost before = self.handed();
        let ghost model = document@;
        match self.load_document(document) {
            Ok(()) => {},
            Err(e) => {
                assert(self.handed() == run_log(before, model, script@, false));
                return Err(e);
            },
        }
        match self.load_script(script) {
            Ok(()) => {},
            Err(e) => {
                assert(self.handed() == run_log(before, model, script@, true));
                return Err(e);
            },
        }
        assert(self.handed() == run_log(before, model, script@, true));
        self.get_document()
    }
}

/// Whether `outcome` is what reading some value of the runtime gives: a
/// document value read from a value that nests tables no deeper than
/// [`MAX_TABLE_DEPTH`], or the reason why the value cannot be read.
pub open spec fn value_read(outcome: Result<Value, ScriptError>) -> bool {
    match outcome {
        Ok(value) => exists|taken: ScriptModel|
            nests_within(taken, MAX_TABLE_DEPTH as nat) && #[trigger] unmarshal(taken) == Ok::<
                ValueModel,
                BridgeError,
            >(value@),
        Err(ScriptError::Bridge(e)) => exists|taken: ScriptModel|
            nests_within(taken, MAX_TABLE_DEPTH as nat) && #[trigger] unmarshal(taken) == Err::<
                ValueModel,
                BridgeError,
            >(e),
        Err(_) => true,
    }
}

/// Reads a value of the interpreter as a document value, for a function
/// that a script calls with a value: the value is taken out of the
/// interpreter and read as any value that a script leaves behind. What is
/// read has no key twice in any of its documents.
pub fn read_value<'lua>(ctx: LuaContext<'lua>, value: LuaValue<'lua>) -> (r: Result<
    Value,
    ScriptError,
>)
    ensures
        value_read(r),
        r matches Ok(read) ==> distinct_throughout(read@),
{
    match from_lua(ctx, value, MAX_TABLE_DEPTH) {
        Ok(taken) => {
            proof {
                lemma_unmarshal_distinct(taken@);
            }
            match from_script(&taken) {
                Ok(read) => Ok(read),
                Err(e) => Err(ScriptError::Bridge(e)),
            }
        },
        Err(ReadError::Lua(e)) => Err(script_failed(error_text(&e))),
        Err(ReadError::TooDeep) => Err(ScriptError::TooDeep),
        Err(ReadError::TooLarge) => Err(ScriptError::TooLarge),
    }
}

/// Runs a script on each document of a batch, in order, in one
/// interpreter: one outcome for each document. A document whose script
/// fails does not touch the outcome of another. Every document is bound,
/// and the script is handed over for each document that the interpreter
/// took, which it did for every document with a good outcome.
pub fn apply_script(engine: &mut LuaEngine, script: &str, documents: Vec<StructuredDocument>) -> (outcomes:
    Vec<Result<StructuredDocument, ScriptError>>)
    ensures
        outcomes@.len() == documents@.len(),
        forall|k: int| 0 <= k < outcomes@.len() ==> read_back(#[trigger] outcomes@[k]),
        final(engine).handle() == old(engine).handle(),
        exists|taken: Seq<bool>|
            {
                &&& taken.len() == documents@.len()
                &&& final(engine).handed() == #[trigger] batch_log(
                    old(engine).handed(),
                    documents@,
                    script@,
                    taken,
                    documents@.len(),
                )
                &&& forall|k: int| 0 <= k < outcomes@.len() && outcomes@[k] is Ok ==> taken[k]
            },
{
    let ghost all = documents@;
    let ghost before = engine.handed();
    let ghost handle = engine.handle();
    let ghost mut taken: Seq<bool> = Seq::empty();
    let mut outcomes: Vec<Result<StructuredDocument, ScriptError>> = Vec::new();
    for document in it: documents
        invariant
            it.seq() == all,
            outcomes@.len() == it.index(),
            forall|k: int| 0 <= k < outcomes@.len() ==> read_back(#[trigger] outcomes@[k]),
            engine.handle() == handle,
            taken.len() == it.index(),
            engine.handed() == batch_log(before, all, script@, taken, it.index() as nat),
            forall|k: int| 0 <= k < outcomes@.len() && outcomes@[k] is Ok ==> taken[k],
    {
        let ghost middle = engine.handed();
        let ghost earlier = taken;
        let outcome = engine.run(document, script);
        proof {
            let n = (it.index() + 1) as nat;
            let both = run_log(middle, all[n - 1]@, script@, true);
            taken = earlier.push(engine.handed() == both);
            lemma_batch_log_prefix(before, all, script@, earlier, taken, (n - 1) as nat);
            assert(engine.handed() == run_log(middle, all[n - 1]@, script@, taken[n - 1]));
        }
        outcomes.push(outcome);
    }
    outcomes
}

} // verus!
