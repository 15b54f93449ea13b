use bson_dissector::bridge::{BridgeError, ScriptError};
use bson_dissector::engine::{
    apply_script, choose_integer, read_value, step_outcome, LuaEngine,
};
use bson_dissector::value::{StructuredDocument, Value};

const ID: [u8; 12] = [0, 1, 2, 3, 4, 5, 250, 251, 252, 253, 254, 255];

/// Runs `script` on `document` in a fresh interpreter.
fn run(document: &StructuredDocument, script: &str) -> Result<StructuredDocument, ScriptError> {
    LuaEngine::new().unwrap().run(document.clone(), script)
}

fn entry(key: &str, value: Value) -> (String, Value) {
    (key.to_string(), value)
}

fn sorted(mut document: StructuredDocument) -> StructuredDocument {
    document.entries.sort_by(|a, b| a.0.cmp(&b.0));
    StructuredDocument {
        entries: document
            .entries
            .into_iter()
            .map(|(key, value)| match value {
                Value::Document(inner) => (key, Value::Document(sorted(inner))),
                other => (key, other),
            })
            .collect(),
    }
}

fn sample() -> StructuredDocument {
    StructuredDocument {
        entries: vec![
            entry("_id", Value::ObjectId(ID)),
            entry("active", Value::Boolean(true)),
            entry("count", Value::Int64(1 << 40)),
            entry("negative", Value::Int64(i64::MIN)),
            entry("ratio", Value::Double(0.1f64.to_bits())),
            entry("whole", Value::Double(3.0f64.to_bits())),
            entry("name", Value::String("Grace".to_string())),
            entry(
                "nested",
                Value::Document(StructuredDocument {
                    entries: vec![
                        entry("deep", Value::Document(StructuredDocument {
                            entries: vec![entry("ref", Value::ObjectId([9; 12]))],
                        })),
                        entry("flag", Value::Boolean(false)),
                    ],
                }),
            ),
        ],
    }
}

#[test]
fn empty_script_returns_the_document() {
    assert_eq!(run(&sample(), "").map(sorted), Ok(sorted(sample())));
}

#[test]
fn script_that_restores_identifier_keeps_its_bytes() {
    let script = "local id = doc._id\ndoc._id = nil\ndoc.copy = id\ndoc._id = doc.copy\ndoc.copy = nil";
    let out = run(&sample(), script).unwrap();
    assert_eq!(out.get("_id"), Some(&Value::ObjectId(ID)));
    assert_eq!(sorted(out), sorted(sample()));
}

#[test]
fn script_sees_identifier_text_and_bytes() {
    let script = "doc.text = doc._id.string_repr\ndoc.first = doc._id.__value[7]\ndoc.kind = doc._id.__type";
    let out = run(&sample(), script).unwrap();
    assert_eq!(out.get("text"), Some(&Value::String("000102030405fafbfcfdfeff".to_string())));
    assert_eq!(out.get("first"), Some(&Value::Int64(250)));
    assert_eq!(out.get("kind"), Some(&Value::String("ObjectId".to_string())));
}

#[test]
fn script_changes_come_back() {
    let script = "doc.name = doc.name .. '!'\ndoc.count = doc.count + 1\ndoc.active = nil\ndoc.nested.flag = true\ndoc.added = { x = 1.5 }";
    let out = run(&sample(), script).unwrap();
    assert_eq!(out.get("name"), Some(&Value::String("Grace!".to_string())));
    assert_eq!(out.get("count"), Some(&Value::Int64((1 << 40) + 1)));
    assert_eq!(out.get("active"), None);
    assert_eq!(
        out.get("added"),
        Some(&Value::Document(StructuredDocument { entries: vec![entry("x", Value::Double(1.5f64.to_bits()))] }))
    );
    match out.get("nested") {
        Some(Value::Document(nested)) => assert_eq!(nested.get("flag"), Some(&Value::Boolean(true))),
        other => panic!("nested is {:?}", other),
    }
}

#[test]
fn values_without_exact_return_come_back_as_the_model_says() {
    let document = StructuredDocument {
        entries: vec![
            entry("small", Value::Int32(-5)),
            entry("when", Value::DateTime(1_700_000_000_000)),
            entry("list", Value::Array(vec![Value::Int32(7), Value::Null, Value::Boolean(true)])),
            entry("blob", Value::Binary(vec![1, 2])),
            entry("gone", Value::Null),
            entry("max", Value::MaxKey),
        ],
    };
    let expected = StructuredDocument {
        entries: vec![
            entry("small", Value::Int64(-5)),
            entry("when", Value::Int64(1_700_000_000_000)),
            entry(
                "list",
                Value::Document(StructuredDocument {
                    entries: vec![entry("1", Value::Int64(7)), entry("3", Value::Boolean(true))],
                }),
            ),
            entry(
                "blob",
                Value::Document(StructuredDocument {
                    entries: vec![entry("1", Value::Int64(1)), entry("2", Value::Int64(2))],
                }),
            ),
            entry("max", Value::String("MaxKey".to_string())),
        ],
    };
    assert_eq!(run(&document, "").map(sorted), Ok(sorted(expected)));
}

#[test]
fn generated_identifiers_are_fresh() {
    let script = "doc.a = newObjectId()\ndoc.b = newObjectId()";
    let out = run(&StructuredDocument::new(), script).unwrap();
    let a = match out.get("a") {
        Some(Value::ObjectId(id)) => *id,
        other => panic!("a is {:?}", other),
    };
    let b = match out.get("b") {
        Some(Value::ObjectId(id)) => *id,
        other => panic!("b is {:?}", other),
    };
    assert_ne!(a, b);
    assert_ne!(a, ID);
}

#[test]
fn script_hashes_strings() {
    let out = run(&sample(), "doc.bucket = seaHash(doc.name)").unwrap();
    assert_eq!(
        out.get("bucket"),
        Some(&Value::String(format!("{:x}", seahash::hash(b"Grace"))))
    );
}

#[test]
fn script_can_damage_an_identifier() {
    let out = run(&sample(), "doc._id.__value[13] = 0");
    assert_eq!(out, Err(ScriptError::Bridge(BridgeError::InvalidIdentifier)));
    let out = run(&sample(), "doc._id.__value[12] = nil");
    assert_eq!(out, Err(ScriptError::Bridge(BridgeError::InvalidIdentifier)));
    let out = run(&sample(), "doc._id.__value[1] = 256");
    assert_eq!(out, Err(ScriptError::Bridge(BridgeError::InvalidIdentifier)));
    let out = run(&sample(), "doc._id.__value[1] = 255").unwrap();
    assert_eq!(
        out.get("_id"),
        Some(&Value::ObjectId([255, 1, 2, 3, 4, 5, 250, 251, 252, 253, 254, 255]))
    );
}

#[test]
fn script_failure_carries_the_interpreter_text() {
    match run(&sample(), "this is not lua") {
        Err(ScriptError::Execution(text)) => assert!(text.contains("syntax error"), "{}", text),
        other => panic!("unexpected {:?}", other),
    }
    match run(&sample(), "error('boom')") {
        Err(ScriptError::Execution(text)) => assert!(text.contains("boom"), "{}", text),
        other => panic!("unexpected {:?}", other),
    }
}

#[test]
fn script_that_replaces_the_document_by_a_scalar_fails() {
    assert_eq!(run(&sample(), "doc = 5"), Err(ScriptError::Bridge(BridgeError::NotADocument)));
    assert_eq!(run(&sample(), "doc = nil"), Err(ScriptError::Bridge(BridgeError::NotADocument)));
}

#[test]
fn engine_binds_runs_and_reads_back() {
    let mut engine = LuaEngine::new().unwrap();
    assert_eq!(engine.load_document(sample()), Ok(()));
    assert_eq!(engine.get_document().map(sorted), Ok(sorted(sample())));
    assert_eq!(engine.load_script("doc.extra = 1"), Ok(()));
    assert_eq!(engine.load_script("doc.extra = doc.extra + 1"), Ok(()));
    assert_eq!(engine.get_document().unwrap().get("extra"), Some(&Value::Int64(2)));
    assert!(matches!(engine.load_script("doc = = 1"), Err(ScriptError::Execution(_))));
    assert_eq!(engine.get_document().unwrap().get("extra"), Some(&Value::Int64(2)));
}

#[test]
fn engine_without_document_has_none_to_read() {
    let engine = LuaEngine::new().unwrap();
    assert_eq!(engine.get_document(), Err(ScriptError::Bridge(BridgeError::NotADocument)));
}

#[test]
fn script_keys_come_back_as_text() {
    let out = run(&StructuredDocument::new(), "doc[7] = 'seven'\ndoc[2.5] = true\ndoc['k'] = 1").unwrap();
    assert_eq!(out.get("7"), Some(&Value::String("seven".to_string())));
    assert_eq!(out.get("2.5"), Some(&Value::Boolean(true)));
    assert_eq!(out.get("k"), Some(&Value::Int64(1)));
    assert_eq!(out.len(), 3);
    assert_eq!(
        run(&StructuredDocument::new(), "doc[true] = 1"),
        Err(ScriptError::Bridge(BridgeError::UnsupportedKey))
    );
}

#[test]
fn script_functions_come_back_as_null() {
    let out = run(&StructuredDocument::new(), "doc.f = function() end\ndoc.n = 1").unwrap();
    assert_eq!(out.get("f"), Some(&Value::Null));
    assert_eq!(out.get("n"), Some(&Value::Int64(1)));
}

#[test]
fn apply_script_gives_one_outcome_for_each_document() {
    let mut engine = LuaEngine::new().unwrap();
    let documents = vec![
        StructuredDocument { entries: vec![entry("n", Value::Int64(1))] },
        StructuredDocument { entries: vec![entry("n", Value::String("x".to_string()))] },
        StructuredDocument { entries: vec![entry("n", Value::Int64(3))] },
    ];
    let outcomes = apply_script(&mut engine, "doc.n = doc.n * 2", documents);
    assert_eq!(outcomes.len(), 3);
    assert_eq!(
        outcomes[0],
        Ok(StructuredDocument { entries: vec![entry("n", Value::Int64(2))] })
    );
    assert!(matches!(outcomes[1], Err(ScriptError::Execution(_))));
    assert_eq!(
        outcomes[2],
        Ok(StructuredDocument { entries: vec![entry("n", Value::Int64(6))] })
    );
}

#[test]
fn table_that_holds_itself_is_too_deep() {
    assert_eq!(run(&sample(), "doc.me = doc"), Err(ScriptError::TooDeep));
    let nest = |levels: usize| {
        format!("local t = doc\nfor i = 1, {} do t.inner = {{}}\nt = t.inner end", levels)
    };
    assert_eq!(run(&StructuredDocument::new(), &nest(200)), Err(ScriptError::TooDeep));
    let deep = run(&StructuredDocument::new(), &nest(100)).unwrap();
    let mut levels = 0;
    let mut at = &deep;
    while let Some(Value::Document(inner)) = at.get("inner") {
        levels += 1;
        at = inner;
    }
    assert_eq!(levels, 100);
}

#[test]
fn script_failures_have_messages() {
    assert_eq!(
        ScriptError::Execution("boom".to_string()).message(),
        "script execution failed: boom"
    );
    assert_eq!(ScriptError::Bridge(BridgeError::InvalidIdentifier).message(), "Invalid ObjectId");
    assert_eq!(
        ScriptError::TooDeep.message(),
        "The script left a value behind that is nested too deeply"
    );
    assert_eq!(
        ScriptError::TooLarge.message(),
        "The script left a table behind that has too many entries"
    );
}

#[test]
fn large_integers_keep_every_bit() {
    let big = (1i64 << 60) + 12345;
    let document = StructuredDocument {
        entries: vec![
            entry("id", Value::Int64(big)),
            entry("low", Value::Int64(-big)),
            entry("max", Value::Int64(i64::MAX)),
            entry("min", Value::Int64(i64::MIN)),
            entry("edge", Value::Int64((1 << 53) + 1)),
            entry("nested", Value::Document(StructuredDocument {
                entries: vec![entry("id", Value::Int64(big + 2))],
            })),
        ],
    };
    assert_eq!(run(&document, "").map(sorted), Ok(sorted(document.clone())));
    let out = run(&document, "doc.next = doc.id + 1\ndoc.list = { doc.max, doc.edge }").unwrap();
    assert_eq!(out.get("next"), Some(&Value::Int64(big + 1)));
    assert_eq!(
        out.get("list"),
        Some(&Value::Document(StructuredDocument {
            entries: vec![
                entry("1", Value::Int64(i64::MAX)),
                entry("2", Value::Int64((1 << 53) + 1)),
            ],
        }))
    );
}

#[test]
fn interpreter_answer_decides_the_integer() {
    assert_eq!(choose_integer(Some("9007199254740993".to_string()), 9007199254740992), 9007199254740993);
    assert_eq!(choose_integer(Some("-12".to_string()), 5), -12);
    assert_eq!(choose_integer(Some("1e3".to_string()), 5), 5);
    assert_eq!(choose_integer(Some("".to_string()), 5), 5);
    assert_eq!(choose_integer(None, 5), 5);
}

#[test]
fn refused_step_is_a_failed_script_with_its_text() {
    assert_eq!(step_outcome(Ok(())), Ok(()));
    assert_eq!(
        step_outcome(Err("attempt to call a nil value".to_string())),
        Err(ScriptError::Execution("attempt to call a nil value".to_string()))
    );
}

#[test]
fn engine_hands_out_its_own_interpreter() {
    let mut engine = LuaEngine::new().unwrap();
    engine
        .interpreter()
        .context(|ctx| ctx.globals().set("marker", 41))
        .unwrap();
    assert_eq!(engine.load_document(StructuredDocument::new()), Ok(()));
    assert_eq!(engine.load_script("doc.seen = marker + 1"), Ok(()));
    assert_eq!(engine.get_document().unwrap().get("seen"), Some(&Value::Int64(42)));
}

#[test]
fn document_with_very_many_fields_is_read_back() {
    let fields = 400_000;
    let document = StructuredDocument {
        entries: (0..fields)
            .map(|i| entry(&format!("field{}", i), Value::String(format!("value{}", i))))
            .collect(),
    };
    let out = run(&document, "").unwrap();
    assert_eq!(out.len(), fields);
    assert_eq!(out.get("field0"), Some(&Value::String("value0".to_string())));
    assert_eq!(out.get("field399999"), Some(&Value::String("value399999".to_string())));
    assert_eq!(sorted(out), sorted(document));
}

#[test]
fn array_with_very_many_strings_is_read_back() {
    let out = run(
        &StructuredDocument::new(),
        "doc.list = {}\nfor i = 1, 700000 do doc.list[i] = 'item' .. i end",
    )
    .unwrap();
    match out.get("list") {
        Some(Value::Document(list)) => {
            assert_eq!(list.len(), 700_000);
            assert_eq!(list.entries[0], entry("1", Value::String("item1".to_string())));
            assert_eq!(
                list.entries[699_999],
                entry("700000", Value::String("item700000".to_string()))
            );
        }
        other => panic!("list is {:?}", other),
    }
}

#[test]
fn integers_stay_exact_when_a_script_replaces_globals() {
    let big = (1i64 << 60) + 7;
    let document = StructuredDocument { entries: vec![entry("id", Value::Int64(big))] };
    let script = "tostring = function() return '1' end\nrawget = nil\nmath = nil\nstring = nil\ndoc.next = doc.id + 1";
    let out = run(&document, script).unwrap();
    assert_eq!(out.get("id"), Some(&Value::Int64(big)));
    assert_eq!(out.get("next"), Some(&Value::Int64(big + 1)));
}

#[test]
fn values_handed_to_a_function_are_read_like_documents() {
    let engine = LuaEngine::new().unwrap();
    let read = engine.interpreter().context(|ctx| {
        let value: rlua::Value = ctx
            .load("return { name = 'x', id = newObjectId(), inner = { 1, 2 } }")
            .eval()
            .unwrap();
        read_value(ctx, value)
    });
    match read {
        Ok(Value::Document(document)) => {
            assert_eq!(document.len(), 3);
            assert_eq!(document.get("name"), Some(&Value::String("x".to_string())));
            assert!(matches!(document.get("id"), Some(Value::ObjectId(_))));
            assert_eq!(
                document.get("inner"),
                Some(&Value::Document(StructuredDocument {
                    entries: vec![entry("1", Value::Int64(1)), entry("2", Value::Int64(2))],
                }))
            );
        }
        other => panic!("read {:?}", other),
    }
    let scalar = engine.interpreter().context(|ctx| read_value(ctx, rlua::Value::Integer(5)));
    assert_eq!(scalar, Ok(Value::Int64(5)));
    let looped = engine.interpreter().context(|ctx| {
        let value: rlua::Value = ctx.load("local t = {} t.me = t return t").eval().unwrap();
        read_value(ctx, value)
    });
    assert_eq!(looped, Err(ScriptError::TooDeep));
    let bad = engine.interpreter().context(|ctx| {
        let value: rlua::Value = ctx.load("return { [true] = 1 }").eval().unwrap();
        read_value(ctx, value)
    });
    assert_eq!(bad, Err(ScriptError::Bridge(BridgeError::UnsupportedKey)));
}
