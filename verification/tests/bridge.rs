use bson_dissector::bridge::{
    bind_document, from_script, harvest, identifier_from_script, identifier_to_script,
    read_document, to_script, BridgeError, ScriptError, ScriptOutcome,
};
use bson_dissector::script::ScriptValue;
use bson_dissector::value::{StructuredDocument, Value};

const ID: [u8; 12] = [0x65, 0x4a, 0x00, 0xff, 0x10, 0x20, 0x30, 0x40, 0x50, 0x01, 0x02, 0x03];

fn text(s: &str) -> ScriptValue {
    ScriptValue::String(s.to_string())
}

fn entry(key: &str, value: Value) -> (String, Value) {
    (key.to_string(), value)
}

fn byte_sequence(bytes: &[u8]) -> ScriptValue {
    ScriptValue::Table(
        bytes
            .iter()
            .enumerate()
            .map(|(i, b)| (ScriptValue::Integer(i as i64 + 1), ScriptValue::Integer(*b as i64)))
            .collect(),
    )
}

fn identifier_table(bytes: &[u8]) -> ScriptValue {
    ScriptValue::Table(vec![
        (text("__type"), text("ObjectId")),
        (text("__value"), byte_sequence(bytes)),
        (text("string_repr"), text("654a00ff1020304050010203")),
    ])
}

fn round_trip_document() -> StructuredDocument {
    StructuredDocument {
        entries: vec![
            entry("_id", Value::ObjectId(ID)),
            entry("name", Value::String("Ada".to_string())),
            entry("active", Value::Boolean(true)),
            entry("visits", Value::Int64(-9_000_000_000)),
            entry("score", Value::Double(0.25f64.to_bits())),
            entry(
                "address",
                Value::Document(StructuredDocument {
                    entries: vec![
                        entry("city", Value::String("Paris".to_string())),
                        entry(
                            "geo",
                            Value::Document(StructuredDocument {
                                entries: vec![entry("lat", Value::Double(48.85f64.to_bits()))],
                            }),
                        ),
                        entry("owner", Value::ObjectId([7; 12])),
                    ],
                }),
            ),
            entry("empty", Value::Document(StructuredDocument { entries: vec![] })),
        ],
    }
}

#[test]
fn scalars_go_in_as_native_values() {
    assert_eq!(to_script(&Value::String("héllo".to_string())), text("héllo"));
    assert_eq!(to_script(&Value::Boolean(false)), ScriptValue::Boolean(false));
    assert_eq!(to_script(&Value::Int32(-7)), ScriptValue::Integer(-7));
    assert_eq!(to_script(&Value::Int32(i32::MIN)), ScriptValue::Integer(-2147483648));
    assert_eq!(to_script(&Value::Int64(i64::MAX)), ScriptValue::Integer(i64::MAX));
    assert_eq!(to_script(&Value::Double(1.5f64.to_bits())), ScriptValue::Number(1.5f64.to_bits()));
    assert_eq!(to_script(&Value::DateTime(1_700_000_000_123)), ScriptValue::Integer(1_700_000_000_123));
    assert_eq!(to_script(&Value::Null), ScriptValue::Nil);
    assert_eq!(to_script(&Value::Undefined), ScriptValue::Nil);
    assert_eq!(to_script(&Value::Other), ScriptValue::Nil);
}

#[test]
fn binary_goes_in_as_byte_sequence() {
    assert_eq!(
        to_script(&Value::Binary(vec![0, 255, 16])),
        ScriptValue::Table(vec![
            (ScriptValue::Integer(1), ScriptValue::Integer(0)),
            (ScriptValue::Integer(2), ScriptValue::Integer(255)),
            (ScriptValue::Integer(3), ScriptValue::Integer(16)),
        ])
    );
    assert_eq!(to_script(&Value::Binary(vec![])), ScriptValue::Table(vec![]));
}

#[test]
fn identifier_goes_in_as_tagged_table() {
    assert_eq!(to_script(&Value::ObjectId(ID)), identifier_table(&ID));
    assert_eq!(identifier_to_script(&ID), identifier_table(&ID));
}

#[test]
fn identifier_text_matches_bson() {
    let expected = bson::oid::ObjectId::from_bytes(ID).to_hex();
    match identifier_to_script(&ID) {
        ScriptValue::Table(entries) => assert_eq!(entries[2].1, text(&expected)),
        _ => panic!("an identifier goes in as a table"),
    }
}

#[test]
fn array_goes_in_as_sequence_from_one() {
    let array = Value::Array(vec![Value::Int32(10), Value::String("b".to_string())]);
    assert_eq!(
        to_script(&array),
        ScriptValue::Table(vec![
            (ScriptValue::Integer(1), ScriptValue::Integer(10)),
            (ScriptValue::Integer(2), text("b")),
        ])
    );
}

#[test]
fn absent_values_leave_no_entry() {
    let array = Value::Array(vec![Value::Int64(1), Value::Null, Value::Int64(3)]);
    assert_eq!(
        to_script(&array),
        ScriptValue::Table(vec![
            (ScriptValue::Integer(1), ScriptValue::Integer(1)),
            (ScriptValue::Integer(3), ScriptValue::Integer(3)),
        ])
    );
    let document = StructuredDocument {
        entries: vec![entry("a", Value::Null), entry("b", Value::Boolean(true))],
    };
    assert_eq!(
        bind_document(&document),
        ScriptValue::Table(vec![(text("b"), ScriptValue::Boolean(true))])
    );
}

#[test]
fn display_only_values_go_in_as_text() {
    assert_eq!(to_script(&Value::JavaScriptCode("f()".to_string())), text("f()"));
    assert_eq!(to_script(&Value::Symbol("sym".to_string())), text("sym"));
    assert_eq!(to_script(&Value::MaxKey), text("MaxKey"));
    assert_eq!(to_script(&Value::MinKey), text("MinKey"));
}

#[test]
fn regular_expression_renders_as_bson_debug() {
    let pattern = "^a\"b\\d+\n$";
    let expected = format!(
        "{:?}",
        bson::Regex { pattern: pattern.to_string(), options: "im".to_string() }
    );
    let value = Value::RegularExpression { pattern: pattern.to_string(), options: "im".to_string() };
    assert_eq!(to_script(&value), text(&expected));
    assert_ne!(to_script(&value), text(pattern));
    assert_eq!(
        to_script(&Value::RegularExpression { pattern: "a+".to_string(), options: "i".to_string() }),
        text("Regex { pattern: \"a+\", options: \"i\" }")
    );
}

#[test]
fn timestamp_renders_as_bson_debug() {
    let expected = format!("{:?}", bson::Timestamp { time: 1_700_000_000, increment: 42 });
    assert_eq!(
        to_script(&Value::Timestamp { time: 1_700_000_000, increment: 42 }),
        text(&expected)
    );
    assert_eq!(
        to_script(&Value::Timestamp { time: 0, increment: u32::MAX }),
        text("Timestamp { time: 0, increment: 4294967295 }")
    );
}

#[test]
fn decimal128_renders_as_bson_debug() {
    let mut bytes = [0u8; 16];
    for (i, b) in bytes.iter_mut().enumerate() {
        *b = (i * 17) as u8;
    }
    let expected = format!("{:?}", bson::Decimal128::from_bytes(bytes));
    assert_eq!(to_script(&Value::Decimal128(bytes)), text(&expected));
    assert_eq!(expected, "Decimal128(00112233445566778899aabbccddeeff)");
}

#[test]
fn native_values_come_back() {
    assert_eq!(from_script(&text("x")), Ok(Value::String("x".to_string())));
    assert_eq!(from_script(&ScriptValue::Boolean(true)), Ok(Value::Boolean(true)));
    assert_eq!(from_script(&ScriptValue::Integer(5)), Ok(Value::Int64(5)));
    assert_eq!(from_script(&ScriptValue::Number(2.5f64.to_bits())), Ok(Value::Double(2.5f64.to_bits())));
    assert_eq!(from_script(&ScriptValue::Nil), Ok(Value::Null));
    assert_eq!(from_script(&ScriptValue::Other), Ok(Value::Null));
}

#[test]
fn table_comes_back_as_document_with_text_keys() {
    let table = ScriptValue::Table(vec![
        (text("a"), ScriptValue::Integer(1)),
        (ScriptValue::Integer(12), ScriptValue::Boolean(false)),
        (ScriptValue::Integer(-3), text("neg")),
        (ScriptValue::Integer(0), ScriptValue::Nil),
        (ScriptValue::Integer(i64::MIN), text("min")),
    ]);
    assert_eq!(
        from_script(&table),
        Ok(Value::Document(StructuredDocument {
            entries: vec![
                entry("a", Value::Int64(1)),
                entry("12", Value::Boolean(false)),
                entry("-3", Value::String("neg".to_string())),
                entry("0", Value::Null),
                entry("-9223372036854775808", Value::String("min".to_string())),
            ],
        }))
    );
}

#[test]
fn later_entry_replaces_earlier_one() {
    let table = ScriptValue::Table(vec![
        (text("1"), text("first")),
        (text("b"), ScriptValue::Integer(2)),
        (ScriptValue::Integer(1), text("second")),
    ]);
    assert_eq!(
        from_script(&table),
        Ok(Value::Document(StructuredDocument {
            entries: vec![entry("1", Value::String("second".to_string())), entry("b", Value::Int64(2))],
        }))
    );
}

#[test]
fn unsupported_key_is_refused() {
    let table = ScriptValue::Table(vec![(ScriptValue::Boolean(true), ScriptValue::Integer(1))]);
    assert_eq!(from_script(&table), Err(BridgeError::UnsupportedKey));
    let fractional =
        ScriptValue::Table(vec![(ScriptValue::Number(1.5f64.to_bits()), ScriptValue::Integer(1))]);
    assert_eq!(from_script(&fractional), Err(BridgeError::UnsupportedKey));
    let nested = ScriptValue::Table(vec![(
        text("inner"),
        ScriptValue::Table(vec![(ScriptValue::Table(vec![]), ScriptValue::Nil)]),
    )]);
    assert_eq!(from_script(&nested), Err(BridgeError::UnsupportedKey));
}

#[test]
fn first_failure_in_table_order_decides() {
    let table = ScriptValue::Table(vec![
        (text("id"), identifier_table(&ID[..11])),
        (ScriptValue::Other, ScriptValue::Nil),
    ]);
    assert_eq!(from_script(&table), Err(BridgeError::InvalidIdentifier));
    let table = ScriptValue::Table(vec![
        (ScriptValue::Other, ScriptValue::Nil),
        (text("id"), identifier_table(&ID[..11])),
    ]);
    assert_eq!(from_script(&table), Err(BridgeError::UnsupportedKey));
}

#[test]
fn identifier_round_trips_byte_for_byte() {
    assert_eq!(from_script(&to_script(&Value::ObjectId(ID))), Ok(Value::ObjectId(ID)));
    assert_eq!(identifier_from_script(&identifier_to_script(&ID)), Ok(ID));
    for b in [0u8, 1, 127, 128, 255] {
        let id = [b; 12];
        assert_eq!(identifier_from_script(&identifier_to_script(&id)), Ok(id));
    }
}

#[test]
fn identifier_read_ignores_text_and_entry_order() {
    let table = ScriptValue::Table(vec![
        (text("string_repr"), text("not the hex")),
        (text("__value"), byte_sequence(&ID)),
        (text("extra"), ScriptValue::Integer(1)),
        (text("__type"), text("ObjectId")),
    ]);
    assert_eq!(from_script(&table), Ok(Value::ObjectId(ID)));
    let shuffled: Vec<(ScriptValue, ScriptValue)> = (0..12)
        .rev()
        .map(|i| (ScriptValue::Integer(i as i64 + 1), ScriptValue::Integer(ID[i] as i64)))
        .collect();
    let table = ScriptValue::Table(vec![
        (text("__type"), text("ObjectId")),
        (text("__value"), ScriptValue::Table(shuffled)),
    ]);
    assert_eq!(identifier_from_script(&table), Ok(ID));
}

#[test]
fn identifier_with_wrong_length_is_invalid() {
    assert_eq!(from_script(&identifier_table(&ID[..11])), Err(BridgeError::InvalidIdentifier));
    let mut long = ID.to_vec();
    long.push(9);
    assert_eq!(from_script(&identifier_table(&long)), Err(BridgeError::InvalidIdentifier));
    assert_eq!(from_script(&identifier_table(&[])), Err(BridgeError::InvalidIdentifier));
    assert_eq!(identifier_from_script(&identifier_table(&long)), Err(BridgeError::InvalidIdentifier));
}

fn tagged_with_item(place: usize, item: ScriptValue) -> ScriptValue {
    let mut items: Vec<(ScriptValue, ScriptValue)> = (0..12)
        .map(|i| (ScriptValue::Integer(i + 1), ScriptValue::Integer(1)))
        .collect();
    items[place].1 = item;
    ScriptValue::Table(vec![
        (text("__type"), text("ObjectId")),
        (text("__value"), ScriptValue::Table(items)),
    ])
}

#[test]
fn identifier_with_bad_bytes_is_invalid() {
    assert_eq!(from_script(&tagged_with_item(4, ScriptValue::Integer(255))), Ok(Value::ObjectId([1, 1, 1, 1, 255, 1, 1, 1, 1, 1, 1, 1])));
    assert_eq!(
        from_script(&tagged_with_item(4, ScriptValue::Integer(256))),
        Err(BridgeError::InvalidIdentifier)
    );
    assert_eq!(
        from_script(&tagged_with_item(4, ScriptValue::Integer(-1))),
        Err(BridgeError::InvalidIdentifier)
    );
    assert_eq!(
        from_script(&tagged_with_item(11, text("x"))),
        Err(BridgeError::InvalidIdentifier)
    );
    assert_eq!(
        from_script(&tagged_with_item(0, ScriptValue::Nil)),
        Err(BridgeError::InvalidIdentifier)
    );
}

#[test]
fn identifier_without_bytes_is_invalid() {
    let table = ScriptValue::Table(vec![(text("__type"), text("ObjectId"))]);
    assert_eq!(from_script(&table), Err(BridgeError::InvalidIdentifier));
    let table = ScriptValue::Table(vec![
        (text("__type"), text("ObjectId")),
        (text("__value"), text("654a00ff1020304050010203")),
    ]);
    assert_eq!(from_script(&table), Err(BridgeError::InvalidIdentifier));
}

#[test]
fn untagged_values_are_no_identifiers() {
    assert_eq!(identifier_from_script(&ScriptValue::Integer(1)), Err(BridgeError::InvalidIdentifier));
    assert_eq!(identifier_from_script(&ScriptValue::Table(vec![])), Err(BridgeError::InvalidIdentifier));
    let other_tag = ScriptValue::Table(vec![
        (text("__type"), text("Date")),
        (text("__value"), byte_sequence(&ID)),
    ]);
    assert_eq!(identifier_from_script(&other_tag), Err(BridgeError::InvalidIdentifier));
    assert_eq!(
        from_script(&other_tag),
        Ok(Value::Document(StructuredDocument {
            entries: vec![
                entry("__type", Value::String("Date".to_string())),
                entry(
                    "__value",
                    Value::Document(StructuredDocument {
                        entries: (0..12)
                            .map(|i| entry(&(i + 1).to_string(), Value::Int64(ID[i] as i64)))
                            .collect(),
                    })
                ),
            ],
        }))
    );
}

#[test]
fn untouched_document_round_trips() {
    let document = round_trip_document();
    let binding = bind_document(&document);
    assert_eq!(read_document(&binding), Ok(round_trip_document()));
    assert_eq!(harvest(ScriptOutcome::Completed(binding)), Ok(document));
}

#[test]
fn narrow_integers_and_sequences_come_back_widened() {
    let document = StructuredDocument {
        entries: vec![
            entry("small", Value::Int32(5)),
            entry("when", Value::DateTime(1234)),
            entry("list", Value::Array(vec![Value::Int32(7), Value::String("x".to_string())])),
            entry("blob", Value::Binary(vec![9, 8])),
            entry("gone", Value::Null),
        ],
    };
    let expected = StructuredDocument {
        entries: vec![
            entry("small", Value::Int64(5)),
            entry("when", Value::Int64(1234)),
            entry(
                "list",
                Value::Document(StructuredDocument {
                    entries: vec![entry("1", Value::Int64(7)), entry("2", Value::String("x".to_string()))],
                }),
            ),
            entry(
                "blob",
                Value::Document(StructuredDocument {
                    entries: vec![entry("1", Value::Int64(9)), entry("2", Value::Int64(8))],
                }),
            ),
        ],
    };
    assert_eq!(read_document(&bind_document(&document)), Ok(expected));
}

#[test]
fn harvest_reports_script_failure_with_its_text() {
    assert_eq!(
        harvest(ScriptOutcome::Failed("syntax error near 'end'".to_string())),
        Err(ScriptError::Execution("syntax error near 'end'".to_string()))
    );
}

#[test]
fn harvest_refuses_what_is_no_document() {
    assert_eq!(
        harvest(ScriptOutcome::Completed(ScriptValue::Integer(5))),
        Err(ScriptError::Bridge(BridgeError::NotADocument))
    );
    assert_eq!(
        harvest(ScriptOutcome::Completed(ScriptValue::Nil)),
        Err(ScriptError::Bridge(BridgeError::NotADocument))
    );
    assert_eq!(
        harvest(ScriptOutcome::Completed(identifier_table(&ID))),
        Err(ScriptError::Bridge(BridgeError::NotADocument))
    );
    assert_eq!(
        harvest(ScriptOutcome::Completed(identifier_table(&ID[..3]))),
        Err(ScriptError::Bridge(BridgeError::InvalidIdentifier))
    );
}

#[test]
fn document_insert_replaces_or_appends() {
    let mut document = StructuredDocument::new();
    assert_eq!(document.len(), 0);
    document.insert("a".to_string(), Value::Int64(1));
    document.insert("b".to_string(), Value::Int64(2));
    document.insert("a".to_string(), Value::Int64(3));
    assert_eq!(document.len(), 2);
    assert_eq!(document.get("a"), Some(&Value::Int64(3)));
    assert_eq!(document.get("b"), Some(&Value::Int64(2)));
    assert_eq!(document.get("c"), None);
    assert_eq!(document.find("b"), Some(1));
}

#[test]
fn copies_are_equal_and_independent() {
    let document = round_trip_document();
    let mut copy = document.clone();
    assert_eq!(copy, document);
    copy.insert("name".to_string(), Value::Null);
    assert_ne!(copy, document);
    assert_eq!(document.get("name"), Some(&Value::String("Ada".to_string())));
    let table = bind_document(&document);
    assert_eq!(table.clone(), table);
    let array = Value::Array(vec![Value::Int32(1), Value::Array(vec![Value::Boolean(true)])]);
    assert_eq!(array.clone(), array);
}
