use azle_core::type_node::{
    ActArray, ActDataTypeNode, ActMember, ActOption, ActPrimitive, ActPrimitiveLit, ActRecord,
    ActTuple, ActTypeRef, ActVariant,
};
use azle_core::values::{decode_value, DynProp, DynValue, StaticField, StaticValue};

fn prim(l: ActPrimitiveLit) -> ActDataTypeNode {
    ActDataTypeNode::Primitive(ActPrimitive::Literal(l))
}

fn member(name: &str, t: ActDataTypeNode) -> ActMember {
    ActMember { name: name.to_string(), member_type: t }
}

fn prop(key: &str, value: DynValue) -> DynProp {
    DynProp { key: key.to_string(), value }
}

fn result_variant() -> ActDataTypeNode {
    ActDataTypeNode::Variant(ActVariant {
        name: "Outcome".to_string(),
        members: vec![
            member("ok", prim(ActPrimitiveLit::Nat32)),
            member("err", prim(ActPrimitiveLit::Text)),
        ],
        is_inline: false,
    })
}

fn user_record() -> ActDataTypeNode {
    ActDataTypeNode::Record(ActRecord {
        name: "User".to_string(),
        members: vec![
            member("id", prim(ActPrimitiveLit::Nat64)),
            member("name", prim(ActPrimitiveLit::Text)),
            member(
                "tags",
                ActDataTypeNode::Array(ActArray::Literal(Box::new(prim(ActPrimitiveLit::Text)))),
            ),
            member(
                "best_friend",
                ActDataTypeNode::Option(ActOption::Literal(Box::new(ActDataTypeNode::TypeRef(
                    ActTypeRef::Literal("User".to_string()),
                )))),
            ),
        ],
        is_inline: false,
    })
}

fn user_value(id: i128, friend: Option<DynValue>) -> DynValue {
    DynValue::Object(vec![
        prop("name", DynValue::Text("ana".to_string())),
        prop("id", DynValue::Int(id)),
        prop("tags", DynValue::Array(vec![DynValue::Text("a".to_string())])),
        prop("best_friend", DynValue::Array(friend.into_iter().collect())),
    ])
}

#[test]
fn record_decodes_in_declared_field_order() {
    let env = vec![user_record()];
    let v = user_value(7, None);
    match decode_value(&user_record(), &v, &env, env.len()) {
        Ok(StaticValue::Record(fields)) => {
            let names: Vec<&str> = fields.iter().map(|f| f.name.as_str()).collect();
            assert_eq!(names, vec!["id", "name", "tags", "best_friend"]);
            assert!(matches!(fields[0].value, StaticValue::Int(7)));
            assert!(matches!(fields[3].value, StaticValue::Opt(None)));
        }
        other => panic!("unexpected {:?}", other),
    }
}

#[test]
fn recursive_record_decodes_through_reference() {
    let env = vec![user_record()];
    let v = user_value(1, Some(user_value(2, None)));
    match decode_value(&user_record(), &v, &env, env.len()) {
        Ok(StaticValue::Record(fields)) => match &fields[3].value {
            StaticValue::Opt(Some(inner)) => match inner.as_ref() {
                StaticValue::Record(f) => assert!(matches!(f[0].value, StaticValue::Int(2))),
                other => panic!("unexpected {:?}", other),
            },
            other => panic!("unexpected {:?}", other),
        },
        other => panic!("unexpected {:?}", other),
    }
}

#[test]
fn missing_field_names_the_field() {
    let env = vec![user_record()];
    let v = DynValue::Object(vec![prop("id", DynValue::Int(1))]);
    let e = decode_value(&user_record(), &v, &env, env.len()).unwrap_err();
    assert_eq!(e.expected, "String");
    assert_eq!(e.name, Some("name".to_string()));
    assert_eq!(e.found, "undefined");
}

#[test]
fn bad_field_value_names_the_field() {
    let env = vec![user_record()];
    let v = DynValue::Object(vec![
        prop("id", DynValue::Int(1)),
        prop("name", DynValue::Bool(true)),
        prop("tags", DynValue::Array(vec![])),
        prop("best_friend", DynValue::Array(vec![])),
    ]);
    let e = decode_value(&user_record(), &v, &env, env.len()).unwrap_err();
    assert_eq!(e.expected, "String");
    assert_eq!(e.name, Some("name".to_string()));
    assert_eq!(e.found, "boolean");
}

#[test]
fn bad_tag_payload_names_the_tag() {
    let v = DynValue::Object(vec![prop("ok", DynValue::Text("x".to_string()))]);
    let e = decode_value(&result_variant(), &v, &vec![], 0).unwrap_err();
    assert_eq!(e.expected, "u32");
    assert_eq!(e.name, Some("ok".to_string()));
    assert_eq!(e.found, "text");
}

#[test]
fn variant_without_declared_tag_is_a_mismatch() {
    let v = DynValue::Object(vec![prop("other", DynValue::Int(1))]);
    let e = decode_value(&result_variant(), &v, &vec![], 0).unwrap_err();
    assert_eq!(e.expected, "Outcome");
    assert_eq!(e.found, "object");
}

#[test]
fn variant_first_declared_tag_wins() {
    let v = DynValue::Object(vec![
        prop("err", DynValue::Text("bad".to_string())),
        prop("ok", DynValue::Int(3)),
        prop("extra", DynValue::Null),
    ]);
    match decode_value(&result_variant(), &v, &vec![], 0) {
        Ok(StaticValue::Variant(tag, x)) => {
            assert_eq!(tag, "ok");
            assert!(matches!(*x, StaticValue::Int(3)));
        }
        other => panic!("unexpected {:?}", other),
    }
}

#[test]
fn narrow_integer_out_of_range_is_a_mismatch() {
    let t = prim(ActPrimitiveLit::Int8);
    assert!(matches!(decode_value(&t, &DynValue::Int(127), &vec![], 0), Ok(StaticValue::Int(127))));
    let e = decode_value(&t, &DynValue::Int(128), &vec![], 0).unwrap_err();
    assert_eq!(e.expected, "i8");
    assert!(decode_value(&prim(ActPrimitiveLit::Nat8), &DynValue::Int(-1), &vec![], 0).is_err());
    assert!(decode_value(&prim(ActPrimitiveLit::Nat64), &DynValue::Int(18446744073709551616), &vec![], 0).is_err());
}

#[test]
fn wrong_kind_is_a_mismatch() {
    let e = decode_value(&prim(ActPrimitiveLit::Bool), &DynValue::Int(1), &vec![], 0).unwrap_err();
    assert_eq!(e.expected, "bool");
    assert_eq!(e.name, None);
}

#[test]
fn reference_cycle_without_shape_is_reported() {
    let loop_alias = ActDataTypeNode::TypeRef(ActTypeRef::Literal("Loop".to_string()));
    let env = vec![ActDataTypeNode::Array(ActArray::TypeAlias(
        "Other".to_string(),
        Box::new(prim(ActPrimitiveLit::Bool)),
    ))];
    assert!(decode_value(&loop_alias, &DynValue::Null, &env, env.len()).is_err());
}

#[test]
fn tuple_needs_exact_length() {
    let t = ActDataTypeNode::Tuple(ActTuple {
        name: "Pair".to_string(),
        elems: vec![prim(ActPrimitiveLit::Bool), prim(ActPrimitiveLit::Text)],
        is_inline: true,
    });
    let good = DynValue::Array(vec![DynValue::Bool(true), DynValue::Text("x".to_string())]);
    assert!(matches!(decode_value(&t, &good, &vec![], 0), Ok(StaticValue::Tuple(_))));
    let short = DynValue::Array(vec![DynValue::Bool(true)]);
    assert!(decode_value(&t, &short, &vec![], 0).is_err());
}

#[test]
fn encode_then_decode_gives_back_the_value() {
    let env = vec![user_record()];
    let s = StaticValue::Record(vec![
        StaticField { name: "id".to_string(), value: StaticValue::Int(9) },
        StaticField { name: "name".to_string(), value: StaticValue::Text("bo".to_string()) },
        StaticField { name: "tags".to_string(), value: StaticValue::Vector(vec![]) },
        StaticField { name: "best_friend".to_string(), value: StaticValue::Opt(None) },
    ]);
    let d = s.encode_value();
    let back = decode_value(&user_record(), &d, &env, env.len()).unwrap();
    assert_eq!(format!("{:?}", back), format!("{:?}", s));
    let v = StaticValue::Variant("err".to_string(), Box::new(StaticValue::Text("no".to_string())));
    let back = decode_value(&result_variant(), &v.encode_value(), &vec![], 0).unwrap();
    assert_eq!(format!("{:?}", back), format!("{:?}", v));
}

#[test]
fn encode_shapes() {
    assert!(matches!(StaticValue::Opt(None).encode_value(), DynValue::Array(a) if a.is_empty()));
    match StaticValue::Variant("ok".to_string(), Box::new(StaticValue::Null)).encode_value() {
        DynValue::Object(p) => {
            assert_eq!(p.len(), 1);
            assert_eq!(p[0].key, "ok");
            assert!(matches!(p[0].value, DynValue::Null));
        }
        other => panic!("unexpected {:?}", other),
    }
    assert!(matches!(StaticValue::Principal("aaaaa-aa".to_string()).encode_value(), DynValue::Text(t) if t == "aaaaa-aa"));
}

#[test]
fn principals_must_be_in_textual_form() {
    let t = prim(ActPrimitiveLit::Principal);
    assert!(matches!(
        decode_value(&t, &DynValue::Text("aaaaa-aa".to_string()), &vec![], 0),
        Ok(StaticValue::Principal(p)) if p == "aaaaa-aa"
    ));
    let e = decode_value(&t, &DynValue::Text("not a principal".to_string()), &vec![], 0).unwrap_err();
    assert_eq!(e.expected, "candid::Principal");
    assert_eq!(e.found, "text");
}

#[test]
fn blob_decodes_from_byte_integers() {
    let t = prim(ActPrimitiveLit::Blob);
    let v = DynValue::Array(vec![DynValue::Int(0), DynValue::Int(255), DynValue::Int(7)]);
    match decode_value(&t, &v, &vec![], 0) {
        Ok(StaticValue::Vector(xs)) => {
            let bytes: Vec<i128> = xs.iter().map(|x| match x { StaticValue::Int(i) => *i, _ => -1 }).collect();
            assert_eq!(bytes, vec![0, 255, 7]);
        }
        other => panic!("unexpected {:?}", other),
    }
    let empty = decode_value(&t, &DynValue::Array(vec![]), &vec![], 0);
    assert!(matches!(empty, Ok(StaticValue::Vector(xs)) if xs.is_empty()));
}

#[test]
fn blob_rejects_non_bytes() {
    let t = prim(ActPrimitiveLit::Blob);
    let too_big = DynValue::Array(vec![DynValue::Int(1), DynValue::Int(256)]);
    let e = decode_value(&t, &too_big, &vec![], 0).unwrap_err();
    assert_eq!(e.expected, "Vec<u8>");
    assert_eq!(e.found, "array");
    let text = DynValue::Array(vec![DynValue::Text("a".to_string())]);
    assert!(decode_value(&t, &text, &vec![], 0).is_err());
    assert!(decode_value(&t, &DynValue::Text("ab".to_string()), &vec![], 0).is_err());
}

#[test]
fn blob_round_trip() {
    let t = prim(ActPrimitiveLit::Blob);
    let s = StaticValue::Vector(vec![StaticValue::Int(3), StaticValue::Int(200)]);
    let back = decode_value(&t, &s.encode_value(), &vec![], 0).unwrap();
    assert_eq!(format!("{:?}", back), format!("{:?}", s));
}
