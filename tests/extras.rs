use azle_core::methods::AbstractCanisterTree;
use azle_core::errors::{int_to_decimal, thrown_value_to_string};
use azle_core::methods::{
    collect_inline_dependencies, collect_inline_dependencies_for_struct, FunctionInformation,
    StructInfo,
};
use azle_core::type_node::{
    ActArray, ActDataTypeNode, ActPrimitive, ActPrimitiveLit, ActRecord, ActTypeRef,
};
use azle_core::values::{decode_guard_result, DynProp, DynValue, GuardResultError};

fn prop(key: &str, value: DynValue) -> DynProp {
    DynProp { key: key.to_string(), value }
}

fn leaf(s: &str) -> StructInfo {
    StructInfo { structure: s.to_string(), inline_dependencies: vec![] }
}

#[test]
fn guard_ok_with_null_allows() {
    let v = DynValue::Object(vec![prop("ok", DynValue::Null)]);
    assert_eq!(decode_guard_result(&v), Ok(Ok(())));
}

#[test]
fn guard_err_with_text_denies() {
    let v = DynValue::Object(vec![
        prop("ok", DynValue::Null),
        prop("err", DynValue::Text("not allowed".to_string())),
    ]);
    assert_eq!(decode_guard_result(&v), Ok(Err("not allowed".to_string())));
}

#[test]
fn guard_shape_errors() {
    let e = decode_guard_result(&DynValue::Object(vec![prop("ok", DynValue::Int(1))])).unwrap_err();
    assert_eq!(e, GuardResultError::OkNotNull);
    assert_eq!(e.message(), "value is not null");
    let e = decode_guard_result(&DynValue::Object(vec![prop("err", DynValue::Null)])).unwrap_err();
    assert_eq!(e, GuardResultError::ErrNotText);
    assert_eq!(e.message(), "value is not a string");
    let e = decode_guard_result(&DynValue::Bool(true)).unwrap_err();
    assert_eq!(e.message(), "value is not a GuardResult");
    assert_eq!(
        decode_guard_result(&DynValue::Object(vec![])),
        Err(GuardResultError::NotAGuardResult)
    );
}

#[test]
fn named_nodes_have_definitions() {
    let lit = ActDataTypeNode::Primitive(ActPrimitive::Literal(ActPrimitiveLit::Bool));
    assert!(!lit.has_definition());
    let r = ActDataTypeNode::Record(ActRecord { name: "R".to_string(), members: vec![], is_inline: false });
    assert!(r.has_definition());
    let named = ActDataTypeNode::Array(ActArray::TypeAlias(
        "Names".to_string(),
        Box::new(ActDataTypeNode::TypeRef(ActTypeRef::Literal("Name".to_string()))),
    ));
    assert!(named.has_definition());
}

#[test]
fn inline_dependency_tree_in_preorder() {
    let tree = vec![
        StructInfo { structure: "A".to_string(), inline_dependencies: vec![leaf("A1"), leaf("A2")] },
        leaf("B"),
    ];
    assert_eq!(collect_inline_dependencies_for_struct(&tree), vec!["A", "A1", "A2", "B"]);
    let infos = vec![
        FunctionInformation { name: "f".to_string(), type_alias_dependant_types: vec![], inline_dependant_types: tree },
        FunctionInformation { name: "g".to_string(), type_alias_dependant_types: vec![], inline_dependant_types: vec![leaf("C")] },
    ];
    assert_eq!(collect_inline_dependencies(&infos), vec!["A", "A1", "A2", "B", "C"]);
}

#[test]
fn decimal_text_of_integers() {
    assert_eq!(int_to_decimal(0), "0");
    assert_eq!(int_to_decimal(42), "42");
    assert_eq!(int_to_decimal(-7), "-7");
    assert_eq!(int_to_decimal(i128::MIN), i128::MIN.to_string());
    assert_eq!(int_to_decimal(i128::MAX), i128::MAX.to_string());
}

#[test]
fn thrown_values_as_text() {
    assert_eq!(thrown_value_to_string(&DynValue::Text("boom".to_string())), Some("boom".to_string()));
    assert_eq!(thrown_value_to_string(&DynValue::Null), Some("null".to_string()));
    assert_eq!(thrown_value_to_string(&DynValue::Undefined), Some("undefined".to_string()));
    assert_eq!(thrown_value_to_string(&DynValue::Bool(false)), Some("false".to_string()));
    assert_eq!(thrown_value_to_string(&DynValue::Int(-12)), Some("-12".to_string()));
    assert_eq!(thrown_value_to_string(&DynValue::Object(vec![])), None);
}

#[test]
fn tree_lists_type_nodes_in_emit_order() {
    let rec = |n: &str| ActDataTypeNode::Record(ActRecord { name: n.to_string(), members: vec![], is_inline: false });
    let tree = AbstractCanisterTree {
        update_methods: vec![],
        query_methods: vec![],
        aliases: vec![ActDataTypeNode::TypeRef(ActTypeRef::Literal("Alias".to_string()))],
        arrays: vec![ActDataTypeNode::Array(ActArray::TypeAlias(
            "Arr".to_string(),
            Box::new(ActDataTypeNode::Primitive(ActPrimitive::Literal(ActPrimitiveLit::Bool))),
        ))],
        funcs: vec![],
        options: vec![],
        primitives: vec![],
        records: vec![rec("R1"), rec("R2")],
        tuples: vec![],
        variants: vec![],
    };
    let idents: Vec<String> = tree.type_nodes_in_emit_order().iter().map(|n| n.get_type_ident()).collect();
    assert_eq!(idents, vec!["Arr", "Alias", "R1", "R2"]);
}
