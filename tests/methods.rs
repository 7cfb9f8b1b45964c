use azle_core::methods::{
    build_canister_method_system_heartbeat, build_extraneous_decorator_error_message,
    build_inspect_message_method, build_pre_upgrade_method, collect_function_type_dependencies,
    find_single_method_of_type, generate_args_list, param_name_as_variable, validate_methods,
    ActParam, AnnotationItem, CanisterMethod, SourceSpan, Suggestion, CanisterMethodType, CompileError, FunctionInformation,
};
use azle_core::type_node::{ActDataTypeNode, ActPrimitive, ActPrimitiveLit};

fn method(name: &str, t: CanisterMethodType) -> CanisterMethod {
    CanisterMethod {
        name: name.to_string(),
        method_type: t,
        params: vec![],
        return_type: None,
        is_async: false,
        guard_function_name: None,
    }
}

fn param(name: &str) -> ActParam {
    ActParam {
        name: name.to_string(),
        data_type: ActDataTypeNode::Primitive(ActPrimitive::Literal(ActPrimitiveLit::Int)),
    }
}

#[test]
fn two_init_methods_are_rejected() {
    let methods = vec![
        method("init_a", CanisterMethodType::Init),
        method("q", CanisterMethodType::Query),
        method("init_b", CanisterMethodType::Init),
    ];
    assert_eq!(
        validate_methods(&methods),
        Err(CompileError::DuplicateMethodTypes(CanisterMethodType::Init))
    );
}

#[test]
fn many_queries_and_updates_are_accepted() {
    let methods = vec![
        method("a", CanisterMethodType::Query),
        method("b", CanisterMethodType::Query),
        method("c", CanisterMethodType::Update),
        method("init", CanisterMethodType::Init),
        method("hb", CanisterMethodType::Heartbeat),
    ];
    assert_eq!(validate_methods(&methods), Ok(()));
}

#[test]
fn single_lifecycle_method_is_found() {
    let methods = vec![
        method("q", CanisterMethodType::Query),
        method("inspect", CanisterMethodType::InspectMessage),
    ];
    assert_eq!(build_inspect_message_method(&methods), Ok(Some(1)));
    assert_eq!(build_pre_upgrade_method(&methods), Ok(None));
    assert_eq!(build_canister_method_system_heartbeat(&methods), Ok(None));
    assert_eq!(find_single_method_of_type(&methods, CanisterMethodType::Query), Ok(Some(0)));
}

#[test]
fn duplicate_heartbeat_is_an_error() {
    let methods = vec![
        method("hb1", CanisterMethodType::Heartbeat),
        method("hb2", CanisterMethodType::Heartbeat),
    ];
    assert_eq!(
        build_canister_method_system_heartbeat(&methods),
        Err(CompileError::DuplicateMethodTypes(CanisterMethodType::Heartbeat))
    );
    let pre = vec![
        method("p1", CanisterMethodType::PreUpgrade),
        method("p2", CanisterMethodType::PreUpgrade),
    ];
    assert_eq!(
        build_pre_upgrade_method(&pre),
        Err(CompileError::DuplicateMethodTypes(CanisterMethodType::PreUpgrade))
    );
}

fn annotation(t: CanisterMethodType) -> AnnotationItem {
    AnnotationItem {
        method_type: t,
        span: SourceSpan {
            origin: "src/index.ts".to_string(),
            line_number: 12,
            source: "$heartbeat;".to_string(),
            range: (3, 13),
        },
    }
}

#[test]
fn extraneous_decorator_titles() {
    assert_eq!(
        build_extraneous_decorator_error_message(&annotation(CanisterMethodType::Heartbeat)).title,
        "extraneous $heartbeat annotation"
    );
    assert_eq!(
        build_extraneous_decorator_error_message(&annotation(CanisterMethodType::InspectMessage)).title,
        "extraneous $inspect_message annotation"
    );
}

#[test]
fn extraneous_decorator_message_fields() {
    let m = build_extraneous_decorator_error_message(&annotation(CanisterMethodType::Query));
    assert_eq!(m.title, "extraneous $query annotation");
    assert_eq!(m.origin, "src/index.ts");
    assert_eq!(m.line_number, 12);
    assert_eq!(m.source, "$heartbeat;");
    assert_eq!(m.range, (3, 13));
    assert_eq!(m.annotation, "expected this to be followed by an exported function declaration");
    let example = "export function some_canister_method() {\n  // method body\n}";
    assert_eq!(
        m.suggestion,
        Some(Suggestion {
            title: "Follow it with an exported function declaration or remove it. E.g.:".to_string(),
            source: format!("$heartbeat;\n{}", example),
            range: (14, 13 + example.len()),
            annotation: None,
            import_suggestion: None,
        })
    );
    assert_eq!(example.len(), 59);
}

#[test]
fn parameter_variable_names() {
    assert_eq!(param_name_as_variable(&"amount".to_string()), "_azle_user_defined_var_amount");
}

#[test]
fn argument_lists() {
    assert_eq!(generate_args_list(&vec![]), "()");
    assert_eq!(generate_args_list(&vec![param("a")]), "(_azle_user_defined_var_a,)");
    assert_eq!(
        generate_args_list(&vec![param("a"), param("b")]),
        "(_azle_user_defined_var_a, _azle_user_defined_var_b)"
    );
}

#[test]
fn function_dependencies_are_unique_in_first_order() {
    let infos = vec![
        FunctionInformation {
            name: "f".to_string(),
            type_alias_dependant_types: vec!["User".to_string(), "Post".to_string()],
            inline_dependant_types: vec![],
        },
        FunctionInformation {
            name: "g".to_string(),
            type_alias_dependant_types: vec!["Post".to_string(), "Tag".to_string(), "User".to_string()],
            inline_dependant_types: vec![],
        },
    ];
    assert_eq!(collect_function_type_dependencies(&infos), vec!["User", "Post", "Tag"]);
}
