use azle_core::type_node::inline_type_definitions;
use azle_core::type_node::{
    build_inline_types_from_type_alias_acts, deduplicate, ActArray, ActDataTypeNode, ActMember,
    ActOption, ActPrimitive, ActPrimitiveLit, ActRecord, ActTuple, ActTypeRef, ActVariant,
};

fn prim(l: ActPrimitiveLit) -> ActDataTypeNode {
    ActDataTypeNode::Primitive(ActPrimitive::Literal(l))
}

fn type_ref(name: &str) -> ActDataTypeNode {
    ActDataTypeNode::TypeRef(ActTypeRef::Literal(name.to_string()))
}

fn member(name: &str, t: ActDataTypeNode) -> ActMember {
    ActMember { name: name.to_string(), member_type: t }
}

fn record(name: &str, members: Vec<ActMember>, is_inline: bool) -> ActDataTypeNode {
    ActDataTypeNode::Record(ActRecord { name: name.to_string(), members, is_inline })
}

fn idents(v: &[ActDataTypeNode]) -> Vec<String> {
    v.iter().map(|n| n.get_type_ident()).collect()
}

#[test]
fn primitive_and_reference_are_not_inline() {
    assert!(!prim(ActPrimitiveLit::Bool).is_inline_type());
    assert!(!type_ref("User").is_inline_type());
    assert!(prim(ActPrimitiveLit::Bool).needs_to_be_boxed());
}

#[test]
fn array_is_inline_when_its_element_is() {
    let inline_elem = record("AnonRec", vec![], true);
    let a = ActDataTypeNode::Array(ActArray::Literal(Box::new(inline_elem)));
    assert!(a.is_inline_type());
    let b = ActDataTypeNode::Array(ActArray::Literal(Box::new(type_ref("User"))));
    assert!(!b.is_inline_type());
}

#[test]
fn identifiers_of_literal_shapes() {
    let a = ActDataTypeNode::Array(ActArray::Literal(Box::new(prim(ActPrimitiveLit::Nat8))));
    assert_eq!(a.get_type_ident(), "Vec<u8>");
    let o = ActDataTypeNode::Option(ActOption::Literal(Box::new(type_ref("User"))));
    assert_eq!(o.get_type_ident(), "Option<User>");
    assert_eq!(prim(ActPrimitiveLit::Text).get_type_ident(), "String");
    let named = ActDataTypeNode::Array(ActArray::TypeAlias(
        "Users".to_string(),
        Box::new(type_ref("User")),
    ));
    assert_eq!(named.get_type_ident(), "Users");
}

#[test]
fn inline_members_keep_declaration_order() {
    let r = record(
        "Outer",
        vec![
            member("a", record("InlineA", vec![], true)),
            member("b", prim(ActPrimitiveLit::Int32)),
            member("c", ActDataTypeNode::Tuple(ActTuple {
                name: "InlineC".to_string(),
                elems: vec![prim(ActPrimitiveLit::Bool)],
                is_inline: true,
            })),
        ],
        false,
    );
    assert_eq!(idents(&r.get_inline_members()), vec!["InlineA", "InlineC"]);
}

#[test]
fn collector_walks_depth_first() {
    let deep = record("Deep", vec![member("x", prim(ActPrimitiveLit::Nat))], true);
    let mid = record("Mid", vec![member("d", deep)], true);
    let v = ActDataTypeNode::Variant(ActVariant {
        name: "MidVariant".to_string(),
        members: vec![member("Ok", prim(ActPrimitiveLit::Null))],
        is_inline: true,
    });
    let root = record(
        "Root",
        vec![
            member("m", mid),
            member("o", ActDataTypeNode::Option(ActOption::Literal(Box::new(v)))),
        ],
        false,
    );
    assert_eq!(idents(&root.collect_inline_types()), vec!["Mid", "Deep", "Option<MidVariant>", "MidVariant"]);
}

#[test]
fn self_referential_record_is_not_expanded() {
    // R = { next: Option<R> }
    let r = record(
        "R",
        vec![member("next", ActDataTypeNode::Option(ActOption::Literal(Box::new(type_ref("R")))))],
        false,
    );
    assert!(r.collect_inline_types().is_empty());
    let aliases = vec![r];
    assert!(build_inline_types_from_type_alias_acts(&aliases).is_empty());
}

#[test]
fn inline_types_from_several_aliases_in_order() {
    let a = record("A", vec![member("x", record("AX", vec![], true))], false);
    let b = record("B", vec![member("y", record("BY", vec![], true))], false);
    let all = build_inline_types_from_type_alias_acts(&vec![a, b]);
    assert_eq!(idents(&all), vec!["AX", "BY"]);
}

#[test]
fn dedup_keeps_first_of_each_identifier() {
    let nodes = vec![
        record("A", vec![member("first", prim(ActPrimitiveLit::Bool))], false),
        record("B", vec![], false),
        record("A", vec![], false),
    ];
    let d = deduplicate(nodes);
    assert_eq!(idents(&d), vec!["A", "B"]);
    match &d[0] {
        ActDataTypeNode::Record(r) => assert_eq!(r.members.len(), 1),
        _ => panic!("expected a record"),
    }
}

#[test]
fn dedup_twice_is_dedup_once() {
    let nodes = vec![
        record("A", vec![], false),
        record("B", vec![], false),
        record("A", vec![], false),
        record("C", vec![], false),
        record("B", vec![], false),
    ];
    let once = deduplicate(nodes);
    let once_idents = idents(&once);
    let twice = deduplicate(once);
    assert_eq!(idents(&twice), once_idents);
    assert_eq!(once_idents, vec!["A", "B", "C"]);
}

#[test]
fn dedup_set_does_not_depend_on_order() {
    let n1 = vec![record("A", vec![], false), record("B", vec![], false), record("A", vec![], false)];
    let n2 = vec![record("B", vec![], false), record("A", vec![], false), record("A", vec![], false)];
    let mut i1 = idents(&deduplicate(n1));
    let mut i2 = idents(&deduplicate(n2));
    i1.sort();
    i2.sort();
    assert_eq!(i1, i2);
}

#[test]
fn deep_copy_keeps_shape() {
    let r = record("R", vec![member("a", record("Inner", vec![], true))], false);
    let c = r.duplicate();
    assert_eq!(idents(&c.collect_inline_types()), vec!["Inner"]);
    assert_eq!(c.get_type_ident(), "R");
}

#[test]
fn inline_definitions_are_collected_once() {
    let shared = || record("Shared", vec![], true);
    let a = record("A", vec![member("x", shared())], false);
    let b = record("B", vec![member("y", shared()), member("z", record("Own", vec![], true))], false);
    assert_eq!(idents(&inline_type_definitions(&vec![a, b])), vec!["Shared", "Own"]);
}

#[test]
fn reference_under_inline_record_is_not_expanded() {
    // R = { child: { back: Option<R>, all: Vec<R> } }
    let inner = record(
        "RChild",
        vec![
            member("back", ActDataTypeNode::Option(ActOption::Literal(Box::new(type_ref("R"))))),
            member("all", ActDataTypeNode::Array(ActArray::Literal(Box::new(type_ref("R"))))),
        ],
        true,
    );
    let r = record("R", vec![member("child", inner)], false);
    let collected = r.collect_inline_types();
    assert_eq!(idents(&collected), vec!["RChild"]);
    assert!(collected.iter().all(|n| n.is_inline_type()));
}
