use azle_core::trampoline::{InterpreterLease, ReentrantCall};
use azle_core::errors::RuntimeError;
use azle_core::methods::ActParam;
use azle_core::stable_map::{StableMapError, StableMaps};
use azle_core::trampoline::{extract_args, step, Action, CallState, Event, Settlement};
use azle_core::type_node::{ActDataTypeNode, ActPrimitive, ActPrimitiveLit};
use azle_core::values::{DynValue, StaticValue};

fn int_node() -> ActDataTypeNode {
    ActDataTypeNode::Primitive(ActPrimitive::Literal(ActPrimitiveLit::Int))
}

fn add_params() -> Vec<ActParam> {
    vec![
        ActParam { name: "a".to_string(), data_type: int_node() },
        ActParam { name: "b".to_string(), data_type: int_node() },
    ]
}

#[test]
fn add_query_replies_with_the_sum() {
    let params = add_params();
    let ret = Some(int_node());
    let env = vec![];
    let (s, a) = step(&params, &ret, &env, CallState::Decoding,
        Event::Start(vec![DynValue::Int(2), DynValue::Int(3)]));
    assert_eq!(s, CallState::Invoking);
    let sum = match a {
        Action::Invoke(args) => match (&args[0], &args[1]) {
            (DynValue::Int(x), DynValue::Int(y)) => x + y,
            _ => panic!("unexpected arguments"),
        },
        other => panic!("unexpected {:?}", other),
    };
    let (s, a) = step(&params, &ret, &env, s, Event::Returned(Settlement::Fulfilled(DynValue::Int(sum))));
    assert_eq!(s, CallState::Encoding);
    assert!(matches!(a, Action::Serialize(StaticValue::Int(5))));
    let (s, a) = step(&params, &ret, &env, s, Event::Serialized(vec![1, 2]));
    assert_eq!(s, CallState::Done);
    assert!(matches!(a, Action::Reply(b) if b == vec![1, 2]));
}

#[test]
fn uncaught_exception_traps() {
    let params = vec![];
    let (s, a) = step(&params, &None, &vec![], CallState::Invoking,
        Event::Returned(Settlement::Raised("boom".to_string())));
    assert_eq!(s, CallState::Trapped);
    match a {
        Action::Trap(e) => assert!(e.to_trap_message().contains("Uncaught boom")),
        other => panic!("unexpected {:?}", other),
    }
}

#[test]
fn pending_result_settles_while_draining() {
    let params = vec![];
    let ret = Some(int_node());
    let (s, a) = step(&params, &ret, &vec![], CallState::Invoking, Event::Returned(Settlement::Pending));
    assert_eq!(s, CallState::Draining);
    assert!(matches!(a, Action::RunNextJob));
    let (s, a) = step(&params, &ret, &vec![], s, Event::JobRan(Settlement::Pending));
    assert_eq!(s, CallState::Draining);
    assert!(matches!(a, Action::RunNextJob));
    let (s, a) = step(&params, &ret, &vec![], s, Event::JobRan(Settlement::Fulfilled(DynValue::Int(42))));
    assert_eq!(s, CallState::Encoding);
    assert!(matches!(a, Action::Serialize(StaticValue::Int(42))));
}

#[test]
fn result_that_never_settles_traps_as_internal() {
    let params = vec![];
    let ret = Some(int_node());
    let (s, _) = step(&params, &ret, &vec![], CallState::Invoking, Event::Returned(Settlement::Pending));
    let (s, _) = step(&params, &ret, &vec![], s, Event::JobRan(Settlement::Pending));
    let (s, a) = step(&params, &ret, &vec![], s, Event::QueueEmpty);
    assert_eq!(s, CallState::Trapped);
    match a {
        Action::Trap(e) => {
            assert!(e.is_internal());
            assert_eq!(e.to_trap_message(), "Uncaught InternalError: the call's result never settled");
        }
        other => panic!("unexpected {:?}", other),
    }
}

#[test]
fn bad_argument_traps_with_its_name_and_position() {
    let params = add_params();
    let (s, a) = step(&params, &Some(int_node()), &vec![], CallState::Decoding,
        Event::Start(vec![DynValue::Int(2), DynValue::Text("x".to_string())]));
    assert_eq!(s, CallState::Trapped);
    match a {
        Action::Trap(RuntimeError::ShapeMismatch { expected, name, position, found }) => {
            assert_eq!(expected, "candid::Int");
            assert_eq!(name, Some("b".to_string()));
            assert_eq!(position, Some(1));
            assert_eq!(found, "text");
        }
        other => panic!("unexpected {:?}", other),
    }
}

#[test]
fn missing_argument_is_undefined() {
    let r = extract_args(&add_params(), &vec![DynValue::Int(1)], &vec![]);
    assert!(matches!(r, Err(RuntimeError::ShapeMismatch { position: Some(1), .. })));
}

#[test]
fn finished_call_ignores_events() {
    let (s, a) = step(&vec![], &None, &vec![], CallState::Done, Event::QueueEmpty);
    assert_eq!(s, CallState::Done);
    assert!(matches!(a, Action::Idle));
    let (s, a) = step(&vec![], &None, &vec![], CallState::Invoking, Event::QueueEmpty);
    assert_eq!(s, CallState::Trapped);
    assert!(matches!(a, Action::Trap(RuntimeError::InternalInconsistency { .. })));
}

#[test]
fn trap_messages_of_each_kind() {
    let e = RuntimeError::ShapeMismatch {
        expected: "bool".to_string(),
        name: Some("flag".to_string()),
        position: None,
        found: "integer".to_string(),
    };
    assert_eq!(e.to_trap_message(), "Uncaught TypeError: value is not of type bool (flag): found integer");
    let e = RuntimeError::InterpreterException { message: "Error: nope".to_string() };
    assert_eq!(e.to_trap_message(), "Uncaught Error: nope");
    assert!(!e.is_internal());
}

#[test]
fn stable_map_insert_and_get() {
    let mut maps = StableMaps::new(vec![0, 3]);
    assert_eq!(maps.get(0, &vec![1]), Ok(None));
    assert_eq!(maps.insert(0, vec![1], vec![10]), Ok(None));
    assert_eq!(maps.insert(0, vec![1], vec![11]), Ok(Some(vec![10])));
    assert_eq!(maps.insert(3, vec![1], vec![30]), Ok(None));
    assert_eq!(maps.get(0, &vec![1]), Ok(Some(vec![11])));
    assert_eq!(maps.get(3, &vec![1]), Ok(Some(vec![30])));
    assert_eq!(maps.get(7, &vec![1]), Err(StableMapError::UnknownMap(7)));
    assert_eq!(maps.insert(7, vec![1], vec![1]), Err(StableMapError::UnknownMap(7)));
}

#[test]
fn stable_map_get_with_candid_memory_id() {
    let mut maps = StableMaps::new(vec![5]);
    maps.insert(5, vec![9, 9], vec![42]).unwrap();
    let id_bytes = candid::encode_one(5u8).unwrap();
    assert_eq!(maps.stable_b_tree_map_get(&id_bytes, &vec![9, 9]), Ok(Some(vec![42])));
    let other = candid::encode_one(6u8).unwrap();
    assert_eq!(maps.stable_b_tree_map_get(&other, &vec![9, 9]), Err(StableMapError::UnknownMap(6)));
    assert_eq!(maps.stable_b_tree_map_get(&vec![1, 2, 3], &vec![9, 9]), Err(StableMapError::InvalidMemoryId));
}

fn int_of(i: &candid::Int) -> i128 {
    i.to_string().replace('_', "").parse().unwrap()
}

#[test]
fn add_query_over_wire_bytes() {
    let params = add_params();
    let ret = Some(int_node());
    let env = vec![];
    let arg_bytes = candid::encode_args((candid::Int::from(2i32), candid::Int::from(3i32))).unwrap();
    let (a, b): (candid::Int, candid::Int) = candid::decode_args(&arg_bytes).unwrap();
    let args = vec![DynValue::Int(int_of(&a)), DynValue::Int(int_of(&b))];
    let (s, action) = step(&params, &ret, &env, CallState::Decoding, Event::Start(args));
    assert_eq!(s, CallState::Invoking);
    let body_result = match action {
        Action::Invoke(v) => match (&v[0], &v[1]) {
            (DynValue::Int(x), DynValue::Int(y)) => DynValue::Int(x + y),
            _ => panic!("unexpected arguments"),
        },
        other => panic!("unexpected {:?}", other),
    };
    let (s, action) = step(&params, &ret, &env, s, Event::Returned(Settlement::Fulfilled(body_result)));
    assert_eq!(s, CallState::Encoding);
    let bytes = match action {
        Action::Serialize(StaticValue::Int(n)) => candid::encode_one(candid::Int::from(n)).unwrap(),
        other => panic!("unexpected {:?}", other),
    };
    let (s, action) = step(&params, &ret, &env, s, Event::Serialized(bytes));
    assert_eq!(s, CallState::Done);
    let reply = match action {
        Action::Reply(b) => b,
        other => panic!("unexpected {:?}", other),
    };
    let decoded: candid::Int = candid::decode_one(&reply).unwrap();
    assert_eq!(int_of(&decoded), 5);
}

#[test]
fn reentrant_call_is_rejected() {
    let mut lease = InterpreterLease::new();
    assert_eq!(lease.begin_call(), Ok(()));
    assert_eq!(lease.begin_call(), Err(ReentrantCall));
    lease.end_call();
    assert_eq!(lease.begin_call(), Ok(()));
}

#[test]
fn stable_map_insert_with_candid_memory_id() {
    let mut maps = StableMaps::new(vec![2]);
    let id_bytes = candid::encode_one(2u8).unwrap();
    assert_eq!(maps.stable_b_tree_map_insert(&id_bytes, vec![1], vec![7]), Ok(None));
    assert_eq!(maps.stable_b_tree_map_insert(&id_bytes, vec![1], vec![8]), Ok(Some(vec![7])));
    assert_eq!(maps.get(2, &vec![1]), Ok(Some(vec![8])));
    assert_eq!(
        maps.stable_b_tree_map_insert(&vec![0xff], vec![1], vec![9]),
        Err(StableMapError::InvalidMemoryId)
    );
}

#[test]
fn refused_serialization_traps_as_internal() {
    let (s, a) = step(&vec![], &None, &vec![], CallState::Encoding, Event::SerializeFailed("bad".to_string()));
    assert_eq!(s, CallState::Trapped);
    match a {
        Action::Trap(e) => {
            assert!(e.is_internal());
            assert_eq!(e.to_trap_message(), "Uncaught InternalError: bad");
        }
        other => panic!("unexpected {:?}", other),
    }
}

#[test]
fn memory_id_with_huge_extra_argument_is_refused() {
    // One nat8 argument followed by a `vec null` claiming 2^62 elements.
    let msg: Vec<u8> = vec![
        0x44, 0x49, 0x44, 0x4c, 0x1, 0x6d, 0x7f, 0x2, 0x7b, 0x0, 0x5, 0x80, 0x80, 0x80, 0x80, 0x80,
        0x80, 0x80, 0x80, 0x40,
    ];
    let maps = StableMaps::new(vec![5]);
    assert_eq!(maps.stable_b_tree_map_get(&msg, &vec![1]), Err(StableMapError::InvalidMemoryId));
}
