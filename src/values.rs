//! Dynamic values of the interpreter, static values of the wire type system,
//! and the conversions between them that a type node directs.
use vstd::prelude::*;
use vstd::string::*;
use crate::type_node::{
    ActAliasedType, ActDataTypeNode, ActMember, ActPrimitive, ActPrimitiveLit, ActTypeRef,
    AliasedModel, MemberNode, TypeNode, lemma_members_view, lemma_nodes_view, members_view, views,
};

verus! {

/// A value as the interpreter holds it.
#[derive(Debug)]
pub enum DynValue {
    Undefined,
    Null,
    Bool(bool),
    Int(i128),
    Text(String),
    Array(Vec<DynValue>),
    /// An object with its own properties in definition order.
    Object(Vec<DynProp>),
    /// A reference to a remote function: principal and method name.
    FuncRef(String, String),
}

#[derive(Debug)]
pub struct DynProp {
    pub key: String,
    pub value: DynValue,
}

/// A value of the wire type system.
#[derive(Debug)]
pub enum StaticValue {
    Null,
    Bool(bool),
    Int(i128),
    Text(String),
    Principal(String),
    Reserved,
    Opt(Option<Box<StaticValue>>),
    Vector(Vec<StaticValue>),
    Record(Vec<StaticField>),
    Variant(String, Box<StaticValue>),
    Tuple(Vec<StaticValue>),
    Func(String, String),
}

#[derive(Debug)]
pub struct StaticField {
    pub name: String,
    pub value: StaticValue,
}

// ----- models -----

pub enum DynModel {
    Undefined,
    Null,
    Bool(bool),
    Int(int),
    Text(Seq<char>),
    Array(Seq<DynModel>),
    Object(Seq<PropModel>),
    FuncRef(Seq<char>, Seq<char>),
}

pub struct PropModel {
    pub key: Seq<char>,
    pub value: DynModel,
}

pub enum StaticModel {
    Null,
    Bool(bool),
    Int(int),
    Text(Seq<char>),
    Principal(Seq<char>),
    Reserved,
    Opt(Option<Box<StaticModel>>),
    Vector(Seq<StaticModel>),
    Record(Seq<FieldModel>),
    Variant(Seq<char>, Box<StaticModel>),
    Tuple(Seq<StaticModel>),
    Func(Seq<char>, Seq<char>),
}

pub struct FieldModel {
    pub name: Seq<char>,
    pub value: StaticModel,
}

pub open spec fn dyn_view(v: DynValue) -> DynModel
    decreases v,
{
    match v {
        DynValue::Undefined => DynModel::Undefined,
        DynValue::Null => DynModel::Null,
        DynValue::Bool(b) => DynModel::Bool(b),
        DynValue::Int(i) => DynModel::Int(i as int),
        DynValue::Text(s) => DynModel::Text(s@),
        DynValue::Array(a) => DynModel::Array(dyns_view(a@)),
        DynValue::Object(p) => DynModel::Object(props_view(p@)),
        DynValue::FuncRef(p, m) => DynModel::FuncRef(p@, m@),
    }
}

pub open spec fn dyns_view(s: Seq<DynValue>) -> Seq<DynModel>
    decreases s,
{
    if s.len() == 0 {
        Seq::empty()
    } else {
        dyns_view(s.drop_last()).push(dyn_view(s.last()))
    }
}

pub open spec fn props_view(s: Seq<DynProp>) -> Seq<PropModel>
    decreases s,
{
    if s.len() == 0 {
        Seq::empty()
    } else {
        props_view(s.drop_last()).push(PropModel { key: s.last().key@, value: dyn_view(s.last().value) })
    }
}

pub open spec fn static_view(v: StaticValue) -> StaticModel
    decreases v,
{
    match v {
        StaticValue::Null => StaticModel::Null,
        StaticValue::Bool(b) => StaticModel::Bool(b),
        StaticValue::Int(i) => StaticModel::Int(i as int),
        StaticValue::Text(s) => StaticModel::Text(s@),
        StaticValue::Principal(s) => StaticModel::Principal(s@),
        StaticValue::Reserved => StaticModel::Reserved,
        StaticValue::Opt(o) => match o {
            Some(b) => StaticModel::Opt(Some(Box::new(static_view(*b)))),
            None => StaticModel::Opt(None),
        },
        StaticValue::Vector(s) => StaticModel::Vector(statics_view(s@)),
        StaticValue::Record(f) => StaticModel::Record(fields_view(f@)),
        StaticValue::Variant(t, b) => StaticModel::Variant(t@, Box::new(static_view(*b))),
        StaticValue::Tuple(s) => StaticModel::Tuple(statics_view(s@)),
        StaticValue::Func(p, m) => StaticModel::Func(p@, m@),
    }
}

pub open spec fn statics_view(s: Seq<StaticValue>) -> Seq<StaticModel>
    decreases s,
{
    if s.len() == 0 {
        Seq::empty()
    } else {
        statics_view(s.drop_last()).push(static_view(s.last()))
    }
}

pub open spec fn fields_view(s: Seq<StaticField>) -> Seq<FieldModel>
    decreases s,
{
    if s.len() == 0 {
        Seq::empty()
    } else {
        fields_view(s.drop_last()).push(
            FieldModel { name: s.last().name@, value: static_view(s.last().value) },
        )
    }
}

impl View for DynValue {
    type V = DynModel;

    open spec fn view(&self) -> DynModel {
        dyn_view(*self)
    }
}

impl View for StaticValue {
    type V = StaticModel;

    open spec fn view(&self) -> StaticModel {
        static_view(*self)
    }
}

// ----- decoding -----

/// Why a dynamic value does not fit a type: the identifier of the type that
/// was expected and, where there is one, the field or tag concerned.
pub struct MismatchModel {
    pub expected: Seq<char>,
    pub name: Option<Seq<char>>,
    pub found: Seq<char>,
}

/// The kind of a dynamic value, as named in a mismatch.
pub open spec fn found_of(v: DynModel) -> Seq<char> {
    match v {
        DynModel::Undefined => "undefined"@,
        DynModel::Null => "null"@,
        DynModel::Bool(_) => "boolean"@,
        DynModel::Int(_) => "integer"@,
        DynModel::Text(_) => "text"@,
        DynModel::Array(_) => "array"@,
        DynModel::Object(_) => "object"@,
        DynModel::FuncRef(_, _) => "function reference"@,
    }
}

pub open spec fn mismatch(t: TypeNode, v: DynModel) -> MismatchModel {
    MismatchModel { expected: t.ident(), name: None, found: found_of(v) }
}

/// A mismatch met inside the field or tag `name`; a mismatch that already
/// names a deeper field or tag keeps that name.
pub open spec fn within(e: MismatchModel, name: Seq<char>) -> MismatchModel {
    match e.name {
        Some(_) => e,
        None => MismatchModel { expected: e.expected, name: Some(name), found: e.found },
    }
}

/// Whether an integer lies in the range of an integer kind.
pub open spec fn int_fits(l: ActPrimitiveLit, i: int) -> bool {
    match l {
        ActPrimitiveLit::Int => i128::MIN <= i <= i128::MAX,
        ActPrimitiveLit::Int8 => i8::MIN <= i <= i8::MAX,
        ActPrimitiveLit::Int16 => i16::MIN <= i <= i16::MAX,
        ActPrimitiveLit::Int32 => i32::MIN <= i <= i32::MAX,
        ActPrimitiveLit::Int64 => i64::MIN <= i <= i64::MAX,
        ActPrimitiveLit::Nat => 0 <= i <= i128::MAX,
        ActPrimitiveLit::Nat8 => 0 <= i <= u8::MAX,
        ActPrimitiveLit::Nat16 => 0 <= i <= u16::MAX,
        ActPrimitiveLit::Nat32 => 0 <= i <= u32::MAX,
        ActPrimitiveLit::Nat64 => 0 <= i <= u64::MAX,
        _ => false,
    }
}

pub open spec fn is_int_kind(l: ActPrimitiveLit) -> bool {
    match l {
        ActPrimitiveLit::Int | ActPrimitiveLit::Int8 | ActPrimitiveLit::Int16
        | ActPrimitiveLit::Int32 | ActPrimitiveLit::Int64 | ActPrimitiveLit::Nat
        | ActPrimitiveLit::Nat8 | ActPrimitiveLit::Nat16 | ActPrimitiveLit::Nat32
        | ActPrimitiveLit::Nat64 => true,
        _ => false,
    }
}

/// Whether candid accepts the text as a principal in textual form.
pub uninterp spec fn principal_text_ok(s: Seq<char>) -> bool;

/// Relies on `candid::Principal::from_text`: it parses the textual form of a
/// principal (base32 with a check sequence, grouped by dashes) and its answer
/// depends on the text alone.
#[verifier::external_body]
fn is_principal_text(s: &String) -> (r: bool)
    ensures
        r == principal_text_ok(s@),
{
    match candid::Principal::from_text(s) {
        Ok(_) => true,
        Err(_) => false,
    }
}

/// An integer in the range of a byte.
pub open spec fn is_byte(d: DynModel) -> bool {
    d matches DynModel::Int(i) && 0 <= i <= 255
}

pub open spec fn all_bytes(a: Seq<DynModel>) -> bool {
    forall|i: int| 0 <= i < a.len() ==> is_byte(#[trigger] a[i])
}

/// A byte sequence as a static value: a vector of its bytes.
pub open spec fn blob_of(a: Seq<DynModel>) -> Seq<StaticModel> {
    a.map_values(|d: DynModel| StaticModel::Int(d->Int_0))
}

/// Decoding of a primitive kind; `t` is the node that names it.  A byte
/// sequence is an array of integers in `0..=255`.
pub open spec fn decode_primitive(t: TypeNode, l: ActPrimitiveLit, v: DynModel) -> Result<
    StaticModel,
    MismatchModel,
> {
    match (l, v) {
        (ActPrimitiveLit::Bool, DynModel::Bool(b)) => Ok(StaticModel::Bool(b)),
        (ActPrimitiveLit::Text, DynModel::Text(s)) => Ok(StaticModel::Text(s)),
        (ActPrimitiveLit::Principal, DynModel::Text(s)) => if principal_text_ok(s) {
            Ok(StaticModel::Principal(s))
        } else {
            Err(mismatch(t, v))
        },
        (ActPrimitiveLit::Null, DynModel::Null) => Ok(StaticModel::Null),
        (ActPrimitiveLit::Void, DynModel::Undefined) => Ok(StaticModel::Null),
        (ActPrimitiveLit::Void, DynModel::Null) => Ok(StaticModel::Null),
        (ActPrimitiveLit::Reserved, _) => Ok(StaticModel::Reserved),
        (ActPrimitiveLit::Blob, DynModel::Array(a)) => if all_bytes(a) {
            Ok(StaticModel::Vector(blob_of(a)))
        } else {
            Err(mismatch(t, v))
        },
        (_, DynModel::Int(i)) => if is_int_kind(l) && int_fits(l, i) {
            Ok(StaticModel::Int(i))
        } else {
            Err(mismatch(t, v))
        },
        _ => Err(mismatch(t, v)),
    }
}

/// The position of the first property with the given key, if any.
pub open spec fn prop_index(props: Seq<PropModel>, key: Seq<char>) -> Option<int>
    decreases props.len(),
{
    if props.len() == 0 {
        None
    } else {
        match prop_index(props.drop_last(), key) {
            Some(i) => Some(i),
            None => if props.last().key == key {
                Some(props.len() - 1)
            } else {
                None
            },
        }
    }
}

/// The first declared member whose name is a key of the object.
pub open spec fn first_tag(members: Seq<MemberNode>, props: Seq<PropModel>) -> Option<int>
    decreases members.len(),
{
    if members.len() == 0 {
        None
    } else {
        match first_tag(members.drop_last(), props) {
            Some(i) => Some(i),
            None => if prop_index(props, members.last().name) is Some {
                Some(members.len() - 1)
            } else {
                None
            },
        }
    }
}

pub open spec fn names_distinct(members: Seq<MemberNode>) -> bool {
    forall|i: int, j: int| 0 <= i < j < members.len() ==> members[i].name != members[j].name
}

/// The static value for `v` as a value of type `t`.  Named types are looked
/// up in `env` by identifier; `hops` bounds how many references may be
/// followed before a value is consumed, so that a cycle of references that
/// never reaches a shape is reported instead of followed for ever.
pub open spec fn decode(t: TypeNode, v: DynModel, env: Seq<TypeNode>, hops: nat) -> Result<
    StaticModel,
    MismatchModel,
>
    decreases v, hops,
{
    match t {
        TypeNode::Primitive { aliased, .. } => match aliased {
            AliasedModel::Primitive(l) => decode_primitive(t, l, v),
            AliasedModel::TypeRef(name) => decode_ref(t, name, v, env, hops),
        },
        TypeNode::TypeRef { aliased, .. } => match aliased {
            AliasedModel::Primitive(l) => decode_primitive(t, l, v),
            AliasedModel::TypeRef(name) => decode_ref(t, name, v, env, hops),
        },
        TypeNode::Opt { elem, .. } => match v {
            DynModel::Array(a) => if a.len() == 0 {
                Ok(StaticModel::Opt(None))
            } else if a.len() == 1 {
                match decode(*elem, a[0], env, env.len()) {
                    Ok(x) => Ok(StaticModel::Opt(Some(Box::new(x)))),
                    Err(e) => Err(e),
                }
            } else {
                Err(mismatch(t, v))
            },
            _ => Err(mismatch(t, v)),
        },
        TypeNode::Array { elem, .. } => match v {
            DynModel::Array(a) => match decode_same(*elem, a, env) {
                Ok(xs) => Ok(StaticModel::Vector(xs)),
                Err(e) => Err(e),
            },
            _ => Err(mismatch(t, v)),
        },
        TypeNode::Tuple { elems, .. } => match v {
            DynModel::Array(a) => if a.len() == elems.len() {
                match decode_each(elems, a, env) {
                    Ok(xs) => Ok(StaticModel::Tuple(xs)),
                    Err(e) => Err(e),
                }
            } else {
                Err(mismatch(t, v))
            },
            _ => Err(mismatch(t, v)),
        },
        TypeNode::Record { members, .. } => match v {
            DynModel::Object(props) => if names_distinct(members) {
                match decode_fields(members, props, env) {
                    Ok(fs) => Ok(StaticModel::Record(fs)),
                    Err(e) => Err(e),
                }
            } else {
                Err(mismatch(t, v))
            },
            _ => Err(mismatch(t, v)),
        },
        TypeNode::Variant { members, .. } => match v {
            DynModel::Object(props) => decode_variant(t, members, props, env),
            _ => Err(mismatch(t, v)),
        },
        TypeNode::Func { .. } => match v {
            DynModel::FuncRef(p, m) => Ok(StaticModel::Func(p, m)),
            _ => Err(mismatch(t, v)),
        },
    }
}

/// The first declared tag that is a key of the object, decoded from the
/// property of that key.
pub open spec fn decode_variant(
    t: TypeNode,
    members: Seq<MemberNode>,
    props: Seq<PropModel>,
    env: Seq<TypeNode>,
) -> Result<StaticModel, MismatchModel>
    decreases props, 0nat,
{
    match first_tag(members, props) {
        Some(k) => if 0 <= k < members.len() {
            match prop_index(props, members[k].name) {
                Some(p) => if 0 <= p < props.len() {
                    match decode(members[k].ty, props[p].value, env, env.len()) {
                        Ok(x) => Ok(StaticModel::Variant(members[k].name, Box::new(x))),
                        Err(e) => Err(within(e, members[k].name)),
                    }
                } else {
                    Err(mismatch(t, DynModel::Object(props)))
                },
                None => Err(mismatch(t, DynModel::Object(props))),
            }
        } else {
            Err(mismatch(t, DynModel::Object(props)))
        },
        None => Err(mismatch(t, DynModel::Object(props))),
    }
}

/// Follows a reference to the named type `name`.
pub open spec fn decode_ref(
    t: TypeNode,
    name: Seq<char>,
    v: DynModel,
    env: Seq<TypeNode>,
    hops: nat,
) -> Result<StaticModel, MismatchModel>
    decreases v, hops, 0nat,
{
    if hops == 0 {
        Err(mismatch(t, v))
    } else {
        match named_index(env, name) {
            Some(k) => if 0 <= k < env.len() {
                decode(env[k], v, env, (hops - 1) as nat)
            } else {
                Err(mismatch(t, v))
            },
            None => Err(mismatch(t, v)),
        }
    }
}

/// The position of the first named type with the given identifier.
pub open spec fn named_index(env: Seq<TypeNode>, name: Seq<char>) -> Option<int>
    decreases env.len(),
{
    if env.len() == 0 {
        None
    } else {
        match named_index(env.drop_last(), name) {
            Some(i) => Some(i),
            None => if env.last().ident() == name {
                Some(env.len() - 1)
            } else {
                None
            },
        }
    }
}

/// Each element as a value of `t`; the first failure in order is reported.
pub open spec fn decode_same(t: TypeNode, a: Seq<DynModel>, env: Seq<TypeNode>) -> Result<
    Seq<StaticModel>,
    MismatchModel,
>
    decreases a,
{
    if a.len() == 0 {
        Ok(Seq::empty())
    } else {
        match decode_same(t, a.drop_last(), env) {
            Err(e) => Err(e),
            Ok(xs) => match decode(t, a.last(), env, env.len()) {
                Err(e) => Err(e),
                Ok(x) => Ok(xs.push(x)),
            },
        }
    }
}

/// Element `i` as a value of `ts[i]`, for `a` and `ts` of one length.
pub open spec fn decode_each(ts: Seq<TypeNode>, a: Seq<DynModel>, env: Seq<TypeNode>) -> Result<
    Seq<StaticModel>,
    MismatchModel,
>
    decreases a,
{
    if a.len() == 0 || ts.len() != a.len() {
        Ok(Seq::empty())
    } else {
        match decode_each(ts.drop_last(), a.drop_last(), env) {
            Err(e) => Err(e),
            Ok(xs) => match decode(ts.last(), a.last(), env, env.len()) {
                Err(e) => Err(e),
                Ok(x) => Ok(xs.push(x)),
            },
        }
    }
}

/// Each declared field from the property of its name, in declared order.
pub open spec fn decode_fields(
    members: Seq<MemberNode>,
    props: Seq<PropModel>,
    env: Seq<TypeNode>,
) -> Result<Seq<FieldModel>, MismatchModel>
    decreases props, members.len(),
{
    if members.len() == 0 {
        Ok(Seq::empty())
    } else {
        match decode_fields(members.drop_last(), props, env) {
            Err(e) => Err(e),
            Ok(fs) => match prop_index(props, members.last().name) {
                Some(p) => if 0 <= p < props.len() {
                    match decode(members.last().ty, props[p].value, env, env.len()) {
                        Err(e) => Err(within(e, members.last().name)),
                        Ok(x) => Ok(fs.push(FieldModel { name: members.last().name, value: x })),
                    }
                } else {
                    Err(MismatchModel {
                        expected: members.last().ty.ident(),
                        name: Some(members.last().name),
                        found: "undefined"@,
                    })
                },
                None => Err(
                    MismatchModel {
                        expected: members.last().ty.ident(),
                        name: Some(members.last().name),
                        found: "undefined"@,
                    },
                ),
            },
        }
    }
}

// ----- encoding -----

/// The dynamic value that stands for a static value.  Optionals become
/// arrays of zero or one element, records objects with one property per
/// field, variants objects with the single property of their tag.
pub open spec fn encode(s: StaticModel) -> DynModel
    decreases s,
{
    match s {
        StaticModel::Null => DynModel::Null,
        StaticModel::Bool(b) => DynModel::Bool(b),
        StaticModel::Int(i) => DynModel::Int(i),
        StaticModel::Text(t) => DynModel::Text(t),
        StaticModel::Principal(t) => DynModel::Text(t),
        StaticModel::Reserved => DynModel::Null,
        StaticModel::Opt(o) => match o {
            Some(x) => DynModel::Array(seq![encode(*x)]),
            None => DynModel::Array(Seq::empty()),
        },
        StaticModel::Vector(xs) => DynModel::Array(encode_all(xs)),
        StaticModel::Record(fs) => DynModel::Object(encode_fields(fs)),
        StaticModel::Variant(tag, x) => DynModel::Object(
            seq![PropModel { key: tag, value: encode(*x) }],
        ),
        StaticModel::Tuple(xs) => DynModel::Array(encode_all(xs)),
        StaticModel::Func(p, m) => DynModel::FuncRef(p, m),
    }
}

pub open spec fn encode_all(xs: Seq<StaticModel>) -> Seq<DynModel>
    decreases xs,
{
    if xs.len() == 0 {
        Seq::empty()
    } else {
        encode_all(xs.drop_last()).push(encode(xs.last()))
    }
}

pub open spec fn encode_fields(fs: Seq<FieldModel>) -> Seq<PropModel>
    decreases fs,
{
    if fs.len() == 0 {
        Seq::empty()
    } else {
        encode_fields(fs.drop_last()).push(PropModel { key: fs.last().name, value: encode(fs.last().value) })
    }
}

pub proof fn lemma_dyns_view(s: Seq<DynValue>)
    ensures
        dyns_view(s).len() == s.len(),
        forall|i: int| 0 <= i < s.len() ==> #[trigger] dyns_view(s)[i] == s[i]@,
    decreases s.len(),
{
    if s.len() > 0 {
        lemma_dyns_view(s.drop_last());
    }
}

pub proof fn lemma_props_view(s: Seq<DynProp>)
    ensures
        props_view(s).len() == s.len(),
        forall|i: int|
            0 <= i < s.len() ==> #[trigger] props_view(s)[i] == (PropModel {
                key: s[i].key@,
                value: s[i].value@,
            }),
    decreases s.len(),
{
    if s.len() > 0 {
        lemma_props_view(s.drop_last());
    }
}

pub proof fn lemma_statics_view(s: Seq<StaticValue>)
    ensures
        statics_view(s).len() == s.len(),
        forall|i: int| 0 <= i < s.len() ==> #[trigger] statics_view(s)[i] == s[i]@,
    decreases s.len(),
{
    if s.len() > 0 {
        lemma_statics_view(s.drop_last());
    }
}

pub proof fn lemma_fields_view(s: Seq<StaticField>)
    ensures
        fields_view(s).len() == s.len(),
        forall|i: int|
            0 <= i < s.len() ==> #[trigger] fields_view(s)[i] == (FieldModel {
                name: s[i].name@,
                value: s[i].value@,
            }),
    decreases s.len(),
{
    if s.len() > 0 {
        lemma_fields_view(s.drop_last());
    }
}

proof fn lemma_encode_all(xs: Seq<StaticModel>)
    ensures
        encode_all(xs).len() == xs.len(),
        forall|i: int| 0 <= i < xs.len() ==> #[trigger] encode_all(xs)[i] == encode(xs[i]),
    decreases xs.len(),
{
    if xs.len() > 0 {
        lemma_encode_all(xs.drop_last());
    }
}

proof fn lemma_encode_fields(fs: Seq<FieldModel>)
    ensures
        encode_fields(fs).len() == fs.len(),
        forall|i: int|
            0 <= i < fs.len() ==> #[trigger] encode_fields(fs)[i] == (PropModel {
                key: fs[i].name,
                value: encode(fs[i].value),
            }),
    decreases fs.len(),
{
    if fs.len() > 0 {
        lemma_encode_fields(fs.drop_last());
    }
}

/// The dynamic values that stand for a sequence of static values.
pub fn encode_values(xs: &Vec<StaticValue>) -> (r: Vec<DynValue>)
    ensures
        dyns_view(r@) == encode_all(statics_view(xs@)),
    decreases xs,
{
    let mut r: Vec<DynValue> = Vec::new();
    let mut i: usize = 0;
    proof {
        lemma_statics_view(xs@);
        lemma_encode_all(statics_view(xs@));
    }
    while i < xs.len()
        invariant
            i <= xs.len(),
            r.len() == i,
            statics_view(xs@).len() == xs.len(),
            forall|j: int| 0 <= j < xs.len() ==> #[trigger] statics_view(xs@)[j] == xs@[j]@,
            encode_all(statics_view(xs@)).len() == xs.len(),
            forall|j: int|
                0 <= j < xs.len() ==> #[trigger] encode_all(statics_view(xs@))[j] == encode(
                    statics_view(xs@)[j],
                ),
            forall|j: int| 0 <= j < i ==> #[trigger] r@[j]@ == encode(xs@[j]@),
        decreases xs.len() - i,
    {
        let d = xs[i].encode_value();
        r.push(d);
        i = i + 1;
    }
    proof {
        lemma_dyns_view(r@);
        assert(dyns_view(r@) =~= encode_all(statics_view(xs@)));
    }
    r
}

fn encode_field_values(fs: &Vec<StaticField>) -> (r: Vec<DynProp>)
    ensures
        props_view(r@) == encode_fields(fields_view(fs@)),
    decreases fs,
{
    let mut r: Vec<DynProp> = Vec::new();
    let mut i: usize = 0;
    proof {
        lemma_fields_view(fs@);
        lemma_encode_fields(fields_view(fs@));
    }
    while i < fs.len()
        invariant
            i <= fs.len(),
            r.len() == i,
            fields_view(fs@).len() == fs.len(),
            forall|j: int|
                0 <= j < fs.len() ==> #[trigger] fields_view(fs@)[j] == (FieldModel {
                    name: fs@[j].name@,
                    value: fs@[j].value@,
                }),
            encode_fields(fields_view(fs@)).len() == fs.len(),
            forall|j: int|
                0 <= j < fs.len() ==> #[trigger] encode_fields(fields_view(fs@))[j] == (PropModel {
                    key: fields_view(fs@)[j].name,
                    value: encode(fields_view(fs@)[j].value),
                }),
            forall|j: int|
                0 <= j < i ==> #[trigger] r@[j].key@ == fs@[j].name@ && r@[j].value@ == encode(
                    fs@[j].value@,
                ),
        decreases fs.len() - i,
    {
        let d = DynProp { key: fs[i].name.clone(), value: fs[i].value.encode_value() };
        r.push(d);
        i = i + 1;
    }
    proof {
        lemma_props_view(r@);
        assert(props_view(r@) =~= encode_fields(fields_view(fs@)));
    }
    r
}

impl StaticValue {
    /// The dynamic value that stands for this static value; always defined.
    pub fn encode_value(&self) -> (r: DynValue)
        ensures
            r@ == encode(self@),
        decreases self,
    {
        match self {
            StaticValue::Null => DynValue::Null,
            StaticValue::Bool(b) => DynValue::Bool(*b),
            StaticValue::Int(i) => DynValue::Int(*i),
            StaticValue::Text(t) => DynValue::Text(t.clone()),
            StaticValue::Principal(t) => DynValue::Text(t.clone()),
            StaticValue::Reserved => DynValue::Null,
            StaticValue::Opt(o) => match o {
                Some(x) => {
                    let d = x.encode_value();
                    let mut a: Vec<DynValue> = Vec::new();
                    a.push(d);
                    proof {
                        lemma_dyns_view(a@);
                        assert(dyns_view(a@) =~= seq![encode(x@)]);
                    }
                    DynValue::Array(a)
                },
                None => {
                    let a: Vec<DynValue> = Vec::new();
                    assert(dyns_view(a@) =~= Seq::<DynModel>::empty());
                    DynValue::Array(a)
                },
            },
            StaticValue::Vector(xs) => DynValue::Array(encode_values(xs)),
            StaticValue::Record(fs) => DynValue::Object(encode_field_values(fs)),
            StaticValue::Variant(tag, x) => {
                let mut p: Vec<DynProp> = Vec::new();
                p.push(DynProp { key: tag.clone(), value: x.encode_value() });
                proof {
                    lemma_props_view(p@);
                    assert(props_view(p@) =~= seq![PropModel { key: tag@, value: encode(x@) }]);
                }
                DynValue::Object(p)
            },
            StaticValue::Tuple(xs) => DynValue::Array(encode_values(xs)),
            StaticValue::Func(p, m) => DynValue::FuncRef(p.clone(), m.clone()),
        }
    }
}

// ----- executable decoding -----

/// A dynamic value that does not fit the type it was decoded against.
#[derive(Debug)]
pub struct DecodeError {
    /// Identifier of the expected type.
    pub expected: String,
    /// The field or tag concerned, where there is one.
    pub name: Option<String>,
    /// The kind of value that was found instead.
    pub found: String,
}

impl View for DecodeError {
    type V = MismatchModel;

    open spec fn view(&self) -> MismatchModel {
        MismatchModel {
            expected: self.expected@,
            name: match self.name {
                Some(n) => Some(n@),
                None => None,
            },
            found: self.found@,
        }
    }
}

pub open spec fn result_view(r: Result<StaticValue, DecodeError>) -> Result<StaticModel, MismatchModel> {
    match r {
        Ok(x) => Ok(x@),
        Err(e) => Err(e@),
    }
}

pub proof fn lemma_prop_index(ps: Seq<PropModel>, key: Seq<char>)
    ensures
        match prop_index(ps, key) {
            Some(i) => 0 <= i < ps.len() && ps[i].key == key && forall|j: int|
                0 <= j < i ==> #[trigger] ps[j].key != key,
            None => forall|j: int| 0 <= j < ps.len() ==> #[trigger] ps[j].key != key,
        },
    decreases ps.len(),
{
    if ps.len() > 0 {
        let t = ps.drop_last();
        lemma_prop_index(t, key);
        match prop_index(t, key) {
            Some(i) => {
                assert(ps[i] == t[i]);
                assert forall|j: int| 0 <= j < i implies #[trigger] ps[j].key != key by {
                    assert(ps[j] == t[j]);
                }
            },
            None => {
                assert forall|j: int| 0 <= j < ps.len() - 1 implies #[trigger] ps[j].key != key by {
                    assert(ps[j] == t[j]);
                }
            },
        }
    }
}

pub proof fn lemma_named_index(env: Seq<TypeNode>, name: Seq<char>)
    ensures
        match named_index(env, name) {
            Some(i) => 0 <= i < env.len() && env[i].ident() == name && forall|j: int|
                0 <= j < i ==> #[trigger] env[j].ident() != name,
            None => forall|j: int| 0 <= j < env.len() ==> #[trigger] env[j].ident() != name,
        },
    decreases env.len(),
{
    if env.len() > 0 {
        let t = env.drop_last();
        lemma_named_index(t, name);
        match named_index(t, name) {
            Some(i) => {
                assert(env[i] == t[i]);
                assert forall|j: int| 0 <= j < i implies #[trigger] env[j].ident() != name by {
                    assert(env[j] == t[j]);
                }
            },
            None => {
                assert forall|j: int| 0 <= j < env.len() - 1 implies #[trigger] env[j].ident() != name by {
                    assert(env[j] == t[j]);
                }
            },
        }
    }
}

pub proof fn lemma_first_tag(ms: Seq<MemberNode>, ps: Seq<PropModel>)
    ensures
        match first_tag(ms, ps) {
            Some(k) => 0 <= k < ms.len() && prop_index(ps, ms[k].name) is Some && forall|j: int|
                0 <= j < k ==> #[trigger] prop_index(ps, ms[j].name) is None,
            None => forall|j: int| 0 <= j < ms.len() ==> #[trigger] prop_index(ps, ms[j].name) is None,
        },
    decreases ms.len(),
{
    if ms.len() > 0 {
        let t = ms.drop_last();
        lemma_first_tag(t, ps);
        match first_tag(t, ps) {
            Some(i) => {
                assert(ms[i] == t[i]);
                assert forall|j: int| 0 <= j < i implies #[trigger] prop_index(ps, ms[j].name) is None by {
                    assert(ms[j] == t[j]);
                }
            },
            None => {
                assert forall|j: int| 0 <= j < ms.len() - 1 implies #[trigger] prop_index(ps, ms[j].name) is None by {
                    assert(ms[j] == t[j]);
                }
            },
        }
    }
}

fn find_prop(props: &Vec<DynProp>, key: &String) -> (r: Option<usize>)
    ensures
        match r {
            Some(i) => prop_index(props_view(props@), key@) == Some(i as int),
            None => prop_index(props_view(props@), key@) is None,
        },
{
    proof {
        lemma_props_view(props@);
        lemma_prop_index(props_view(props@), key@);
    }
    let mut i: usize = 0;
    while i < props.len()
        invariant
            i <= props.len(),
            props_view(props@).len() == props.len(),
            forall|j: int| 0 <= j < props.len() ==> #[trigger] props_view(props@)[j].key == props@[j].key@,
            forall|j: int| 0 <= j < i ==> #[trigger] props@[j].key@ != key@,
        decreases props.len() - i,
    {
        if props[i].key == *key {
            proof {
                lemma_prop_index(props_view(props@), key@);
                assert(props_view(props@)[i as int].key == key@);
                match prop_index(props_view(props@), key@) {
                    Some(k) => {
                        if k < i {
                            assert(props_view(props@)[k].key == key@);
                        } else if k > i {
                            assert(props_view(props@)[i as int].key != key@);
                        }
                    },
                    None => {
                        assert(props_view(props@)[i as int].key != key@);
                    },
                }
            }
            return Some(i);
        }
        i = i + 1;
    }
    proof {
        lemma_prop_index(props_view(props@), key@);
        if let Some(k) = prop_index(props_view(props@), key@) {
            assert(props_view(props@)[k].key == key@);
            assert(props@[k].key@ != key@);
        }
    }
    None
}

fn find_named(env: &Vec<ActDataTypeNode>, name: &String) -> (r: Option<usize>)
    ensures
        match r {
            Some(i) => named_index(views(env@), name@) == Some(i as int),
            None => named_index(views(env@), name@) is None,
        },
{
    proof {
        lemma_named_index(views(env@), name@);
    }
    let mut i: usize = 0;
    while i < env.len()
        invariant
            i <= env.len(),
            forall|j: int| 0 <= j < i ==> #[trigger] views(env@)[j].ident() != name@,
        decreases env.len() - i,
    {
        let id = env[i].get_type_ident();
        if id == *name {
            proof {
                lemma_named_index(views(env@), name@);
                assert(views(env@)[i as int].ident() == name@);
                match named_index(views(env@), name@) {
                    Some(k) => {
                        if k < i {
                            assert(views(env@)[k].ident() == name@);
                        } else if k > i {
                            assert(views(env@)[i as int].ident() != name@);
                        }
                    },
                    None => {
                        assert(views(env@)[i as int].ident() != name@);
                    },
                }
            }
            return Some(i);
        }
        i = i + 1;
    }
    proof {
        lemma_named_index(views(env@), name@);
        if let Some(k) = named_index(views(env@), name@) {
            assert(views(env@)[k].ident() == name@);
        }
    }
    None
}

fn found_str(v: &DynValue) -> (r: &'static str)
    ensures
        r@ == found_of(v@),
{
    match v {
        DynValue::Undefined => "undefined",
        DynValue::Null => "null",
        DynValue::Bool(_) => "boolean",
        DynValue::Int(_) => "integer",
        DynValue::Text(_) => "text",
        DynValue::Array(_) => "array",
        DynValue::Object(_) => "object",
        DynValue::FuncRef(_, _) => "function reference",
    }
}

fn mismatch_of(t: &ActDataTypeNode, v: &DynValue) -> (r: DecodeError)
    ensures
        r@ == mismatch(t@, v@),
{
    DecodeError { expected: t.get_type_ident(), name: None, found: String::from_str(found_str(v)) }
}

fn object_mismatch(t: &ActDataTypeNode, props: &Vec<DynProp>) -> (r: DecodeError)
    ensures
        r@ == mismatch(t@, DynModel::Object(props_view(props@))),
{
    DecodeError { expected: t.get_type_ident(), name: None, found: String::from_str("object") }
}

fn within_exec(e: DecodeError, name: &String) -> (r: DecodeError)
    ensures
        r@ == within(e@, name@),
{
    match e.name {
        Some(_) => e,
        None => DecodeError { expected: e.expected, name: Some(name.clone()), found: e.found },
    }
}

fn int_fits_exec(l: ActPrimitiveLit, i: i128) -> (r: bool)
    ensures
        r == (is_int_kind(l) && int_fits(l, i as int)),
{
    match l {
        ActPrimitiveLit::Int => true,
        ActPrimitiveLit::Int8 => -128 <= i && i <= 127,
        ActPrimitiveLit::Int16 => -32768 <= i && i <= 32767,
        ActPrimitiveLit::Int32 => -2147483648 <= i && i <= 2147483647,
        ActPrimitiveLit::Int64 => -9223372036854775808 <= i && i <= 9223372036854775807,
        ActPrimitiveLit::Nat => 0 <= i,
        ActPrimitiveLit::Nat8 => 0 <= i && i <= 255,
        ActPrimitiveLit::Nat16 => 0 <= i && i <= 65535,
        ActPrimitiveLit::Nat32 => 0 <= i && i <= 4294967295,
        ActPrimitiveLit::Nat64 => 0 <= i && i <= 18446744073709551615,
        _ => false,
    }
}

fn decode_blob(t: &ActDataTypeNode, v: &DynValue, a: &Vec<DynValue>) -> (r: Result<
    StaticValue,
    DecodeError,
>)
    requires
        v@ == DynModel::Array(dyns_view(a@)),
    ensures
        result_view(r) == decode_primitive(t@, ActPrimitiveLit::Blob, v@),
{
    let ghost ds = dyns_view(a@);
    proof {
        lemma_dyns_view(a@);
    }
    let mut out: Vec<StaticValue> = Vec::new();
    let mut i: usize = 0;
    while i < a.len()
        invariant
            i <= a.len(),
            ds == dyns_view(a@),
            v@ == DynModel::Array(ds),
            ds.len() == a.len(),
            forall|j: int| 0 <= j < a.len() ==> #[trigger] ds[j] == a@[j]@,
            out.len() == i,
            forall|j: int| 0 <= j < i ==> is_byte(#[trigger] ds[j]),
            forall|j: int| 0 <= j < i ==> #[trigger] out@[j]@ == StaticModel::Int(ds[j]->Int_0),
        decreases a.len() - i,
    {
        match &a[i] {
            DynValue::Int(x) => {
                if 0 <= *x && *x <= 255 {
                    out.push(StaticValue::Int(*x));
                } else {
                    assert(ds[i as int] == DynModel::Int(*x as int));
                    assert(!is_byte(ds[i as int]));
                    assert(!all_bytes(ds));
                    return Err(mismatch_of(t, v));
                }
            },
            _ => {
                assert(!(ds[i as int] is Int));
                assert(!is_byte(ds[i as int]));
                assert(!all_bytes(ds));
                return Err(mismatch_of(t, v));
            },
        }
        i = i + 1;
    }
    proof {
        lemma_statics_view(out@);
        assert(statics_view(out@) =~= blob_of(ds));
    }
    Ok(StaticValue::Vector(out))
}

fn decode_primitive_exec(t: &ActDataTypeNode, l: ActPrimitiveLit, v: &DynValue) -> (r: Result<
    StaticValue,
    DecodeError,
>)
    ensures
        result_view(r) == decode_primitive(t@, l, v@),
{
    match (l, v) {
        (ActPrimitiveLit::Bool, DynValue::Bool(b)) => Ok(StaticValue::Bool(*b)),
        (ActPrimitiveLit::Text, DynValue::Text(s)) => Ok(StaticValue::Text(s.clone())),
        (ActPrimitiveLit::Principal, DynValue::Text(s)) => if is_principal_text(s) {
            Ok(StaticValue::Principal(s.clone()))
        } else {
            Err(mismatch_of(t, v))
        },
        (ActPrimitiveLit::Null, DynValue::Null) => Ok(StaticValue::Null),
        (ActPrimitiveLit::Void, DynValue::Undefined) => Ok(StaticValue::Null),
        (ActPrimitiveLit::Void, DynValue::Null) => Ok(StaticValue::Null),
        (ActPrimitiveLit::Reserved, _) => Ok(StaticValue::Reserved),
        (ActPrimitiveLit::Blob, DynValue::Array(a)) => decode_blob(t, v, a),
        (_, DynValue::Int(i)) => if int_fits_exec(l, *i) {
            Ok(StaticValue::Int(*i))
        } else {
            Err(mismatch_of(t, v))
        },
        _ => Err(mismatch_of(t, v)),
    }
}

fn names_distinct_exec(members: &Vec<ActMember>) -> (r: bool)
    ensures
        r == names_distinct(members_view(members@)),
{
    proof {
        lemma_members_view(members@);
    }
    let ghost ms = members_view(members@);
    let mut i: usize = 0;
    while i < members.len()
        invariant
            i <= members.len(),
            ms == members_view(members@),
            ms.len() == members.len(),
            forall|j: int| 0 <= j < members.len() ==> #[trigger] ms[j].name == members@[j].name@,
            forall|a: int, b: int| 0 <= a < b < members.len() && a < i ==> ms[a].name != ms[b].name,
        decreases members.len() - i,
    {
        let mut j: usize = i + 1;
        while j < members.len()
            invariant
                i < members.len(),
                i + 1 <= j <= members.len(),
                ms == members_view(members@),
                ms.len() == members.len(),
                forall|k: int| 0 <= k < members.len() ==> #[trigger] ms[k].name == members@[k].name@,
                forall|a: int, b: int| 0 <= a < b < members.len() && a < i ==> ms[a].name != ms[b].name,
                forall|b: int| i < b < j ==> ms[i as int].name != #[trigger] ms[b].name,
            decreases members.len() - j,
        {
            if members[i].name == members[j].name {
                assert(ms[i as int].name == ms[j as int].name);
                return false;
            }
            j = j + 1;
        }
        i = i + 1;
    }
    true
}

/// Decodes `v` as a value of type `t`, looking up named types in `env` and
/// following at most `hops` references before a value is consumed.
pub fn decode_value(t: &ActDataTypeNode, v: &DynValue, env: &Vec<ActDataTypeNode>, hops: usize) -> (r:
    Result<StaticValue, DecodeError>)
    ensures
        result_view(r) == decode(t@, v@, views(env@), hops as nat),
    decreases v, hops,
{
    match t {
        ActDataTypeNode::Primitive(ActPrimitive::Literal(l)) => decode_primitive_exec(t, *l, v),
        ActDataTypeNode::Primitive(ActPrimitive::TypeAlias(a)) => match &a.aliased_type {
            ActAliasedType::Primitive(l) => decode_primitive_exec(t, *l, v),
            ActAliasedType::TypeRef(name) => decode_ref_exec(t, name, v, env, hops),
        },
        ActDataTypeNode::TypeRef(ActTypeRef::Literal(name)) => decode_ref_exec(t, name, v, env, hops),
        ActDataTypeNode::TypeRef(ActTypeRef::TypeAlias(a)) => match &a.aliased_type {
            ActAliasedType::Primitive(l) => decode_primitive_exec(t, *l, v),
            ActAliasedType::TypeRef(name) => decode_ref_exec(t, name, v, env, hops),
        },
        ActDataTypeNode::Option(o) => {
            let e = o.get_enclosed_type();
            match v {
                DynValue::Array(a) => {
                    proof {
                        lemma_dyns_view(a@);
                    }
                    if a.len() == 0 {
                        Ok(StaticValue::Opt(None))
                    } else if a.len() == 1 {
                        match decode_value(e, &a[0], env, env.len()) {
                            Ok(x) => Ok(StaticValue::Opt(Some(Box::new(x)))),
                            Err(err) => Err(err),
                        }
                    } else {
                        Err(mismatch_of(t, v))
                    }
                },
                _ => Err(mismatch_of(t, v)),
            }
        },
        ActDataTypeNode::Array(arr) => {
            let e = arr.get_enclosed_type();
            match v {
                DynValue::Array(a) => match decode_same_exec(e, a, env) {
                    Ok(xs) => Ok(StaticValue::Vector(xs)),
                    Err(err) => Err(err),
                },
                _ => Err(mismatch_of(t, v)),
            }
        },
        ActDataTypeNode::Tuple(tup) => {
            proof {
                lemma_nodes_view(tup.elems@);
            }
            match v {
                DynValue::Array(a) => {
                    proof {
                        lemma_dyns_view(a@);
                    }
                    if a.len() == tup.elems.len() {
                        match decode_each_exec(&tup.elems, a, env) {
                            Ok(xs) => Ok(StaticValue::Tuple(xs)),
                            Err(err) => Err(err),
                        }
                    } else {
                        Err(mismatch_of(t, v))
                    }
                },
                _ => Err(mismatch_of(t, v)),
            }
        },
        ActDataTypeNode::Record(rec) => match v {
            DynValue::Object(props) => if names_distinct_exec(&rec.members) {
                match decode_fields_exec(&rec.members, props, env) {
                    Ok(fs) => Ok(StaticValue::Record(fs)),
                    Err(err) => Err(err),
                }
            } else {
                Err(mismatch_of(t, v))
            },
            _ => Err(mismatch_of(t, v)),
        },
        ActDataTypeNode::Variant(var) => match v {
            DynValue::Object(props) => decode_variant_exec(t, &var.members, props, env),
            _ => Err(mismatch_of(t, v)),
        },
        ActDataTypeNode::Func(_) => match v {
            DynValue::FuncRef(p, m) => Ok(StaticValue::Func(p.clone(), m.clone())),
            _ => Err(mismatch_of(t, v)),
        },
    }
}

fn decode_ref_exec(
    t: &ActDataTypeNode,
    name: &String,
    v: &DynValue,
    env: &Vec<ActDataTypeNode>,
    hops: usize,
) -> (r: Result<StaticValue, DecodeError>)
    ensures
        result_view(r) == decode_ref(t@, name@, v@, views(env@), hops as nat),
    decreases v, hops, 0nat,
{
    if hops == 0 {
        return Err(mismatch_of(t, v));
    }
    match find_named(env, name) {
        Some(k) => {
            proof {
                lemma_named_index(views(env@), name@);
            }
            decode_value(&env[k], v, env, hops - 1)
        },
        None => Err(mismatch_of(t, v)),
    }
}

fn decode_same_exec(t: &ActDataTypeNode, a: &Vec<DynValue>, env: &Vec<ActDataTypeNode>) -> (r:
    Result<Vec<StaticValue>, DecodeError>)
    ensures
        match r {
            Ok(xs) => decode_same(t@, dyns_view(a@), views(env@)) == Ok::<Seq<StaticModel>, MismatchModel>(statics_view(xs@)),
            Err(e) => decode_same(t@, dyns_view(a@), views(env@)) == Err::<Seq<StaticModel>, MismatchModel>(e@),
        },
    decreases a,
{
    let ghost ds = dyns_view(a@);
    proof {
        lemma_dyns_view(a@);
    }
    let mut acc: Vec<StaticValue> = Vec::new();
    let mut failed: Option<DecodeError> = None;
    let mut i: usize = 0;
    while i < a.len()
        invariant
            i <= a.len(),
            ds == dyns_view(a@),
            ds.len() == a.len(),
            forall|j: int| 0 <= j < a.len() ==> #[trigger] ds[j] == a@[j]@,
            match failed {
                None => decode_same(t@, ds.subrange(0, i as int), views(env@)) == Ok::<Seq<StaticModel>, MismatchModel>(statics_view(acc@)),
                Some(e) => decode_same(t@, ds.subrange(0, i as int), views(env@)) == Err::<Seq<StaticModel>, MismatchModel>(e@),
            },
        decreases a.len() - i,
    {
        proof {
            assert(ds.subrange(0, i + 1).drop_last() =~= ds.subrange(0, i as int));
        }
        if failed.is_none() {
            match decode_value(t, &a[i], env, env.len()) {
                Ok(x) => {
                    let ghost prev = acc@;
                    acc.push(x);
                    proof {
                        assert(acc@.drop_last() == prev);
                    }
                },
                Err(e) => {
                    failed = Some(e);
                },
            }
        }
        i = i + 1;
    }
    assert(ds.subrange(0, a.len() as int) =~= ds);
    match failed {
        Some(e) => Err(e),
        None => Ok(acc),
    }
}

fn decode_each_exec(ts: &Vec<ActDataTypeNode>, a: &Vec<DynValue>, env: &Vec<ActDataTypeNode>) -> (r:
    Result<Vec<StaticValue>, DecodeError>)
    requires
        ts.len() == a.len(),
    ensures
        match r {
            Ok(xs) => decode_each(views(ts@), dyns_view(a@), views(env@)) == Ok::<Seq<StaticModel>, MismatchModel>(statics_view(xs@)),
            Err(e) => decode_each(views(ts@), dyns_view(a@), views(env@)) == Err::<Seq<StaticModel>, MismatchModel>(e@),
        },
    decreases a,
{
    let ghost ds = dyns_view(a@);
    let ghost vs = views(ts@);
    proof {
        lemma_dyns_view(a@);
    }
    let mut acc: Vec<StaticValue> = Vec::new();
    let mut failed: Option<DecodeError> = None;
    let mut i: usize = 0;
    while i < a.len()
        invariant
            i <= a.len(),
            ts.len() == a.len(),
            ds == dyns_view(a@),
            vs == views(ts@),
            ds.len() == a.len(),
            forall|j: int| 0 <= j < a.len() ==> #[trigger] ds[j] == a@[j]@,
            match failed {
                None => decode_each(vs.subrange(0, i as int), ds.subrange(0, i as int), views(env@)) == Ok::<Seq<StaticModel>, MismatchModel>(statics_view(acc@)),
                Some(e) => decode_each(vs.subrange(0, i as int), ds.subrange(0, i as int), views(env@)) == Err::<Seq<StaticModel>, MismatchModel>(e@),
            },
        decreases a.len() - i,
    {
        proof {
            assert(ds.subrange(0, i + 1).drop_last() =~= ds.subrange(0, i as int));
            assert(vs.subrange(0, i + 1).drop_last() =~= vs.subrange(0, i as int));
        }
        if failed.is_none() {
            match decode_value(&ts[i], &a[i], env, env.len()) {
                Ok(x) => {
                    let ghost prev = acc@;
                    acc.push(x);
                    proof {
                        assert(acc@.drop_last() == prev);
                    }
                },
                Err(e) => {
                    failed = Some(e);
                },
            }
        }
        i = i + 1;
    }
    assert(ds.subrange(0, a.len() as int) =~= ds);
    assert(vs.subrange(0, a.len() as int) =~= vs);
    match failed {
        Some(e) => Err(e),
        None => Ok(acc),
    }
}

fn decode_fields_exec(members: &Vec<ActMember>, props: &Vec<DynProp>, env: &Vec<ActDataTypeNode>) -> (r:
    Result<Vec<StaticField>, DecodeError>)
    ensures
        match r {
            Ok(fs) => decode_fields(members_view(members@), props_view(props@), views(env@)) == Ok::<Seq<FieldModel>, MismatchModel>(fields_view(fs@)),
            Err(e) => decode_fields(members_view(members@), props_view(props@), views(env@)) == Err::<Seq<FieldModel>, MismatchModel>(e@),
        },
    decreases props,
{
    let ghost ms = members_view(members@);
    let ghost ps = props_view(props@);
    proof {
        lemma_members_view(members@);
        lemma_props_view(props@);
    }
    let mut acc: Vec<StaticField> = Vec::new();
    let mut failed: Option<DecodeError> = None;
    let mut i: usize = 0;
    while i < members.len()
        invariant
            i <= members.len(),
            ms == members_view(members@),
            ps == props_view(props@),
            ms.len() == members.len(),
            ps.len() == props.len(),
            forall|j: int| 0 <= j < members.len() ==> #[trigger] ms[j] == (MemberNode {
                name: members@[j].name@,
                ty: members@[j].member_type@,
            }),
            forall|j: int| 0 <= j < props.len() ==> #[trigger] ps[j] == (PropModel {
                key: props@[j].key@,
                value: props@[j].value@,
            }),
            match failed {
                None => decode_fields(ms.subrange(0, i as int), ps, views(env@)) == Ok::<Seq<FieldModel>, MismatchModel>(fields_view(acc@)),
                Some(e) => decode_fields(ms.subrange(0, i as int), ps, views(env@)) == Err::<Seq<FieldModel>, MismatchModel>(e@),
            },
        decreases members.len() - i,
    {
        proof {
            assert(ms.subrange(0, i + 1).drop_last() =~= ms.subrange(0, i as int));
        }
        if failed.is_none() {
            match find_prop(props, &members[i].name) {
                Some(p) => {
                    proof {
                        lemma_prop_index(ps, members@[i as int].name@);
                    }
                    match decode_value(&members[i].member_type, &props[p].value, env, env.len()) {
                        Ok(x) => {
                            let ghost prev = acc@;
                            acc.push(StaticField { name: members[i].name.clone(), value: x });
                            proof {
                                assert(acc@.drop_last() == prev);
                            }
                        },
                        Err(e) => {
                            failed = Some(within_exec(e, &members[i].name));
                        },
                    }
                },
                None => {
                    failed = Some(
                        DecodeError {
                            expected: members[i].member_type.get_type_ident(),
                            name: Some(members[i].name.clone()),
                            found: String::from_str("undefined"),
                        },
                    );
                },
            }
        }
        i = i + 1;
    }
    assert(ms.subrange(0, members.len() as int) =~= ms);
    match failed {
        Some(e) => Err(e),
        None => Ok(acc),
    }
}

fn decode_variant_exec(
    t: &ActDataTypeNode,
    members: &Vec<ActMember>,
    props: &Vec<DynProp>,
    env: &Vec<ActDataTypeNode>,
) -> (r: Result<StaticValue, DecodeError>)
    ensures
        result_view(r) == decode_variant(t@, members_view(members@), props_view(props@), views(env@)),
    decreases props,
{
    let ghost ms = members_view(members@);
    let ghost ps = props_view(props@);
    proof {
        lemma_members_view(members@);
        lemma_props_view(props@);
        lemma_first_tag(ms, ps);
    }
    let mut k: usize = 0;
    while k < members.len()
        invariant
            k <= members.len(),
            ms == members_view(members@),
            ps == props_view(props@),
            ms.len() == members.len(),
            forall|j: int| 0 <= j < members.len() ==> #[trigger] ms[j] == (MemberNode {
                name: members@[j].name@,
                ty: members@[j].member_type@,
            }),
            forall|j: int| 0 <= j < k ==> #[trigger] prop_index(ps, ms[j].name) is None,
        decreases members.len() - k,
    {
        match find_prop(props, &members[k].name) {
            Some(p) => {
                proof {
                    lemma_prop_index(ps, ms[k as int].name);
                    lemma_props_view(props@);
                    lemma_first_tag(ms, ps);
                    match first_tag(ms, ps) {
                        Some(f) => {
                            if f < k {
                                assert(prop_index(ps, ms[f].name) is None);
                            } else if f > k {
                                assert(prop_index(ps, ms[k as int].name) is None);
                            }
                        },
                        None => {
                            assert(prop_index(ps, ms[k as int].name) is None);
                        },
                    }
                }
                let r = decode_value(&members[k].member_type, &props[p].value, env, env.len());
                proof {
                    assert(first_tag(ms, ps) == Some(k as int));
                    assert(prop_index(ps, ms[k as int].name) == Some(p as int));
                    assert(ps[p as int].value == props@[p as int].value@);
                    assert(ms[k as int].ty == members@[k as int].member_type@);
                    assert(views(env@).len() == env.len());
                }
                return match r {
                    Ok(x) => Ok(StaticValue::Variant(members[k].name.clone(), Box::new(x))),
                    Err(e) => Err(within_exec(e, &members[k].name)),
                };
            },
            None => {},
        }
        k = k + 1;
    }
    proof {
        lemma_first_tag(ms, ps);
        if let Some(f) = first_tag(ms, ps) {
            assert(prop_index(ps, ms[f].name) is None);
        }
    }
    Err(object_mismatch(t, props))
}

/// A variant value that holds none of the declared tags does not decode:
/// the mismatch names the variant type.
pub proof fn lemma_variant_without_tag_mismatch(
    t: TypeNode,
    props: Seq<PropModel>,
    env: Seq<TypeNode>,
    hops: nat,
)
    requires
        t is Variant,
        forall|j: int|
            0 <= j < t->Variant_members.len() ==> prop_index(props, #[trigger] t->Variant_members[j].name) is None,
    ensures
        decode(t, DynModel::Object(props), env, hops) == Err::<StaticModel, MismatchModel>(
            mismatch(t, DynModel::Object(props)),
        ),
{
    let ms = t->Variant_members;
    lemma_first_tag(ms, props);
    if let Some(k) = first_tag(ms, props) {
        assert(prop_index(props, ms[k].name) is None);
    }
    assert(first_tag(ms, props) is None);
    assert(decode_variant(t, ms, props, env) == Err::<StaticModel, MismatchModel>(
        mismatch(t, DynModel::Object(props)),
    ));
}

/// An integer outside the range of an integer kind does not decode as that
/// kind; it is reported, never truncated.
pub proof fn lemma_int_out_of_range_mismatch(
    t: TypeNode,
    l: ActPrimitiveLit,
    i: int,
    env: Seq<TypeNode>,
    hops: nat,
)
    requires
        t == (TypeNode::Primitive { alias: None, aliased: AliasedModel::Primitive(l) }),
        is_int_kind(l),
        !int_fits(l, i),
    ensures
        decode(t, DynModel::Int(i), env, hops) == Err::<StaticModel, MismatchModel>(
            mismatch(t, DynModel::Int(i)),
        ),
{
}

// ----- the round trip -----

proof fn lemma_primitive_round_trip(t: TypeNode, l: ActPrimitiveLit, v: DynModel)
    requires
        decode_primitive(t, l, v) is Ok,
    ensures
        decode_primitive(t, l, encode(decode_primitive(t, l, v)->Ok_0)) == decode_primitive(t, l, v),
{
    if let (ActPrimitiveLit::Blob, DynModel::Array(a)) = (l, v) {
        let xs = blob_of(a);
        lemma_encode_all(xs);
        assert(encode_all(xs) =~= a);
    }
}

proof fn lemma_same_round_trip(t: TypeNode, a: Seq<DynModel>, env: Seq<TypeNode>)
    requires
        decode_same(t, a, env) is Ok,
    ensures
        decode_same(t, a, env)->Ok_0.len() == a.len(),
        decode_same(t, encode_all(decode_same(t, a, env)->Ok_0), env) == decode_same(t, a, env),
    decreases a, 0nat,
{
    if a.len() > 0 {
        let xs = decode_same(t, a, env)->Ok_0;
        lemma_same_round_trip(t, a.drop_last(), env);
        lemma_decode_round_trip(t, a.last(), env, env.len());
        let prev = decode_same(t, a.drop_last(), env)->Ok_0;
        let x = decode(t, a.last(), env, env.len())->Ok_0;
        assert(xs == prev.push(x));
        assert(xs.drop_last() =~= prev);
        let e = encode_all(xs);
        assert(e.drop_last() =~= encode_all(prev));
    }
}

proof fn lemma_each_round_trip(ts: Seq<TypeNode>, a: Seq<DynModel>, env: Seq<TypeNode>)
    requires
        ts.len() == a.len(),
        decode_each(ts, a, env) is Ok,
    ensures
        decode_each(ts, a, env)->Ok_0.len() == a.len(),
        decode_each(ts, encode_all(decode_each(ts, a, env)->Ok_0), env) == decode_each(ts, a, env),
    decreases a, 0nat,
{
    lemma_encode_all(decode_each(ts, a, env)->Ok_0);
    if a.len() > 0 {
        let xs = decode_each(ts, a, env)->Ok_0;
        lemma_each_round_trip(ts.drop_last(), a.drop_last(), env);
        lemma_decode_round_trip(ts.last(), a.last(), env, env.len());
        let prev = decode_each(ts.drop_last(), a.drop_last(), env)->Ok_0;
        let x = decode(ts.last(), a.last(), env, env.len())->Ok_0;
        assert(xs == prev.push(x));
        assert(xs.drop_last() =~= prev);
        let e = encode_all(xs);
        assert(e.drop_last() =~= encode_all(prev));
    }
}

/// Decoding the fields again from properties `ps` that hold, under each
/// member's name and at its position, the encoding of the decoded field.
proof fn lemma_fields_round_trip(
    members: Seq<MemberNode>,
    props: Seq<PropModel>,
    env: Seq<TypeNode>,
    ps: Seq<PropModel>,
    all: Seq<FieldModel>,
)
    requires
        decode_fields(members, props, env) is Ok,
        decode_fields(members, props, env)->Ok_0 == all.subrange(0, members.len() as int),
        members.len() <= all.len(),
        all.len() <= ps.len(),
        forall|k: int|
            0 <= k < members.len() ==> prop_index(ps, #[trigger] members[k].name) == Some(k),
        forall|k: int| 0 <= k < all.len() ==> #[trigger] ps[k].value == encode(all[k].value),
    ensures
        decode_fields(members, ps, env) == decode_fields(members, props, env),
    decreases props, members.len(),
{
    if members.len() > 0 {
        let n = members.len() - 1;
        let fs = decode_fields(members, props, env)->Ok_0;
        let prev = decode_fields(members.drop_last(), props, env)->Ok_0;
        let p = prop_index(props, members.last().name)->Some_0;
        let x = decode(members.last().ty, props[p].value, env, env.len())->Ok_0;
        assert(fs == prev.push(FieldModel { name: members.last().name, value: x }));
        assert(prev =~= all.subrange(0, n));
        assert forall|k: int| 0 <= k < members.drop_last().len() implies prop_index(
            ps,
            #[trigger] members.drop_last()[k].name,
        ) == Some(k) by {
            assert(members.drop_last()[k] == members[k]);
        }
        lemma_fields_round_trip(members.drop_last(), props, env, ps, all);
        lemma_decode_round_trip(members.last().ty, props[p].value, env, env.len());
        assert(members[n] == members.last());
        assert(prop_index(ps, members.last().name) == Some(n));
        assert(all[n] == fs[n]);
        assert(ps[n].value == encode(x));
    }
}

proof fn lemma_fields_names(members: Seq<MemberNode>, props: Seq<PropModel>, env: Seq<TypeNode>)
    requires
        decode_fields(members, props, env) is Ok,
    ensures
        decode_fields(members, props, env)->Ok_0.len() == members.len(),
        forall|k: int|
            0 <= k < members.len() ==> #[trigger] decode_fields(members, props, env)->Ok_0[k].name
                == members[k].name,
    decreases members.len(),
{
    if members.len() > 0 {
        lemma_fields_names(members.drop_last(), props, env);
        let fs = decode_fields(members, props, env)->Ok_0;
        let prev = decode_fields(members.drop_last(), props, env)->Ok_0;
        assert forall|k: int| 0 <= k < members.len() implies #[trigger] fs[k].name == members[k].name by {
            if k < members.len() - 1 {
                assert(fs[k] == prev[k]);
                assert(members.drop_last()[k] == members[k]);
            }
        }
    }
}

proof fn lemma_record_round_trip(members: Seq<MemberNode>, props: Seq<PropModel>, env: Seq<TypeNode>)
    requires
        names_distinct(members),
        decode_fields(members, props, env) is Ok,
    ensures
        decode_fields(members, encode_fields(decode_fields(members, props, env)->Ok_0), env)
            == decode_fields(members, props, env),
    decreases props, members.len() + 1,
{
    let fs = decode_fields(members, props, env)->Ok_0;
    let ps = encode_fields(fs);
    lemma_fields_names(members, props, env);
    lemma_encode_fields(fs);
    assert forall|k: int| 0 <= k < members.len() implies prop_index(ps, #[trigger] members[k].name)
        == Some(k) by {
        lemma_prop_index(ps, members[k].name);
        assert(ps[k].key == members[k].name);
        match prop_index(ps, members[k].name) {
            Some(i) => {
                if i != k {
                    assert(ps[i].key == members[i].name);
                    if i < k {
                        assert(members[i].name != members[k].name);
                    } else {
                        assert(ps[k].key != members[k].name);
                    }
                }
            },
            None => {},
        }
    }
    assert(fs.subrange(0, members.len() as int) =~= fs);
    lemma_fields_round_trip(members, props, env, ps, fs);
}

proof fn lemma_variant_round_trip(
    t: TypeNode,
    members: Seq<MemberNode>,
    props: Seq<PropModel>,
    env: Seq<TypeNode>,
)
    requires
        decode_variant(t, members, props, env) is Ok,
    ensures
        decode_variant(t, members, props, env)->Ok_0 matches StaticModel::Variant(tag, x) && decode_variant(
            t,
            members,
            seq![PropModel { key: tag, value: encode(*x) }],
            env,
        ) == decode_variant(t, members, props, env),
    decreases props, 1nat,
{
    let k = first_tag(members, props)->Some_0;
    let p = prop_index(props, members[k].name)->Some_0;
    let x = decode(members[k].ty, props[p].value, env, env.len())->Ok_0;
    let name = members[k].name;
    let one = seq![PropModel { key: name, value: encode(x) }];
    lemma_first_tag(members, props);
    lemma_prop_index(props, name);
    lemma_decode_round_trip(members[k].ty, props[p].value, env, env.len());
    assert forall|j: int| 0 <= j < members.len() implies (#[trigger] prop_index(one, members[j].name)
        is Some <==> members[j].name == name) by {
        lemma_prop_index(one, members[j].name);
    }
    lemma_first_tag(members, one);
    assert forall|j: int| 0 <= j < k implies members[j].name != name by {
        assert(prop_index(props, members[j].name) is None);
        lemma_prop_index(props, members[j].name);
        assert(props[p].key == name);
    }
    assert(prop_index(one, name) is Some);
    match first_tag(members, one) {
        Some(k2) => {
            if k2 < k {
                assert(members[k2].name != name);
            } else if k2 > k {
                assert(prop_index(one, members[k].name) is None);
            }
        },
        None => {
            assert(prop_index(one, members[k].name) is None);
        },
    }
    lemma_prop_index(one, name);
}

/// Decoding the encoding of a decoded value gives that value back.
pub proof fn lemma_decode_round_trip(t: TypeNode, v: DynModel, env: Seq<TypeNode>, hops: nat)
    requires
        decode(t, v, env, hops) is Ok,
    ensures
        decode(t, encode(decode(t, v, env, hops)->Ok_0), env, hops) == decode(t, v, env, hops),
    decreases v, hops, 1nat,
{
    let s = decode(t, v, env, hops)->Ok_0;
    match t {
        TypeNode::Primitive { aliased, .. } => match aliased {
            AliasedModel::Primitive(l) => lemma_primitive_round_trip(t, l, v),
            AliasedModel::TypeRef(name) => {
                assert(decode(t, v, env, hops) == decode_ref(t, name, v, env, hops));
                assert(hops > 0);
                let k = named_index(env, name)->Some_0;
                assert(0 <= k < env.len());
                lemma_decode_round_trip(env[k], v, env, (hops - 1) as nat);
                assert(decode(t, encode(s), env, hops) == decode_ref(t, name, encode(s), env, hops));
            },
        },
        TypeNode::TypeRef { aliased, .. } => match aliased {
            AliasedModel::Primitive(l) => lemma_primitive_round_trip(t, l, v),
            AliasedModel::TypeRef(name) => {
                assert(decode(t, v, env, hops) == decode_ref(t, name, v, env, hops));
                assert(hops > 0);
                let k = named_index(env, name)->Some_0;
                assert(0 <= k < env.len());
                lemma_decode_round_trip(env[k], v, env, (hops - 1) as nat);
                assert(decode(t, encode(s), env, hops) == decode_ref(t, name, encode(s), env, hops));
            },
        },
        TypeNode::Opt { elem, .. } => {
            let a = v->Array_0;
            if a.len() == 1 {
                lemma_decode_round_trip(*elem, a[0], env, env.len());
            }
        },
        TypeNode::Array { elem, .. } => {
            lemma_same_round_trip(*elem, v->Array_0, env);
        },
        TypeNode::Tuple { elems, .. } => {
            lemma_each_round_trip(elems, v->Array_0, env);
            lemma_encode_all(decode_each(elems, v->Array_0, env)->Ok_0);
        },
        TypeNode::Record { members, .. } => {
            lemma_record_round_trip(members, v->Object_0, env);
        },
        TypeNode::Variant { members, .. } => {
            lemma_variant_round_trip(t, members, v->Object_0, env);
        },
        TypeNode::Func { .. } => {},
    }
}

// ----- well-typed static values -----

/// Whether a static value is a value of a primitive kind.
pub open spec fn prim_typed(l: ActPrimitiveLit, s: StaticModel) -> bool {
    match (l, s) {
        (ActPrimitiveLit::Reserved, StaticModel::Reserved) => true,
        (ActPrimitiveLit::Blob, StaticModel::Vector(xs)) => forall|i: int|
            0 <= i < xs.len() ==> (#[trigger] xs[i] matches StaticModel::Int(b) && 0 <= b <= 255),
        (ActPrimitiveLit::Bool, StaticModel::Bool(_)) => true,
        (ActPrimitiveLit::Text, StaticModel::Text(_)) => true,
        (ActPrimitiveLit::Principal, StaticModel::Principal(p)) => principal_text_ok(p),
        (ActPrimitiveLit::Null, StaticModel::Null) => true,
        (ActPrimitiveLit::Void, StaticModel::Null) => true,
        (_, StaticModel::Int(i)) => is_int_kind(l) && int_fits(l, i),
        _ => false,
    }
}

/// The position of the first member with the given name.
pub open spec fn first_named(members: Seq<MemberNode>, name: Seq<char>) -> Option<int>
    decreases members.len(),
{
    if members.len() == 0 {
        None
    } else {
        match first_named(members.drop_last(), name) {
            Some(i) => Some(i),
            None => if members.last().name == name {
                Some(members.len() - 1)
            } else {
                None
            },
        }
    }
}

/// Whether `s` is a value of type `t`: its shape is the one `t` declares,
/// integers lie in range, byte sequences hold integers in `0..=255`,
/// principals are in candid's textual form, records carry the declared fields in order under
/// distinct names, a variant's tag is a declared one and its payload is of
/// that tag's type.  References are followed in `env`, at most `hops` before
/// a value is consumed.
pub open spec fn typed(t: TypeNode, s: StaticModel, env: Seq<TypeNode>, hops: nat) -> bool
    decreases s, hops, 1nat,
{
    match t {
        TypeNode::Primitive { aliased, .. } => match aliased {
            AliasedModel::Primitive(l) => prim_typed(l, s),
            AliasedModel::TypeRef(name) => typed_ref(name, s, env, hops),
        },
        TypeNode::TypeRef { aliased, .. } => match aliased {
            AliasedModel::Primitive(l) => prim_typed(l, s),
            AliasedModel::TypeRef(name) => typed_ref(name, s, env, hops),
        },
        TypeNode::Opt { elem, .. } => match s {
            StaticModel::Opt(o) => match o {
                Some(x) => typed(*elem, *x, env, env.len()),
                None => true,
            },
            _ => false,
        },
        TypeNode::Array { elem, .. } => match s {
            StaticModel::Vector(xs) => all_typed(*elem, xs, env),
            _ => false,
        },
        TypeNode::Tuple { elems, .. } => match s {
            StaticModel::Tuple(xs) => xs.len() == elems.len() && each_typed(elems, xs, env),
            _ => false,
        },
        TypeNode::Record { members, .. } => match s {
            StaticModel::Record(fs) => names_distinct(members) && fields_typed(members, fs, env),
            _ => false,
        },
        TypeNode::Variant { members, .. } => match s {
            StaticModel::Variant(tag, x) => match first_named(members, tag) {
                Some(k) => 0 <= k < members.len() && typed(members[k].ty, *x, env, env.len()),
                None => false,
            },
            _ => false,
        },
        TypeNode::Func { .. } => s is Func,
    }
}

pub open spec fn typed_ref(name: Seq<char>, s: StaticModel, env: Seq<TypeNode>, hops: nat) -> bool
    decreases s, hops, 0nat,
{
    hops > 0 && match named_index(env, name) {
        Some(k) => 0 <= k < env.len() && typed(env[k], s, env, (hops - 1) as nat),
        None => false,
    }
}

pub open spec fn all_typed(t: TypeNode, xs: Seq<StaticModel>, env: Seq<TypeNode>) -> bool
    decreases xs,
{
    xs.len() == 0 || (all_typed(t, xs.drop_last(), env) && typed(t, xs.last(), env, env.len()))
}

pub open spec fn each_typed(ts: Seq<TypeNode>, xs: Seq<StaticModel>, env: Seq<TypeNode>) -> bool
    decreases xs,
{
    xs.len() == 0 || (ts.len() == xs.len() && each_typed(ts.drop_last(), xs.drop_last(), env) && typed(
        ts.last(),
        xs.last(),
        env,
        env.len(),
    ))
}

pub open spec fn fields_typed(members: Seq<MemberNode>, fs: Seq<FieldModel>, env: Seq<TypeNode>) -> bool
    decreases fs,
{
    fs.len() == members.len() && (fs.len() == 0 || (fields_typed(members.drop_last(), fs.drop_last(), env)
        && fs.last().name == members.last().name && typed(members.last().ty, fs.last().value, env, env.len())))
}

proof fn lemma_first_named(ms: Seq<MemberNode>, name: Seq<char>)
    ensures
        match first_named(ms, name) {
            Some(k) => 0 <= k < ms.len() && ms[k].name == name && forall|j: int|
                0 <= j < k ==> #[trigger] ms[j].name != name,
            None => forall|j: int| 0 <= j < ms.len() ==> #[trigger] ms[j].name != name,
        },
    decreases ms.len(),
{
    if ms.len() > 0 {
        let t = ms.drop_last();
        lemma_first_named(t, name);
        match first_named(t, name) {
            Some(i) => {
                assert(ms[i] == t[i]);
                assert forall|j: int| 0 <= j < i implies #[trigger] ms[j].name != name by {
                    assert(ms[j] == t[j]);
                }
            },
            None => {
                assert forall|j: int| 0 <= j < ms.len() - 1 implies #[trigger] ms[j].name != name by {
                    assert(ms[j] == t[j]);
                }
            },
        }
    }
}

proof fn lemma_all_typed_round_trip(t: TypeNode, xs: Seq<StaticModel>, env: Seq<TypeNode>)
    requires
        all_typed(t, xs, env),
    ensures
        decode_same(t, encode_all(xs), env) == Ok::<Seq<StaticModel>, MismatchModel>(xs),
    decreases xs, 0nat,
{
    let e = encode_all(xs);
    if xs.len() == 0 {
        assert(xs =~= Seq::<StaticModel>::empty());
    } else {
        lemma_all_typed_round_trip(t, xs.drop_last(), env);
        lemma_typed_round_trip(t, xs.last(), env, env.len());
        assert(e.drop_last() =~= encode_all(xs.drop_last()));
        assert(e.last() == encode(xs.last()));
        assert(xs.drop_last().push(xs.last()) =~= xs);
    }
}

proof fn lemma_each_typed_round_trip(ts: Seq<TypeNode>, xs: Seq<StaticModel>, env: Seq<TypeNode>)
    requires
        ts.len() == xs.len(),
        each_typed(ts, xs, env),
    ensures
        decode_each(ts, encode_all(xs), env) == Ok::<Seq<StaticModel>, MismatchModel>(xs),
    decreases xs, 0nat,
{
    lemma_encode_all(xs);
    let e = encode_all(xs);
    if xs.len() == 0 {
        assert(xs =~= Seq::<StaticModel>::empty());
    } else {
        lemma_each_typed_round_trip(ts.drop_last(), xs.drop_last(), env);
        lemma_typed_round_trip(ts.last(), xs.last(), env, env.len());
        assert(e.drop_last() =~= encode_all(xs.drop_last()));
        assert(e.last() == encode(xs.last()));
        assert(xs.drop_last().push(xs.last()) =~= xs);
    }
}

proof fn lemma_fields_typed_names(members: Seq<MemberNode>, fs: Seq<FieldModel>, env: Seq<TypeNode>)
    requires
        fields_typed(members, fs, env),
    ensures
        fs.len() == members.len(),
        forall|k: int| 0 <= k < fs.len() ==> #[trigger] fs[k].name == members[k].name,
    decreases fs.len(),
{
    if fs.len() > 0 {
        lemma_fields_typed_names(members.drop_last(), fs.drop_last(), env);
        assert forall|k: int| 0 <= k < fs.len() implies #[trigger] fs[k].name == members[k].name by {
            if k < fs.len() - 1 {
                assert(fs[k] == fs.drop_last()[k]);
                assert(members[k] == members.drop_last()[k]);
            }
        }
    }
}

proof fn lemma_fields_typed_round_trip(
    members: Seq<MemberNode>,
    fs: Seq<FieldModel>,
    env: Seq<TypeNode>,
    ps: Seq<PropModel>,
)
    requires
        fields_typed(members, fs, env),
        fs.len() <= ps.len(),
        forall|k: int|
            0 <= k < members.len() ==> prop_index(ps, #[trigger] members[k].name) == Some(k),
        forall|k: int| 0 <= k < fs.len() ==> #[trigger] ps[k].value == encode(fs[k].value),
    ensures
        decode_fields(members, ps, env) == Ok::<Seq<FieldModel>, MismatchModel>(fs),
    decreases fs, 0nat,
{
    if fs.len() == 0 {
        assert(fs =~= Seq::<FieldModel>::empty());
    } else {
        let n = fs.len() - 1;
        let ms = members.drop_last();
        assert forall|k: int| 0 <= k < ms.len() implies prop_index(ps, #[trigger] ms[k].name) == Some(k) by {
            assert(ms[k] == members[k]);
        }
        assert forall|k: int| 0 <= k < fs.drop_last().len() implies #[trigger] ps[k].value == encode(
            fs.drop_last()[k].value,
        ) by {
            assert(fs.drop_last()[k] == fs[k]);
        }
        lemma_fields_typed_round_trip(ms, fs.drop_last(), env, ps);
        lemma_typed_round_trip(members.last().ty, fs.last().value, env, env.len());
        assert(members[n] == members.last());
        assert(prop_index(ps, members.last().name) == Some(n));
        assert(ps[n].value == encode(fs.last().value));
        assert(fs.drop_last().push(FieldModel { name: members.last().name, value: fs.last().value }) =~= fs);
    }
}

proof fn lemma_prim_typed_round_trip(t: TypeNode, l: ActPrimitiveLit, s: StaticModel)
    requires
        prim_typed(l, s),
    ensures
        decode_primitive(t, l, encode(s)) == Ok::<StaticModel, MismatchModel>(s),
{
    match s {
        StaticModel::Int(i) => {
            assert(l != ActPrimitiveLit::Reserved);
        },
        StaticModel::Vector(xs) => {
            if l == ActPrimitiveLit::Blob {
                let a = encode_all(xs);
                lemma_encode_all(xs);
                assert forall|i: int| 0 <= i < a.len() implies is_byte(#[trigger] a[i]) by {
                    assert(xs[i] matches StaticModel::Int(_));
                }
                assert(blob_of(a) =~= xs);
            }
        },
        _ => {},
    }
}

/// Decoding the encoding of a well-typed static value gives it back.
pub proof fn lemma_typed_round_trip(t: TypeNode, s: StaticModel, env: Seq<TypeNode>, hops: nat)
    requires
        typed(t, s, env, hops),
    ensures
        decode(t, encode(s), env, hops) == Ok::<StaticModel, MismatchModel>(s),
    decreases s, hops, 1nat,
{
    match t {
        TypeNode::Primitive { aliased, .. } => match aliased {
            AliasedModel::Primitive(l) => {
                lemma_prim_typed_round_trip(t, l, s);
                assert(decode(t, encode(s), env, hops) == decode_primitive(t, l, encode(s)));
            },
            AliasedModel::TypeRef(name) => {
                assert(typed(t, s, env, hops) == typed_ref(name, s, env, hops));
                assert(hops > 0);
                let k = named_index(env, name)->Some_0;
                assert(0 <= k < env.len());
                lemma_typed_round_trip(env[k], s, env, (hops - 1) as nat);
                assert(decode(t, encode(s), env, hops) == decode_ref(t, name, encode(s), env, hops));
            },
        },
        TypeNode::TypeRef { aliased, .. } => match aliased {
            AliasedModel::Primitive(l) => {
                lemma_prim_typed_round_trip(t, l, s);
                assert(decode(t, encode(s), env, hops) == decode_primitive(t, l, encode(s)));
            },
            AliasedModel::TypeRef(name) => {
                assert(typed(t, s, env, hops) == typed_ref(name, s, env, hops));
                assert(hops > 0);
                let k = named_index(env, name)->Some_0;
                assert(0 <= k < env.len());
                lemma_typed_round_trip(env[k], s, env, (hops - 1) as nat);
                assert(decode(t, encode(s), env, hops) == decode_ref(t, name, encode(s), env, hops));
            },
        },
        TypeNode::Opt { elem, .. } => {
            if let StaticModel::Opt(Some(x)) = s {
                lemma_typed_round_trip(*elem, *x, env, env.len());
                assert(seq![encode(*x)][0] == encode(*x));
            }
        },
        TypeNode::Array { elem, .. } => {
            lemma_all_typed_round_trip(*elem, s->Vector_0, env);
        },
        TypeNode::Tuple { elems, .. } => {
            lemma_each_typed_round_trip(elems, s->Tuple_0, env);
            lemma_encode_all(s->Tuple_0);
        },
        TypeNode::Record { members, .. } => {
            let fs = s->Record_0;
            let ps = encode_fields(fs);
            lemma_fields_typed_names(members, fs, env);
            lemma_encode_fields(fs);
            assert forall|k: int| 0 <= k < members.len() implies prop_index(ps, #[trigger] members[k].name)
                == Some(k) by {
                lemma_prop_index(ps, members[k].name);
                assert(ps[k].key == members[k].name);
                match prop_index(ps, members[k].name) {
                    Some(i) => {
                        if i != k {
                            assert(ps[i].key == members[i].name);
                            if i < k {
                                assert(members[i].name != members[k].name);
                            } else {
                                assert(ps[k].key != members[k].name);
                            }
                        }
                    },
                    None => {},
                }
            }
            lemma_fields_typed_round_trip(members, fs, env, ps);
        },
        TypeNode::Variant { members, .. } => {
            let tag = s->Variant_0;
            let x = *s->Variant_1;
            let k = first_named(members, tag)->Some_0;
            let one = seq![PropModel { key: tag, value: encode(x) }];
            lemma_first_named(members, tag);
            lemma_typed_round_trip(members[k].ty, x, env, env.len());
            assert forall|j: int| 0 <= j < members.len() implies (#[trigger] prop_index(
                one,
                members[j].name,
            ) is Some <==> members[j].name == tag) by {
                lemma_prop_index(one, members[j].name);
            }
            lemma_first_tag(members, one);
            match first_tag(members, one) {
                Some(k2) => {
                    if k2 < k {
                        assert(members[k2].name != tag);
                    } else if k2 > k {
                        assert(prop_index(one, members[k].name) is None);
                    }
                },
                None => {
                    assert(prop_index(one, members[k].name) is None);
                },
            }
            lemma_prop_index(one, tag);
            assert(first_tag(members, one) == Some(k));
            assert(prop_index(one, members[k].name) == Some(0int));
            assert(one[0].value == encode(x));
            assert(decode_variant(t, members, one, env) == Ok::<StaticModel, MismatchModel>(
                StaticModel::Variant(tag, Box::new(x)),
            ));
            assert(s == StaticModel::Variant(tag, Box::new(x)));
            assert(encode(s) == DynModel::Object(one));
        },
        TypeNode::Func { .. } => {},
    }
}

// ----- guard results -----

/// Why a value is not a guard result.
#[derive(Debug, PartialEq, Eq, Structural)]
pub enum GuardResultError {
    /// Neither an object with `err` nor one with `ok`.
    NotAGuardResult,
    /// `err` holds something other than text.
    ErrNotText,
    /// `ok` holds something other than `null`.
    OkNotNull,
}

pub enum GuardModel {
    Allowed,
    Denied(Seq<char>),
}

/// The outcome a guard returns: `{ err: text }` denies, `{ ok: null }` allows, with
/// `err` looked at first; the `ok` payload must be exactly `null`.
pub open spec fn guard_result(v: DynModel) -> Result<GuardModel, GuardResultError> {
    match v {
        DynModel::Object(props) => match prop_index(props, "err"@) {
            Some(i) => match props[i].value {
                DynModel::Text(s) => Ok(GuardModel::Denied(s)),
                _ => Err(GuardResultError::ErrNotText),
            },
            None => match prop_index(props, "ok"@) {
                Some(i) => match props[i].value {
                    DynModel::Null => Ok(GuardModel::Allowed),
                    _ => Err(GuardResultError::OkNotNull),
                },
                None => Err(GuardResultError::NotAGuardResult),
            },
        },
        _ => Err(GuardResultError::NotAGuardResult),
    }
}

pub open spec fn guard_view(r: Result<Result<(), String>, GuardResultError>) -> Result<GuardModel, GuardResultError> {
    match r {
        Ok(Ok(())) => Ok(GuardModel::Allowed),
        Ok(Err(s)) => Ok(GuardModel::Denied(s@)),
        Err(e) => Err(e),
    }
}

impl GuardResultError {
    /// The message the host sees for this failure.
    pub fn message(&self) -> (r: &'static str)
        ensures
            r@ == match self {
                GuardResultError::NotAGuardResult => "value is not a GuardResult"@,
                GuardResultError::ErrNotText => "value is not a string"@,
                GuardResultError::OkNotNull => "value is not null"@,
            },
    {
        match self {
            GuardResultError::NotAGuardResult => "value is not a GuardResult",
            GuardResultError::ErrNotText => "value is not a string",
            GuardResultError::OkNotNull => "value is not null",
        }
    }
}

/// Reads a guard function's outcome from its returned value.
pub fn decode_guard_result(v: &DynValue) -> (r: Result<Result<(), String>, GuardResultError>)
    ensures
        guard_view(r) == guard_result(v@),
{
    match v {
        DynValue::Object(props) => {
            proof {
                lemma_props_view(props@);
            }
            let err_key = String::from_str("err");
            proof {
                lemma_prop_index(props_view(props@), "err"@);
                lemma_prop_index(props_view(props@), "ok"@);
            }
            match find_prop(props, &err_key) {
                Some(i) => match &props[i].value {
                    DynValue::Text(s) => Ok(Err(s.clone())),
                    _ => Err(GuardResultError::ErrNotText),
                },
                None => {
                    let ok_key = String::from_str("ok");
                    match find_prop(props, &ok_key) {
                        Some(i) => match &props[i].value {
                            DynValue::Null => Ok(Ok(())),
                            _ => Err(GuardResultError::OkNotNull),
                        },
                        None => Err(GuardResultError::NotAGuardResult),
                    }
                },
            }
        },
        _ => Err(GuardResultError::NotAGuardResult),
    }
}

} // verus!
