//! The intermediate type graph.
//!
//! Executable nodes (`ActDataTypeNode` and its parts) carry names as `String`
//! and children in `Vec`s.  Each has a view into the spec-level `TypeNode`,
//! over which every contract of this module is stated.
use vstd::prelude::*;
use vstd::string::*;

verus! {

/// Leaf scalar kinds of the wire type system.
#[derive(Clone, Copy, Debug, PartialEq, Eq, Structural)]
pub enum ActPrimitiveLit {
    Blob,
    Bool,
    Empty,
    Int,
    Int8,
    Int16,
    Int32,
    Int64,
    Nat,
    Nat8,
    Nat16,
    Nat32,
    Nat64,
    Null,
    Principal,
    Reserved,
    Text,
    Void,
}

/// What a named alias stands for: a primitive, or another named type.
#[derive(Clone, Debug)]
pub enum ActAliasedType {
    Primitive(ActPrimitiveLit),
    TypeRef(String),
}

/// A declared alias `name = aliased_type`.
#[derive(Clone, Debug)]
pub struct ActTypeAlias {
    pub name: String,
    pub aliased_type: ActAliasedType,
}

#[derive(Clone, Debug)]
pub enum ActPrimitive {
    Literal(ActPrimitiveLit),
    TypeAlias(ActTypeAlias),
}

/// An indirection to a named definition, by its identifier.
#[derive(Clone, Debug)]
pub enum ActTypeRef {
    Literal(String),
    TypeAlias(ActTypeAlias),
}

/// A sequence type: anonymous (`Literal`) or declared under a name.
#[derive(Debug)]
pub enum ActArray {
    Literal(Box<ActDataTypeNode>),
    TypeAlias(String, Box<ActDataTypeNode>),
}

/// An optional type: anonymous (`Literal`) or declared under a name.
#[derive(Debug)]
pub enum ActOption {
    Literal(Box<ActDataTypeNode>),
    TypeAlias(String, Box<ActDataTypeNode>),
}

/// A field of a record or a tag of a variant.
#[derive(Debug)]
pub struct ActMember {
    pub name: String,
    pub member_type: ActDataTypeNode,
}

#[derive(Debug)]
pub struct ActRecord {
    pub name: String,
    pub members: Vec<ActMember>,
    pub is_inline: bool,
}

#[derive(Debug)]
pub struct ActVariant {
    pub name: String,
    pub members: Vec<ActMember>,
    pub is_inline: bool,
}

#[derive(Debug)]
pub struct ActTuple {
    pub name: String,
    pub elems: Vec<ActDataTypeNode>,
    pub is_inline: bool,
}

/// A reference to a remotely callable function.
#[derive(Debug)]
pub struct ActFunc {
    pub name: String,
    pub params: Vec<ActDataTypeNode>,
    pub return_type: Box<ActDataTypeNode>,
    pub is_inline: bool,
}

/// Every data shape reachable from an entry point's signatures.
#[derive(Debug)]
pub enum ActDataTypeNode {
    Primitive(ActPrimitive),
    Option(ActOption),
    TypeRef(ActTypeRef),
    Array(ActArray),
    Record(ActRecord),
    Variant(ActVariant),
    Func(ActFunc),
    Tuple(ActTuple),
}

// ----- the spec-level model -----

pub enum AliasedModel {
    Primitive(ActPrimitiveLit),
    TypeRef(Seq<char>),
}

pub struct MemberNode {
    pub name: Seq<char>,
    pub ty: TypeNode,
}

/// Mathematical model of a type node.  `alias` is the declared name of a
/// primitive, reference, sequence or optional type, if it has one.
pub enum TypeNode {
    Primitive { alias: Option<Seq<char>>, aliased: AliasedModel },
    TypeRef { alias: Option<Seq<char>>, aliased: AliasedModel },
    Array { alias: Option<Seq<char>>, elem: Box<TypeNode> },
    Opt { alias: Option<Seq<char>>, elem: Box<TypeNode> },
    Record { name: Seq<char>, members: Seq<MemberNode>, inline: bool },
    Variant { name: Seq<char>, members: Seq<MemberNode>, inline: bool },
    Tuple { name: Seq<char>, elems: Seq<TypeNode>, inline: bool },
    Func { name: Seq<char>, params: Seq<TypeNode>, ret: Box<TypeNode>, inline: bool },
}

pub open spec fn aliased_view(a: ActAliasedType) -> AliasedModel {
    match a {
        ActAliasedType::Primitive(p) => AliasedModel::Primitive(p),
        ActAliasedType::TypeRef(n) => AliasedModel::TypeRef(n@),
    }
}

pub open spec fn node_view(n: ActDataTypeNode) -> TypeNode
    decreases n,
{
    match n {
        ActDataTypeNode::Primitive(ActPrimitive::Literal(l)) => TypeNode::Primitive {
            alias: None,
            aliased: AliasedModel::Primitive(l),
        },
        ActDataTypeNode::Primitive(ActPrimitive::TypeAlias(a)) => TypeNode::Primitive {
            alias: Some(a.name@),
            aliased: aliased_view(a.aliased_type),
        },
        ActDataTypeNode::TypeRef(ActTypeRef::Literal(name)) => TypeNode::TypeRef {
            alias: None,
            aliased: AliasedModel::TypeRef(name@),
        },
        ActDataTypeNode::TypeRef(ActTypeRef::TypeAlias(a)) => TypeNode::TypeRef {
            alias: Some(a.name@),
            aliased: aliased_view(a.aliased_type),
        },
        ActDataTypeNode::Array(ActArray::Literal(e)) => TypeNode::Array {
            alias: None,
            elem: Box::new(node_view(*e)),
        },
        ActDataTypeNode::Array(ActArray::TypeAlias(name, e)) => TypeNode::Array {
            alias: Some(name@),
            elem: Box::new(node_view(*e)),
        },
        ActDataTypeNode::Option(ActOption::Literal(e)) => TypeNode::Opt {
            alias: None,
            elem: Box::new(node_view(*e)),
        },
        ActDataTypeNode::Option(ActOption::TypeAlias(name, e)) => TypeNode::Opt {
            alias: Some(name@),
            elem: Box::new(node_view(*e)),
        },
        ActDataTypeNode::Record(r) => TypeNode::Record {
            name: r.name@,
            members: members_view(r.members@),
            inline: r.is_inline,
        },
        ActDataTypeNode::Variant(v) => TypeNode::Variant {
            name: v.name@,
            members: members_view(v.members@),
            inline: v.is_inline,
        },
        ActDataTypeNode::Tuple(t) => TypeNode::Tuple {
            name: t.name@,
            elems: nodes_view(t.elems@),
            inline: t.is_inline,
        },
        ActDataTypeNode::Func(f) => TypeNode::Func {
            name: f.name@,
            params: nodes_view(f.params@),
            ret: Box::new(node_view(*f.return_type)),
            inline: f.is_inline,
        },
    }
}

pub open spec fn members_view(s: Seq<ActMember>) -> Seq<MemberNode>
    decreases s,
{
    if s.len() == 0 {
        Seq::empty()
    } else {
        members_view(s.drop_last()).push(
            MemberNode { name: s.last().name@, ty: node_view(s.last().member_type) },
        )
    }
}

pub open spec fn nodes_view(s: Seq<ActDataTypeNode>) -> Seq<TypeNode>
    decreases s,
{
    if s.len() == 0 {
        Seq::empty()
    } else {
        nodes_view(s.drop_last()).push(node_view(s.last()))
    }
}

impl View for ActDataTypeNode {
    type V = TypeNode;

    open spec fn view(&self) -> TypeNode {
        node_view(*self)
    }
}

pub open spec fn views(s: Seq<ActDataTypeNode>) -> Seq<TypeNode> {
    s.map_values(|n: ActDataTypeNode| n@)
}

pub open spec fn lit_ident(l: ActPrimitiveLit) -> Seq<char> {
    match l {
        ActPrimitiveLit::Blob => "Vec<u8>"@,
        ActPrimitiveLit::Bool => "bool"@,
        ActPrimitiveLit::Empty => "candid::Empty"@,
        ActPrimitiveLit::Int => "candid::Int"@,
        ActPrimitiveLit::Int8 => "i8"@,
        ActPrimitiveLit::Int16 => "i16"@,
        ActPrimitiveLit::Int32 => "i32"@,
        ActPrimitiveLit::Int64 => "i64"@,
        ActPrimitiveLit::Nat => "candid::Nat"@,
        ActPrimitiveLit::Nat8 => "u8"@,
        ActPrimitiveLit::Nat16 => "u16"@,
        ActPrimitiveLit::Nat32 => "u32"@,
        ActPrimitiveLit::Nat64 => "u64"@,
        ActPrimitiveLit::Null => "(())"@,
        ActPrimitiveLit::Principal => "candid::Principal"@,
        ActPrimitiveLit::Reserved => "candid::Reserved"@,
        ActPrimitiveLit::Text => "String"@,
        ActPrimitiveLit::Void => "()"@,
    }
}

pub open spec fn aliased_ident(a: AliasedModel) -> Seq<char> {
    match a {
        AliasedModel::Primitive(l) => lit_ident(l),
        AliasedModel::TypeRef(n) => n,
    }
}

impl TypeNode {
    /// A node is inline when it has no declared name of its own; sequences and
    /// optionals are inline exactly when what they enclose is.
    pub open spec fn is_inline(self) -> bool
        decreases self,
    {
        match self {
            TypeNode::Primitive { .. } => false,
            TypeNode::TypeRef { .. } => false,
            TypeNode::Array { elem, .. } => elem.is_inline(),
            TypeNode::Opt { elem, .. } => elem.is_inline(),
            TypeNode::Record { inline, .. } => inline,
            TypeNode::Variant { inline, .. } => inline,
            TypeNode::Tuple { inline, .. } => inline,
            TypeNode::Func { inline, .. } => inline,
        }
    }

    /// The identifier under which the node is declared or written.
    pub open spec fn ident(self) -> Seq<char>
        decreases self,
    {
        match self {
            TypeNode::Primitive { alias, aliased } => match alias {
                Some(n) => n,
                None => aliased_ident(aliased),
            },
            TypeNode::TypeRef { alias, aliased } => match alias {
                Some(n) => n,
                None => aliased_ident(aliased),
            },
            TypeNode::Array { alias, elem } => match alias {
                Some(n) => n,
                None => "Vec<"@ + elem.ident() + ">"@,
            },
            TypeNode::Opt { alias, elem } => match alias {
                Some(n) => n,
                None => "Option<"@ + elem.ident() + ">"@,
            },
            TypeNode::Record { name, .. } => name,
            TypeNode::Variant { name, .. } => name,
            TypeNode::Tuple { name, .. } => name,
            TypeNode::Func { name, .. } => name,
        }
    }

    /// Whether the node is declared under a name of its own and so needs a
    /// definition in the generated program.
    pub open spec fn has_definition(self) -> bool {
        match self {
            TypeNode::Primitive { alias, .. } => alias is Some,
            TypeNode::TypeRef { alias, .. } => alias is Some,
            TypeNode::Array { alias, .. } => alias is Some,
            TypeNode::Opt { alias, .. } => alias is Some,
            _ => true,
        }
    }

    /// The directly enclosed nodes, in declaration order.
    pub open spec fn children(self) -> Seq<TypeNode> {
        match self {
            TypeNode::Array { elem, .. } => seq![*elem],
            TypeNode::Opt { elem, .. } => seq![*elem],
            TypeNode::Record { members, .. } => member_types(members),
            TypeNode::Variant { members, .. } => member_types(members),
            TypeNode::Tuple { elems, .. } => elems,
            TypeNode::Func { params, ret, .. } => params.push(*ret),
            _ => Seq::empty(),
        }
    }

    pub open spec fn inline_members(self) -> Seq<TypeNode> {
        self.children().filter(inline_pred())
    }

    /// Every inline node reachable from this one without crossing a named
    /// node, depth first in declaration order, this node first if inline.
    pub open spec fn collected(self) -> Seq<TypeNode>
        decreases self,
    {
        let own = if self.is_inline() {
            seq![self]
        } else {
            Seq::empty()
        };
        let below = match self {
            TypeNode::Array { elem, .. } => if elem.is_inline() {
                elem.collected()
            } else {
                Seq::empty()
            },
            TypeNode::Opt { elem, .. } => if elem.is_inline() {
                elem.collected()
            } else {
                Seq::empty()
            },
            TypeNode::Record { members, .. } => collect_members(members),
            TypeNode::Variant { members, .. } => collect_members(members),
            TypeNode::Tuple { elems, .. } => collect_nodes(elems),
            TypeNode::Func { params, ret, .. } => collect_nodes(params) + if ret.is_inline() {
                ret.collected()
            } else {
                Seq::empty()
            },
            _ => Seq::empty(),
        };
        own + below
    }
}

pub open spec fn inline_pred() -> spec_fn(TypeNode) -> bool {
    |c: TypeNode| c.is_inline()
}

pub open spec fn member_types(s: Seq<MemberNode>) -> Seq<TypeNode> {
    s.map_values(|m: MemberNode| m.ty)
}

pub open spec fn collect_members(s: Seq<MemberNode>) -> Seq<TypeNode>
    decreases s,
{
    if s.len() == 0 {
        Seq::empty()
    } else {
        collect_members(s.drop_last()) + if s.last().ty.is_inline() {
            s.last().ty.collected()
        } else {
            Seq::empty()
        }
    }
}

pub open spec fn collect_nodes(s: Seq<TypeNode>) -> Seq<TypeNode>
    decreases s,
{
    if s.len() == 0 {
        Seq::empty()
    } else {
        collect_nodes(s.drop_last()) + if s.last().is_inline() {
            s.last().collected()
        } else {
            Seq::empty()
        }
    }
}

/// The concatenation of what is collected from each node in turn.
pub open spec fn collect_all(s: Seq<TypeNode>) -> Seq<TypeNode>
    decreases s.len(),
{
    if s.len() == 0 {
        Seq::empty()
    } else {
        collect_all(s.drop_last()) + s.last().collected()
    }
}

pub proof fn lemma_members_view(s: Seq<ActMember>)
    ensures
        members_view(s).len() == s.len(),
        forall|i: int|
            0 <= i < s.len() ==> #[trigger] members_view(s)[i] == (MemberNode {
                name: s[i].name@,
                ty: s[i].member_type@,
            }),
    decreases s.len(),
{
    if s.len() > 0 {
        lemma_members_view(s.drop_last());
    }
}

pub proof fn lemma_nodes_view(s: Seq<ActDataTypeNode>)
    ensures
        nodes_view(s) == views(s),
    decreases s.len(),
{
    if s.len() > 0 {
        lemma_nodes_view(s.drop_last());
        assert(nodes_view(s) =~= views(s));
    } else {
        assert(nodes_view(s) =~= views(s));
    }
}

fn lit_name(l: ActPrimitiveLit) -> (r: &'static str)
    ensures
        r@ == lit_ident(l),
{
    match l {
        ActPrimitiveLit::Blob => "Vec<u8>",
        ActPrimitiveLit::Bool => "bool",
        ActPrimitiveLit::Empty => "candid::Empty",
        ActPrimitiveLit::Int => "candid::Int",
        ActPrimitiveLit::Int8 => "i8",
        ActPrimitiveLit::Int16 => "i16",
        ActPrimitiveLit::Int32 => "i32",
        ActPrimitiveLit::Int64 => "i64",
        ActPrimitiveLit::Nat => "candid::Nat",
        ActPrimitiveLit::Nat8 => "u8",
        ActPrimitiveLit::Nat16 => "u16",
        ActPrimitiveLit::Nat32 => "u32",
        ActPrimitiveLit::Nat64 => "u64",
        ActPrimitiveLit::Null => "(())",
        ActPrimitiveLit::Principal => "candid::Principal",
        ActPrimitiveLit::Reserved => "candid::Reserved",
        ActPrimitiveLit::Text => "String",
        ActPrimitiveLit::Void => "()",
    }
}

impl ActAliasedType {
    pub fn get_ident(&self) -> (r: String)
        ensures
            r@ == aliased_ident(aliased_view(*self)),
    {
        match self {
            ActAliasedType::Primitive(l) => String::from_str(lit_name(*l)),
            ActAliasedType::TypeRef(n) => n.clone(),
        }
    }
}

impl ActDataTypeNode {
    pub fn is_inline_type(&self) -> (r: bool)
        ensures
            r == self@.is_inline(),
        decreases self,
    {
        match self {
            ActDataTypeNode::Primitive(_) => false,
            ActDataTypeNode::TypeRef(_) => false,
            ActDataTypeNode::Array(a) => a.get_enclosed_type().is_inline_type(),
            ActDataTypeNode::Record(r) => r.is_inline,
            ActDataTypeNode::Variant(v) => v.is_inline,
            ActDataTypeNode::Func(f) => f.is_inline,
            ActDataTypeNode::Tuple(t) => t.is_inline,
            ActDataTypeNode::Option(o) => o.get_enclosed_type().is_inline_type(),
        }
    }

    pub fn has_definition(&self) -> (r: bool)
        ensures
            r == self@.has_definition(),
    {
        match self {
            ActDataTypeNode::Primitive(ActPrimitive::Literal(_)) => false,
            ActDataTypeNode::TypeRef(ActTypeRef::Literal(_)) => false,
            ActDataTypeNode::Array(ActArray::Literal(_)) => false,
            ActDataTypeNode::Option(ActOption::Literal(_)) => false,
            _ => true,
        }
    }

    /// Every node is held behind a box in generated definitions, which keeps
    /// recursive definitions finite in size.
    pub fn needs_to_be_boxed(&self) -> (r: bool)
        ensures
            r,
    {
        true
    }

    pub fn get_type_ident(&self) -> (r: String)
        ensures
            r@ == self@.ident(),
        decreases self,
    {
        match self {
            ActDataTypeNode::Primitive(ActPrimitive::Literal(l)) => String::from_str(lit_name(*l)),
            ActDataTypeNode::Primitive(ActPrimitive::TypeAlias(a)) => a.name.clone(),
            ActDataTypeNode::TypeRef(ActTypeRef::Literal(n)) => n.clone(),
            ActDataTypeNode::TypeRef(ActTypeRef::TypeAlias(a)) => a.name.clone(),
            ActDataTypeNode::Array(ActArray::Literal(e)) => {
                let inner = e.get_type_ident();
                let mut r = String::from_str("Vec<");
                r.append(inner.as_str());
                r.append(">");
                r
            },
            ActDataTypeNode::Array(ActArray::TypeAlias(n, _)) => n.clone(),
            ActDataTypeNode::Option(ActOption::Literal(e)) => {
                let inner = e.get_type_ident();
                let mut r = String::from_str("Option<");
                r.append(inner.as_str());
                r.append(">");
                r
            },
            ActDataTypeNode::Option(ActOption::TypeAlias(n, _)) => n.clone(),
            ActDataTypeNode::Record(r) => r.name.clone(),
            ActDataTypeNode::Variant(v) => v.name.clone(),
            ActDataTypeNode::Func(f) => f.name.clone(),
            ActDataTypeNode::Tuple(t) => t.name.clone(),
        }
    }
}

impl ActArray {
    pub fn get_enclosed_type(&self) -> (r: &ActDataTypeNode)
        ensures
            (match *self {
                ActArray::Literal(e) => *r == *e,
                ActArray::TypeAlias(_, e) => *r == *e,
            }),
    {
        match self {
            ActArray::Literal(e) => e,
            ActArray::TypeAlias(_, e) => e,
        }
    }
}

impl ActOption {
    pub fn get_enclosed_type(&self) -> (r: &ActDataTypeNode)
        ensures
            (match *self {
                ActOption::Literal(e) => *r == *e,
                ActOption::TypeAlias(_, e) => *r == *e,
            }),
    {
        match self {
            ActOption::Literal(e) => e,
            ActOption::TypeAlias(_, e) => e,
        }
    }
}


fn duplicate_members(s: &Vec<ActMember>) -> (r: Vec<ActMember>)
    ensures
        members_view(r@) == members_view(s@),
    decreases s,
{
    let mut r: Vec<ActMember> = Vec::new();
    let mut i: usize = 0;
    proof {
        lemma_members_view(s@);
    }
    while i < s.len()
        invariant
            i <= s.len(),
            r.len() == i,
            members_view(r@) == members_view(s@).subrange(0, i as int),
            members_view(s@).len() == s@.len(),
            forall|j: int|
                0 <= j < s.len() ==> #[trigger] members_view(s@)[j] == (MemberNode {
                    name: s@[j].name@,
                    ty: s@[j].member_type@,
                }),
        decreases s.len() - i,
    {
        let m = ActMember { name: s[i].name.clone(), member_type: s[i].member_type.duplicate() };
        let ghost prev = r@;
        r.push(m);
        proof {
            assert(r@.drop_last() == prev);
            assert(members_view(r@) =~= members_view(s@).subrange(0, i + 1));
        }
        i = i + 1;
    }
    assert(members_view(s@).subrange(0, s.len() as int) =~= members_view(s@));
    r
}

fn duplicate_nodes(s: &Vec<ActDataTypeNode>) -> (r: Vec<ActDataTypeNode>)
    ensures
        views(r@) == views(s@),
    decreases s,
{
    let mut r: Vec<ActDataTypeNode> = Vec::new();
    let mut i: usize = 0;
    while i < s.len()
        invariant
            i <= s.len(),
            r.len() == i,
            views(r@) == views(s@).subrange(0, i as int),
        decreases s.len() - i,
    {
        let n = s[i].duplicate();
        let ghost prev = r@;
        let ghost nv = n@;
        r.push(n);
        assert(r@[i as int]@ == nv);
        assert(views(r@) =~= views(prev).push(nv));
        assert(views(r@) =~= views(s@).subrange(0, i + 1));
        i = i + 1;
    }
    assert(views(s@).subrange(0, s.len() as int) =~= views(s@));
    r
}

impl ActDataTypeNode {
    /// A deep copy.
    pub fn duplicate(&self) -> (r: ActDataTypeNode)
        ensures
            r@ == self@,
        decreases self,
    {
        match self {
            ActDataTypeNode::Primitive(p) => ActDataTypeNode::Primitive(p.clone_prim()),
            ActDataTypeNode::TypeRef(t) => ActDataTypeNode::TypeRef(t.clone_ref()),
            ActDataTypeNode::Array(ActArray::Literal(e)) => ActDataTypeNode::Array(
                ActArray::Literal(Box::new(e.duplicate())),
            ),
            ActDataTypeNode::Array(ActArray::TypeAlias(n, e)) => ActDataTypeNode::Array(
                ActArray::TypeAlias(n.clone(), Box::new(e.duplicate())),
            ),
            ActDataTypeNode::Option(ActOption::Literal(e)) => ActDataTypeNode::Option(
                ActOption::Literal(Box::new(e.duplicate())),
            ),
            ActDataTypeNode::Option(ActOption::TypeAlias(n, e)) => ActDataTypeNode::Option(
                ActOption::TypeAlias(n.clone(), Box::new(e.duplicate())),
            ),
            ActDataTypeNode::Record(r) => ActDataTypeNode::Record(
                ActRecord {
                    name: r.name.clone(),
                    members: duplicate_members(&r.members),
                    is_inline: r.is_inline,
                },
            ),
            ActDataTypeNode::Variant(v) => ActDataTypeNode::Variant(
                ActVariant {
                    name: v.name.clone(),
                    members: duplicate_members(&v.members),
                    is_inline: v.is_inline,
                },
            ),
            ActDataTypeNode::Tuple(t) => {
                let elems = duplicate_nodes(&t.elems);
                proof {
                    lemma_nodes_view(elems@);
                    lemma_nodes_view(t.elems@);
                }
                ActDataTypeNode::Tuple(ActTuple { name: t.name.clone(), elems, is_inline: t.is_inline })
            },
            ActDataTypeNode::Func(f) => {
                let params = duplicate_nodes(&f.params);
                proof {
                    lemma_nodes_view(params@);
                    lemma_nodes_view(f.params@);
                }
                ActDataTypeNode::Func(
                    ActFunc {
                        name: f.name.clone(),
                        params,
                        return_type: Box::new(f.return_type.duplicate()),
                        is_inline: f.is_inline,
                    },
                )
            },
        }
    }
}

impl ActTypeAlias {
    fn clone_alias(&self) -> (r: ActTypeAlias)
        ensures
            r.name@ == self.name@,
            aliased_view(r.aliased_type) == aliased_view(self.aliased_type),
    {
        let aliased_type = match &self.aliased_type {
            ActAliasedType::Primitive(l) => ActAliasedType::Primitive(*l),
            ActAliasedType::TypeRef(n) => ActAliasedType::TypeRef(n.clone()),
        };
        ActTypeAlias { name: self.name.clone(), aliased_type }
    }
}

impl ActPrimitive {
    fn clone_prim(&self) -> (r: ActPrimitive)
        ensures
            ActDataTypeNode::Primitive(r)@ == ActDataTypeNode::Primitive(*self)@,
    {
        match self {
            ActPrimitive::Literal(l) => ActPrimitive::Literal(*l),
            ActPrimitive::TypeAlias(a) => ActPrimitive::TypeAlias(a.clone_alias()),
        }
    }
}

impl ActTypeRef {
    fn clone_ref(&self) -> (r: ActTypeRef)
        ensures
            ActDataTypeNode::TypeRef(r)@ == ActDataTypeNode::TypeRef(*self)@,
    {
        match self {
            ActTypeRef::Literal(n) => ActTypeRef::Literal(n.clone()),
            ActTypeRef::TypeAlias(a) => ActTypeRef::TypeAlias(a.clone_alias()),
        }
    }
}


proof fn lemma_filter_push(s: Seq<TypeNode>, x: TypeNode)
    ensures
        s.push(x).filter(inline_pred()) == if x.is_inline() {
            s.filter(inline_pred()).push(x)
        } else {
            s.filter(inline_pred())
        },
{
    reveal(Seq::filter);
    assert(s.push(x).drop_last() =~= s);
}

fn inline_of_members(s: &Vec<ActMember>) -> (r: Vec<ActDataTypeNode>)
    ensures
        views(r@) == member_types(members_view(s@)).filter(inline_pred()),
{
    let mut r: Vec<ActDataTypeNode> = Vec::new();
    let mut i: usize = 0;
    let ghost tys = member_types(members_view(s@));
    proof {
        lemma_members_view(s@);
    }
    while i < s.len()
        invariant
            i <= s.len(),
            tys == member_types(members_view(s@)),
            tys.len() == s.len(),
            forall|j: int| 0 <= j < s.len() ==> #[trigger] tys[j] == s@[j].member_type@,
            views(r@) == tys.subrange(0, i as int).filter(inline_pred()),
        decreases s.len() - i,
    {
        proof {
            assert(tys.subrange(0, i + 1) =~= tys.subrange(0, i as int).push(tys[i as int]));
            lemma_filter_push(tys.subrange(0, i as int), tys[i as int]);
        }
        if s[i].member_type.is_inline_type() {
            let n = s[i].member_type.duplicate();
            let ghost prev = r@;
            r.push(n);
            assert(views(r@) =~= views(prev).push(tys[i as int]));
        }
        i = i + 1;
    }
    assert(tys.subrange(0, s.len() as int) =~= tys);
    r
}

fn inline_of_nodes(s: &Vec<ActDataTypeNode>) -> (r: Vec<ActDataTypeNode>)
    ensures
        views(r@) == views(s@).filter(inline_pred()),
{
    let mut r: Vec<ActDataTypeNode> = Vec::new();
    let mut i: usize = 0;
    let ghost tys = views(s@);
    while i < s.len()
        invariant
            i <= s.len(),
            tys == views(s@),
            views(r@) == tys.subrange(0, i as int).filter(inline_pred()),
        decreases s.len() - i,
    {
        proof {
            assert(tys.subrange(0, i + 1) =~= tys.subrange(0, i as int).push(tys[i as int]));
            lemma_filter_push(tys.subrange(0, i as int), tys[i as int]);
        }
        if s[i].is_inline_type() {
            let n = s[i].duplicate();
            let ghost prev = r@;
            r.push(n);
            assert(views(r@) =~= views(prev).push(tys[i as int]));
        }
        i = i + 1;
    }
    assert(tys.subrange(0, s.len() as int) =~= tys);
    r
}

impl ActDataTypeNode {
    /// The enclosed nodes that are inline, in declaration order.
    pub fn get_inline_members(&self) -> (r: Vec<ActDataTypeNode>)
        ensures
            views(r@) == self@.inline_members(),
    {
        match self {
            ActDataTypeNode::Record(rec) => inline_of_members(&rec.members),
            ActDataTypeNode::Variant(v) => inline_of_members(&v.members),
            ActDataTypeNode::Func(f) => {
                let mut r = inline_of_nodes(&f.params);
                proof {
                    lemma_nodes_view(f.params@);
                    lemma_filter_push(views(f.params@), f.return_type@);
                }
                if f.return_type.is_inline_type() {
                    let n = f.return_type.duplicate();
                    let ghost prev = r@;
                    r.push(n);
                    assert(views(r@) =~= views(prev).push(f.return_type@));
                }
                r
            },
            ActDataTypeNode::Tuple(t) => {
                proof {
                    lemma_nodes_view(t.elems@);
                }
                inline_of_nodes(&t.elems)
            },
            ActDataTypeNode::Primitive(_) => Vec::new(),
            ActDataTypeNode::TypeRef(_) => Vec::new(),
            ActDataTypeNode::Array(a) => {
                let e = a.get_enclosed_type();
                let mut r: Vec<ActDataTypeNode> = Vec::new();
                proof {
                    reveal(Seq::filter);
                    lemma_filter_push(Seq::empty(), e@);
                    assert(seq![e@] == Seq::<TypeNode>::empty().push(e@));
                }
                if e.is_inline_type() {
                    r.push(e.duplicate());
                    assert(views(r@) =~= seq![e@]);
                }
                r
            },
            ActDataTypeNode::Option(o) => {
                let e = o.get_enclosed_type();
                let mut r: Vec<ActDataTypeNode> = Vec::new();
                proof {
                    reveal(Seq::filter);
                    lemma_filter_push(Seq::empty(), e@);
                    assert(seq![e@] == Seq::<TypeNode>::empty().push(e@));
                }
                if e.is_inline_type() {
                    r.push(e.duplicate());
                    assert(views(r@) =~= seq![e@]);
                }
                r
            },
        }
    }
}


proof fn lemma_views_append(a: Seq<ActDataTypeNode>, b: Seq<ActDataTypeNode>)
    ensures
        views(a + b) == views(a) + views(b),
{
    assert(views(a + b) =~= views(a) + views(b));
}

fn collect_from_members(s: &Vec<ActMember>) -> (r: Vec<ActDataTypeNode>)
    ensures
        views(r@) == collect_members(members_view(s@)),
    decreases s,
{
    let mut r: Vec<ActDataTypeNode> = Vec::new();
    let mut i: usize = 0;
    let ghost ms = members_view(s@);
    proof {
        lemma_members_view(s@);
    }
    while i < s.len()
        invariant
            i <= s.len(),
            ms == members_view(s@),
            ms.len() == s.len(),
            forall|j: int| 0 <= j < s.len() ==> #[trigger] ms[j].ty == s@[j].member_type@,
            views(r@) == collect_members(ms.subrange(0, i as int)),
        decreases s.len() - i,
    {
        proof {
            assert(ms.subrange(0, i + 1).drop_last() =~= ms.subrange(0, i as int));
        }
        if s[i].member_type.is_inline_type() {
            let mut sub = s[i].member_type.collect_inline_types();
            let ghost prev = r@;
            let ghost subv = sub@;
            r.append(&mut sub);
            proof {
                lemma_views_append(prev, subv);
            }
        } else {
            assert(collect_members(ms.subrange(0, i + 1)) =~= collect_members(ms.subrange(0, i as int)));
        }
        i = i + 1;
    }
    assert(ms.subrange(0, s.len() as int) =~= ms);
    r
}

fn collect_from_nodes(s: &Vec<ActDataTypeNode>) -> (r: Vec<ActDataTypeNode>)
    ensures
        views(r@) == collect_nodes(views(s@)),
    decreases s,
{
    let mut r: Vec<ActDataTypeNode> = Vec::new();
    let mut i: usize = 0;
    let ghost ns = views(s@);
    while i < s.len()
        invariant
            i <= s.len(),
            ns == views(s@),
            views(r@) == collect_nodes(ns.subrange(0, i as int)),
        decreases s.len() - i,
    {
        proof {
            assert(ns.subrange(0, i + 1).drop_last() =~= ns.subrange(0, i as int));
        }
        if s[i].is_inline_type() {
            let mut sub = s[i].collect_inline_types();
            let ghost prev = r@;
            let ghost subv = sub@;
            r.append(&mut sub);
            proof {
                lemma_views_append(prev, subv);
            }
        } else {
            assert(collect_nodes(ns.subrange(0, i + 1)) =~= collect_nodes(ns.subrange(0, i as int)));
        }
        i = i + 1;
    }
    assert(ns.subrange(0, s.len() as int) =~= ns);
    r
}

impl ActDataTypeNode {
    /// Every inline node reachable from this one; a reference to a named
    /// type is a boundary that is not crossed.
    pub fn collect_inline_types(&self) -> (r: Vec<ActDataTypeNode>)
        ensures
            views(r@) == self@.collected(),
        decreases self,
    {
        let mut own: Vec<ActDataTypeNode> = Vec::new();
        if self.is_inline_type() {
            own.push(self.duplicate());
        }
        assert(views(own@) =~= (if self@.is_inline() { seq![self@] } else { Seq::empty() }));
        let mut below: Vec<ActDataTypeNode> = match self {
            ActDataTypeNode::Array(a) => {
                let e = a.get_enclosed_type();
                if e.is_inline_type() {
                    e.collect_inline_types()
                } else {
                    Vec::new()
                }
            },
            ActDataTypeNode::Option(o) => {
                let e = o.get_enclosed_type();
                if e.is_inline_type() {
                    e.collect_inline_types()
                } else {
                    Vec::new()
                }
            },
            ActDataTypeNode::Record(rec) => collect_from_members(&rec.members),
            ActDataTypeNode::Variant(v) => collect_from_members(&v.members),
            ActDataTypeNode::Tuple(t) => {
                proof {
                    lemma_nodes_view(t.elems@);
                }
                collect_from_nodes(&t.elems)
            },
            ActDataTypeNode::Func(f) => {
                proof {
                    lemma_nodes_view(f.params@);
                }
                let mut r = collect_from_nodes(&f.params);
                if f.return_type.is_inline_type() {
                    let mut sub = f.return_type.collect_inline_types();
                    let ghost prev = r@;
                    let ghost subv = sub@;
                    r.append(&mut sub);
                    proof {
                        lemma_views_append(prev, subv);
                    }
                } else {
                    assert(views(r@) =~= views(r@) + Seq::<TypeNode>::empty());
                }
                r
            },
            ActDataTypeNode::Primitive(_) => Vec::new(),
            ActDataTypeNode::TypeRef(_) => Vec::new(),
        };
        let ghost ov = own@;
        let ghost bv = below@;
        own.append(&mut below);
        proof {
            lemma_views_append(ov, bv);
        }
        own
    }
}

/// All inline types reachable from the given named types, in order.
pub fn build_inline_types_from_type_alias_acts(type_aliases: &Vec<ActDataTypeNode>) -> (r: Vec<
    ActDataTypeNode,
>)
    ensures
        views(r@) == collect_all(views(type_aliases@)),
{
    let mut r: Vec<ActDataTypeNode> = Vec::new();
    let mut i: usize = 0;
    let ghost ns = views(type_aliases@);
    while i < type_aliases.len()
        invariant
            i <= type_aliases.len(),
            ns == views(type_aliases@),
            views(r@) == collect_all(ns.subrange(0, i as int)),
        decreases type_aliases.len() - i,
    {
        proof {
            assert(ns.subrange(0, i + 1).drop_last() =~= ns.subrange(0, i as int));
        }
        let mut sub = type_aliases[i].collect_inline_types();
        let ghost prev = r@;
        let ghost subv = sub@;
        r.append(&mut sub);
        proof {
            lemma_views_append(prev, subv);
        }
        i = i + 1;
    }
    assert(ns.subrange(0, type_aliases.len() as int) =~= ns);
    r
}


// ----- deduplication -----

pub open spec fn idents(s: Seq<TypeNode>) -> Seq<Seq<char>> {
    s.map_values(|n: TypeNode| n.ident())
}

/// The first node under each identifier, in order of first appearance.
pub open spec fn dedup_by_ident(s: Seq<TypeNode>) -> Seq<TypeNode>
    decreases s.len(),
{
    if s.len() == 0 {
        Seq::empty()
    } else {
        let p = dedup_by_ident(s.drop_last());
        if idents(p).contains(s.last().ident()) {
            p
        } else {
            p.push(s.last())
        }
    }
}

pub open spec fn idents_distinct(s: Seq<TypeNode>) -> bool {
    forall|i: int, j: int| 0 <= i < j < s.len() ==> s[i].ident() != s[j].ident()
}

/// Nodes that share an identifier are the same node.
pub open spec fn consistent(s: Seq<TypeNode>) -> bool {
    forall|i: int, j: int|
        0 <= i < s.len() && 0 <= j < s.len() && s[i].ident() == s[j].ident() ==> s[i] == s[j]
}

/// Keeps the first node under each identifier and drops later ones, keeping
/// the order of first appearance.
pub fn deduplicate(act_data_type_nodes: Vec<ActDataTypeNode>) -> (r: Vec<ActDataTypeNode>)
    ensures
        views(r@) == dedup_by_ident(views(act_data_type_nodes@)),
{
    let mut r: Vec<ActDataTypeNode> = Vec::new();
    let mut keys: Vec<String> = Vec::new();
    let mut i: usize = 0;
    let ghost ns = views(act_data_type_nodes@);
    while i < act_data_type_nodes.len()
        invariant
            i <= act_data_type_nodes.len(),
            ns == views(act_data_type_nodes@),
            views(r@) == dedup_by_ident(ns.subrange(0, i as int)),
            keys.len() == r.len(),
            forall|j: int| 0 <= j < keys.len() ==> #[trigger] keys@[j]@ == r@[j]@.ident(),
        decreases act_data_type_nodes.len() - i,
    {
        let key = act_data_type_nodes[i].get_type_ident();
        let mut found = false;
        let mut j: usize = 0;
        while j < keys.len()
            invariant
                j <= keys.len(),
                found <==> exists|k: int| 0 <= k < j && #[trigger] keys@[k]@ == key@,
            decreases keys.len() - j,
        {
            if keys[j] == key {
                found = true;
            }
            j = j + 1;
        }
        proof {
            let sub = ns.subrange(0, i + 1);
            assert(sub.drop_last() =~= ns.subrange(0, i as int));
            let p = views(r@);
            if found {
                let k = choose|k: int| 0 <= k < keys.len() && #[trigger] keys@[k]@ == key@;
                assert(idents(p)[k] == key@);
            }
            if idents(p).contains(key@) {
                let k = choose|k: int| 0 <= k < idents(p).len() && idents(p)[k] == key@;
                assert(keys@[k]@ == key@);
            }
        }
        if !found {
            let ghost prev = r@;
            r.push(act_data_type_nodes[i].duplicate());
            keys.push(key);
            assert(views(r@) =~= views(prev).push(ns[i as int]));
        }
        i = i + 1;
    }
    assert(ns.subrange(0, act_data_type_nodes.len() as int) =~= ns);
    r
}

proof fn lemma_dedup_parts(s: Seq<TypeNode>)
    ensures
        idents_distinct(dedup_by_ident(s)),
        forall|n: TypeNode| dedup_by_ident(s).contains(n) ==> s.contains(n),
        forall|x: Seq<char>| idents(dedup_by_ident(s)).contains(x) <==> idents(s).contains(x),
    decreases s.len(),
{
    if s.len() > 0 {
        let t = s.drop_last();
        lemma_dedup_parts(t);
        let p = dedup_by_ident(t);
        assert forall|n: TypeNode| dedup_by_ident(s).contains(n) implies s.contains(n) by {
            let k = choose|k: int| 0 <= k < dedup_by_ident(s).len() && dedup_by_ident(s)[k] == n;
            if k < p.len() {
                assert(dedup_by_ident(s)[k] == p[k]);
                assert(p.contains(n));
                assert(t.contains(n));
                let m = choose|m: int| 0 <= m < t.len() && t[m] == n;
                assert(s[m] == n);
            } else {
                assert(s[s.len() - 1] == n);
            }
        }
        assert forall|x: Seq<char>| idents(dedup_by_ident(s)).contains(x) <==> idents(s).contains(x) by {
            if idents(dedup_by_ident(s)).contains(x) {
                let k = choose|k: int| 0 <= k < idents(dedup_by_ident(s)).len() && idents(dedup_by_ident(s))[k] == x;
                if k < p.len() {
                    assert(idents(p)[k] == x);
                    assert(idents(t).contains(x));
                    let m = choose|m: int| 0 <= m < idents(t).len() && idents(t)[m] == x;
                    assert(idents(s)[m] == x);
                } else {
                    assert(idents(s)[s.len() - 1] == x);
                }
            }
            if idents(s).contains(x) {
                let m = choose|m: int| 0 <= m < idents(s).len() && idents(s)[m] == x;
                if m < t.len() {
                    assert(idents(t)[m] == x);
                    assert(idents(t).contains(x));
                    assert(idents(p).contains(x));
                    let k = choose|k: int| 0 <= k < idents(p).len() && idents(p)[k] == x;
                    assert(idents(dedup_by_ident(s))[k] == x);
                } else if !idents(p).contains(x) {
                    assert(idents(dedup_by_ident(s))[p.len() as int] == x);
                } else {
                    let k = choose|k: int| 0 <= k < idents(p).len() && idents(p)[k] == x;
                    assert(idents(dedup_by_ident(s))[k] == x);
                }
            }
        }
        if !idents(p).contains(s.last().ident()) {
            let d = dedup_by_ident(s);
            assert forall|i: int, j: int| 0 <= i < j < d.len() implies d[i].ident() != d[j].ident() by {
                if j == p.len() {
                    assert(idents(p)[i] == d[i].ident());
                }
            }
        }
    }
}

proof fn lemma_dedup_distinct_is_identity(s: Seq<TypeNode>)
    requires
        idents_distinct(s),
    ensures
        dedup_by_ident(s) == s,
    decreases s.len(),
{
    if s.len() > 0 {
        let t = s.drop_last();
        assert(idents_distinct(t));
        lemma_dedup_distinct_is_identity(t);
        if idents(t).contains(s.last().ident()) {
            let k = choose|k: int| 0 <= k < idents(t).len() && idents(t)[k] == s.last().ident();
            assert(s[k].ident() == s[s.len() - 1].ident());
        }
        assert(t.push(s.last()) =~= s);
    }
}

/// Deduplicating twice gives what deduplicating once gives.
pub proof fn lemma_dedup_idempotent(s: Seq<TypeNode>)
    ensures
        dedup_by_ident(dedup_by_ident(s)) == dedup_by_ident(s),
{
    lemma_dedup_parts(s);
    lemma_dedup_distinct_is_identity(dedup_by_ident(s));
}

/// The identifiers that survive deduplication are exactly those of the input,
/// each once, and every surviving node comes from the input.
pub proof fn lemma_dedup_keeps_identifiers(s: Seq<TypeNode>)
    ensures
        idents_distinct(dedup_by_ident(s)),
        forall|n: TypeNode| dedup_by_ident(s).contains(n) ==> s.contains(n),
        forall|x: Seq<char>| idents(dedup_by_ident(s)).contains(x) <==> idents(s).contains(x),
{
    lemma_dedup_parts(s);
}

proof fn lemma_dedup_same_elements(s: Seq<TypeNode>)
    requires
        consistent(s),
    ensures
        forall|n: TypeNode| dedup_by_ident(s).contains(n) <==> s.contains(n),
{
    lemma_dedup_parts(s);
    let d = dedup_by_ident(s);
    assert forall|n: TypeNode| s.contains(n) implies d.contains(n) by {
        let m = choose|m: int| 0 <= m < s.len() && s[m] == n;
        assert(idents(s)[m] == n.ident());
        assert(idents(s).contains(n.ident()));
        assert(idents(d).contains(n.ident()));
        let k = choose|k: int| 0 <= k < idents(d).len() && idents(d)[k] == n.ident();
        assert(d[k].ident() == n.ident());
        assert(d.contains(d[k]));
        assert(s.contains(d[k]));
        let m2 = choose|m2: int| 0 <= m2 < s.len() && s[m2] == d[k];
        assert(s[m2].ident() == s[m].ident());
    }
}

/// When nodes that share an identifier are the same node, the order of the
/// declarations does not change which definitions survive.
pub proof fn lemma_dedup_order_independent(s1: Seq<TypeNode>, s2: Seq<TypeNode>)
    requires
        consistent(s1),
        s1.to_multiset() == s2.to_multiset(),
    ensures
        dedup_by_ident(s1).to_set() == dedup_by_ident(s2).to_set(),
{
    s1.to_multiset_ensures();
    s2.to_multiset_ensures();
    assert forall|n: TypeNode| s1.contains(n) <==> s2.contains(n) by {
        assert(s1.to_multiset().count(n) == s2.to_multiset().count(n));
        assert(s1.contains(n) <==> s1.to_multiset().count(n) > 0);
        assert(s2.contains(n) <==> s2.to_multiset().count(n) > 0);
    }
    assert(consistent(s2)) by {
        assert forall|i: int, j: int|
            0 <= i < s2.len() && 0 <= j < s2.len() && s2[i].ident() == s2[j].ident() implies s2[i] == s2[j] by {
            assert(s2.contains(s2[i]));
            assert(s2.contains(s2[j]));
            let a = choose|a: int| 0 <= a < s1.len() && s1[a] == s2[i];
            let b = choose|b: int| 0 <= b < s1.len() && s1[b] == s2[j];
        }
    }
    lemma_dedup_same_elements(s1);
    lemma_dedup_same_elements(s2);
    assert forall|n: TypeNode| dedup_by_ident(s1).to_set().contains(n) <==> dedup_by_ident(s2).to_set().contains(n) by {
        assert(dedup_by_ident(s1).contains(n) <==> s1.contains(n));
        assert(dedup_by_ident(s2).contains(n) <==> s2.contains(n));
    }
    assert(dedup_by_ident(s1).to_set() =~= dedup_by_ident(s2).to_set());
}


// ----- the reference boundary -----

pub open spec fn all_inline(s: Seq<TypeNode>) -> bool {
    forall|i: int| 0 <= i < s.len() ==> #[trigger] s[i].is_inline()
}

proof fn lemma_all_inline_append(a: Seq<TypeNode>, b: Seq<TypeNode>)
    requires
        all_inline(a),
        all_inline(b),
    ensures
        all_inline(a + b),
{
    assert forall|i: int| 0 <= i < (a + b).len() implies #[trigger] (a + b)[i].is_inline() by {
        if i < a.len() {
            assert((a + b)[i] == a[i]);
        } else {
            assert((a + b)[i] == b[i - a.len()]);
        }
    }
}

/// Only inline nodes are ever collected: a named node, and in particular
/// the target of a reference, is never expanded in place.
pub proof fn lemma_collected_only_inline(n: TypeNode)
    ensures
        all_inline(n.collected()),
    decreases n,
{
    let own = if n.is_inline() {
        seq![n]
    } else {
        Seq::<TypeNode>::empty()
    };
    assert(all_inline(own));
    match n {
        TypeNode::Array { elem, .. } => {
            lemma_collected_only_inline(*elem);
            lemma_all_inline_append(own, if elem.is_inline() { elem.collected() } else { Seq::empty() });
        },
        TypeNode::Opt { elem, .. } => {
            lemma_collected_only_inline(*elem);
            lemma_all_inline_append(own, if elem.is_inline() { elem.collected() } else { Seq::empty() });
        },
        TypeNode::Record { members, .. } => {
            lemma_collect_members_only_inline(members);
            lemma_all_inline_append(own, collect_members(members));
        },
        TypeNode::Variant { members, .. } => {
            lemma_collect_members_only_inline(members);
            lemma_all_inline_append(own, collect_members(members));
        },
        TypeNode::Tuple { elems, .. } => {
            lemma_collect_nodes_only_inline(elems);
            lemma_all_inline_append(own, collect_nodes(elems));
        },
        TypeNode::Func { params, ret, .. } => {
            lemma_collect_nodes_only_inline(params);
            lemma_collected_only_inline(*ret);
            let tail = if ret.is_inline() { ret.collected() } else { Seq::empty() };
            lemma_all_inline_append(collect_nodes(params), tail);
            lemma_all_inline_append(own, collect_nodes(params) + tail);
        },
        _ => {
            assert(n.collected() =~= own);
        },
    }
}

proof fn lemma_collect_members_only_inline(s: Seq<MemberNode>)
    ensures
        all_inline(collect_members(s)),
    decreases s,
{
    if s.len() > 0 {
        lemma_collect_members_only_inline(s.drop_last());
        lemma_collected_only_inline(s.last().ty);
        lemma_all_inline_append(
            collect_members(s.drop_last()),
            if s.last().ty.is_inline() { s.last().ty.collected() } else { Seq::empty() },
        );
    }
}

proof fn lemma_collect_nodes_only_inline(s: Seq<TypeNode>)
    ensures
        all_inline(collect_nodes(s)),
    decreases s,
{
    if s.len() > 0 {
        lemma_collect_nodes_only_inline(s.drop_last());
        lemma_collected_only_inline(s.last());
        lemma_all_inline_append(
            collect_nodes(s.drop_last()),
            if s.last().is_inline() { s.last().collected() } else { Seq::empty() },
        );
    }
}

/// A reference to a named type, or an optional or sequence of one.
pub open spec fn is_reference_like(t: TypeNode) -> bool {
    match t {
        TypeNode::TypeRef { .. } => true,
        TypeNode::Opt { elem, .. } => (*elem) is TypeRef,
        TypeNode::Array { elem, .. } => (*elem) is TypeRef,
        _ => false,
    }
}

/// A reference, and a sequence or optional around one, contributes nothing
/// to the collection, so a named type that refers to itself is not expanded.
pub proof fn lemma_type_ref_is_boundary(n: TypeNode)
    requires
        is_reference_like(n),
    ensures
        !n.is_inline(),
        n.collected() == Seq::<TypeNode>::empty(),
{
    match n {
        TypeNode::Opt { elem, .. } => {
            assert(elem.collected() =~= Seq::<TypeNode>::empty());
        },
        TypeNode::Array { elem, .. } => {
            assert(elem.collected() =~= Seq::<TypeNode>::empty());
        },
        _ => {},
    }
    assert(n.collected() =~= Seq::<TypeNode>::empty());
}

/// The inline types of the given named types that need a definition of
/// their own: all that are reachable, each identifier once, in order of first
/// discovery.
pub fn inline_type_definitions(type_aliases: &Vec<ActDataTypeNode>) -> (r: Vec<ActDataTypeNode>)
    ensures
        views(r@) == dedup_by_ident(collect_all(views(type_aliases@))),
{
    let all = build_inline_types_from_type_alias_acts(type_aliases);
    deduplicate(all)
}

proof fn lemma_collect_members_of_references(ms: Seq<MemberNode>)
    requires
        forall|i: int| 0 <= i < ms.len() ==> is_reference_like(#[trigger] ms[i].ty),
    ensures
        collect_members(ms) == Seq::<TypeNode>::empty(),
    decreases ms.len(),
{
    if ms.len() > 0 {
        let t = ms.drop_last();
        assert forall|i: int| 0 <= i < t.len() implies is_reference_like(#[trigger] t[i].ty) by {
            assert(t[i] == ms[i]);
        }
        lemma_collect_members_of_references(t);
        assert(is_reference_like(ms[ms.len() - 1].ty));
        lemma_type_ref_is_boundary(ms.last().ty);
        assert(collect_members(ms) =~= Seq::<TypeNode>::empty());
    }
}

/// A named record whose fields all refer to named types, possibly through
/// an optional or a sequence (`R = { next: Option<R> }`), contributes no
/// inline type: the collection of it is empty, and its own name is never
/// expanded again.
pub proof fn lemma_self_reference_not_expanded(r: TypeNode)
    requires
        r matches TypeNode::Record { members, inline, .. } && !inline && forall|i: int|
            0 <= i < members.len() ==> is_reference_like(#[trigger] members[i].ty),
    ensures
        r.collected() == Seq::<TypeNode>::empty(),
{
    lemma_collect_members_of_references(r->Record_members);
    assert(r.collected() =~= Seq::<TypeNode>::empty());
}

/// Whatever the root, and however deep references sit under optionals,
/// sequences or inline records, the collection holds only inline nodes: no
/// reference, and no named node (a named record `R` among them) is ever
/// expanded in place, not even once.
pub proof fn lemma_named_never_expanded(root: TypeNode, named: TypeNode)
    requires
        !named.is_inline(),
    ensures
        forall|i: int|
            0 <= i < root.collected().len() ==> {
                &&& (#[trigger] root.collected()[i]).is_inline()
                &&& root.collected()[i] != named
                &&& !(root.collected()[i] is TypeRef)
            },
{
    lemma_collected_only_inline(root);
    assert forall|i: int| 0 <= i < root.collected().len() implies !(
    #[trigger] root.collected()[i] is TypeRef) by {
        assert(root.collected()[i].is_inline());
    }
}

} // verus!
