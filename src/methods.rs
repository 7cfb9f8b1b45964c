//! Entry-point declarations and the compile-time checks made on them.
use vstd::prelude::*;
use vstd::string::*;
use crate::type_node::{ActDataTypeNode, views};

verus! {

#[derive(Clone, Copy, Debug, PartialEq, Eq, Structural)]
pub enum CanisterMethodType {
    Heartbeat,
    Init,
    InspectMessage,
    PostUpgrade,
    PreUpgrade,
    Query,
    Update,
}

impl CanisterMethodType {
    /// Lifecycle kinds admit at most one declaration each.
    pub open spec fn is_lifecycle(self) -> bool {
        !(self is Query) && !(self is Update)
    }
}

#[derive(Debug)]
pub struct ActParam {
    pub name: String,
    pub data_type: ActDataTypeNode,
}

/// One declared entry point.
#[derive(Debug)]
pub struct CanisterMethod {
    pub name: String,
    pub method_type: CanisterMethodType,
    pub params: Vec<ActParam>,
    pub return_type: Option<ActDataTypeNode>,
    pub is_async: bool,
    pub guard_function_name: Option<String>,
}

/// A fatal compile-time error: no program can be generated.
#[derive(Debug, PartialEq, Eq, Structural)]
pub enum CompileError {
    /// More than one declaration of a lifecycle kind.
    DuplicateMethodTypes(CanisterMethodType),
}

pub open spec fn count_of_type(s: Seq<CanisterMethod>, t: CanisterMethodType) -> nat
    decreases s.len(),
{
    if s.len() == 0 {
        0
    } else {
        count_of_type(s.drop_last(), t) + if s.last().method_type == t {
            1nat
        } else {
            0nat
        }
    }
}

/// Finds the single declaration of kind `t`: `Ok(None)` when there is none,
/// `Ok(Some(i))` with its position when there is exactly one, and an error
/// when there are more.
pub fn find_single_method_of_type(methods: &Vec<CanisterMethod>, t: CanisterMethodType) -> (r:
    Result<Option<usize>, CompileError>)
    ensures
        single_result(methods@, t, r),
{
    let mut found: Option<usize> = None;
    let mut count: usize = 0;
    let mut i: usize = 0;
    while i < methods.len()
        invariant
            i <= methods.len(),
            count <= i,
            count == if count_of_type(methods@.subrange(0, i as int), t) > 1 {
                2
            } else {
                count_of_type(methods@.subrange(0, i as int), t)
            },
            count == 0 <==> found is None,
            found matches Some(k) ==> k < i && methods@[k as int].method_type == t,
        decreases methods.len() - i,
    {
        proof {
            assert(methods@.subrange(0, i + 1).drop_last() =~= methods@.subrange(0, i as int));
        }
        if methods[i].method_type == t {
            if count < 2 {
                count = count + 1;
            }
            if found.is_none() {
                found = Some(i);
            }
        }
        i = i + 1;
    }
    assert(methods@.subrange(0, methods.len() as int) =~= methods@);
    if count > 1 {
        Err(CompileError::DuplicateMethodTypes(t))
    } else {
        Ok(found)
    }
}

/// The single `InspectMessage` declaration, if any.
pub fn build_inspect_message_method(methods: &Vec<CanisterMethod>) -> (r: Result<
    Option<usize>,
    CompileError,
>)
    ensures
        single_result(methods@, CanisterMethodType::InspectMessage, r),
{
    find_single_method_of_type(methods, CanisterMethodType::InspectMessage)
}

/// The single `PreUpgrade` declaration, if any.
pub fn build_pre_upgrade_method(methods: &Vec<CanisterMethod>) -> (r: Result<
    Option<usize>,
    CompileError,
>)
    ensures
        single_result(methods@, CanisterMethodType::PreUpgrade, r),
{
    find_single_method_of_type(methods, CanisterMethodType::PreUpgrade)
}

/// The single `Heartbeat` declaration, if any.
pub fn build_canister_method_system_heartbeat(methods: &Vec<CanisterMethod>) -> (r: Result<
    Option<usize>,
    CompileError,
>)
    ensures
        single_result(methods@, CanisterMethodType::Heartbeat, r),
{
    find_single_method_of_type(methods, CanisterMethodType::Heartbeat)
}

/// What a search for the single declaration of kind `t` must return: the
/// duplicate error when there are several, `Ok(None)` when there is none,
/// and the position of the only one otherwise.
pub open spec fn single_result(
    s: Seq<CanisterMethod>,
    t: CanisterMethodType,
    r: Result<Option<usize>, CompileError>,
) -> bool {
    &&& count_of_type(s, t) > 1 <==> r == Err::<Option<usize>, CompileError>(
        CompileError::DuplicateMethodTypes(t),
    )
    &&& count_of_type(s, t) == 0 <==> r == Ok::<Option<usize>, CompileError>(None)
    &&& count_of_type(s, t) == 1 <==> (r matches Ok(Some(i)) && i < s.len() && s[i as int].method_type
        == t)
}

/// Checks that each lifecycle kind is declared at most once.  On failure it
/// names a kind that is declared more than once.
pub fn validate_methods(methods: &Vec<CanisterMethod>) -> (r: Result<(), CompileError>)
    ensures
        r is Ok <==> forall|t: CanisterMethodType|
            #![trigger count_of_type(methods@, t)]
            t.is_lifecycle() ==> count_of_type(methods@, t) <= 1,
        r matches Err(CompileError::DuplicateMethodTypes(t)) ==> t.is_lifecycle() && count_of_type(
            methods@,
            t,
        ) > 1,
{
    let kinds: [CanisterMethodType; 5] = [
        CanisterMethodType::Init,
        CanisterMethodType::PreUpgrade,
        CanisterMethodType::PostUpgrade,
        CanisterMethodType::Heartbeat,
        CanisterMethodType::InspectMessage,
    ];
    let mut i: usize = 0;
    while i < 5
        invariant
            i <= 5,
            kinds@ == seq![
                CanisterMethodType::Init,
                CanisterMethodType::PreUpgrade,
                CanisterMethodType::PostUpgrade,
                CanisterMethodType::Heartbeat,
                CanisterMethodType::InspectMessage,
            ],
            forall|j: int| 0 <= j < i ==> count_of_type(methods@, #[trigger] kinds@[j]) <= 1,
        decreases 5 - i,
    {
        let t = kinds[i];
        match find_single_method_of_type(methods, t) {
            Err(e) => {
                return Err(e);
            },
            Ok(_) => {},
        }
        i = i + 1;
    }
    assert forall|t: CanisterMethodType| t.is_lifecycle() implies #[trigger] count_of_type(methods@, t) <= 1 by {
        match t {
            CanisterMethodType::Init => assert(kinds@[0] == t),
            CanisterMethodType::PreUpgrade => assert(kinds@[1] == t),
            CanisterMethodType::PostUpgrade => assert(kinds@[2] == t),
            CanisterMethodType::Heartbeat => assert(kinds@[3] == t),
            CanisterMethodType::InspectMessage => assert(kinds@[4] == t),
            _ => {},
        }
    }
    Ok(())
}

/// Two declarations of a lifecycle kind make the whole set of methods
/// invalid.
pub proof fn lemma_duplicate_lifecycle_rejected(
    s: Seq<CanisterMethod>,
    t: CanisterMethodType,
    r: Result<(), CompileError>,
)
    requires
        t.is_lifecycle(),
        count_of_type(s, t) >= 2,
        r is Ok <==> forall|k: CanisterMethodType|
            #![trigger count_of_type(s, k)]
            k.is_lifecycle() ==> count_of_type(s, k) <= 1,
    ensures
        r is Err,
{
}

pub open spec fn annotation_name(t: CanisterMethodType) -> Seq<char> {
    match t {
        CanisterMethodType::Heartbeat => "$heartbeat"@,
        CanisterMethodType::Init => "$init"@,
        CanisterMethodType::InspectMessage => "$inspect_message"@,
        CanisterMethodType::PostUpgrade => "$post_upgrade"@,
        CanisterMethodType::PreUpgrade => "$pre_upgrade"@,
        CanisterMethodType::Query => "$query"@,
        CanisterMethodType::Update => "$update"@,
    }
}

fn annotation_str(t: CanisterMethodType) -> (r: &'static str)
    ensures
        r@ == annotation_name(t),
{
    match t {
        CanisterMethodType::Heartbeat => "$heartbeat",
        CanisterMethodType::Init => "$init",
        CanisterMethodType::InspectMessage => "$inspect_message",
        CanisterMethodType::PostUpgrade => "$post_upgrade",
        CanisterMethodType::PreUpgrade => "$pre_upgrade",
        CanisterMethodType::Query => "$query",
        CanisterMethodType::Update => "$update",
    }
}

/// Where a piece of source text stands: the file it comes from, its line,
/// the text itself and its byte range in the file.
#[derive(Debug, PartialEq, Eq)]
pub struct SourceSpan {
    pub origin: String,
    pub line_number: usize,
    pub source: String,
    pub range: (usize, usize),
}

/// A method annotation found in the module: its kind and where it stands.
#[derive(Debug, PartialEq, Eq)]
pub struct AnnotationItem {
    pub method_type: CanisterMethodType,
    pub span: SourceSpan,
}

/// A proposed fix shown under an error.
#[derive(Debug, PartialEq, Eq)]
pub struct Suggestion {
    pub title: String,
    pub source: String,
    pub range: (usize, usize),
    pub annotation: Option<String>,
    pub import_suggestion: Option<String>,
}

/// A compile-time error as shown to the author of the module.
#[derive(Debug, PartialEq, Eq)]
pub struct ErrorMessage {
    pub title: String,
    pub origin: String,
    pub line_number: usize,
    pub source: String,
    pub range: (usize, usize),
    pub annotation: String,
    pub suggestion: Option<Suggestion>,
}

pub open spec fn example_function_declaration() -> Seq<char> {
    "export function some_canister_method() {\n  // method body\n}"@
}

pub open spec fn extraneous_annotation_text() -> Seq<char> {
    "expected this to be followed by an exported function declaration"@
}

pub open spec fn extraneous_suggestion_title() -> Seq<char> {
    "Follow it with an exported function declaration or remove it. E.g.:"@
}

/// The error for an annotation that is not followed by an exported function
/// declaration.  It points at the annotation, and suggests following it with
/// an example declaration, placed just after the annotation's range.
pub fn build_extraneous_decorator_error_message(item: &AnnotationItem) -> (r: ErrorMessage)
    requires
        item.span.range.1 + example_function_declaration().len() <= usize::MAX,
    ensures
        r.title@ == "extraneous "@ + annotation_name(item.method_type) + " annotation"@,
        r.origin@ == item.span.origin@,
        r.line_number == item.span.line_number,
        r.source@ == item.span.source@,
        r.range == item.span.range,
        r.annotation@ == extraneous_annotation_text(),
        r.suggestion matches Some(sg) && sg.title@ == extraneous_suggestion_title() && sg.source@
            == item.span.source@ + "\n"@ + example_function_declaration() && sg.range == (
            (item.span.range.1 + 1) as usize,
            (item.span.range.1 + example_function_declaration().len()) as usize,
        ) && sg.annotation is None && sg.import_suggestion is None,
{
    let example = "export function some_canister_method() {\n  // method body\n}";
    proof {
        reveal_strlit("export function some_canister_method() {\n  // method body\n}");
    }
    let example_len: usize = 59;
    assert(example@.len() == example_len);
    let mut title = String::from_str("extraneous ");
    title.append(annotation_str(item.method_type));
    title.append(" annotation");
    let mut suggestion_source = item.span.source.clone();
    suggestion_source.append("\n");
    suggestion_source.append(example);
    let end = item.span.range.1;
    let suggestion = Suggestion {
        title: String::from_str("Follow it with an exported function declaration or remove it. E.g.:"),
        source: suggestion_source,
        range: (end + 1, end + example_len),
        annotation: None,
        import_suggestion: None,
    };
    ErrorMessage {
        title,
        origin: item.span.origin.clone(),
        line_number: item.span.line_number,
        source: item.span.source.clone(),
        range: item.span.range,
        annotation: String::from_str("expected this to be followed by an exported function declaration"),
        suggestion: Some(suggestion),
    }
}

/// The name under which a parameter is bound in a generated body.
pub fn param_name_as_variable(name: &String) -> (r: String)
    ensures
        r@ == "_azle_user_defined_var_"@ + name@,
{
    let mut r = String::from_str("_azle_user_defined_var_");
    r.append(name.as_str());
    r
}

pub open spec fn join_with_commas(s: Seq<Seq<char>>) -> Seq<char>
    decreases s.len(),
{
    if s.len() == 0 {
        Seq::empty()
    } else if s.len() == 1 {
        s[0]
    } else {
        join_with_commas(s.drop_last()) + ", "@ + s.last()
    }
}

pub open spec fn variable_names(s: Seq<ActParam>) -> Seq<Seq<char>> {
    s.map_values(|p: ActParam| "_azle_user_defined_var_"@ + p.name@)
}

/// The tuple of parameter variables handed to a body: `(a, b)`, `(a,)` for a
/// single parameter, `()` for none.
pub fn generate_args_list(params: &Vec<ActParam>) -> (r: String)
    ensures
        r@ == "("@ + join_with_commas(variable_names(params@)) + (if params.len() == 1 {
            ","@
        } else {
            Seq::empty()
        }) + ")"@,
{
    let mut joined = String::new();
    let mut i: usize = 0;
    let ghost names = variable_names(params@);
    while i < params.len()
        invariant
            i <= params.len(),
            names == variable_names(params@),
            joined@ == join_with_commas(names.subrange(0, i as int)),
        decreases params.len() - i,
    {
        proof {
            assert(names.subrange(0, i + 1).drop_last() =~= names.subrange(0, i as int));
        }
        let v = param_name_as_variable(&params[i].name);
        if i > 0 {
            joined.append(", ");
        } else {
            assert(joined@ =~= Seq::<char>::empty());
        }
        joined.append(v.as_str());
        proof {
            if i == 0 {
                assert(joined@ =~= names.subrange(0, 1)[0]);
            }
        }
        i = i + 1;
    }
    assert(names.subrange(0, params.len() as int) =~= names);
    let mut r = String::from_str("(");
    r.append(joined.as_str());
    if params.len() == 1 {
        r.append(",");
    } else {
        assert(r@ =~= r@ + Seq::<char>::empty());
    }
    r.append(")");
    r
}

/// A generated inline definition and those it needs in turn.
#[derive(Debug)]
pub struct StructInfo {
    pub structure: String,
    pub inline_dependencies: Vec<StructInfo>,
}

/// What one entry point depends on: named types by identifier, and the
/// inline definitions generated for it.
#[derive(Debug)]
pub struct FunctionInformation {
    pub name: String,
    pub type_alias_dependant_types: Vec<String>,
    pub inline_dependant_types: Vec<StructInfo>,
}

/// Each definition followed by those it needs, depth first, in order.
pub open spec fn preorder(s: Seq<StructInfo>) -> Seq<Seq<char>>
    decreases s,
{
    if s.len() == 0 {
        Seq::empty()
    } else {
        preorder(s.drop_last()) + seq![s.last().structure@] + preorder(s.last().inline_dependencies@)
    }
}

pub open spec fn all_inline_dependencies(s: Seq<FunctionInformation>) -> Seq<Seq<char>>
    decreases s.len(),
{
    if s.len() == 0 {
        Seq::empty()
    } else {
        all_inline_dependencies(s.drop_last()) + preorder(s.last().inline_dependant_types@)
    }
}

proof fn lemma_strs_append(a: Seq<String>, b: Seq<String>)
    ensures
        strs(a + b) == strs(a) + strs(b),
{
    assert(strs(a + b) =~= strs(a) + strs(b));
}

/// The inline definitions of a tree of them, each before those it needs.
pub fn collect_inline_dependencies_for_struct(struct_info: &Vec<StructInfo>) -> (r: Vec<String>)
    ensures
        strs(r@) == preorder(struct_info@),
    decreases struct_info,
{
    let mut r: Vec<String> = Vec::new();
    let mut i: usize = 0;
    while i < struct_info.len()
        invariant
            i <= struct_info.len(),
            strs(r@) == preorder(struct_info@.subrange(0, i as int)),
        decreases struct_info.len() - i,
    {
        proof {
            assert(struct_info@.subrange(0, i + 1).drop_last() =~= struct_info@.subrange(0, i as int));
        }
        let ghost before = r@;
        r.push(struct_info[i].structure.clone());
        assert(strs(r@) =~= strs(before) + seq![struct_info@[i as int].structure@]);
        let mut sub = collect_inline_dependencies_for_struct(&struct_info[i].inline_dependencies);
        let ghost mid = r@;
        let ghost subv = sub@;
        r.append(&mut sub);
        proof {
            lemma_strs_append(mid, subv);
        }
        i = i + 1;
    }
    assert(struct_info@.subrange(0, struct_info.len() as int) =~= struct_info@);
    r
}

/// The inline definitions of all the given entry points, in order.
pub fn collect_inline_dependencies(function_info: &Vec<FunctionInformation>) -> (r: Vec<String>)
    ensures
        strs(r@) == all_inline_dependencies(function_info@),
{
    let mut r: Vec<String> = Vec::new();
    let mut i: usize = 0;
    while i < function_info.len()
        invariant
            i <= function_info.len(),
            strs(r@) == all_inline_dependencies(function_info@.subrange(0, i as int)),
        decreases function_info.len() - i,
    {
        proof {
            assert(function_info@.subrange(0, i + 1).drop_last() =~= function_info@.subrange(0, i as int));
        }
        let mut sub = collect_inline_dependencies_for_struct(&function_info[i].inline_dependant_types);
        let ghost before = r@;
        let ghost subv = sub@;
        r.append(&mut sub);
        proof {
            lemma_strs_append(before, subv);
        }
        i = i + 1;
    }
    assert(function_info@.subrange(0, function_info.len() as int) =~= function_info@);
    r
}

pub open spec fn strs(s: Seq<String>) -> Seq<Seq<char>> {
    s.map_values(|x: String| x@)
}

pub open spec fn all_dependencies(s: Seq<FunctionInformation>) -> Seq<Seq<char>>
    decreases s.len(),
{
    if s.len() == 0 {
        Seq::empty()
    } else {
        all_dependencies(s.drop_last()) + strs(s.last().type_alias_dependant_types@)
    }
}

/// Each name once, in order of first appearance.
pub open spec fn unique_names(s: Seq<Seq<char>>) -> Seq<Seq<char>>
    decreases s.len(),
{
    if s.len() == 0 {
        Seq::empty()
    } else {
        let p = unique_names(s.drop_last());
        if p.contains(s.last()) {
            p
        } else {
            p.push(s.last())
        }
    }
}

fn push_unique(out: &mut Vec<String>, name: &String)
    ensures
        strs(final(out)@) == if strs(old(out)@).contains(name@) {
            strs(old(out)@)
        } else {
            strs(old(out)@).push(name@)
        },
{
    let mut found = false;
    let mut j: usize = 0;
    while j < out.len()
        invariant
            j <= out.len(),
            found <==> exists|k: int| 0 <= k < j && #[trigger] out@[k]@ == name@,
        decreases out.len() - j,
    {
        if out[j] == *name {
            found = true;
        }
        j = j + 1;
    }
    proof {
        if strs(out@).contains(name@) {
            let k = choose|k: int| 0 <= k < strs(out@).len() && strs(out@)[k] == name@;
            assert(out@[k]@ == name@);
        }
        if found {
            let k = choose|k: int| 0 <= k < out.len() && #[trigger] out@[k]@ == name@;
            assert(strs(out@)[k] == name@);
        }
    }
    if !found {
        let ghost prev = out@;
        out.push(name.clone());
        assert(strs(out@) =~= strs(prev).push(name@));
    }
}

/// Every named type that the given entry points depend on, each once.
pub fn collect_function_type_dependencies(function_info: &Vec<FunctionInformation>) -> (r: Vec<
    String,
>)
    ensures
        strs(r@) == unique_names(all_dependencies(function_info@)),
{
    let mut r: Vec<String> = Vec::new();
    let mut i: usize = 0;
    while i < function_info.len()
        invariant
            i <= function_info.len(),
            strs(r@) == unique_names(all_dependencies(function_info@.subrange(0, i as int))),
        decreases function_info.len() - i,
    {
        let deps = &function_info[i].type_alias_dependant_types;
        let ghost before = all_dependencies(function_info@.subrange(0, i as int));
        proof {
            assert(function_info@.subrange(0, i + 1).drop_last() =~= function_info@.subrange(0, i as int));
        }
        let mut j: usize = 0;
        while j < deps.len()
            invariant
                j <= deps.len(),
                deps == function_info@[i as int].type_alias_dependant_types,
                strs(r@) == unique_names(before + strs(deps@).subrange(0, j as int)),
            decreases deps.len() - j,
        {
            proof {
                let a = before + strs(deps@).subrange(0, j + 1);
                assert(a.drop_last() =~= before + strs(deps@).subrange(0, j as int));
            }
            push_unique(&mut r, &deps[j]);
            j = j + 1;
        }
        assert(strs(deps@).subrange(0, deps.len() as int) =~= strs(deps@));
        i = i + 1;
    }
    assert(function_info@.subrange(0, function_info.len() as int) =~= function_info@);
    r
}

/// Everything a generated program is made from: its entry points and the
/// type nodes, grouped by shape.
#[derive(Debug)]
pub struct AbstractCanisterTree {
    pub update_methods: Vec<CanisterMethod>,
    pub query_methods: Vec<CanisterMethod>,
    pub aliases: Vec<ActDataTypeNode>,
    pub arrays: Vec<ActDataTypeNode>,
    pub funcs: Vec<ActDataTypeNode>,
    pub options: Vec<ActDataTypeNode>,
    pub primitives: Vec<ActDataTypeNode>,
    pub records: Vec<ActDataTypeNode>,
    pub tuples: Vec<ActDataTypeNode>,
    pub variants: Vec<ActDataTypeNode>,
}

fn append_copies(out: &mut Vec<ActDataTypeNode>, nodes: &Vec<ActDataTypeNode>)
    ensures
        views(final(out)@) == views(old(out)@) + views(nodes@),
{
    let ghost start = out@;
    let mut i: usize = 0;
    while i < nodes.len()
        invariant
            i <= nodes.len(),
            views(out@) == views(start) + views(nodes@).subrange(0, i as int),
        decreases nodes.len() - i,
    {
        let ghost prev = out@;
        out.push(nodes[i].duplicate());
        assert(views(out@) =~= views(prev).push(nodes@[i as int]@));
        assert(views(out@) =~= views(start) + views(nodes@).subrange(0, i + 1));
        i = i + 1;
    }
    assert(views(nodes@).subrange(0, nodes.len() as int) =~= views(nodes@));
}

impl AbstractCanisterTree {
    /// The type nodes in the order their definitions are emitted: arrays,
    /// aliases, funcs, options, primitives, records, tuples, variants.
    pub fn type_nodes_in_emit_order(&self) -> (r: Vec<ActDataTypeNode>)
        ensures
            views(r@) == views(self.arrays@) + views(self.aliases@) + views(self.funcs@) + views(
                self.options@,
            ) + views(self.primitives@) + views(self.records@) + views(self.tuples@) + views(
                self.variants@,
            ),
    {
        let mut r: Vec<ActDataTypeNode> = Vec::new();
        assert(views(r@) =~= Seq::empty());
        append_copies(&mut r, &self.arrays);
        append_copies(&mut r, &self.aliases);
        append_copies(&mut r, &self.funcs);
        append_copies(&mut r, &self.options);
        append_copies(&mut r, &self.primitives);
        append_copies(&mut r, &self.records);
        append_copies(&mut r, &self.tuples);
        append_copies(&mut r, &self.variants);
        assert(views(r@) =~= views(self.arrays@) + views(self.aliases@) + views(self.funcs@) + views(
            self.options@,
        ) + views(self.primitives@) + views(self.records@) + views(self.tuples@) + views(
            self.variants@,
        ));
        r
    }
}

} // verus!
