//! Type expressions.
//!
//! A type is an instruction: a name for a base type, an application of a type
//! constructor for a compound one, or a variable. This module holds the
//! predicates on types, the accessors of their parts, the constructors, and the
//! check that a type is well formed.
use vstd::prelude::*;

use crate::ir::{ids_below, Graph, Inst, InstId, Ir, NameId, Node};
use crate::names::NameMap;
use crate::text::{opt_text, str_eq};

verus! {

pub const FN_STRUCT: &'static str = "fn:Struct";

pub const FN_UNION: &'static str = "fn:Union";

pub const FN_TAGGED_UNION: &'static str = "fn:TaggedUnion";

pub const FN_SINGLETON: &'static str = "fn:Singleton";

pub const FN_LIST: &'static str = "fn:List";

pub const FN_MAP: &'static str = "fn:Map";

pub const FN_PAIR: &'static str = "fn:Pair";

pub const FN_TUPLE: &'static str = "fn:Tuple";

pub const FN_FUN: &'static str = "fn:Fun";

pub const FN_REL: &'static str = "fn:Rel";

pub const FN_OPTION: &'static str = "fn:Option";

pub const FN_OPT: &'static str = "fn:opt";

pub const FN_EMPTY_TYPE: &'static str = "fn:EmptyType";

/// Type variables and their bounds.
pub type TypeContext = NameMap<InstId>;

/// The function of an application.
pub open spec fn fn_name(g: Graph, id: InstId) -> Option<Seq<char>> {
    match g.node(id) {
        Node::ApplyFn { function, .. } => Some(g.name(function)),
        _ => None,
    }
}

/// The arguments of an application.
pub open spec fn fn_args(g: Graph, id: InstId) -> Option<Seq<InstId>> {
    match g.node(id) {
        Node::ApplyFn { args, .. } => Some(args),
        _ => None,
    }
}

/// The text of a name.
pub open spec fn name_text(g: Graph, id: InstId) -> Option<Seq<char>> {
    match g.node(id) {
        Node::Name(n) => Some(g.name(n)),
        _ => None,
    }
}

/// `id` applies the function called `text`.
pub open spec fn is_fn(g: Graph, id: InstId, text: Seq<char>) -> bool {
    fn_name(g, id) == Some(text)
}

/// `id` is the name `text`.
pub open spec fn is_name(g: Graph, id: InstId, text: Seq<char>) -> bool {
    name_text(g, id) == Some(text)
}

/// The view of optional ids.
pub open spec fn opt_ids(r: Option<&[InstId]>) -> Option<Seq<InstId>> {
    match r {
        Some(ids) => Some(ids@),
        None => None,
    }
}

/// Copies a list of ids.
pub(crate) fn copy_ids(ids: &[InstId]) -> (r: Vec<InstId>)
    ensures
        r@ == ids@,
{
    let mut r: Vec<InstId> = Vec::new();
    let mut i: usize = 0;
    while i < ids.len()
        invariant
            i <= ids.len(),
            r@ == ids@.take(i as int),
        decreases ids.len() - i,
    {
        r.push(ids[i]);
        i += 1;
        assert(r@ =~= ids@.take(i as int));
    }
    assert(r@ =~= ids@);
    r
}

/// The function name of an application, or `None`.
pub fn apply_fn_name<'a>(ir: &'a Ir, id: InstId) -> (r: Option<&'a str>)
    requires
        ir@.wf(),
        ir@.has(id),
    ensures
        opt_text(r) == fn_name(ir@, id),
{
    match ir.get(id) {
        Inst::ApplyFn { function, .. } => Some(ir.resolve_name(*function)),
        _ => None,
    }
}

/// The arguments of an application, or `None`.
pub fn apply_fn_args(ir: &Ir, id: InstId) -> (r: Option<&[InstId]>)
    requires
        ir@.wf(),
        ir@.has(id),
    ensures
        opt_ids(r) == fn_args(ir@, id),
        r matches Some(args) ==> ids_below(args@, id.0 as nat),
{
    match ir.get(id) {
        Inst::ApplyFn { args, .. } => Some(args.as_slice()),
        _ => None,
    }
}

/// The text of a name instruction, or `None`.
pub fn name_str<'a>(ir: &'a Ir, id: InstId) -> (r: Option<&'a str>)
    requires
        ir@.wf(),
        ir@.has(id),
    ensures
        opt_text(r) == name_text(ir@, id),
{
    match ir.get(id) {
        Inst::Name(n) => Some(ir.resolve_name(*n)),
        _ => None,
    }
}

/// The id of a name instruction, or `None`.
pub fn name_id(ir: &Ir, id: InstId) -> (r: Option<NameId>)
    requires
        ir@.wf(),
        ir@.has(id),
    ensures
        match r {
            Some(n) => ir@.node(id) == Node::Name(n) && ir@.has_name(n),
            None => !(ir@.node(id) is Name),
        },
{
    match ir.get(id) {
        Inst::Name(n) => Some(*n),
        _ => None,
    }
}

/// Whether `id` applies the function called `text`.
pub(crate) fn applies(ir: &Ir, id: InstId, text: &str) -> (r: bool)
    requires
        ir@.wf(),
        ir@.has(id),
    ensures
        r == is_fn(ir@, id, text@),
{
    match apply_fn_name(ir, id) {
        Some(n) => str_eq(n, text),
        None => false,
    }
}

/// Whether `id` is the name `text`.
pub(crate) fn names(ir: &Ir, id: InstId, text: &str) -> (r: bool)
    requires
        ir@.wf(),
        ir@.has(id),
    ensures
        r == is_name(ir@, id, text@),
{
    match name_str(ir, id) {
        Some(n) => str_eq(n, text),
        None => false,
    }
}

/// Whether this is the empty type.
pub fn is_empty_type(ir: &Ir, id: InstId) -> (r: bool)
    requires
        ir@.wf(),
        ir@.has(id),
    ensures
        r == is_fn(ir@, id, FN_EMPTY_TYPE@),
{
    applies(ir, id, FN_EMPTY_TYPE)
}

/// Whether this is `/any`.
pub fn is_any(ir: &Ir, id: InstId) -> (r: bool)
    requires
        ir@.wf(),
        ir@.has(id),
    ensures
        r == is_name(ir@, id, "/any"@),
{
    names(ir, id, "/any")
}

pub fn is_struct_type(ir: &Ir, id: InstId) -> (r: bool)
    requires
        ir@.wf(),
        ir@.has(id),
    ensures
        r == is_fn(ir@, id, FN_STRUCT@),
{
    applies(ir, id, FN_STRUCT)
}

pub fn is_union_type(ir: &Ir, id: InstId) -> (r: bool)
    requires
        ir@.wf(),
        ir@.has(id),
    ensures
        r == is_fn(ir@, id, FN_UNION@),
{
    applies(ir, id, FN_UNION)
}

pub fn is_singleton_type(ir: &Ir, id: InstId) -> (r: bool)
    requires
        ir@.wf(),
        ir@.has(id),
    ensures
        r == is_fn(ir@, id, FN_SINGLETON@),
{
    applies(ir, id, FN_SINGLETON)
}

pub fn is_tagged_union_type(ir: &Ir, id: InstId) -> (r: bool)
    requires
        ir@.wf(),
        ir@.has(id),
    ensures
        r == is_fn(ir@, id, FN_TAGGED_UNION@),
{
    applies(ir, id, FN_TAGGED_UNION)
}

pub fn is_list_type(ir: &Ir, id: InstId) -> (r: bool)
    requires
        ir@.wf(),
        ir@.has(id),
    ensures
        r == is_fn(ir@, id, FN_LIST@),
{
    applies(ir, id, FN_LIST)
}

pub fn is_map_type(ir: &Ir, id: InstId) -> (r: bool)
    requires
        ir@.wf(),
        ir@.has(id),
    ensures
        r == is_fn(ir@, id, FN_MAP@),
{
    applies(ir, id, FN_MAP)
}

pub fn is_pair_type(ir: &Ir, id: InstId) -> (r: bool)
    requires
        ir@.wf(),
        ir@.has(id),
    ensures
        r == is_fn(ir@, id, FN_PAIR@),
{
    applies(ir, id, FN_PAIR)
}

pub fn is_tuple_type(ir: &Ir, id: InstId) -> (r: bool)
    requires
        ir@.wf(),
        ir@.has(id),
    ensures
        r == is_fn(ir@, id, FN_TUPLE@),
{
    applies(ir, id, FN_TUPLE)
}

pub fn is_fun_type(ir: &Ir, id: InstId) -> (r: bool)
    requires
        ir@.wf(),
        ir@.has(id),
    ensures
        r == is_fn(ir@, id, FN_FUN@),
{
    applies(ir, id, FN_FUN)
}

pub fn is_rel_type(ir: &Ir, id: InstId) -> (r: bool)
    requires
        ir@.wf(),
        ir@.has(id),
    ensures
        r == is_fn(ir@, id, FN_REL@),
{
    applies(ir, id, FN_REL)
}

pub fn is_option_type(ir: &Ir, id: InstId) -> (r: bool)
    requires
        ir@.wf(),
        ir@.has(id),
    ensures
        r == is_fn(ir@, id, FN_OPTION@),
{
    applies(ir, id, FN_OPTION)
}

pub fn is_opt_field(ir: &Ir, id: InstId) -> (r: bool)
    requires
        ir@.wf(),
        ir@.has(id),
    ensures
        r == is_fn(ir@, id, FN_OPT@),
{
    applies(ir, id, FN_OPT)
}

/// The names of the base types.
pub open spec fn base_type(name: Seq<char>) -> bool {
    ||| name == "/any"@
    ||| name == "/bot"@
    ||| name == "/number"@
    ||| name == "/float64"@
    ||| name == "/string"@
    ||| name == "/bytes"@
    ||| name == "/name"@
    ||| name == "/bool"@
    ||| name == "/time"@
    ||| name == "/duration"@
    ||| name == "/unit"@
}

/// Whether this is the name of a base type (such as `/number` or `/any`).
pub fn is_base_type(ir: &Ir, id: InstId) -> (r: bool)
    requires
        ir@.wf(),
        ir@.has(id),
    ensures
        r == (name_text(ir@, id) matches Some(n) && base_type(n)),
{
    match name_str(ir, id) {
        Some(n) => str_eq(n, "/any") || str_eq(n, "/bot") || str_eq(n, "/number") || str_eq(
            n,
            "/float64",
        ) || str_eq(n, "/string") || str_eq(n, "/bytes") || str_eq(n, "/name") || str_eq(n, "/bool")
            || str_eq(n, "/time") || str_eq(n, "/duration") || str_eq(n, "/unit"),
        None => false,
    }
}

/// Whether this is a name constant: a base type or a member of a hierarchy of
/// names, such as `/animal/dog`.
pub fn is_name_const(ir: &Ir, id: InstId) -> (r: bool)
    requires
        ir@.has(id),
    ensures
        r == (ir@.node(id) is Name),
{
    match ir.get(id) {
        Inst::Name(_) => true,
        _ => false,
    }
}

/// Whether this is a type variable.
pub fn is_type_var(ir: &Ir, id: InstId) -> (r: bool)
    requires
        ir@.has(id),
    ensures
        r == (ir@.node(id) is Var),
{
    match ir.get(id) {
        Inst::Var(_) => true,
        _ => false,
    }
}

/// The arguments of `id` if it applies `text`.
pub open spec fn args_of(g: Graph, id: InstId, text: Seq<char>) -> Option<Seq<InstId>> {
    if is_fn(g, id, text) {
        fn_args(g, id)
    } else {
        None
    }
}

/// The element type of a `fn:List` type.
pub fn list_type_arg(ir: &Ir, id: InstId) -> (r: Option<InstId>)
    requires
        ir@.wf(),
        ir@.has(id),
    ensures
        r == match args_of(ir@, id, FN_LIST@) {
            Some(args) => if args.len() > 0 {
                Some(args[0])
            } else {
                None
            },
            None => None,
        },
{
    if !is_list_type(ir, id) {
        return None;
    }
    match apply_fn_args(ir, id) {
        Some(args) => if args.len() > 0 {
            Some(args[0])
        } else {
            None
        },
        None => None,
    }
}

/// The key and value types of a `fn:Map` type.
pub fn map_type_args(ir: &Ir, id: InstId) -> (r: Option<(InstId, InstId)>)
    requires
        ir@.wf(),
        ir@.has(id),
    ensures
        r == match args_of(ir@, id, FN_MAP@) {
            Some(args) => if args.len() == 2 {
                Some((args[0], args[1]))
            } else {
                None
            },
            None => None,
        },
{
    if !is_map_type(ir, id) {
        return None;
    }
    match apply_fn_args(ir, id) {
        Some(args) => if args.len() == 2 {
            Some((args[0], args[1]))
        } else {
            None
        },
        None => None,
    }
}

/// The alternatives of a `fn:Union`.
pub fn union_type_args(ir: &Ir, id: InstId) -> (r: Option<&[InstId]>)
    requires
        ir@.wf(),
        ir@.has(id),
    ensures
        opt_ids(r) == args_of(ir@, id, FN_UNION@),
        r matches Some(args) ==> ids_below(args@, id.0 as nat),
{
    if !is_union_type(ir, id) {
        return None;
    }
    apply_fn_args(ir, id)
}

/// The arguments of a `fn:Rel`.
pub fn rel_type_args(ir: &Ir, id: InstId) -> (r: Option<&[InstId]>)
    requires
        ir@.wf(),
        ir@.has(id),
    ensures
        opt_ids(r) == args_of(ir@, id, FN_REL@),
        r matches Some(args) ==> ids_below(args@, id.0 as nat),
{
    if !is_rel_type(ir, id) {
        return None;
    }
    apply_fn_args(ir, id)
}

/// The tag field of a `fn:TaggedUnion`.
pub open spec fn tag_field(g: Graph, id: InstId) -> Option<InstId> {
    match args_of(g, id, FN_TAGGED_UNION@) {
        Some(args) => if args.len() > 0 {
            Some(args[0])
        } else {
            None
        },
        None => None,
    }
}

/// The tag field (a name) of a `fn:TaggedUnion`.
pub fn tagged_union_tag_field(ir: &Ir, id: InstId) -> (r: Option<InstId>)
    requires
        ir@.wf(),
        ir@.has(id),
    ensures
        r == tag_field(ir@, id),
        r matches Some(f) ==> f.0 < id.0,
{
    if !is_tagged_union_type(ir, id) {
        return None;
    }
    match apply_fn_args(ir, id) {
        Some(args) => if args.len() > 0 {
            Some(args[0])
        } else {
            None
        },
        None => None,
    }
}

/// The arguments of a tagged union are a tag field and pairs of tag and struct.
pub open spec fn tagged_arity(n: nat) -> bool {
    n >= 3 && n % 2 == 1
}

/// The tags among the arguments of a tagged union.
pub open spec fn tags_of(args: Seq<InstId>) -> Seq<InstId> {
    Seq::new((args.len() / 2) as nat, |k: int| args[2 * k + 1])
}

/// The variants among the arguments of a tagged union.
pub open spec fn structs_of(args: Seq<InstId>) -> Seq<InstId> {
    Seq::new((args.len() / 2) as nat, |k: int| args[2 * k + 2])
}

/// The tags and the variants of a `fn:TaggedUnion`.
pub open spec fn variants(g: Graph, id: InstId) -> Option<(Seq<InstId>, Seq<InstId>)> {
    match args_of(g, id, FN_TAGGED_UNION@) {
        Some(args) => if tagged_arity(args.len()) {
            Some((tags_of(args), structs_of(args)))
        } else {
            None
        },
        None => None,
    }
}

/// Splits the arguments of a tagged union into tags and variants.
pub(crate) fn split_variants(args: &[InstId]) -> (r: (Vec<InstId>, Vec<InstId>))
    requires
        tagged_arity(args@.len()),
    ensures
        r.0@ == tags_of(args@),
        r.1@ == structs_of(args@),
{
    let mut tags: Vec<InstId> = Vec::new();
    let mut structs: Vec<InstId> = Vec::new();
    let half: usize = args.len() / 2;
    let mut k: usize = 0;
    while k < half
        invariant
            k <= half,
            tags@ == tags_of(args@).take(k as int),
            structs@ == structs_of(args@).take(k as int),
        decreases half - k,
    {
        tags.push(args[2 * k + 1]);
        structs.push(args[2 * k + 2]);
        k += 1;
        assert(tags@ =~= tags_of(args@).take(k as int));
        assert(structs@ =~= structs_of(args@).take(k as int));
    }
    assert(tags@ =~= tags_of(args@));
    assert(structs@ =~= structs_of(args@));
    (tags, structs)
}

/// The view of optional variants.
pub open spec fn opt_variants(r: Option<(Vec<InstId>, Vec<InstId>)>) -> Option<(Seq<InstId>, Seq<InstId>)> {
    match r {
        Some((a, b)) => Some((a@, b@)),
        None => None,
    }
}

/// The tags and the variant structs of a `fn:TaggedUnion`: tags stand at the odd
/// places, structs at the even ones from the second on.
pub fn tagged_union_variants(ir: &Ir, id: InstId) -> (r: Option<(Vec<InstId>, Vec<InstId>)>)
    requires
        ir@.wf(),
        ir@.has(id),
    ensures
        opt_variants(r) == variants(ir@, id),
        r matches Some((tags, structs)) ==> tags.len() == structs.len() && ids_below(
            tags@,
            id.0 as nat,
        ) && ids_below(structs@, id.0 as nat),
{
    if !is_tagged_union_type(ir, id) {
        return None;
    }
    match apply_fn_args(ir, id) {
        Some(args) => if args.len() < 3 || args.len() % 2 == 0 {
            None
        } else {
            Some(split_variants(args))
        },
        None => None,
    }
}

/// The fields that the arguments of a struct type give from `i` on: name, type
/// and whether the field is optional. A required field takes two arguments, an
/// optional one is a single `fn:opt(name, type)`.
pub open spec fn fields_from(g: Graph, args: Seq<InstId>, i: int) -> Seq<(InstId, InstId, bool)>
    decreases args.len() - i,
{
    if i < 0 || i >= args.len() {
        Seq::empty()
    } else if is_fn(g, args[i], FN_OPT@) {
        let rest = fields_from(g, args, i + 1);
        match fn_args(g, args[i]) {
            Some(o) => if o.len() == 2 {
                seq![(o[0], o[1], true)] + rest
            } else {
                rest
            },
            None => rest,
        }
    } else if i + 1 < args.len() {
        seq![(args[i], args[i + 1], false)] + fields_from(g, args, i + 2)
    } else {
        Seq::empty()
    }
}

/// The fields of a struct type.
pub open spec fn struct_fields(g: Graph, id: InstId) -> Seq<(InstId, InstId, bool)> {
    match args_of(g, id, FN_STRUCT@) {
        Some(args) => fields_from(g, args, 0),
        None => Seq::empty(),
    }
}

/// The parts of the fields stand before the struct.
pub open spec fn fields_below(fields: Seq<(InstId, InstId, bool)>, limit: nat) -> bool {
    forall|k: int|
        0 <= k < fields.len() ==> (#[trigger] fields[k]).0.0 < limit && fields[k].1.0 < limit
}

/// The parts of the fields of a struct stand before it.
pub proof fn lemma_fields_below(g: Graph, args: Seq<InstId>, i: int, limit: nat)
    requires
        g.wf(),
        ids_below(args, limit),
        limit <= g.nodes.len(),
        0 <= i,
    ensures
        fields_below(fields_from(g, args, i), limit),
    decreases args.len() - i,
{
    if i < args.len() {
        if is_fn(g, args[i], FN_OPT@) {
            lemma_fields_below(g, args, i + 1, limit);
            assert(g.nodes[args[i].0 as int].fits(args[i].0 as nat, g.names.len(), g.strings.len()));
        } else if i + 1 < args.len() {
            lemma_fields_below(g, args, i + 2, limit);
        }
    }
}

/// The fields of a struct type, in order: name, type and whether it is optional.
pub fn struct_type_fields(ir: &Ir, id: InstId) -> (r: Vec<(InstId, InstId, bool)>)
    requires
        ir@.wf(),
        ir@.has(id),
    ensures
        r@ == struct_fields(ir@, id),
        fields_below(r@, id.0 as nat),
{
    let mut result: Vec<(InstId, InstId, bool)> = Vec::new();
    if !is_struct_type(ir, id) {
        return result;
    }
    if let Some(args) = apply_fn_args(ir, id) {
        let mut i: usize = 0;
        assert(result@ + fields_from(ir@, args@, 0) =~= fields_from(ir@, args@, 0));
        while i < args.len()
            invariant
                i <= args.len(),
                result@ + fields_from(ir@, args@, i as int) == fields_from(ir@, args@, 0),
            decreases args.len() - i,
        {
            let ghost before = result@;
            let ghost rest = fields_from(ir@, args@, i as int);
            if is_opt_field(ir, args[i]) {
                if let Some(o) = apply_fn_args(ir, args[i]) {
                    if o.len() == 2 {
                        result.push((o[0], o[1], true));
                    }
                }
                i += 1;
            } else if args.len() - i >= 2 {
                result.push((args[i], args[i + 1], false));
                i += 2;
            } else {
                i = args.len();
            }
            assert(result@ + fields_from(ir@, args@, i as int) =~= before + rest);
        }
        assert(result@ =~= fields_from(ir@, args@, 0));
        proof {
            lemma_fields_below(ir@, args@, 0, id.0 as nat);
        }
    }
    result
}

/// The type of the first field of that name.
pub open spec fn first_field(g: Graph, fields: Seq<(InstId, InstId, bool)>, name: Seq<char>) -> Option<InstId>
    decreases fields.len(),
{
    if fields.len() == 0 {
        None
    } else if is_name(g, fields[0].0, name) {
        Some(fields[0].1)
    } else {
        first_field(g, fields.drop_first(), name)
    }
}

/// The type of the field `field` of the struct type `type_id`.
pub open spec fn field_type(g: Graph, type_id: InstId, field: NameId) -> Option<InstId> {
    first_field(g, struct_fields(g, type_id), g.name(field))
}

/// The type of a struct field by name (of a struct type only).
pub fn struct_type_field(ir: &Ir, type_id: InstId, field: NameId) -> (r: Option<InstId>)
    requires
        ir@.wf(),
        ir@.has(type_id),
        ir@.has_name(field),
    ensures
        r == field_type(ir@, type_id, field),
        r matches Some(t) ==> t.0 < type_id.0,
{
    let fields = struct_type_fields(ir, type_id);
    let field_name = ir.resolve_name(field);
    let mut k: usize = 0;
    assert(fields@.skip(0) =~= fields@);
    while k < fields.len()
        invariant
            k <= fields.len(),
            first_field(ir@, fields@, field_name@) == first_field(ir@, fields@.skip(k as int), field_name@),
        decreases fields.len() - k,
    {
        assert(fields@.skip(k as int).drop_first() =~= fields@.skip(k + 1));
        if names(ir, fields[k].0, field_name) {
            return Some(fields[k].1);
        }
        k += 1;
    }
    None
}

/// The graph once `text` is applied to `args` by a new instruction.
pub open spec fn with_apply(g: Graph, text: Seq<char>, args: Seq<InstId>) -> Graph {
    g.with_name(text).with_node(Node::ApplyFn { function: g.name_id(text), args })
}

/// Adds an application of `text`.
pub(crate) fn add_apply(ir: &mut Ir, text: &str, args: Vec<InstId>) -> (id: InstId)
    requires
        old(ir)@.wf(),
        ids_below(args@, old(ir)@.nodes.len()),
    ensures
        final(ir)@.wf(),
        final(ir)@ == with_apply(old(ir)@, text@, args@),
        id == old(ir)@.next(),
        final(ir)@.has(id),
        old(ir)@.extended_by(final(ir)@),
{
    let function = ir.intern_name(text);
    ir.add_inst(Inst::ApplyFn { function, args })
}

/// The place of the first node from `i` on that satisfies `p`.
pub open spec fn first_node(nodes: Seq<Node>, p: spec_fn(Node) -> bool, i: int) -> Option<int>
    decreases nodes.len() - i,
{
    if i < 0 || i >= nodes.len() {
        None
    } else if p(nodes[i]) {
        Some(i)
    } else {
        first_node(nodes, p, i + 1)
    }
}

/// The instruction for the name `text`, and the graph that holds it: the first
/// such instruction if there is one, a new one otherwise.
pub open spec fn name_node(g: Graph, text: Seq<char>) -> (Graph, InstId) {
    let p = |n: Node| n matches Node::Name(m) && g.name(m) == text;
    match first_node(g.nodes, p, 0) {
        Some(i) => (g, InstId(i as usize)),
        None => (g.with_name(text).with_node(Node::Name(g.name_id(text))), g.next()),
    }
}

/// Finds or adds the instruction for a name.
pub fn find_or_create_name(ir: &mut Ir, name: &str) -> (id: InstId)
    requires
        old(ir)@.wf(),
    ensures
        final(ir)@.wf(),
        (final(ir)@, id) == name_node(old(ir)@, name@),
        is_name(final(ir)@, id, name@),
        final(ir)@.has(id),
        old(ir)@.extended_by(final(ir)@),
{
    let ghost g = ir@;
    let ghost p = |n: Node| n matches Node::Name(m) && g.name(m) == name@;
    let mut i: usize = 0;
    while i < ir.len()
        invariant
            ir@ == g,
            i <= g.nodes.len(),
            first_node(g.nodes, p, 0) == first_node(g.nodes, p, i as int),
        decreases g.nodes.len() - i,
    {
        if names(ir, InstId(i), name) {
            return InstId(i);
        }
        i += 1;
    }
    let n = ir.intern_name(name);
    ir.add_inst(Inst::Name(n))
}

/// The empty type, and the graph that holds it.
pub open spec fn empty_node(g: Graph) -> (Graph, InstId) {
    let p = |n: Node|
        n matches Node::ApplyFn { function, args } && g.name(function) == FN_EMPTY_TYPE@ && args.len()
            == 0;
    match first_node(g.nodes, p, 0) {
        Some(i) => (g, InstId(i as usize)),
        None => (with_apply(g, FN_EMPTY_TYPE@, Seq::empty()), g.next()),
    }
}

/// Finds or adds the empty type.
pub fn empty_type(ir: &mut Ir) -> (id: InstId)
    requires
        old(ir)@.wf(),
    ensures
        final(ir)@.wf(),
        (final(ir)@, id) == empty_node(old(ir)@),
        is_fn(final(ir)@, id, FN_EMPTY_TYPE@),
        final(ir)@.has(id),
        old(ir)@.extended_by(final(ir)@),
{
    let ghost g = ir@;
    let ghost p = |n: Node|
        n matches Node::ApplyFn { function, args } && g.name(function) == FN_EMPTY_TYPE@ && args.len()
            == 0;
    let mut i: usize = 0;
    while i < ir.len()
        invariant
            ir@ == g,
            i <= g.nodes.len(),
            first_node(g.nodes, p, 0) == first_node(g.nodes, p, i as int),
        decreases g.nodes.len() - i,
    {
        if is_empty_type(ir, InstId(i)) {
            if let Some(args) = apply_fn_args(ir, InstId(i)) {
                if args.len() == 0 {
                    return InstId(i);
                }
            }
        }
        i += 1;
    }
    let args: Vec<InstId> = Vec::new();
    assert(args@ =~= Seq::<InstId>::empty());
    add_apply(ir, FN_EMPTY_TYPE, args)
}

/// Adds `fn:Rel(t1, t2, ...)`.
pub fn new_rel_type(ir: &mut Ir, arg_types: &[InstId]) -> (id: InstId)
    requires
        old(ir)@.wf(),
        ids_below(arg_types@, old(ir)@.nodes.len()),
    ensures
        final(ir)@.wf(),
        final(ir)@ == with_apply(old(ir)@, FN_REL@, arg_types@),
        id == old(ir)@.next(),
        final(ir)@.has(id),
        old(ir)@.extended_by(final(ir)@),
{
    add_apply(ir, FN_REL, copy_ids(arg_types))
}

/// The union of `alts`, or the only one of them, and the graph that holds it.
pub open spec fn union_node(g: Graph, alts: Seq<InstId>) -> (Graph, InstId) {
    if alts.len() == 1 {
        (g, alts[0])
    } else {
        (with_apply(g, FN_UNION@, alts), g.next())
    }
}

/// Adds `fn:Union(alts...)`, or returns the single type if there is only one.
pub fn new_union_or_single(ir: &mut Ir, alts: Vec<InstId>) -> (id: InstId)
    requires
        old(ir)@.wf(),
        ids_below(alts@, old(ir)@.nodes.len()),
    ensures
        final(ir)@.wf(),
        (final(ir)@, id) == union_node(old(ir)@, alts@),
        final(ir)@.has(id),
        old(ir)@.extended_by(final(ir)@),
{
    if alts.len() == 1 {
        return alts[0];
    }
    add_apply(ir, FN_UNION, alts)
}

/// The graph and the types that come of adding a `fn:Rel` for each of the first
/// `n` bounds that is a bound declaration.
pub open spec fn rel_nodes(g: Graph, bounds: Seq<InstId>, n: nat) -> (Graph, Seq<InstId>)
    decreases n,
{
    if n == 0 {
        (g, Seq::empty())
    } else {
        let (h, ids) = rel_nodes(g, bounds, (n - 1) as nat);
        match g.node(bounds[n - 1]) {
            Node::BoundDecl { base_terms } => (with_apply(h, FN_REL@, base_terms), ids.push(h.next())),
            _ => (h, ids),
        }
    }
}

/// Adds a `fn:Rel` type for each bound of a declaration.
pub fn rel_types_from_decl(ir: &mut Ir, bounds: &[InstId]) -> (r: Vec<InstId>)
    requires
        old(ir)@.wf(),
        ids_below(bounds@, old(ir)@.nodes.len()),
    ensures
        final(ir)@.wf(),
        (final(ir)@, r@) == rel_nodes(old(ir)@, bounds@, bounds@.len()),
        ids_below(r@, final(ir)@.nodes.len()),
        old(ir)@.extended_by(final(ir)@),
{
    let ghost g = ir@;
    let mut r: Vec<InstId> = Vec::new();
    let mut i: usize = 0;
    while i < bounds.len()
        invariant
            ir@.wf(),
            i <= bounds@.len(),
            (ir@, r@) == rel_nodes(g, bounds@, i as nat),
            ids_below(r@, ir@.nodes.len()),
            g.extended_by(ir@),
        decreases bounds@.len() - i,
    {
        let mut terms: Option<Vec<InstId>> = None;
        assert(ir@.nodes[bounds[i as int].0 as int] == g.nodes[bounds[i as int].0 as int]);
        if let Inst::BoundDecl { base_terms } = ir.get(bounds[i]) {
            terms = Some(copy_ids(base_terms.as_slice()));
        }
        if let Some(t) = terms {
            let id = new_rel_type(ir, t.as_slice());
            r.push(id);
        }
        i += 1;
    }
    r
}

/// The alternatives of a relation type that may be a union.
pub open spec fn alternatives(g: Graph, id: InstId) -> Seq<InstId> {
    match args_of(g, id, FN_UNION@) {
        Some(args) => args,
        None => seq![id],
    }
}

/// The alternatives of a relation type: those of a union, or the type itself.
pub fn rel_type_alternatives(ir: &Ir, id: InstId) -> (r: Vec<InstId>)
    requires
        ir@.wf(),
        ir@.has(id),
    ensures
        r@ == alternatives(ir@, id),
        ids_below(r@, ir@.nodes.len()),
{
    match union_type_args(ir, id) {
        Some(args) => copy_ids(args),
        None => {
            let mut v: Vec<InstId> = Vec::new();
            v.push(id);
            assert(v@ =~= seq![id]);
            v
        },
    }
}

/// A relation type of the alternatives, and the graph that holds it.
pub open spec fn alternatives_node(g: Graph, alts: Seq<InstId>) -> (Graph, InstId) {
    if alts.len() == 0 {
        empty_node(g)
    } else {
        union_node(g, alts)
    }
}

/// A single relation type or a union of alternatives; the empty type of none.
pub fn rel_type_from_alternatives(ir: &mut Ir, alts: Vec<InstId>) -> (id: InstId)
    requires
        old(ir)@.wf(),
        ids_below(alts@, old(ir)@.nodes.len()),
    ensures
        final(ir)@.wf(),
        (final(ir)@, id) == alternatives_node(old(ir)@, alts@),
        final(ir)@.has(id),
        old(ir)@.extended_by(final(ir)@),
{
    if alts.len() == 0 {
        return empty_type(ir);
    }
    new_union_or_single(ir, alts)
}

/// Adds `fn:List(elem)`.
pub fn new_list_type(ir: &mut Ir, elem: InstId) -> (id: InstId)
    requires
        old(ir)@.wf(),
        old(ir)@.has(elem),
    ensures
        final(ir)@.wf(),
        final(ir)@ == with_apply(old(ir)@, FN_LIST@, seq![elem]),
        id == old(ir)@.next(),
        final(ir)@.has(id),
        old(ir)@.extended_by(final(ir)@),
{
    let args: Vec<InstId> = vec![elem];
    assert(args@ =~= seq![elem]);
    add_apply(ir, FN_LIST, args)
}

/// Adds `fn:Map(key, val)`.
pub fn new_map_type(ir: &mut Ir, key: InstId, val: InstId) -> (id: InstId)
    requires
        old(ir)@.wf(),
        old(ir)@.has(key),
        old(ir)@.has(val),
    ensures
        final(ir)@.wf(),
        final(ir)@ == with_apply(old(ir)@, FN_MAP@, seq![key, val]),
        id == old(ir)@.next(),
        final(ir)@.has(id),
        old(ir)@.extended_by(final(ir)@),
{
    let args: Vec<InstId> = vec![key, val];
    assert(args@ =~= seq![key, val]);
    add_apply(ir, FN_MAP, args)
}

/// Adds `fn:Struct(field1, type1, ...)`.
pub fn new_struct_type(ir: &mut Ir, args: Vec<InstId>) -> (id: InstId)
    requires
        old(ir)@.wf(),
        ids_below(args@, old(ir)@.nodes.len()),
    ensures
        final(ir)@.wf(),
        final(ir)@ == with_apply(old(ir)@, FN_STRUCT@, args@),
        id == old(ir)@.next(),
        final(ir)@.has(id),
        old(ir)@.extended_by(final(ir)@),
{
    add_apply(ir, FN_STRUCT, args)
}

/// Adds `fn:Tuple(t1, t2, ...)`.
pub fn new_tuple_type(ir: &mut Ir, args: Vec<InstId>) -> (id: InstId)
    requires
        old(ir)@.wf(),
        ids_below(args@, old(ir)@.nodes.len()),
    ensures
        final(ir)@.wf(),
        final(ir)@ == with_apply(old(ir)@, FN_TUPLE@, args@),
        id == old(ir)@.next(),
        final(ir)@.has(id),
        old(ir)@.extended_by(final(ir)@),
{
    add_apply(ir, FN_TUPLE, args)
}

} // verus!
