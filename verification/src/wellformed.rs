//! The check that a type expression is well formed.
use vstd::prelude::*;

use crate::ir::{ids_below, Graph, Inst, InstId, Ir, NameId, Node};
use crate::names::NameSet;
use crate::text::str_eq;
use crate::type_expr::{
    apply_fn_args, is_base_type, is_name_const, is_opt_field, is_struct_type, name_id, TypeContext,
    FN_FUN, FN_LIST, FN_MAP, FN_OPT, FN_OPTION, FN_PAIR, FN_REL, FN_SINGLETON, FN_STRUCT,
    FN_TAGGED_UNION, FN_TUPLE, FN_UNION,
};
use crate::type_expr::{base_type, first_field, fn_args, is_fn, struct_fields};

verus! {

/// Why a type expression is refused.
#[derive(Clone, Copy, PartialEq, Eq, Structural, Debug)]
pub enum TypeError {
    UnknownName(NameId),
    UnboundVariable(NameId),
    UnionArity,
    SingletonArity,
    SingletonNotConstant,
    ListArity,
    MapArity,
    PairArity,
    TupleArity,
    OptionArity,
    RelArity,
    FunArity,
    OptArity,
    OptName,
    UnknownConstructor(NameId),
    NotAType,
    FieldOptArity,
    FieldOptName,
    FieldWithoutType,
    FieldName,
    DuplicateField(NameId),
    TooFewVariants,
    EvenVariants,
    TagFieldName,
    TagName,
    DuplicateTag(NameId),
    VariantNotStruct(NameId),
    TagFieldInVariant { field: NameId, tag: NameId },
    NotTaggedUnion,
    TaggedUnionArity,
}

/// The error's message.
pub open spec fn type_error_text(g: Graph, e: TypeError) -> Seq<char> {
    match e {
        TypeError::UnknownName(n) => "unknown type name: "@ + g.name(n),
        TypeError::UnboundVariable(v) => "type variable "@ + g.name(v) + " not in context"@,
        TypeError::UnionArity => "fn:Union requires at least 2 alternatives"@,
        TypeError::SingletonArity => "fn:Singleton requires exactly 1 argument"@,
        TypeError::SingletonNotConstant => "fn:Singleton argument must be a constant"@,
        TypeError::ListArity => "fn:List requires exactly 1 argument"@,
        TypeError::MapArity => "fn:Map requires exactly 2 arguments"@,
        TypeError::PairArity => "fn:Pair requires exactly 2 arguments"@,
        TypeError::TupleArity => "fn:Tuple requires at least 2 arguments"@,
        TypeError::OptionArity => "fn:Option requires exactly 1 argument"@,
        TypeError::RelArity => "fn:Rel requires at least 1 argument"@,
        TypeError::FunArity => "fn:Fun requires at least 1 argument (the result type)"@,
        TypeError::OptArity => "fn:opt requires exactly 2 arguments"@,
        TypeError::OptName => "fn:opt first argument must be a name constant"@,
        TypeError::UnknownConstructor(n) => "unknown type constructor: "@ + g.name(n),
        TypeError::NotAType => "not a valid type expression"@,
        TypeError::FieldOptArity => "fn:opt requires 2 arguments"@,
        TypeError::FieldOptName => "fn:opt field name must be a name constant"@,
        TypeError::FieldWithoutType => "fn:Struct: odd number of args (missing type for last field)"@,
        TypeError::FieldName => "fn:Struct field name must be a name constant"@,
        TypeError::DuplicateField(n) => "duplicate struct field: "@ + g.name(n),
        TypeError::TooFewVariants =>
            "fn:TaggedUnion requires at least 3 arguments (tag_field, tag, struct)"@,
        TypeError::EvenVariants => "fn:TaggedUnion requires odd number of arguments"@,
        TypeError::TagFieldName => "fn:TaggedUnion tag field must be a name constant"@,
        TypeError::TagName => "fn:TaggedUnion variant tag must be a name constant"@,
        TypeError::DuplicateTag(n) => "fn:TaggedUnion duplicate variant tag: "@ + g.name(n),
        TypeError::VariantNotStruct(n) => "fn:TaggedUnion variant type for "@ + g.name(n)
            + " must be fn:Struct"@,
        TypeError::TagFieldInVariant { field, tag } => "fn:TaggedUnion tag field "@ + g.name(field)
            + " must not appear in variant struct for "@ + g.name(tag),
        TypeError::NotTaggedUnion => "not a TaggedUnion"@,
        TypeError::TaggedUnionArity => "TaggedUnion: bad arity"@,
    }
}

/// The names that the error speaks of are interned.
pub open spec fn type_error_in(g: Graph, e: TypeError) -> bool {
    match e {
        TypeError::UnknownName(n) => g.has_name(n),
        TypeError::UnboundVariable(n) => g.has_name(n),
        TypeError::UnknownConstructor(n) => g.has_name(n),
        TypeError::DuplicateField(n) => g.has_name(n),
        TypeError::DuplicateTag(n) => g.has_name(n),
        TypeError::VariantNotStruct(n) => g.has_name(n),
        TypeError::TagFieldInVariant { field, tag } => g.has_name(field) && g.has_name(tag),
        _ => true,
    }
}

impl TypeError {
    /// The error's message.
    pub fn message(&self, ir: &Ir) -> (r: String)
        requires
            type_error_in(ir@, *self),
        ensures
            r@ == type_error_text(ir@, *self),
    {
        match self {
            TypeError::UnknownName(n) => "unknown type name: ".to_owned().concat(ir.resolve_name(*n)),
            TypeError::UnboundVariable(n) => "type variable ".to_owned().concat(
                ir.resolve_name(*n),
            ).concat(" not in context"),
            TypeError::UnionArity => "fn:Union requires at least 2 alternatives".to_owned(),
            TypeError::SingletonArity => "fn:Singleton requires exactly 1 argument".to_owned(),
            TypeError::SingletonNotConstant => "fn:Singleton argument must be a constant".to_owned(),
            TypeError::ListArity => "fn:List requires exactly 1 argument".to_owned(),
            TypeError::MapArity => "fn:Map requires exactly 2 arguments".to_owned(),
            TypeError::PairArity => "fn:Pair requires exactly 2 arguments".to_owned(),
            TypeError::TupleArity => "fn:Tuple requires at least 2 arguments".to_owned(),
            TypeError::OptionArity => "fn:Option requires exactly 1 argument".to_owned(),
            TypeError::RelArity => "fn:Rel requires at least 1 argument".to_owned(),
            TypeError::FunArity => "fn:Fun requires at least 1 argument (the result type)".to_owned(),
            TypeError::OptArity => "fn:opt requires exactly 2 arguments".to_owned(),
            TypeError::OptName => "fn:opt first argument must be a name constant".to_owned(),
            TypeError::UnknownConstructor(n) => "unknown type constructor: ".to_owned().concat(
                ir.resolve_name(*n),
            ),
            TypeError::NotAType => "not a valid type expression".to_owned(),
            TypeError::FieldOptArity => "fn:opt requires 2 arguments".to_owned(),
            TypeError::FieldOptName => "fn:opt field name must be a name constant".to_owned(),
            TypeError::FieldWithoutType =>
                "fn:Struct: odd number of args (missing type for last field)".to_owned(),
            TypeError::FieldName => "fn:Struct field name must be a name constant".to_owned(),
            TypeError::DuplicateField(n) => "duplicate struct field: ".to_owned().concat(
                ir.resolve_name(*n),
            ),
            TypeError::TooFewVariants =>
                "fn:TaggedUnion requires at least 3 arguments (tag_field, tag, struct)".to_owned(),
            TypeError::EvenVariants => "fn:TaggedUnion requires odd number of arguments".to_owned(),
            TypeError::TagFieldName => "fn:TaggedUnion tag field must be a name constant".to_owned(),
            TypeError::TagName => "fn:TaggedUnion variant tag must be a name constant".to_owned(),
            TypeError::DuplicateTag(n) => "fn:TaggedUnion duplicate variant tag: ".to_owned().concat(
                ir.resolve_name(*n),
            ),
            TypeError::VariantNotStruct(n) => "fn:TaggedUnion variant type for ".to_owned().concat(
                ir.resolve_name(*n),
            ).concat(" must be fn:Struct"),
            TypeError::TagFieldInVariant { field, tag } => "fn:TaggedUnion tag field ".to_owned().concat(
                ir.resolve_name(*field),
            ).concat(" must not appear in variant struct for ").concat(ir.resolve_name(*tag)),
            TypeError::NotTaggedUnion => "not a TaggedUnion".to_owned(),
            TypeError::TaggedUnionArity => "TaggedUnion: bad arity".to_owned(),
        }
    }
}

/// Whether the type `id` is well formed, and the first thing wrong with it if not.
pub open spec fn check_type(g: Graph, ctx: Map<NameId, InstId>, id: InstId) -> Result<(), TypeError>
    decreases id.0, 1nat, 0nat,
    when g.wf() && g.has(id)
{
    match g.node(id) {
        Node::Name(n) => if base_type(g.name(n)) || (g.name(n).len() > 0 && g.name(n)[0] == '/') {
            Ok(())
        } else {
            Err(TypeError::UnknownName(n))
        },
        Node::Var(v) => if ctx.contains_key(v) {
            Ok(())
        } else {
            Err(TypeError::UnboundVariable(v))
        },
        Node::ApplyFn { function, args } => {
            let name = g.name(function);
            if name == FN_STRUCT@ {
                check_fields(g, ctx, args, 0, Set::empty(), id.0 as nat)
            } else if name == FN_UNION@ {
                if args.len() < 2 {
                    Err(TypeError::UnionArity)
                } else {
                    check_types(g, ctx, args, 0, id.0 as nat)
                }
            } else if name == FN_SINGLETON@ {
                if args.len() != 1 {
                    Err(TypeError::SingletonArity)
                } else if is_constant(g.node(args[0])) {
                    Ok(())
                } else {
                    Err(TypeError::SingletonNotConstant)
                }
            } else if name == FN_LIST@ {
                if args.len() != 1 {
                    Err(TypeError::ListArity)
                } else {
                    check_types(g, ctx, args, 0, id.0 as nat)
                }
            } else if name == FN_MAP@ {
                if args.len() != 2 {
                    Err(TypeError::MapArity)
                } else {
                    check_types(g, ctx, args, 0, id.0 as nat)
                }
            } else if name == FN_PAIR@ {
                if args.len() != 2 {
                    Err(TypeError::PairArity)
                } else {
                    check_types(g, ctx, args, 0, id.0 as nat)
                }
            } else if name == FN_TUPLE@ {
                if args.len() < 2 {
                    Err(TypeError::TupleArity)
                } else {
                    check_types(g, ctx, args, 0, id.0 as nat)
                }
            } else if name == FN_OPTION@ {
                if args.len() != 1 {
                    Err(TypeError::OptionArity)
                } else {
                    check_types(g, ctx, args, 0, id.0 as nat)
                }
            } else if name == FN_FUN@ {
                if args.len() == 0 {
                    Err(TypeError::FunArity)
                } else {
                    check_types(g, ctx, args, 0, id.0 as nat)
                }
            } else if name == FN_REL@ {
                if args.len() == 0 {
                    Err(TypeError::RelArity)
                } else {
                    check_types(g, ctx, args, 0, id.0 as nat)
                }
            } else if name == FN_TAGGED_UNION@ {
                if args.len() < 3 {
                    Err(TypeError::TooFewVariants)
                } else if args.len() % 2 == 0 {
                    Err(TypeError::EvenVariants)
                } else {
                    match g.node(args[0]) {
                        Node::Name(field) => check_variants(
                            g,
                            ctx,
                            args,
                            0,
                            field,
                            Set::empty(),
                            id.0 as nat,
                        ),
                        _ => Err(TypeError::TagFieldName),
                    }
                }
            } else if name == FN_OPT@ {
                if args.len() != 2 {
                    Err(TypeError::OptArity)
                } else if !(g.node(args[0]) is Name) {
                    Err(TypeError::OptName)
                } else {
                    check_types(g, ctx, args, 1, id.0 as nat)
                }
            } else {
                Err(TypeError::UnknownConstructor(function))
            }
        },
        _ => Err(TypeError::NotAType),
    }
}

/// Constants that may stand in a singleton type.
pub open spec fn is_constant(n: Node) -> bool {
    n is Name || n is Number || n is String || n is Float || n is Bool || n is Time || n is Duration
}

/// The first thing wrong with the types `args[i..]`, which stand before `limit`.
pub open spec fn check_types(
    g: Graph,
    ctx: Map<NameId, InstId>,
    args: Seq<InstId>,
    i: int,
    limit: nat,
) -> Result<(), TypeError>
    decreases limit, 0nat, args.len() - i,
    when g.wf() && limit <= g.nodes.len() && ids_below(args, limit) && 0 <= i
{
    if i >= args.len() {
        Ok(())
    } else {
        match check_type(g, ctx, args[i]) {
            Ok(()) => check_types(g, ctx, args, i + 1, limit),
            Err(e) => Err(e),
        }
    }
}

/// The first thing wrong with the fields that `args[i..]` give, after those in `seen`.
pub open spec fn check_fields(
    g: Graph,
    ctx: Map<NameId, InstId>,
    args: Seq<InstId>,
    i: int,
    seen: Set<NameId>,
    limit: nat,
) -> Result<(), TypeError>
    decreases limit, 0nat, args.len() - i,
    when g.wf() && limit <= g.nodes.len() && ids_below(args, limit) && 0 <= i
{
    if i >= args.len() {
        Ok(())
    } else if is_fn(g, args[i], FN_OPT@) {
        let o = fn_args(g, args[i]).unwrap();
        if o.len() != 2 {
            Err(TypeError::FieldOptArity)
        } else {
            match g.node(o[0]) {
                Node::Name(n) => if seen.contains(n) {
                    Err(TypeError::DuplicateField(n))
                } else {
                    match check_type(g, ctx, o[1]) {
                        Ok(()) => check_fields(g, ctx, args, i + 1, seen.insert(n), limit),
                        Err(e) => Err(e),
                    }
                },
                _ => Err(TypeError::FieldOptName),
            }
        }
    } else if i + 1 >= args.len() {
        Err(TypeError::FieldWithoutType)
    } else {
        match g.node(args[i]) {
            Node::Name(n) => if seen.contains(n) {
                Err(TypeError::DuplicateField(n))
            } else {
                match check_type(g, ctx, args[i + 1]) {
                    Ok(()) => check_fields(g, ctx, args, i + 2, seen.insert(n), limit),
                    Err(e) => Err(e),
                }
            },
            _ => Err(TypeError::FieldName),
        }
    }
}

/// The first thing wrong with the variants of a tagged union from the `k`-th on.
pub open spec fn check_variants(
    g: Graph,
    ctx: Map<NameId, InstId>,
    args: Seq<InstId>,
    k: int,
    field: NameId,
    seen: Set<NameId>,
    limit: nat,
) -> Result<(), TypeError>
    decreases limit, 0nat, args.len() - k,
    when g.wf() && limit <= g.nodes.len() && ids_below(args, limit) && 0 <= k
{
    if 2 * k + 2 >= args.len() {
        Ok(())
    } else {
        match g.node(args[2 * k + 1]) {
            Node::Name(tag) => {
                let variant = args[2 * k + 2];
                if seen.contains(tag) {
                    Err(TypeError::DuplicateTag(tag))
                } else if !is_fn(g, variant, FN_STRUCT@) {
                    Err(TypeError::VariantNotStruct(tag))
                } else {
                    match check_type(g, ctx, variant) {
                        Ok(()) => if first_field(g, struct_fields(g, variant), g.name(field)) is Some {
                            Err(TypeError::TagFieldInVariant { field, tag })
                        } else {
                            check_variants(g, ctx, args, k + 1, field, seen.insert(tag), limit)
                        },
                        Err(e) => Err(e),
                    }
                }
            },
            _ => Err(TypeError::TagName),
        }
    }
}

/// Checks that a type expression is well formed.
pub fn wellformed_type(ir: &Ir, ctx: &TypeContext, id: InstId) -> (r: Result<(), TypeError>)
    requires
        ir@.wf(),
        ir@.has(id),
    ensures
        r == check_type(ir@, ctx@, id),
        r matches Err(e) ==> type_error_in(ir@, e),
    decreases id.0, 1nat, 0nat,
{
    match ir.get(id) {
        Inst::Name(n) => {
            let name = ir.resolve_name(*n);
            if is_base_type(ir, id) || (name.unicode_len() > 0 && name.get_char(0) == '/') {
                Ok(())
            } else {
                Err(TypeError::UnknownName(*n))
            }
        },
        Inst::Var(v) => if ctx.contains_key(*v) {
            Ok(())
        } else {
            Err(TypeError::UnboundVariable(*v))
        },
        Inst::ApplyFn { function, args } => {
            let name = ir.resolve_name(*function);
            if str_eq(name, FN_STRUCT) {
                check_struct_type_expr(ir, ctx, args.as_slice(), Ghost(id.0 as nat))
            } else if str_eq(name, FN_UNION) {
                if args.len() < 2 {
                    return Err(TypeError::UnionArity);
                }
                check_all(ir, ctx, args.as_slice(), 0, Ghost(id.0 as nat))
            } else if str_eq(name, FN_SINGLETON) {
                if args.len() != 1 {
                    return Err(TypeError::SingletonArity);
                }
                match ir.get(args[0]) {
                    Inst::Name(_) | Inst::Number(_) | Inst::String(_) | Inst::Float(_)
                    | Inst::Bool(_) | Inst::Time(_) | Inst::Duration(_) => Ok(()),
                    _ => Err(TypeError::SingletonNotConstant),
                }
            } else if str_eq(name, FN_LIST) {
                if args.len() != 1 {
                    return Err(TypeError::ListArity);
                }
                check_all(ir, ctx, args.as_slice(), 0, Ghost(id.0 as nat))
            } else if str_eq(name, FN_MAP) {
                if args.len() != 2 {
                    return Err(TypeError::MapArity);
                }
                check_all(ir, ctx, args.as_slice(), 0, Ghost(id.0 as nat))
            } else if str_eq(name, FN_PAIR) {
                if args.len() != 2 {
                    return Err(TypeError::PairArity);
                }
                check_all(ir, ctx, args.as_slice(), 0, Ghost(id.0 as nat))
            } else if str_eq(name, FN_TUPLE) {
                if args.len() < 2 {
                    return Err(TypeError::TupleArity);
                }
                check_all(ir, ctx, args.as_slice(), 0, Ghost(id.0 as nat))
            } else if str_eq(name, FN_OPTION) {
                if args.len() != 1 {
                    return Err(TypeError::OptionArity);
                }
                check_all(ir, ctx, args.as_slice(), 0, Ghost(id.0 as nat))
            } else if str_eq(name, FN_FUN) {
                check_fun_type_expr(ir, ctx, args.as_slice(), Ghost(id.0 as nat))
            } else if str_eq(name, FN_REL) {
                if args.len() == 0 {
                    return Err(TypeError::RelArity);
                }
                check_all(ir, ctx, args.as_slice(), 0, Ghost(id.0 as nat))
            } else if str_eq(name, FN_TAGGED_UNION) {
                check_tagged_union_type_expr(ir, ctx, args.as_slice(), Ghost(id.0 as nat))
            } else if str_eq(name, FN_OPT) {
                if args.len() != 2 {
                    return Err(TypeError::OptArity);
                }
                if !is_name_const(ir, args[0]) {
                    return Err(TypeError::OptName);
                }
                check_all(ir, ctx, args.as_slice(), 1, Ghost(id.0 as nat))
            } else {
                Err(TypeError::UnknownConstructor(*function))
            }
        },
        _ => Err(TypeError::NotAType),
    }
}

/// Checks the types `args[from..]` in turn.
pub(crate) fn check_all(
    ir: &Ir,
    ctx: &TypeContext,
    args: &[InstId],
    from: usize,
    Ghost(limit): Ghost<nat>,
) -> (r: Result<(), TypeError>)
    requires
        ir@.wf(),
        limit <= ir@.nodes.len(),
        ids_below(args@, limit),
    ensures
        r == check_types(ir@, ctx@, args@, from as int, limit),
        r matches Err(e) ==> type_error_in(ir@, e),
    decreases limit, 0nat, 0nat,
{
    let mut i: usize = from;
    while i < args.len()
        invariant
            from <= i,
            check_types(ir@, ctx@, args@, from as int, limit) == check_types(
                ir@,
                ctx@,
                args@,
                i as int,
                limit,
            ),
        decreases args.len() - i,
    {
        if let Err(e) = wellformed_type(ir, ctx, args[i]) {
            return Err(e);
        }
        i += 1;
    }
    Ok(())
}

/// Checks the arguments of a struct type.
fn check_struct_type_expr(
    ir: &Ir,
    ctx: &TypeContext,
    args: &[InstId],
    Ghost(limit): Ghost<nat>,
) -> (r: Result<(), TypeError>)
    requires
        ir@.wf(),
        limit <= ir@.nodes.len(),
        ids_below(args@, limit),
    ensures
        r == check_fields(ir@, ctx@, args@, 0, Set::empty(), limit),
        r matches Err(e) ==> type_error_in(ir@, e),
    decreases limit, 0nat, 0nat,
{
    let mut seen = NameSet::new();
    let mut i: usize = 0;
    while i < args.len()
        invariant
            i <= args@.len(),
            check_fields(ir@, ctx@, args@, 0, Set::empty(), limit) == check_fields(
                ir@,
                ctx@,
                args@,
                i as int,
                seen@,
                limit,
            ),
        decreases args.len() - i,
    {
        if is_opt_field(ir, args[i]) {
            if let Some(o) = apply_fn_args(ir, args[i]) {
                if o.len() != 2 {
                    return Err(TypeError::FieldOptArity);
                }
                match name_id(ir, o[0]) {
                    Some(n) => {
                        if !seen.insert(n) {
                            return Err(TypeError::DuplicateField(n));
                        }
                        if let Err(e) = wellformed_type(ir, ctx, o[1]) {
                            return Err(e);
                        }
                    },
                    None => return Err(TypeError::FieldOptName),
                }
            }
            i += 1;
        } else {
            if args.len() - i < 2 {
                return Err(TypeError::FieldWithoutType);
            }
            match name_id(ir, args[i]) {
                Some(n) => {
                    if !seen.insert(n) {
                        return Err(TypeError::DuplicateField(n));
                    }
                    if let Err(e) = wellformed_type(ir, ctx, args[i + 1]) {
                        return Err(e);
                    }
                },
                None => return Err(TypeError::FieldName),
            }
            i += 2;
        }
    }
    Ok(())
}

/// Checks the arguments of a tagged union.
fn check_tagged_union_type_expr(
    ir: &Ir,
    ctx: &TypeContext,
    args: &[InstId],
    Ghost(limit): Ghost<nat>,
) -> (r: Result<(), TypeError>)
    requires
        ir@.wf(),
        limit <= ir@.nodes.len(),
        ids_below(args@, limit),
    ensures
        r == (if args@.len() < 3 {
            Err(TypeError::TooFewVariants)
        } else if args@.len() % 2 == 0 {
            Err(TypeError::EvenVariants)
        } else {
            match ir@.node(args@[0]) {
                Node::Name(field) => check_variants(
                    ir@,
                    ctx@,
                    args@,
                    0,
                    field,
                    Set::empty(),
                    limit,
                ),
                _ => Err(TypeError::TagFieldName),
            }
        }),
        r matches Err(e) ==> type_error_in(ir@, e),
    decreases limit, 0nat, 0nat,
{
    if args.len() < 3 {
        return Err(TypeError::TooFewVariants);
    }
    if args.len() % 2 == 0 {
        return Err(TypeError::EvenVariants);
    }
    let field = match name_id(ir, args[0]) {
        Some(n) => n,
        None => return Err(TypeError::TagFieldName),
    };
    let mut seen = NameSet::new();
    let half: usize = args.len() / 2;
    let mut k: usize = 0;
    while k < half
        invariant
            k <= half,
            check_variants(ir@, ctx@, args@, 0, field, Set::empty(), limit) == check_variants(
                ir@,
                ctx@,
                args@,
                k as int,
                field,
                seen@,
                limit,
            ),
        decreases half - k,
    {
        let tag = match name_id(ir, args[2 * k + 1]) {
            Some(n) => n,
            None => return Err(TypeError::TagName),
        };
        if !seen.insert(tag) {
            return Err(TypeError::DuplicateTag(tag));
        }
        let variant = args[2 * k + 2];
        if !is_struct_type(ir, variant) {
            return Err(TypeError::VariantNotStruct(tag));
        }
        if let Err(e) = wellformed_type(ir, ctx, variant) {
            return Err(e);
        }
        if has_field(ir, variant, field) {
            return Err(TypeError::TagFieldInVariant { field, tag });
        }
        k += 1;
    }
    Ok(())
}

/// Whether a struct type has a field of that name.
fn has_field(ir: &Ir, type_id: InstId, field: NameId) -> (r: bool)
    requires
        ir@.wf(),
        ir@.has(type_id),
        ir@.has_name(field),
    ensures
        r == (first_field(ir@, struct_fields(ir@, type_id), ir@.name(field)) is Some),
{
    crate::type_expr::struct_type_field(ir, type_id, field).is_some()
}

/// Checks the arguments of a function type.
fn check_fun_type_expr(
    ir: &Ir,
    ctx: &TypeContext,
    args: &[InstId],
    Ghost(limit): Ghost<nat>,
) -> (r: Result<(), TypeError>)
    requires
        ir@.wf(),
        limit <= ir@.nodes.len(),
        ids_below(args@, limit),
    ensures
        r == (if args@.len() == 0 {
            Err(TypeError::FunArity)
        } else {
            check_types(ir@, ctx@, args@, 0, limit)
        }),
        r matches Err(e) ==> type_error_in(ir@, e),
    decreases limit, 0nat, 1nat,
{
    if args.len() == 0 {
        return Err(TypeError::FunArity);
    }
    check_all(ir, ctx, args, 0, Ghost(limit))
}

} // verus!
