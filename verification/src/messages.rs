//! What errors say.
use vstd::prelude::*;

use crate::bounds_check::{
    fact_reason_in, fact_reasons_in, reason_in, rule_reason_in, rule_reasons, rule_reasons_in,
    BoundsReason, RuleReason,
};
use crate::bounds_check::{BoundsError, FactMismatch, RuleMismatch};
use crate::ir::{ids_below, Graph, Node};
use crate::ir::{Inst, InstId, Ir};
use crate::tables::StoreError;
use crate::text::decimal;
use crate::text::push_decimal;
use crate::value::{chars, debug_text, glyphs, int_text, Glyph};
use crate::value::{debug_str, int_string, push_float, push_text, Piece};
use crate::wellformed::type_error_text;

verus! {

/// What is said of a term. A call is written out; what is no term is named by its number.
pub open spec fn described(g: Graph, id: InstId) -> Seq<Glyph>
    decreases id.0 + 1, 0nat,
{
    match g.node(id) {
        Node::Name(n) => chars(g.name(n)),
        Node::Number(n) => chars(int_text(n as int)),
        Node::Float(b) => seq![Glyph::Float(b)],
        Node::String(s) => chars(debug_text(g.string(s))),
        Node::Bool(b) => chars(
            if b {
                "true"@
            } else {
                "false"@
            },
        ),
        Node::Var(v) => chars(g.name(v)),
        Node::ApplyFn { function, args } => chars(g.name(function)) + chars("("@) + described_all(
            g,
            args,
            args.len(),
            id.0 as nat,
        ) + chars(")"@),
        _ => chars("inst#"@ + decimal(id.0 as nat)),
    }
}

/// What is said of the first `n` terms, which stand before `limit`, with commas between them.
pub open spec fn described_all(g: Graph, ids: Seq<InstId>, n: nat, limit: nat) -> Seq<Glyph>
    decreases limit, n,
{
    if n == 0 || n > ids.len() {
        Seq::empty()
    } else {
        let before = if n == 1 {
            Seq::empty()
        } else {
            described_all(g, ids, (n - 1) as nat, limit) + chars(", "@)
        };
        if ids[n - 1].0 < limit {
            before + described(g, ids[n - 1])
        } else {
            before
        }
    }
}

/// Appends what is said of a term.
fn push_described(ps: &mut Vec<Piece>, ir: &Ir, id: InstId)
    requires
        ir@.wf(),
        ir@.has(id),
    ensures
        glyphs(final(ps)@) == glyphs(old(ps)@) + described(ir@, id),
    decreases id.0 + 1, 0nat,
{
    let ghost start = glyphs(ps@);
    let ghost g = ir@;
    assert(g.nodes[id.0 as int].fits(id.0 as nat, g.names.len(), g.strings.len()));
    match ir.get(id) {
        Inst::Name(n) => push_text(ps, ir.resolve_name(*n).to_owned()),
        Inst::Number(n) => push_text(ps, int_string(*n)),
        Inst::Float(b) => push_float(ps, *b),
        Inst::String(s) => push_text(ps, debug_str(ir.resolve_string(*s))),
        Inst::Bool(b) => push_text(
            ps,
            if *b {
                "true".to_owned()
            } else {
                "false".to_owned()
            },
        ),
        Inst::Var(v) => push_text(ps, ir.resolve_name(*v).to_owned()),
        Inst::ApplyFn { function, args } => {
            push_text(ps, ir.resolve_name(*function).to_owned());
            push_text(ps, "(".to_owned());
            push_described_all(ps, ir, args, id.0);
            push_text(ps, ")".to_owned());
        },
        _ => {
            let mut s = "inst#".to_owned();
            push_decimal(&mut s, id.0 as u64);
            push_text(ps, s);
        },
    }
    assert(glyphs(ps@) =~= start + described(ir@, id));
}

/// Appends what is said of terms, with commas between them.
fn push_described_all(ps: &mut Vec<Piece>, ir: &Ir, ids: &Vec<InstId>, limit: usize)
    requires
        ir@.wf(),
        limit <= ir@.nodes.len(),
        ids_below(ids@, limit as nat),
    ensures
        glyphs(final(ps)@) == glyphs(old(ps)@) + described_all(ir@, ids@, ids@.len(), limit as nat),
    decreases limit, ids@.len(),
{
    let ghost start = glyphs(ps@);
    let mut n: usize = 0;
    assert(glyphs(ps@) =~= start + described_all(ir@, ids@, 0, limit as nat));
    while n < ids.len()
        invariant
            n <= ids@.len(),
            glyphs(ps@) == start + described_all(ir@, ids@, n as nat, limit as nat),
        decreases ids@.len() - n,
    {
        if n > 0 {
            push_text(ps, ", ".to_owned());
        }
        push_described(ps, ir, ids[n]);
        assert(glyphs(ps@) =~= start + described_all(ir@, ids@, (n + 1) as nat, limit as nat));
        n += 1;
    }
}

/// What is said of a fact that does not fit.
pub open spec fn fact_glyphs(g: Graph, m: FactMismatch) -> Seq<Glyph> {
    match m {
        FactMismatch::Arity { args, bound, temporal } => chars("arity mismatch: fact has "@) + chars(
            decimal(args as nat),
        ) + chars(" args, bound has "@) + chars(decimal(bound as nat)) + chars(
            if temporal {
                " (+2 temporal)"@
            } else {
                ""@
            },
        ),
        FactMismatch::Argument { index, arg, declared } => chars("argument "@) + chars(
            decimal(index as nat),
        ) + chars(" ("@) + described(g, arg) + chars(") does not have type "@) + described(g, declared),
    }
}

/// What is said of a rule that does not fit.
pub open spec fn rule_glyphs(g: Graph, m: RuleReason) -> Seq<Glyph> {
    match m {
        RuleReason::Arity { head, bound } => chars("arity mismatch: head has "@) + chars(decimal(head))
            + chars(" args, bound has "@) + chars(decimal(bound)),
        RuleReason::Types { inferred, declared } => chars("inferred ["@) + described_all(
            g,
            inferred,
            inferred.len(),
            g.nodes.len(),
        ) + chars("] does not conform to declared ["@) + described_all(
            g,
            declared,
            declared.len(),
            g.nodes.len(),
        ) + chars("]"@),
    }
}

/// What is said of the first `n` reasons, with semicolons between them.
pub open spec fn fact_list(g: Graph, ms: Seq<FactMismatch>, n: nat) -> Seq<Glyph>
    decreases n,
{
    if n == 0 {
        Seq::empty()
    } else if n == 1 {
        fact_glyphs(g, ms[0])
    } else {
        fact_list(g, ms, (n - 1) as nat) + chars("; "@) + fact_glyphs(g, ms[n - 1])
    }
}

/// What is said of the first `n` reasons, with semicolons between them.
pub open spec fn rule_list(g: Graph, ms: Seq<RuleReason>, n: nat) -> Seq<Glyph>
    decreases n,
{
    if n == 0 {
        Seq::empty()
    } else if n == 1 {
        rule_glyphs(g, ms[0])
    } else {
        rule_list(g, ms, (n - 1) as nat) + chars("; "@) + rule_glyphs(g, ms[n - 1])
    }
}

/// What is said of a program that is refused.
pub open spec fn bounds_glyphs(g: Graph, e: BoundsReason) -> Seq<Glyph> {
    match e {
        BoundsReason::Type(t) => chars(type_error_text(g, t)),
        BoundsReason::Fact { predicate, reasons } => chars("fact "@) + chars(g.name(predicate)) + chars(
            "(...) matches none of the bound decls: "@,
        ) + fact_list(g, reasons, reasons.len()),
        BoundsReason::Rule { predicate, reasons } => chars("rule for "@) + chars(g.name(predicate)) + chars(
            "(...) does not conform to declared bounds: "@,
        ) + rule_list(g, reasons, reasons.len()),
    }
}

/// A number in decimal.
fn number(n: usize) -> (r: String)
    ensures
        r@ == decimal(n as nat),
{
    let mut s = String::new();
    push_decimal(&mut s, n as u64);
    assert(s@ =~= decimal(n as nat));
    s
}

/// Appends what is said of a fact that does not fit.
fn push_fact(ps: &mut Vec<Piece>, ir: &Ir, m: &FactMismatch)
    requires
        ir@.wf(),
        fact_reason_in(ir@, *m),
    ensures
        glyphs(final(ps)@) == glyphs(old(ps)@) + fact_glyphs(ir@, *m),
{
    let ghost start = glyphs(ps@);
    match m {
        FactMismatch::Arity { args, bound, temporal } => {
            push_text(ps, "arity mismatch: fact has ".to_owned());
            push_text(ps, number(*args));
            push_text(ps, " args, bound has ".to_owned());
            push_text(ps, number(*bound));
            push_text(
                ps,
                if *temporal {
                    " (+2 temporal)".to_owned()
                } else {
                    "".to_owned()
                },
            );
        },
        FactMismatch::Argument { index, arg, declared } => {
            push_text(ps, "argument ".to_owned());
            push_text(ps, number(*index));
            push_text(ps, " (".to_owned());
            push_described(ps, ir, *arg);
            push_text(ps, ") does not have type ".to_owned());
            push_described(ps, ir, *declared);
        },
    }
    assert(glyphs(ps@) =~= start + fact_glyphs(ir@, *m));
}

/// Appends what is said of a rule that does not fit.
fn push_rule(ps: &mut Vec<Piece>, ir: &Ir, m: &RuleMismatch)
    requires
        ir@.wf(),
        rule_reason_in(ir@, m@),
    ensures
        glyphs(final(ps)@) == glyphs(old(ps)@) + rule_glyphs(ir@, m@),
{
    let ghost start = glyphs(ps@);
    match m {
        RuleMismatch::Arity { head, bound } => {
            push_text(ps, "arity mismatch: head has ".to_owned());
            push_text(ps, number(*head));
            push_text(ps, " args, bound has ".to_owned());
            push_text(ps, number(*bound));
        },
        RuleMismatch::Types { inferred, declared } => {
            push_text(ps, "inferred [".to_owned());
            push_described_all(ps, ir, inferred, ir.len());
            push_text(ps, "] does not conform to declared [".to_owned());
            push_described_all(ps, ir, declared, ir.len());
            push_text(ps, "]".to_owned());
        },
    }
    assert(glyphs(ps@) =~= start + rule_glyphs(ir@, m@));
}

impl BoundsError {
    /// What the error says, in pieces: floating-point numbers are left to be written.
    pub fn pieces(&self, ir: &Ir) -> (r: Vec<Piece>)
        requires
            ir@.wf(),
            reason_in(ir@, self@),
        ensures
            glyphs(r@) == bounds_glyphs(ir@, self@),
    {
        let mut ps: Vec<Piece> = Vec::new();
        assert(glyphs(ps@) =~= Seq::<Glyph>::empty());
        match self {
            BoundsError::Type(e) => push_text(&mut ps, e.message(ir)),
            BoundsError::Fact { predicate, reasons } => {
                push_text(&mut ps, "fact ".to_owned());
                push_text(&mut ps, ir.resolve_name(*predicate).to_owned());
                push_text(&mut ps, "(...) matches none of the bound decls: ".to_owned());
                let ghost start = glyphs(ps@);
                let mut n: usize = 0;
                assert(start =~= start + fact_list(ir@, reasons@, 0));
                while n < reasons.len()
                    invariant
                        n <= reasons@.len(),
                        glyphs(ps@) == start + fact_list(ir@, reasons@, n as nat),
                        fact_reasons_in(ir@, reasons@),
                    decreases reasons@.len() - n,
                {
                    if n > 0 {
                        push_text(&mut ps, "; ".to_owned());
                    }
                    push_fact(&mut ps, ir, &reasons[n]);
                    assert(glyphs(ps@) =~= start + fact_list(ir@, reasons@, (n + 1) as nat));
                    n += 1;
                }
            },
            BoundsError::Rule { predicate, reasons } => {
                push_text(&mut ps, "rule for ".to_owned());
                push_text(&mut ps, ir.resolve_name(*predicate).to_owned());
                push_text(&mut ps, "(...) does not conform to declared bounds: ".to_owned());
                let ghost start = glyphs(ps@);
                let ghost all = rule_reasons(reasons@);
                let mut n: usize = 0;
                assert(start =~= start + rule_list(ir@, all, 0));
                while n < reasons.len()
                    invariant
                        n <= reasons@.len(),
                        glyphs(ps@) == start + rule_list(ir@, all, n as nat),
                        rule_reasons_in(ir@, all),
                    decreases reasons@.len() - n,
                {
                    if n > 0 {
                        push_text(&mut ps, "; ".to_owned());
                    }
                    assert(all[n as int] == reasons@[n as int]@);
                    push_rule(&mut ps, ir, &reasons[n]);
                    assert(glyphs(ps@) =~= start + rule_list(ir@, all, (n + 1) as nat));
                    n += 1;
                }
            },
        }
        assert(glyphs(ps@) =~= bounds_glyphs(ir@, self@));
        ps
    }
}

/// The text of an error of a store.
pub open spec fn store_error_text(e: StoreError) -> Seq<char> {
    match e {
        StoreError::Tables(detail) => detail@,
        StoreError::Decode(detail) => "failed to decode tuple: "@ + detail@,
        StoreError::Version(v) => "database tuple format version is "@ + decimal(v as nat)
            + "; this build expects 1. Recreate the database."@,
        StoreError::Legacy =>
            "database uses legacy JSON tuple format (no recorded format version but meta entries present); mangle-db no longer supports reading it. Recreate the database."@,
        StoreError::Exhausted => "relation has no row numbers left"@,
        StoreError::NoRelation => "relation does not exist"@,
    }
}

impl StoreError {
    /// What the error says.
    pub fn message(&self) -> (r: String)
        ensures
            r@ == store_error_text(*self),
    {
        match self {
            StoreError::Tables(detail) => detail.as_str().to_owned(),
            StoreError::Decode(detail) => "failed to decode tuple: ".to_owned().concat(detail.as_str()),
            StoreError::Version(v) => {
                let mut s = "database tuple format version is ".to_owned();
                push_decimal(&mut s, *v);
                s.concat("; this build expects 1. Recreate the database.")
            },
            StoreError::Legacy =>
                "database uses legacy JSON tuple format (no recorded format version but meta entries present); mangle-db no longer supports reading it. Recreate the database.".to_owned(),
            StoreError::Exhausted => "relation has no row numbers left".to_owned(),
            StoreError::NoRelation => "relation does not exist".to_owned(),
        }
    }
}

} // verus!
