//! Checking programs against declared types.
use mangle::bounds_check::{BoundsChecker, BoundsError, FactMismatch, RuleMismatch};
use mangle::ir::{Inst, InstId, Ir};
use mangle::relations::{validate_program, ProgramError};
use mangle::value::Piece;

/// Reads programs into instructions.
struct Reader {
    text: Vec<char>,
    at: usize,
    ir: Ir,
}

impl Reader {
    fn new(source: &str) -> Reader {
        Reader { text: source.chars().collect(), at: 0, ir: Ir::new() }
    }

    fn skip(&mut self) {
        while self.at < self.text.len() && self.text[self.at].is_whitespace() {
            self.at += 1;
        }
    }

    fn looks_at(&mut self, token: &str) -> bool {
        self.skip();
        self.text[self.at..].iter().collect::<String>().starts_with(token)
    }

    fn eat(&mut self, token: &str) -> bool {
        let found = self.looks_at(token);
        if found {
            self.at += token.chars().count();
        }
        found
    }

    fn expect(&mut self, token: &str) {
        assert!(self.eat(token), "expected {} at {}", token, self.at);
    }

    fn word(&mut self, more: &str) -> String {
        self.skip();
        let start = self.at;
        while self.at < self.text.len()
            && (self.text[self.at].is_alphanumeric() || more.contains(self.text[self.at]))
        {
            self.at += 1;
        }
        self.text[start..self.at].iter().collect()
    }

    fn terms(&mut self, close: &str) -> Vec<InstId> {
        let mut terms = vec![];
        while !self.eat(close) {
            terms.push(self.term());
            self.eat(",");
        }
        terms
    }

    fn term(&mut self) -> InstId {
        self.skip();
        let c = self.text[self.at];
        if c == '"' {
            self.at += 1;
            let start = self.at;
            while self.text[self.at] != '"' {
                self.at += 1;
            }
            let s: String = self.text[start..self.at].iter().collect();
            self.at += 1;
            let id = self.ir.intern_string(&s);
            self.ir.add_inst(Inst::String(id))
        } else if c == '/' {
            let name = self.word("/_");
            let id = self.ir.intern_name(&name);
            self.ir.add_inst(Inst::Name(id))
        } else if c.is_ascii_digit() || c == '-' {
            self.at += 1;
            let start = self.at - 1;
            while self.text[self.at].is_ascii_digit()
                || (self.text[self.at] == '.' && self.text.get(self.at + 1).is_some_and(|c| c.is_ascii_digit()))
            {
                self.at += 1;
            }
            let s: String = self.text[start..self.at].iter().collect();
            if s.contains('.') {
                self.ir.add_inst(Inst::Float(s.parse::<f64>().unwrap().to_bits()))
            } else {
                self.ir.add_inst(Inst::Number(s.parse().unwrap()))
            }
        } else if self.looks_at("fn:") {
            let name = self.word(":_");
            let args = if self.eat("(") { self.terms(")") } else { vec![] };
            let function = self.ir.intern_name(&name);
            self.ir.add_inst(Inst::ApplyFn { function, args })
        } else {
            let name = self.word("_");
            let id = self.ir.intern_name(&name);
            self.ir.add_inst(Inst::Var(id))
        }
    }

    fn atom(&mut self) -> InstId {
        let name = self.word(":_");
        self.expect("(");
        let args = self.terms(")");
        let predicate = self.ir.intern_name(&name);
        self.ir.add_inst(Inst::Atom { predicate, args })
    }

    fn premise(&mut self) -> InstId {
        self.skip();
        if self.text[self.at] == '!' {
            self.at += 1;
            let atom = self.atom();
            return self.ir.add_inst(Inst::NegAtom(atom));
        }
        let start = self.at;
        let name = self.word(":_");
        let is_atom = name.starts_with(|c: char| c.is_lowercase() || c == ':') && !name.starts_with("fn:");
        self.at = start;
        if is_atom {
            return self.atom();
        }
        let left = self.term();
        for (op, predicate) in
            [("!=", ""), ("<=", ":le"), (">=", ":ge"), ("<", ":lt"), (">", ":gt"), ("=", "")]
        {
            if self.eat(op) {
                let right = self.term();
                return match op {
                    "=" => self.ir.add_inst(Inst::Eq(left, right)),
                    "!=" => self.ir.add_inst(Inst::Ineq(left, right)),
                    _ => {
                        let predicate = self.ir.intern_name(predicate);
                        self.ir.add_inst(Inst::Atom { predicate, args: vec![left, right] })
                    }
                };
            }
        }
        panic!("no premise at {}", self.at)
    }

    fn read(mut self) -> Ir {
        loop {
            self.skip();
            if self.at == self.text.len() {
                return self.ir;
            }
            if self.eat("Decl ") {
                let atom = self.atom();
                let mut bounds = vec![];
                while self.eat("bound") {
                    self.expect("[");
                    let base_terms = self.terms("]");
                    bounds.push(self.ir.add_inst(Inst::BoundDecl { base_terms }));
                }
                self.expect(".");
                self.ir.add_inst(Inst::Decl { atom, bounds });
                continue;
            }
            let head = self.atom();
            let mut premises = vec![];
            let mut transform = vec![];
            if self.eat(":-") {
                premises.push(self.premise());
                while self.eat(",") {
                    premises.push(self.premise());
                }
            }
            if self.eat("|>") {
                loop {
                    if self.eat("do ") {
                        let app = self.term();
                        transform.push(self.ir.add_inst(Inst::Transform { var: None, app }));
                    } else {
                        self.expect("let ");
                        let name = self.word("_");
                        let var = self.ir.intern_name(&name);
                        self.expect("=");
                        let app = self.term();
                        transform.push(self.ir.add_inst(Inst::Transform { var: Some(var), app }));
                    }
                    if !self.eat(";") && !self.eat(",") {
                        break;
                    }
                }
            }
            self.expect(".");
            self.ir.add_inst(Inst::Rule { head, premises, transform });
        }
    }
}

fn check(source: &str) -> Result<(), BoundsError> {
    let mut ir = Reader::new(source).read();
    let mut checker = BoundsChecker::new(&mut ir);
    checker.check()
}

/// What the check of a program says.
fn complaint(source: &str) -> String {
    let mut ir = Reader::new(source).read();
    let e = BoundsChecker::new(&mut ir).check().unwrap_err();
    let mut text = String::new();
    for piece in e.pieces(&ir) {
        match piece {
            Piece::Text(s) => text.push_str(&s),
            Piece::Float(bits) => text.push_str(&f64::from_bits(bits).to_string()),
        }
    }
    text
}

fn name(ir: &mut Ir, text: &str) -> InstId {
    let n = ir.intern_name(text);
    ir.add_inst(Inst::Name(n))
}

fn var(ir: &mut Ir, text: &str) -> InstId {
    let n = ir.intern_name(text);
    ir.add_inst(Inst::Var(n))
}

fn atom(ir: &mut Ir, predicate: &str, args: Vec<InstId>) -> InstId {
    let predicate = ir.intern_name(predicate);
    ir.add_inst(Inst::Atom { predicate, args })
}

/// `Decl predicate(variable) bound [/number].`
fn decl_number(ir: &mut Ir, predicate: &str, variable: &str) {
    let x = var(ir, variable);
    let atom = atom(ir, predicate, vec![x]);
    let number = name(ir, "/number");
    let bound = ir.add_inst(Inst::BoundDecl { base_terms: vec![number] });
    ir.add_inst(Inst::Decl { atom, bounds: vec![bound] });
}

fn clause(ir: &mut Ir, head: InstId, premises: Vec<InstId>) {
    ir.add_inst(Inst::Rule { head, premises, transform: vec![] });
}

#[test]
fn check_valid_fact() {
    let mut ir = Ir::new();
    decl_number(&mut ir, "foo", "X");
    let const_42 = ir.add_inst(Inst::Number(42));
    let head = atom(&mut ir, "foo", vec![const_42]);
    clause(&mut ir, head, vec![]);
    let mut checker = BoundsChecker::new(&mut ir);
    assert!(checker.check().is_ok());
}

#[test]
fn check_invalid_fact_type_mismatch() {
    let mut ir = Ir::new();
    decl_number(&mut ir, "foo", "X");
    let s = ir.intern_string("hello");
    let const_str = ir.add_inst(Inst::String(s));
    let head = atom(&mut ir, "foo", vec![const_str]);
    clause(&mut ir, head, vec![]);
    let mut checker = BoundsChecker::new(&mut ir);
    let result = checker.check();
    assert!(result.is_err(), "expected type mismatch error");
}

#[test]
fn check_valid_rule() {
    let mut ir = Ir::new();
    decl_number(&mut ir, "src", "X");
    decl_number(&mut ir, "dst", "Y");
    let x = var(&mut ir, "X");
    let head = atom(&mut ir, "dst", vec![x]);
    let x = var(&mut ir, "X");
    let body = atom(&mut ir, "src", vec![x]);
    clause(&mut ir, head, vec![body]);
    let mut checker = BoundsChecker::new(&mut ir);
    assert!(checker.check().is_ok());
}

#[test]
fn check_arity_mismatch() {
    let mut ir = Ir::new();
    decl_number(&mut ir, "foo", "X");
    let const_42 = ir.add_inst(Inst::Number(42));
    let const_43 = ir.add_inst(Inst::Number(43));
    let head = atom(&mut ir, "foo", vec![const_42, const_43]);
    clause(&mut ir, head, vec![]);
    let mut checker = BoundsChecker::new(&mut ir);
    let result = checker.check();
    assert!(result.is_err());
}

#[test]
fn multiple_alternatives_first_matches() {
    // pair(42, 99) matches first alternative [/number, /number].
    assert!(check(r#"
        Decl pair(X, Y) bound [/number, /number] bound [/string, /string].
        pair(42, 99).
    "#).is_ok());
}

#[test]
fn multiple_alternatives_second_matches() {
    // pair("a", "b") matches second alternative [/string, /string].
    assert!(check(r#"
        Decl pair(X, Y) bound [/number, /number] bound [/string, /string].
        pair("a", "b").
    "#).is_ok());
}

#[test]
fn multiple_alternatives_none_matches() {
    // pair(42, "b") matches neither alternative.
    assert!(check(r#"
        Decl pair(X, Y) bound [/number, /number] bound [/string, /string].
        pair(42, "b").
    "#).is_err());
}

#[test]
fn rule_infers_type_from_premise() {
    // X gets type /number from src, which conforms to dst's bound.
    assert!(check(r#"
        Decl src(X) bound [/number].
        Decl dst(X) bound [/number].
        dst(X) :- src(X).
    "#).is_ok());
}

#[test]
fn rule_type_mismatch_from_premise() {
    // X inferred as /string from src, but dst expects /number.
    assert!(check(r#"
        Decl src(X) bound [/string].
        Decl dst(X) bound [/number].
        dst(X) :- src(X).
    "#).is_err());
}

#[test]
fn two_premises_refine_variable() {
    // X starts as fn:Union(/number, /string) from 'wide',
    // then refined to /number from 'narrow'. Should conform to /number.
    assert!(check(r#"
        Decl wide(X) bound [fn:Union(/number, /string)].
        Decl narrow(X) bound [/number].
        Decl result(X) bound [/number].
        result(X) :- wide(X), narrow(X).
    "#).is_ok());
}

#[test]
fn two_premises_refine_to_incompatible() {
    // X inferred as /string from src1, then /number from src2.
    // Intersection is empty, so X keeps /string (conservative).
    // /string does not conform to /number → error.
    assert!(check(r#"
        Decl src1(X) bound [/string].
        Decl src2(X) bound [/number].
        Decl dst(X) bound [/number].
        dst(X) :- src1(X), src2(X).
    "#).is_err());
}

#[test]
fn polymorphic_identity_number() {
    // T is a type variable. pair(42, 99) should pass: T can be /number.
    assert!(check(r#"
        Decl pair(X, Y) bound [T, T].
        pair(42, 99).
    "#).is_ok());
}

#[test]
fn polymorphic_identity_string() {
    // T is a type variable. pair("a", "b") should pass: T can be /string.
    assert!(check(r#"
        Decl pair(X, Y) bound [T, T].
        pair("a", "b").
    "#).is_ok());
}

#[test]
fn polymorphic_rule_with_inferred_type() {
    // T skolemized to fresh var. X inferred as /number from src.
    // /number conforms to ?X0 (mapped to /any in context) → passes.
    assert!(check(r#"
        Decl src(X) bound [/number].
        Decl dst(X) bound [T].
        dst(X) :- src(X).
    "#).is_ok());
}

#[test]
fn cross_predicate_inference_basic() {
    // 'helper' has no declaration. Its type is inferred from its rule
    // (which uses 'src' with bound [/number]). Then 'dst' uses 'helper'.
    assert!(check(r#"
        Decl src(X) bound [/number].
        Decl dst(X) bound [/number].
        helper(X) :- src(X).
        dst(X) :- helper(X).
    "#).is_ok());
}

#[test]
fn cross_predicate_inference_type_mismatch() {
    // 'helper' inferred as /string from src. dst expects /number → error.
    assert!(check(r#"
        Decl src(X) bound [/string].
        Decl dst(X) bound [/number].
        helper(X) :- src(X).
        dst(X) :- helper(X).
    "#).is_err());
}

#[test]
fn cross_predicate_inference_chain() {
    // Chain: src → mid → dst, only src and dst declared.
    assert!(check(r#"
        Decl src(X) bound [/number].
        Decl dst(X) bound [/number].
        mid(X) :- src(X).
        dst(X) :- mid(X).
    "#).is_ok());
}

#[test]
fn equality_binds_variable() {
    // X = "hello" gives X type /string.
    assert!(check(r#"
        Decl src(X) bound [/string].
        Decl dst(X) bound [/string].
        dst(X) :- src(X), X = "hello".
    "#).is_ok());
}

#[test]
fn inequality_refines_variable() {
    // X from src is /string, X != "bad" should still be /string.
    assert!(check(r#"
        Decl src(X) bound [/string].
        Decl dst(X) bound [/string].
        dst(X) :- src(X), X != "bad".
    "#).is_ok());
}

#[test]
fn transform_arithmetic() {
    // let Y = fn:plus(X, 1) → Y inferred as /number.
    assert!(check(r#"
        Decl src(X) bound [/number].
        Decl dst(X, Y) bound [/number, /number].
        dst(X, Y) :- src(X) |> let Y = fn:plus(X, 1).
    "#).is_ok());
}

#[test]
fn transform_string_concat() {
    // let Y = fn:string:concat(X, "!") → Y inferred as /string.
    assert!(check(r#"
        Decl src(X) bound [/string].
        Decl dst(X, Y) bound [/string, /string].
        dst(X, Y) :- src(X) |> let Y = fn:string:concat(X, "!").
    "#).is_ok());
}

#[test]
fn transform_type_mismatch() {
    // Y = fn:plus(X, 1) → /number, but dst expects /string for Y.
    assert!(check(r#"
        Decl src(X) bound [/number].
        Decl dst(X, Y) bound [/number, /string].
        dst(X, Y) :- src(X) |> let Y = fn:plus(X, 1).
    "#).is_err());
}

#[test]
fn undeclared_predicate_passes() {
    // Rules with no declarations should pass without error.
    assert!(check(r#"
        foo(1).
        bar(X) :- foo(X).
    "#).is_ok());
}

#[test]
fn a_fact_is_refused_with_its_reasons() {
    assert_eq!(
        complaint("Decl pair(X, Y) bound [/number, /number] bound [/string]. pair(42, \"b\")."),
        "fact pair(...) matches none of the bound decls: argument 1 (\"b\") does not have type /number; \
         arity mismatch: fact has 2 args, bound has 1"
    );
    assert_eq!(
        complaint("Decl p(X) bound [fn:List(/number)]. p(2.5)."),
        "fact p(...) matches none of the bound decls: argument 0 (2.5) does not have type fn:List(/number)"
    );
}

#[test]
fn a_rule_is_refused_with_its_reasons() {
    assert_eq!(
        complaint("Decl src(X) bound [/string]. Decl dst(X) bound [/number] bound [/any, /any]. dst(X) :- src(X)."),
        "rule for dst(...) does not conform to declared bounds: \
         inferred [/string] does not conform to declared [/number]; \
         arity mismatch: head has 1 args, bound has 2"
    );
}

#[test]
fn a_type_is_refused() {
    assert!(matches!(check("Decl p(X) bound [fn:List(/number, /number)]."), Err(BoundsError::Type(_))));
    assert!(matches!(check("Decl p(X) bound [fn:Nothing(/number)]."), Err(BoundsError::Type(_))));
}

#[test]
fn errors_tell_what_is_wrong() {
    match check("Decl p(X) bound [/number]. p(1, 2).") {
        Err(BoundsError::Fact { reasons, .. }) => {
            assert!(matches!(reasons[0], FactMismatch::Arity { args: 2, bound: 1, temporal: false }))
        }
        other => panic!("{:?}", other),
    }
    match check("Decl p(X) bound [/number]. p(X, X) :- q(X).") {
        Err(BoundsError::Rule { reasons, .. }) => {
            assert!(matches!(reasons[0], RuleMismatch::Arity { head: 2, bound: 1 }))
        }
        other => panic!("{:?}", other),
    }
}

#[test]
fn predicates_have_one_arity() {
    let mut ir = Reader::new("p(1). p(2, 3).").read();
    match validate_program(&mut ir) {
        Err(ProgramError::Arity(e)) => {
            assert_eq!((e.expected, e.found), (1, 2));
            assert_eq!(e.message(&ir), "predicate p has inconsistent arity: 1 and 2");
        }
        other => panic!("{:?}", other),
    }
    let mut ir = Reader::new("p(1). q(X) :- p(X), !r(X, X). r(2, 3).").read();
    assert!(validate_program(&mut ir).is_ok());
    let mut ir = Reader::new("Decl q(X) bound [/string]. p(1). q(X) :- p(X), X = 1.").read();
    assert!(matches!(validate_program(&mut ir), Err(ProgramError::Bounds(_))));
}

#[test]
fn every_alternative_of_a_premise_counts() {
    let error = check("Decl src(X) bound [/number] bound [/string]. Decl dst(X) bound [/number]. src(\"a\"). dst(X) :- src(X).");
    match error {
        Err(BoundsError::Rule { reasons, .. }) => assert_eq!(reasons.len(), 1),
        other => panic!("{:?}", other),
    }
    // Each alternative may fit one of its own.
    assert!(check(
        "Decl src(X, Y) bound [/number, /number] bound [/string, /string]. \
         Decl dst(X, Y) bound [/string, /string] bound [/number, /number]. dst(X, Y) :- src(X, Y)."
    ).is_ok());
    assert!(check(
        "Decl src(X) bound [/number] bound [/string]. Decl dst(X) bound [fn:Union(/number, /string)]. dst(X) :- src(X)."
    ).is_ok());
    // What a later premise rules out does not count.
    assert!(check(
        "Decl src(X) bound [/number] bound [/string]. Decl dst(X) bound [/number]. dst(X) :- src(X), X = 1."
    ).is_ok());
    assert!(check(
        "Decl src(X) bound [/number] bound [/string]. Decl num(X) bound [/number]. Decl dst(X) bound [/number]. \
         dst(X) :- src(X), num(X)."
    ).is_ok());
    assert!(check(
        "Decl src(X) bound [/number] bound [/string]. Decl dst(X) bound [/number]. dst(X) :- src(X), X != 1."
    ).is_err());
    assert!(check(
        "Decl src(X) bound [/number] bound [/string]. Decl dst(X) bound [/number]. dst(X) :- X = 1, src(X)."
    ).is_ok());
    // Rules without a declaration pass their alternatives on.
    assert!(check(
        "Decl a(X) bound [/number]. Decl b(X) bound [/string]. Decl dst(X) bound [/number]. \
         both(X) :- a(X). both(X) :- b(X). dst(X) :- both(X)."
    ).is_err());
}

#[test]
fn tagged_values_of_rules() {
    let decl = "Decl src(X) bound [/number]. \
         Decl ev(E) bound [fn:TaggedUnion(/kind, /move, fn:Struct(/x, /number), /quit, fn:Struct())]. ";
    assert!(check(&format!("{}ev(E) :- src(X) |> let E = fn:struct(/kind, /move, /x, X).", decl)).is_ok());
    assert!(check(&format!("{}ev(E) :- src(X) |> let E = fn:struct(/kind, /quit).", decl)).is_ok());
    // A rule is checked for a name in the tag field, not for which one it is.
    assert!(check(&format!("{}ev(E) :- src(X) |> let E = fn:struct(/kind, /stop).", decl)).is_ok());
    assert!(check(&format!("{}ev(E) :- src(X) |> let E = fn:struct(/x, X).", decl)).is_err());
    let moves = "Decl src(X) bound [/number]. \
         Decl ev(E) bound [fn:TaggedUnion(/kind, /move, fn:Struct(/x, /number))]. ";
    assert!(check(&format!("{}ev(E) :- src(X) |> let E = fn:struct(/kind, /move, /x, \"a\").", moves)).is_err());
    // A name in a field is a name all the same.
    assert!(check(
        "Decl src(X) bound [/number]. Decl dst(E) bound [fn:Struct(/kind, /name)]. \
         dst(E) :- src(X) |> let E = fn:struct(/kind, /move)."
    ).is_ok());
}
