//! Predicates that sources may use to leave out rows.
use std::collections::HashMap;

use mangle::ir::{Inst, InstId, Ir};
use mangle::planner::Planner;
use mangle::predicate::{extract_predicates, relation_predicates};
use mangle::source::{filter_rows, ColumnPredicate, EdbSource, Fingerprint, PredicateOp, RelationInfo, SourceError};
use mangle::value::Value;

/// Reads programs into instructions.
struct Reader {
    text: Vec<char>,
    at: usize,
    ir: Ir,
}

impl Reader {
    fn new(source: &str) -> Reader {
        Reader { text: source.chars().collect(), at: 0, ir: Ir::new() }
    }

    fn skip(&mut self) {
        while self.at < self.text.len() && self.text[self.at].is_whitespace() {
            self.at += 1;
        }
    }

    fn looks_at(&mut self, token: &str) -> bool {
        self.skip();
        self.text[self.at..].iter().collect::<String>().starts_with(token)
    }

    fn eat(&mut self, token: &str) -> bool {
        let found = self.looks_at(token);
        if found {
            self.at += token.chars().count();
        }
        found
    }

    fn expect(&mut self, token: &str) {
        assert!(self.eat(token), "expected {} at {}", token, self.at);
    }

    fn word(&mut self, more: &str) -> String {
        self.skip();
        let start = self.at;
        while self.at < self.text.len()
            && (self.text[self.at].is_alphanumeric() || more.contains(self.text[self.at]))
        {
            self.at += 1;
        }
        self.text[start..self.at].iter().collect()
    }

    fn terms(&mut self, close: &str) -> Vec<InstId> {
        let mut terms = vec![];
        while !self.eat(close) {
            terms.push(self.term());
            self.eat(",");
        }
        terms
    }

    fn term(&mut self) -> InstId {
        self.skip();
        let c = self.text[self.at];
        if c == '"' {
            self.at += 1;
            let start = self.at;
            while self.text[self.at] != '"' {
                self.at += 1;
            }
            let s: String = self.text[start..self.at].iter().collect();
            self.at += 1;
            let id = self.ir.intern_string(&s);
            self.ir.add_inst(Inst::String(id))
        } else if c == '/' {
            let name = self.word("/_");
            let id = self.ir.intern_name(&name);
            self.ir.add_inst(Inst::Name(id))
        } else if c.is_ascii_digit() || c == '-' {
            self.at += 1;
            let start = self.at - 1;
            while self.text[self.at].is_ascii_digit()
                || (self.text[self.at] == '.' && self.text.get(self.at + 1).is_some_and(|c| c.is_ascii_digit()))
            {
                self.at += 1;
            }
            let s: String = self.text[start..self.at].iter().collect();
            if s.contains('.') {
                self.ir.add_inst(Inst::Float(s.parse::<f64>().unwrap().to_bits()))
            } else {
                self.ir.add_inst(Inst::Number(s.parse().unwrap()))
            }
        } else if self.looks_at("fn:") {
            let name = self.word(":_");
            let args = if self.eat("(") { self.terms(")") } else { vec![] };
            let function = self.ir.intern_name(&name);
            self.ir.add_inst(Inst::ApplyFn { function, args })
        } else {
            let name = self.word("_");
            let id = self.ir.intern_name(&name);
            self.ir.add_inst(Inst::Var(id))
        }
    }

    fn atom(&mut self) -> InstId {
        let name = self.word(":_");
        self.expect("(");
        let args = self.terms(")");
        let predicate = self.ir.intern_name(&name);
        self.ir.add_inst(Inst::Atom { predicate, args })
    }

    fn premise(&mut self) -> InstId {
        self.skip();
        if self.text[self.at] == '!' {
            self.at += 1;
            let atom = self.atom();
            return self.ir.add_inst(Inst::NegAtom(atom));
        }
        let start = self.at;
        let name = self.word(":_");
        let is_atom = name.starts_with(|c: char| c.is_lowercase() || c == ':') && !name.starts_with("fn:");
        self.at = start;
        if is_atom {
            return self.atom();
        }
        let left = self.term();
        for (op, predicate) in
            [("!=", ""), ("<=", ":le"), (">=", ":ge"), ("<", ":lt"), (">", ":gt"), ("=", "")]
        {
            if self.eat(op) {
                let right = self.term();
                return match op {
                    "=" => self.ir.add_inst(Inst::Eq(left, right)),
                    "!=" => self.ir.add_inst(Inst::Ineq(left, right)),
                    _ => {
                        let predicate = self.ir.intern_name(predicate);
                        self.ir.add_inst(Inst::Atom { predicate, args: vec![left, right] })
                    }
                };
            }
        }
        panic!("no premise at {}", self.at)
    }

    fn read(mut self) -> Ir {
        loop {
            self.skip();
            if self.at == self.text.len() {
                return self.ir;
            }
            if self.eat("Decl ") {
                let atom = self.atom();
                let mut bounds = vec![];
                while self.eat("bound") {
                    self.expect("[");
                    let base_terms = self.terms("]");
                    bounds.push(self.ir.add_inst(Inst::BoundDecl { base_terms }));
                }
                self.expect(".");
                self.ir.add_inst(Inst::Decl { atom, bounds });
                continue;
            }
            let head = self.atom();
            let mut premises = vec![];
            let mut transform = vec![];
            if self.eat(":-") {
                premises.push(self.premise());
                while self.eat(",") {
                    premises.push(self.premise());
                }
            }
            if self.eat("|>") {
                loop {
                    if self.eat("do ") {
                        let app = self.term();
                        transform.push(self.ir.add_inst(Inst::Transform { var: None, app }));
                    } else {
                        self.expect("let ");
                        let name = self.word("_");
                        let var = self.ir.intern_name(&name);
                        self.expect("=");
                        let app = self.term();
                        transform.push(self.ir.add_inst(Inst::Transform { var: Some(var), app }));
                    }
                    if !self.eat(";") && !self.eat(",") {
                        break;
                    }
                }
            }
            self.expect(".");
            self.ir.add_inst(Inst::Rule { head, premises, transform });
        }
    }
}

/// Plans all rules of a program and extracts the predicates for named relations.
fn extract(source: &str, edb_names: &[&str]) -> HashMap<String, Vec<ColumnPredicate>> {
    let mut ir = Reader::new(source).read();
    let edb: Vec<String> = edb_names.iter().map(|s| s.to_string()).collect();
    let mut all_ops = Vec::new();
    for i in 0..ir.len() {
        let id = InstId::new(i);
        if matches!(ir.get(id), Inst::Rule { .. }) {
            if let Ok(op) = Planner::new(&mut ir).plan_rule(id) {
                all_ops.push(op);
            }
        }
    }
    extract_predicates(&ir, &all_ops, &edb).into_iter().collect()
}

#[test]
fn test_column_predicate_eval_eq() {
    let pred = ColumnPredicate::new(1, PredicateOp::Eq, Value::Number(42));
    assert!(pred.eval(&[Value::Number(1), Value::Number(42)]));
    assert!(!pred.eval(&[Value::Number(1), Value::Number(99)]));
}

#[test]
fn test_column_predicate_eval_gt() {
    let pred = ColumnPredicate::new(1, PredicateOp::Gt, Value::Number(100));
    assert!(pred.eval(&[Value::Number(1), Value::Number(200)]));
    assert!(!pred.eval(&[Value::Number(1), Value::Number(50)]));
    assert!(!pred.eval(&[Value::Number(1), Value::Number(100)]));
}

#[test]
fn test_column_predicate_eval_string() {
    let pred = ColumnPredicate::new(0, PredicateOp::Eq, Value::String("US".to_string()));
    assert!(pred.eval(&[Value::String("US".to_string())]));
    assert!(!pred.eval(&[Value::String("EU".to_string())]));
}

#[test]
fn test_column_predicate_eval_out_of_bounds() {
    let pred = ColumnPredicate::new(5, PredicateOp::Eq, Value::Number(1));
    assert!(!pred.eval(&[Value::Number(1)]));
}

#[test]
fn test_extract_equality_constant() {
    // Rule: q(X) :- p(X, "hello").
    // The constant "hello" on column 1 should be extracted.
    let preds = extract(
        r#"q(X) :- p(X, "hello")."#,
        &["p"],
    );
    let p_preds = preds.get("p").unwrap();
    assert_eq!(p_preds.len(), 1);
    assert_eq!(p_preds[0].col_idx, 1);
    assert_eq!(p_preds[0].op, PredicateOp::Eq);
    assert_eq!(p_preds[0].value, Value::String("hello".to_string()));
}

#[test]
fn test_extract_comparison_predicate() {
    // Rule: q(X) :- p(X, Y), Y > 100.
    // The comparison Y > 100 on column 1 should be extracted.
    let preds = extract(
        r#"q(X) :- p(X, Y), Y > 100."#,
        &["p"],
    );
    let p_preds = preds.get("p").unwrap();
    assert!(p_preds.len() >= 1, "expected at least 1 predicate, got {:?}", p_preds);
    let gt_pred = p_preds.iter().find(|p| p.op == PredicateOp::Gt && p.col_idx == 1);
    assert!(gt_pred.is_some(), "expected Gt predicate on col 1, got {:?}", p_preds);
    let gt_pred = gt_pred.unwrap();
    assert_eq!(gt_pred.value, Value::Number(100));
}

#[test]
fn test_extract_multiple_predicates() {
    // Rule: q(X) :- p(X, Y, /region, "US"), Y > 1000.
    //
    // The planner turns /region into an IndexLookup (Eq on col 2), and
    // "US" into a constant in the scan. The Y > 1000 filter may or may
    // not be a direct child of the Iterate depending on how the planner
    // structures the plan. We verify that at minimum the /region
    // equality is extracted.
    let preds = extract(
        r#"q(X) :- p(X, Y, /region, "US"), Y > 1000."#,
        &["p"],
    );
    let p_preds = preds.get("p").unwrap();
    assert!(!p_preds.is_empty(), "expected at least 1 predicate, got none");

    // The /region name constant should always be extracted (as IndexLookup)
    let region_pred = p_preds.iter().find(|p| p.col_idx == 2 && p.op == PredicateOp::Eq);
    assert!(region_pred.is_some(), "expected Eq predicate on col 2 for /region, got {:?}", p_preds);
}

#[test]
fn test_extract_no_predicates_for_idb() {
    // p is both EDB (fact) and IDB (rule). No predicates should be
    // extracted for it since it's not a pure EDB source.
    let preds = extract(
        r#"p(1). q(X) :- p(X)."#,
        &[],  // no EDB sources
    );
    assert!(preds.is_empty());
}

#[test]
fn test_extract_no_predicate_without_constant() {
    // Rule: q(X, Y) :- p(X, Y).
    // No predicates to push down — both are variables.
    let preds = extract(
        r#"q(X, Y) :- p(X, Y)."#,
        &["p"],
    );
    // May or may not have entries, but no predicates
    let p_preds = preds.get("p").map(|v| v.as_slice()).unwrap_or(&[]);
    assert_eq!(p_preds.len(), 0, "expected no predicates, got {:?}", p_preds);
}

#[test]
fn only_predicates_of_every_read_are_extracted() {
    // Both rules ask for "US" in column 1, only one for a large number in column 0.
    let preds = extract(
        r#"q(X) :- p(X, "US"), X > 100. r(X) :- p(X, "US")."#,
        &["p"],
    );
    let p_preds = preds.get("p").unwrap();
    assert_eq!(p_preds.len(), 1);
    assert_eq!(p_preds[0], ColumnPredicate::new(1, PredicateOp::Eq, Value::String("US".to_string())));

    // One rule reads all rows.
    let preds = extract(r#"q(X) :- p(X, "US"). r(X) :- p(X, Y)."#, &["p"]);
    assert!(preds.get("p").map(|v| v.is_empty()).unwrap_or(true));
}

#[test]
fn comparisons_of_columns() {
    let row = [Value::Number(5)];
    let holds = |op: PredicateOp, n: i64| ColumnPredicate::new(0, op, Value::Number(n)).eval(&row);
    assert!(holds(PredicateOp::Neq, 4) && !holds(PredicateOp::Neq, 5));
    assert!(holds(PredicateOp::Lt, 6) && !holds(PredicateOp::Lt, 5));
    assert!(holds(PredicateOp::Le, 5) && !holds(PredicateOp::Le, 4));
    assert!(holds(PredicateOp::Ge, 5) && !holds(PredicateOp::Ge, 6));
}

#[test]
fn rows_are_filtered_in_order() {
    let rows: Vec<Vec<Value>> = (0..6).map(|n| vec![Value::Number(n)]).collect();
    let above = vec![
        ColumnPredicate::new(0, PredicateOp::Gt, Value::Number(1)),
        ColumnPredicate::new(0, PredicateOp::Neq, Value::Number(3)),
    ];
    let kept = filter_rows(rows.clone(), &above);
    assert_eq!(kept, vec![vec![Value::Number(2)], vec![Value::Number(4)], vec![Value::Number(5)]]);
    assert_eq!(filter_rows(rows.clone(), &vec![]), rows);
}

#[test]
fn predicates_of_one_relation() {
    let mut ir = Reader::new(r#"q(X) :- p(X, "US")."#).read();
    let rule = InstId::new(ir.len() - 1);
    let ops = vec![Planner::new(&mut ir).plan_rule(rule).unwrap()];
    assert_eq!(
        relation_predicates(&ir, &ops, "p"),
        vec![ColumnPredicate::new(1, PredicateOp::Eq, Value::String("US".to_string()))]
    );
    assert!(relation_predicates(&ir, &ops, "other").is_empty());
}

struct Numbers;

impl EdbSource for Numbers {
    fn name(&self) -> String {
        "numbers".to_string()
    }

    fn relations(&self) -> Result<Vec<RelationInfo>, SourceError> {
        Ok(vec![RelationInfo { name: "n".to_string(), estimated_rows: 3 }])
    }

    fn scan(&self, _relation: &str) -> Result<Vec<Vec<Value>>, SourceError> {
        Ok((1..4).map(|n| vec![Value::Number(n)]).collect())
    }

    fn fingerprint(&self) -> Result<Option<Fingerprint>, SourceError> {
        Ok(None)
    }
}

#[test]
fn sources_filter_unless_they_know_better() {
    assert_eq!(Numbers.name(), "numbers");
    let all = Numbers.scan_with_predicates("n", &vec![]).unwrap();
    assert_eq!(all.len(), 3);
    let two = vec![ColumnPredicate::new(0, PredicateOp::Eq, Value::Number(2))];
    assert_eq!(Numbers.scan_with_predicates("n", &two).unwrap(), vec![vec![Value::Number(2)]]);
}
