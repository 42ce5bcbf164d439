//! Whole programs: checked, planned, and run to their end.
use std::collections::{HashMap, HashSet};

use mangle::bounds_check::BoundsChecker;
use mangle::calendar::format_time_nanos;
use mangle::codegen::{Codegen, WasmImportsBackend};
use mangle::disk_store::DiskStore;
use mangle::execution::{Execution, Step};
use mangle::ir::{Inst, InstId, Ir, NameId};
use mangle::mem_tables::MemTables;
use mangle::physical::{CompareOp, Condition, Constant, DataSource, Expr, Op, Operand};
use mangle::plan_expr::PlanError;
use mangle::planner::Planner;
use mangle::relations::{derived_relations, extensional_relations};
use mangle::store::Store;
use mangle::value::{compare, CompoundKind, Order, Value};

/// Reads programs into instructions.
struct Reader {
    text: Vec<char>,
    at: usize,
    ir: Ir,
    /// What goes before the names of the predicates of a package.
    prefix: String,
    unnamed: usize,
}

const SECOND: i64 = 1_000_000_000;

/// The nanoseconds of a time like `2024-01-15` or `2024-01-15T10:30:00Z`.
fn time_of(s: &str) -> i64 {
    let part = |from: usize, to: usize| s[from..to].parse::<i64>().unwrap();
    let (y, m, d) = (part(0, 4), part(5, 7), part(8, 10));
    let (y, m) = if m <= 2 { (y - 1, m + 9) } else { (y, m - 3) };
    let days = 365 * y + y / 4 - y / 100 + y / 400 + (153 * m + 2) / 5 + d - 1 - 719_468;
    let seconds = if s.len() > 10 { part(11, 13) * 3600 + part(14, 16) * 60 + part(17, 19) } else { 0 };
    (days * 86_400 + seconds) * SECOND
}

impl Reader {
    fn new(source: &str) -> Reader {
        Reader { text: source.chars().collect(), at: 0, ir: Ir::new(), prefix: String::new(), unnamed: 0 }
    }

    fn function(&mut self, name: &str, args: Vec<InstId>) -> InstId {
        let function = self.ir.intern_name(name);
        self.ir.add_inst(Inst::ApplyFn { function, args })
    }

    /// Pairs of keys and values, up to a closing bracket.
    fn entries(&mut self, mut items: Vec<InstId>, close: &str) -> Vec<InstId> {
        while !self.eat(close) {
            items.push(self.term());
            self.expect(":");
            items.push(self.term());
            self.eat(",");
        }
        items
    }

    fn skip(&mut self) {
        while self.at < self.text.len() && self.text[self.at].is_whitespace() {
            self.at += 1;
        }
    }

    fn looks_at(&mut self, token: &str) -> bool {
        self.skip();
        self.text[self.at..].iter().collect::<String>().starts_with(token)
    }

    fn eat(&mut self, token: &str) -> bool {
        let found = self.looks_at(token);
        if found {
            self.at += token.chars().count();
        }
        found
    }

    fn expect(&mut self, token: &str) {
        assert!(self.eat(token), "expected {} at {}", token, self.at);
    }

    fn word(&mut self, more: &str) -> String {
        self.skip();
        let start = self.at;
        while self.at < self.text.len()
            && (self.text[self.at].is_alphanumeric() || more.contains(self.text[self.at]))
        {
            self.at += 1;
        }
        self.text[start..self.at].iter().collect()
    }

    fn terms(&mut self, close: &str) -> Vec<InstId> {
        let mut terms = vec![];
        while !self.eat(close) {
            terms.push(self.term());
            self.eat(",");
        }
        terms
    }

    fn term(&mut self) -> InstId {
        self.skip();
        let c = self.text[self.at];
        if c == '"' {
            self.at += 1;
            let start = self.at;
            while self.text[self.at] != '"' {
                self.at += 1;
            }
            let s: String = self.text[start..self.at].iter().collect();
            self.at += 1;
            let id = self.ir.intern_string(&s);
            self.ir.add_inst(Inst::String(id))
        } else if c == '/' {
            let name = self.word("/_");
            let id = self.ir.intern_name(&name);
            self.ir.add_inst(Inst::Name(id))
        } else if self.eat("{") {
            let items = self.entries(vec![], "}");
            self.function("fn:struct", items)
        } else if self.eat("[") {
            if self.eat("]") {
                return self.function("fn:list", vec![]);
            }
            let first = self.term();
            if self.eat(":") {
                let mut items = vec![first, self.term()];
                self.eat(",");
                items = self.entries(items, "]");
                return self.function("fn:map", items);
            }
            self.eat(",");
            let mut items = vec![first];
            items.extend(self.terms("]"));
            self.function("fn:list", items)
        } else if c.is_ascii_digit() && self.text.get(self.at + 4) == Some(&'-') {
            let word = self.word("-:");
            self.ir.add_inst(Inst::Time(time_of(&word)))
        } else if c.is_ascii_digit() || c == '-' {
            self.at += 1;
            let start = self.at - 1;
            while self.text[self.at].is_ascii_digit()
                || (self.text[self.at] == '.' && self.text.get(self.at + 1).is_some_and(|c| c.is_ascii_digit()))
            {
                self.at += 1;
            }
            let s: String = self.text[start..self.at].iter().collect();
            for (unit, nanos) in [("ms", SECOND / 1000), ("h", 3600 * SECOND), ("m", 60 * SECOND), ("s", SECOND)] {
                if self.text[self.at].is_alphabetic() && self.eat(unit) {
                    return self.ir.add_inst(Inst::Duration(s.parse::<i64>().unwrap() * nanos));
                }
            }
            if s.contains('.') {
                self.ir.add_inst(Inst::Float(s.parse::<f64>().unwrap().to_bits()))
            } else {
                self.ir.add_inst(Inst::Number(s.parse().unwrap()))
            }
        } else if self.looks_at("fn:") {
            let name = self.word(":_");
            let args = if self.eat("(") { self.terms(")") } else { vec![] };
            let function = self.ir.intern_name(&name);
            self.ir.add_inst(Inst::ApplyFn { function, args })
        } else {
            let mut name = self.word("_");
            if name == "_" {
                self.unnamed += 1;
                name = format!("_{}", self.unnamed);
            }
            let id = self.ir.intern_name(&name);
            self.ir.add_inst(Inst::Var(id))
        }
    }

    /// The name of a predicate. A dot is part of it only before a letter.
    fn predicate(&mut self) -> String {
        let mut name = self.word(":_");
        while self.text.get(self.at) == Some(&'.') && self.text.get(self.at + 1).is_some_and(|c| c.is_alphabetic()) {
            self.at += 1;
            name = name + "." + &self.word("_");
        }
        if name.starts_with(':') {
            name
        } else {
            self.prefix.clone() + &name
        }
    }

    fn atom(&mut self) -> InstId {
        let name = self.predicate();
        self.expect("(");
        let mut args = self.terms(")");
        if self.eat("@[") {
            let times = self.terms("]");
            args.push(times[0]);
            args.push(times[times.len() - 1]);
        }
        let predicate = self.ir.intern_name(&name);
        self.ir.add_inst(Inst::Atom { predicate, args })
    }

    fn premise(&mut self) -> InstId {
        self.skip();
        if self.text[self.at] == '!' {
            self.at += 1;
            let atom = self.atom();
            return self.ir.add_inst(Inst::NegAtom(atom));
        }
        let start = self.at;
        let name = self.word(":_");
        let is_atom = name.starts_with(|c: char| c.is_lowercase() || c == ':') && !name.starts_with("fn:");
        self.at = start;
        if is_atom {
            return self.atom();
        }
        let left = self.term();
        for (op, predicate) in
            [("!=", ""), ("<=", ":le"), (">=", ":ge"), ("<", ":lt"), (">", ":gt"), ("=", "")]
        {
            if self.eat(op) {
                let right = self.term();
                return match op {
                    "=" => self.ir.add_inst(Inst::Eq(left, right)),
                    "!=" => self.ir.add_inst(Inst::Ineq(left, right)),
                    _ => {
                        let predicate = self.ir.intern_name(predicate);
                        self.ir.add_inst(Inst::Atom { predicate, args: vec![left, right] })
                    }
                };
            }
        }
        panic!("no premise at {}", self.at)
    }

    fn read(mut self) -> Ir {
        self.unit();
        self.ir
    }

    /// Reads programs that belong together.
    fn read_units(sources: &[&str]) -> Ir {
        let mut reader = Reader::new("");
        for source in sources {
            reader = Reader { ir: reader.ir, unnamed: reader.unnamed, ..Reader::new(source) };
            reader.unit();
        }
        reader.ir
    }

    fn unit(&mut self) {
        loop {
            self.skip();
            if self.at == self.text.len() {
                return;
            }
            if self.eat("Package ") {
                self.prefix = self.word("_") + ".";
                self.expect("!");
                continue;
            }
            if self.eat("Use ") {
                self.word("_");
                self.expect("!");
                continue;
            }
            if self.eat("Decl ") {
                let atom = self.atom();
                if self.eat("temporal") {
                    if let Inst::Atom { predicate, .. } = self.ir.get(atom) {
                        let predicate = *predicate;
                        self.ir.mark_temporal(predicate);
                    }
                }
                let mut bounds = vec![];
                while self.eat("bound") {
                    self.expect("[");
                    let base_terms = self.terms("]");
                    bounds.push(self.ir.add_inst(Inst::BoundDecl { base_terms }));
                }
                self.expect(".");
                self.ir.add_inst(Inst::Decl { atom, bounds });
                continue;
            }
            let head = self.atom();
            let mut premises = vec![];
            let mut transform = vec![];
            if self.eat(":-") {
                premises.push(self.premise());
                while self.eat(",") {
                    premises.push(self.premise());
                }
            }
            if self.eat("|>") {
                loop {
                    if self.eat("do ") {
                        let app = self.term();
                        transform.push(self.ir.add_inst(Inst::Transform { var: None, app }));
                    } else {
                        self.expect("let ");
                        let name = self.word("_");
                        let var = self.ir.intern_name(&name);
                        self.expect("=");
                        let app = self.term();
                        transform.push(self.ir.add_inst(Inst::Transform { var: Some(var), app }));
                    }
                    if !self.eat(";") && !self.eat(",") {
                        break;
                    }
                }
            }
            self.expect(".");
            self.ir.add_inst(Inst::Rule { head, premises, transform });
        }
    }
}

/// Runs plans over a store.
struct Machine {
    store: DiskStore<MemTables>,
    env: HashMap<NameId, Value>,
}

fn number(v: &Value) -> i64 {
    match v {
        Value::Number(n) => *n,
        other => panic!("expected number, got {:?}", other),
    }
}

fn as_float(v: &Value) -> f64 {
    match v {
        Value::Number(n) => *n as f64,
        Value::Float(bits) => f64::from_bits(*bits),
        other => panic!("expected a numeric value, got {:?}", other),
    }
}

fn as_text(v: &Value) -> String {
    match v {
        Value::String(s) => s.clone(),
        Value::Name(s) => s.clone(),
        Value::Number(n) => n.to_string(),
        Value::Float(bits) => f64::from_bits(*bits).to_string(),
        other => panic!("expected a text, got {:?}", other),
    }
}

fn call(function: &str, args: &[Value]) -> Value {
    match function {
        "fn:plus" => Value::Number(args.iter().map(number).sum()),
        "fn:minus" if args.len() == 1 => Value::Number(-number(&args[0])),
        "fn:minus" => Value::Number(args[1..].iter().fold(number(&args[0]), |a, b| a - number(b))),
        "fn:float:plus" => Value::Float(args.iter().map(as_float).sum::<f64>().to_bits()),
        "fn:sqrt" => Value::Float(as_float(&args[0]).sqrt().to_bits()),
        "fn:string:concat" => Value::String(args.iter().map(as_text).collect()),
        "fn:number:to_string" | "fn:float64:to_string" => Value::String(as_text(&args[0])),
        "fn:string:replace" => Value::String(as_text(&args[0]).replace(&as_text(&args[1]), &as_text(&args[2]))),
        "fn:time:add" => Value::Time(nanos(&args[0]) + nanos(&args[1])),
        "fn:time:sub" => Value::Duration(nanos(&args[0]) - nanos(&args[1])),
        "fn:time:trunc" if as_text(&args[1]) == "/hour" => {
            Value::Time(nanos(&args[0]) - nanos(&args[0]) % (3600 * SECOND))
        }
        "fn:time:year" => time_part(&args[0], 0, 4),
        "fn:time:month" => time_part(&args[0], 5, 7),
        "fn:time:day" => time_part(&args[0], 8, 10),
        "fn:time:hour" => time_part(&args[0], 11, 13),
        "fn:time:minute" => time_part(&args[0], 14, 16),
        "fn:time:second" => time_part(&args[0], 17, 19),
        "fn:duration:add" => Value::Duration(nanos(&args[0]) + nanos(&args[1])),
        "fn:duration:mult" => Value::Duration(nanos(&args[0]) * nanos(&args[1])),
        "fn:duration:seconds" => Value::Float((nanos(&args[0]) as f64 / SECOND as f64).to_bits()),
        "fn:duration:nanos" => Value::Number(nanos(&args[0])),
        "fn:list" => Value::Compound(CompoundKind::List, args.to_vec()),
        "fn:pair" => Value::Compound(CompoundKind::Pair, args.to_vec()),
        "fn:map" => Value::Compound(CompoundKind::Dict, args.to_vec()),
        "fn:struct" => Value::Compound(CompoundKind::Struct, args.to_vec()),
        "fn:list:get" => items(&args[0])[number(&args[1]) as usize].clone(),
        "fn:len" => Value::Number(items(&args[0]).len() as i64),
        "fn:map:len" => Value::Number(items(&args[0]).len() as i64 / 2),
        "fn:map:get" | "fn:struct:get" => {
            items(&args[0]).chunks(2).find(|entry| entry[0] == args[1]).unwrap()[1].clone()
        }
        "fn:pair:first" => items(&args[0])[0].clone(),
        "fn:pair:second" => items(&args[0])[1].clone(),
        other => panic!("no function {}", other),
    }
}

fn nanos(v: &Value) -> i64 {
    match v {
        Value::Number(n) | Value::Time(n) | Value::Duration(n) => *n,
        other => panic!("expected a time or a duration, got {:?}", other),
    }
}

/// A number in the text of a time.
fn time_part(v: &Value, from: usize, to: usize) -> Value {
    Value::Number(format_time_nanos(nanos(v))[from..to].parse().unwrap())
}

fn items(v: &Value) -> &[Value] {
    match v {
        Value::Compound(_, items) => items,
        other => panic!("expected a compound value, got {:?}", other),
    }
}

fn test(function: &str, args: &[Value]) -> bool {
    match function {
        ":string:starts_with" => as_text(&args[0]).starts_with(&as_text(&args[1])),
        ":string:ends_with" => as_text(&args[0]).ends_with(&as_text(&args[1])),
        ":string:contains" => as_text(&args[0]).contains(&as_text(&args[1])),
        ":match_prefix" => as_text(&args[0]).starts_with(&(as_text(&args[1]) + "/")),
        other => panic!("no predicate {}", other),
    }
}

impl Machine {
    fn operand(&self, ir: &Ir, o: &Operand) -> Value {
        match o {
            Operand::Var(v) => self.env[v].clone(),
            Operand::Const(Constant::Number(n)) => Value::Number(*n),
            Operand::Const(Constant::Float(bits)) => Value::Float(*bits),
            Operand::Const(Constant::String(s)) => Value::String(ir.resolve_string(*s).to_string()),
            Operand::Const(Constant::Name(n)) => Value::Name(ir.resolve_name(*n).to_string()),
            Operand::Const(Constant::Time(t)) => Value::Time(*t),
            Operand::Const(Constant::Duration(d)) => Value::Duration(*d),
        }
    }

    fn operands(&self, ir: &Ir, os: &[Operand]) -> Vec<Value> {
        os.iter().map(|o| self.operand(ir, o)).collect()
    }

    fn rows(&self, ir: &Ir, source: &DataSource) -> (Vec<NameId>, Vec<Vec<Value>>) {
        match source {
            DataSource::Scan { relation, vars } => {
                (vars.clone(), self.store.scan(ir.resolve_name(*relation)).unwrap_or_default())
            }
            DataSource::ScanDelta { relation, vars } => {
                (vars.clone(), self.store.scan_delta(ir.resolve_name(*relation)).unwrap())
            }
            DataSource::IndexLookup { relation, col_idx, key, vars } => {
                let key = self.operand(ir, key);
                (vars.clone(), self.store.scan_index(ir.resolve_name(*relation), *col_idx, &key).unwrap())
            }
        }
    }

    fn bind(&mut self, vars: &[NameId], row: &[Value]) {
        for (v, value) in vars.iter().zip(row) {
            self.env.insert(*v, value.clone());
        }
    }

    fn holds(&self, ir: &Ir, cond: &Condition) -> bool {
        match cond {
            Condition::Compare { op, left, right } => {
                let (a, b) = (self.operand(ir, left), self.operand(ir, right));
                // A duration may be given in nanoseconds.
                let order = match (&a, &b) {
                    (Value::Duration(x), Value::Number(y)) => compare(&Value::Number(*x), &Value::Number(*y)),
                    _ => compare(&a, &b),
                };
                match op {
                    CompareOp::Eq => a == b,
                    CompareOp::Neq => a != b,
                    CompareOp::Lt => order == Order::Less,
                    CompareOp::Le => order != Order::Greater,
                    CompareOp::Gt => order == Order::Greater,
                    CompareOp::Ge => order != Order::Less,
                }
            }
            Condition::Negation { relation, args } => {
                let row = self.operands(ir, args);
                !self.store.scan(ir.resolve_name(*relation)).unwrap_or_default().contains(&row)
            }
            Condition::Call { function, args } => test(ir.resolve_name(*function), &self.operands(ir, args)),
        }
    }

    /// Joins the intervals of rows that overlap or touch.
    fn coalesce(&mut self, relation: &str) {
        let mut rows = self.store.scan(relation).unwrap_or_default();
        for row in &rows {
            self.store.retract(relation, row).unwrap();
        }
        rows.sort_by_key(|row| {
            let n = row.len() - 2;
            (format!("{:?}", &row[..n]), nanos(&row[n]))
        });
        let mut joined: Vec<Vec<Value>> = Vec::new();
        for row in rows {
            let n = row.len() - 2;
            match joined.last_mut() {
                Some(last) if last[..n] == row[..n] && nanos(&row[n]) <= nanos(&last[n + 1]) => {
                    if nanos(&last[n + 1]) < nanos(&row[n + 1]) {
                        last[n + 1] = row[n + 1].clone();
                    }
                }
                _ => joined.push(row),
            }
        }
        for row in joined {
            self.store.insert(relation, row).unwrap();
        }
        self.store.merge_deltas();
    }

    fn execute(&mut self, ir: &Ir, op: &Op) -> usize {
        match op {
            Op::Nop => 0,
            Op::Sequence(ops) => ops.iter().map(|op| self.execute(ir, op)).sum(),
            Op::Iterate { source, body } => {
                let (vars, rows) = self.rows(ir, source);
                let mut added = 0;
                for row in &rows {
                    self.bind(&vars, row);
                    added += self.execute(ir, body);
                }
                added
            }
            Op::Filter { cond, body } => {
                if self.holds(ir, cond) {
                    self.execute(ir, body)
                } else {
                    0
                }
            }
            Op::Insert { relation, args } => {
                let row = self.operands(ir, args);
                self.store.insert(ir.resolve_name(*relation), row).unwrap() as usize
            }
            Op::Let { var, expr, body } => {
                let value = match expr {
                    Expr::Value(o) => self.operand(ir, o),
                    Expr::Call { function, args } => call(ir.resolve_name(*function), &self.operands(ir, args)),
                };
                self.env.insert(*var, value);
                self.execute(ir, body)
            }
            Op::GroupBy { source, vars, keys, aggregates, body } => {
                let name = ir.resolve_name(*source);
                let mut rows = self.store.scan(name).unwrap_or_default();
                rows.extend(self.store.scan_next_delta(name).unwrap());
                let mut groups: Vec<(Vec<Value>, Vec<Vec<Value>>)> = Vec::new();
                for row in rows {
                    self.bind(vars, &row);
                    let key: Vec<Value> = keys.iter().map(|k| self.env[k].clone()).collect();
                    match groups.iter_mut().find(|g| g.0 == key) {
                        Some(group) => group.1.push(row),
                        None => groups.push((key, vec![row])),
                    }
                }
                let mut added = 0;
                for (key, rows) in &groups {
                    self.bind(keys, key);
                    for aggregate in aggregates {
                        let mut values = Vec::new();
                        for row in rows {
                            self.bind(vars, row);
                            values.push(self.operands(ir, &aggregate.args));
                        }
                        let result = match ir.resolve_name(aggregate.func) {
                            "fn:count" => rows.len() as i64,
                            "fn:sum" => values.iter().map(|v| number(&v[0])).sum(),
                            "fn:max" => values.iter().map(|v| number(&v[0])).max().unwrap(),
                            "fn:min" => values.iter().map(|v| number(&v[0])).min().unwrap(),
                            other => panic!("no aggregate {}", other),
                        };
                        self.env.insert(aggregate.var, Value::Number(result));
                    }
                    self.bind(keys, key);
                    added += self.execute(ir, body);
                }
                added
            }
            Op::HashJoin { build_source, probe_source, join_keys, body } => {
                let (build_vars, build) = self.rows(ir, build_source);
                let (probe_vars, probe) = self.rows(ir, probe_source);
                let mut added = 0;
                for one in &probe {
                    for other in &build {
                        self.bind(&build_vars, other);
                        let key: Vec<Value> = join_keys.iter().map(|k| self.env[k].clone()).collect();
                        self.bind(&probe_vars, one);
                        if join_keys.iter().zip(&key).all(|(k, v)| self.env[k] == *v) {
                            self.bind(&build_vars, other);
                            self.bind(&probe_vars, one);
                            added += self.execute(ir, body);
                        }
                    }
                }
                added
            }
        }
    }
}

/// The derived relations of a program in the order in which they can be computed: together if
/// they depend on each other.
fn stratify(ir: &Ir) -> Vec<Vec<String>> {
    let derived = derived_relations(ir);
    let mut reads: HashSet<(String, String)> = HashSet::new();
    for i in 0..ir.len() {
        if let Inst::Rule { head, premises, .. } = ir.get(InstId::new(i)) {
            for premise in premises {
                let atom = match ir.get(*premise) {
                    Inst::NegAtom(inner) => *inner,
                    _ => *premise,
                };
                if let (Inst::Atom { predicate: p, .. }, Inst::Atom { predicate: q, .. }) =
                    (ir.get(*head), ir.get(atom))
                {
                    reads.insert((ir.resolve_name(*p).to_string(), ir.resolve_name(*q).to_string()));
                }
            }
        }
    }
    loop {
        let mut more = HashSet::new();
        for (a, b) in &reads {
            for (c, d) in &reads {
                if b == c && !reads.contains(&(a.clone(), d.clone())) {
                    more.insert((a.clone(), d.clone()));
                }
            }
        }
        if more.is_empty() {
            break;
        }
        reads.extend(more);
    }
    let mut strata: Vec<Vec<String>> = Vec::new();
    let mut left = derived;
    while !left.is_empty() {
        let ready = left
            .iter()
            .position(|p| {
                left.iter().all(|q| {
                    !reads.contains(&(p.clone(), q.clone())) || reads.contains(&(q.clone(), p.clone()))
                })
            })
            .unwrap();
        let first = left[ready].clone();
        let (stratum, rest): (Vec<String>, Vec<String>) = left.into_iter().partition(|q| {
            *q == first
                || (reads.contains(&(first.clone(), q.clone())) && reads.contains(&(q.clone(), first.clone())))
        });
        strata.push(stratum);
        left = rest;
    }
    strata
}

/// Runs a program over a store to its end.
fn run_on(ir: &mut Ir, hash_join: bool, store: DiskStore<MemTables>) -> DiskStore<MemTables> {
    let strata = stratify(ir);
    let given = extensional_relations(ir);
    let mut machine = Machine { store, env: HashMap::new() };
    for name in strata.iter().flatten() {
        machine.store.create_relation(name);
    }
    let mut execution = Execution::new(ir, hash_join, given, &strata).unwrap();
    loop {
        let added = match execution.step() {
            Step::Create(name) => {
                machine.store.create_relation(name);
                0
            }
            Step::Execute(op) => machine.execute(ir, op),
            Step::Merge => {
                machine.store.merge_deltas();
                0
            }
            Step::Coalesce(name) => {
                machine.coalesce(name);
                0
            }
            Step::Finished => return machine.store,
        };
        execution.advance(added);
    }
}

/// Checks a program and runs it.
fn run_with(ir: &mut Ir, hash_join: bool) -> DiskStore<MemTables> {
    BoundsChecker::new(ir).check().unwrap();
    run_on(ir, hash_join, DiskStore::open(MemTables::new()).unwrap())
}

fn run(source: &str) -> DiskStore<MemTables> {
    run_with(&mut Reader::new(source).read(), false)
}

#[test]
fn test_driver_e2e() {
    let source = r#"
        p(1).
        p(2).
        q(X) :- p(X).
    "#;

    let store = run(source);

    // Check results
    let facts: Vec<_> = store.scan("q").unwrap();
    assert!(!facts.is_empty(), "relation q not found");

    let mut values: Vec<i64> = facts
        .iter()
        .map(|t| match t[0] {
            Value::Number(n) => n,
            _ => panic!("expected number"),
        })
        .collect();
    values.sort();

    assert_eq!(values, vec![1, 2]);
}

#[test]
fn test_driver_let_transform() {
    let source = r#"
        p(1).
        p(2).
        q(Y) :- p(X) |> let Y = fn:plus(X, 10).
    "#;

    let store = run(source);

    let facts: Vec<_> = store.scan("q").unwrap();
    let mut values: Vec<i64> = facts
        .iter()
        .map(|t| match t[0] {
            Value::Number(n) => n,
            _ => panic!("expected number"),
        })
        .collect();
    values.sort();

    assert_eq!(values, vec![11, 12]);
}

#[test]
fn test_driver_aggregation() {
    let source = r#"
        p(1, 10).
        p(1, 20).
        p(2, 30).
        q(K, S) :- p(K, V) |> do fn:group_by(K); let S = fn:sum(V).
    "#;

    let store = run(source);

    let facts: Vec<_> = store.scan("q").unwrap();
    let mut results: Vec<(i64, i64)> = facts
        .iter()
        .map(|t| {
            if let (Value::Number(k), Value::Number(s)) = (&t[0], &t[1]) {
                (*k, *s)
            } else {
                panic!("expected numbers");
            }
        })
        .collect();
    results.sort();

    assert_eq!(results, vec![(1, 30), (2, 30)]);
}

#[test]
fn test_driver_aggregation_count() {
    let source = r#"
        p(1, 10).
        p(1, 20).
        p(2, 30).
        q(K, C) :- p(K, V) |> do fn:group_by(K); let C = fn:count(V).
    "#;

    let store = run(source);

    let facts: Vec<_> = store.scan("q").unwrap();
    let mut results: Vec<(i64, i64)> = facts
        .iter()
        .map(|t| {
            if let (Value::Number(k), Value::Number(c)) = (&t[0], &t[1]) {
                (*k, *c)
            } else {
                panic!("expected numbers");
            }
        })
        .collect();
    results.sort();

    assert_eq!(results, vec![(1, 2), (2, 1)]);
}

#[test]
fn test_driver_reachability() {
    let source = r#"
        edge(1, 2).
        edge(2, 3).
        edge(3, 4).
        edge(4, 5).
        reachable(X, Y) :- edge(X, Y).
        reachable(X, Z) :- reachable(X, Y), edge(Y, Z).
    "#;

    let store = run(source);

    let facts: Vec<_> = store.scan("reachable").unwrap();
    assert_eq!(facts.len(), 10); // (1,2),(1,3),(1,4),(1,5), (2,3),(2,4),(2,5), (3,4),(3,5), (4,5)

    let mut reachable_from_1: Vec<i64> = facts
        .iter()
        .filter(|t| t[0] == Value::Number(1))
        .map(|t| match t[1] {
            Value::Number(n) => n,
            _ => panic!("expected number"),
        })
        .collect();
    reachable_from_1.sort();
    assert_eq!(reachable_from_1, vec![2, 3, 4, 5]);
}

#[test]
fn test_name_constants() {
    let source = r#"
        role(/role/admin).
        role(/role/user).
        role(/role/application).
    "#;

    let store = run(source);

    let facts: Vec<_> = store.scan("role").unwrap();
    assert_eq!(facts.len(), 3);

    let mut names: Vec<String> = facts
        .iter()
        .map(|t| match &t[0] {
            Value::Name(s) => s.clone(),
            _ => panic!("expected name"),
        })
        .collect();
    names.sort();
    assert_eq!(
        names,
        vec!["/role/admin", "/role/application", "/role/user"]
    );
}

#[test]
fn test_inequality() {
    // Note: name constants like /role/application cannot appear immediately
    // before `.` because the scanner treats `.` as a name_char. Use string
    // constants or ensure a `)` separates the name from the clause terminator.
    let source = r#"
        role("admin").
        role("user").
        role("application").
        non_app_role(R) :- role(R), R != "application".
    "#;

    let store = run(source);

    let facts: Vec<_> = store.scan("non_app_role").unwrap();
    assert_eq!(facts.len(), 2);

    let mut names: Vec<String> = facts
        .iter()
        .map(|t| match &t[0] {
            Value::String(s) => s.clone(),
            _ => panic!("expected string"),
        })
        .collect();
    names.sort();
    assert_eq!(names, vec!["admin", "user"]);
}

#[test]
fn test_negation() {
    let source = r#"
        service("web").
        service("api").
        service("db").
        has_dep("web").
        has_dep("api").
        no_dep(S) :- service(S), !has_dep(S).
    "#;

    let store = run(source);

    let facts: Vec<_> = store.scan("no_dep").unwrap();
    assert_eq!(facts.len(), 1);
    assert_eq!(facts[0][0], Value::String("db".to_string()));
}

#[test]
fn test_combined_name_ineq_negation() {
    // Mini devops-like program exercising all features together
    let source = r#"
        container("web", /status/running).
        container("api", /status/running).
        container("db", /status/stopped).
        depends_on("web", "db").
        depends_on("api", "db").

        running(Name) :- container(Name, /status/running).
        stopped(Name) :- container(Name, /status/stopped).
        has_running_dep(Name) :- depends_on(Name, Dep), running(Dep).
        needs_attention(Name) :- depends_on(Name, Dep), stopped(Dep).
        independent(Name) :- running(Name), !has_running_dep(Name).
    "#;

    let store = run(source);

    // Check running containers
    let running: Vec<_> = store.scan("running").unwrap();
    assert_eq!(running.len(), 2);

    // Check stopped
    let stopped: Vec<_> = store.scan("stopped").unwrap();
    assert_eq!(stopped.len(), 1);
    assert_eq!(stopped[0][0], Value::String("db".to_string()));

    // Both web and api depend on db which is stopped
    let needs_attention: Vec<_> = store.scan("needs_attention").unwrap();
    assert_eq!(needs_attention.len(), 2);

    // db is not running so nobody has a running dep
    // Both web and api are running and have no running deps
    let independent: Vec<_> = store.scan("independent").unwrap();
    assert_eq!(independent.len(), 2);
}

#[test]
fn test_join_with_constants_in_second_atom() {
    // The columns of the second atom are bound to names of their own.
    let source = r#"
        p("a", "x").
        q("a", "y").
        test(E) :- p(E, "x"), q(E, "y").
    "#;

    let store = run(source);

    let facts: Vec<_> = store.scan("test").unwrap();

    assert_eq!(facts.len(), 1, "expected 1 result, got {:?}", facts);
    assert_eq!(facts[0][0], Value::String("a".to_string()));
}

#[test]
fn test_join_constant_only_in_second_atom() {
    // Simpler variant: constant only in second atom
    let source = r#"
        p("a", "x").
        q("a", "y").
        test(E, V) :- p(E, V), q(E, "y").
    "#;

    let store = run(source);

    let facts: Vec<_> = store.scan("test").unwrap();

    assert_eq!(facts.len(), 1, "expected 1 result, got {:?}", facts);
    assert_eq!(facts[0][0], Value::String("a".to_string()));
    assert_eq!(facts[0][1], Value::String("x".to_string()));
}

#[test]
fn test_less_than_comparison() {
    let source = r#"
        num(8.1). num(42). num(99.5).
        big(X) :- num(X), 85 < X .
    "#;

    let store = run(source);

    let facts: Vec<_> = store.scan("big").unwrap();
    assert_eq!(facts.len(), 1, "expected 1 result, got {:?}", facts);
    assert_eq!(facts[0][0], Value::Float(99.5f64.to_bits()));
}

#[test]
fn test_less_equal_comparison() {
    let source = r#"
        num(10). num(50). num(85). num(99).
        up_to_85(X) :- num(X), X <= 85 .
    "#;

    let store = run(source);

    let facts: Vec<_> = store.scan("up_to_85").unwrap();
    assert_eq!(facts.len(), 3, "expected 3 results, got {:?}", facts);
}

#[test]
fn test_compile_to_wasm() {
    let source = r#"
        p(1).
        q(X) :- p(X).
    "#;

    let mut ir = Reader::new(source).read();
    let strata = stratify(&ir);
    let compiled =
        Codegen::new_with_stratified(&mut ir, strata, WasmImportsBackend).generate_within_limit().unwrap();

    // Basic check that we generated something that looks like WASM
    assert!(!compiled.wasm.is_empty());
    assert_eq!(&compiled.wasm[0..4], b"\0asm"); // WASM magic header
}

#[test]
fn test_greater_than_comparison() {
    let source = r#"
        num(10). num(50). num(85). num(99).
        big(X) :- num(X), X > 50 .
    "#;

    let store = run(source);

    let facts: Vec<_> = store.scan("big").unwrap();
    assert_eq!(facts.len(), 2, "expected 2 results, got {:?}", facts);

    let mut values: Vec<i64> = facts
        .iter()
        .map(|t| match t[0] {
            Value::Number(n) => n,
            _ => panic!("expected number"),
        })
        .collect();
    values.sort();
    assert_eq!(values, vec![85, 99]);
}

#[test]
fn test_greater_equal_comparison() {
    let source = r#"
        num(10). num(50). num(85). num(99).
        at_least_85(X) :- num(X), X >= 85 .
    "#;

    let store = run(source);

    let facts: Vec<_> = store.scan("at_least_85").unwrap();
    assert_eq!(facts.len(), 2, "expected 2 results, got {:?}", facts);
}

#[test]
fn test_variadic_arithmetic() {
    let source = r#"
        p(1).
        p(2).
        q(Y) :- p(X) |> let Y = fn:plus(X, 10, 100).
    "#;

    let store = run(source);

    let facts: Vec<_> = store.scan("q").unwrap();
    let mut values: Vec<i64> = facts
        .iter()
        .map(|t| match t[0] {
            Value::Number(n) => n,
            _ => panic!("expected number"),
        })
        .collect();
    values.sort();
    assert_eq!(values, vec![111, 112]);
}

#[test]
fn test_unary_minus() {
    let source = r#"
        p(5).
        q(Y) :- p(X) |> let Y = fn:minus(X).
    "#;

    let store = run(source);

    let facts: Vec<_> = store.scan("q").unwrap();
    assert_eq!(facts.len(), 1);
    assert_eq!(facts[0][0], Value::Number(-5));
}

#[test]
fn test_string_concat() {
    let source = r#"
        p("hello", "world").
        q(R) :- p(A, B) |> let R = fn:string:concat(A, " ", B).
    "#;

    let store = run(source);

    let facts: Vec<_> = store.scan("q").unwrap();
    assert_eq!(facts.len(), 1);
    assert_eq!(facts[0][0], Value::String("hello world".to_string()));
}

#[test]
fn test_number_to_string() {
    let source = r#"
        p(42).
        q(R) :- p(X) |> let R = fn:number:to_string(X).
    "#;

    let store = run(source);

    let facts: Vec<_> = store.scan("q").unwrap();
    assert_eq!(facts.len(), 1);
    assert_eq!(facts[0][0], Value::String("42".to_string()));
}

#[test]
fn test_float64_to_string() {
    let source = r#"
        p(3.14).
        q(R) :- p(X) |> let R = fn:float64:to_string(X).
    "#;

    let store = run(source);

    let facts: Vec<_> = store.scan("q").unwrap();
    assert_eq!(facts.len(), 1);
    assert_eq!(facts[0][0], Value::String("3.14".to_string()));
}

#[test]
fn test_float_promotion_in_sqrt() {
    let source = r#"
        p(16).
        q(R) :- p(X) |> let R = fn:sqrt(X).
    "#;

    let store = run(source);

    let facts: Vec<_> = store.scan("q").unwrap();
    assert_eq!(facts.len(), 1);
    assert_eq!(facts[0][0], Value::Float(4.0f64.to_bits()));
}

#[test]
fn test_negative_number_literals() {
    let source = r#"
        temp(-10).
        temp(5).
        temp(20).
        below_zero(X) :- temp(X), X < 0 .
        offset(X, Y) :- temp(X) |> let Y = fn:float:plus(X, -0.5).
    "#;

    let store = run(source);

    let facts: Vec<_> = store.scan("below_zero").unwrap();
    assert_eq!(facts.len(), 1);
    assert_eq!(facts[0][0], Value::Number(-10));

    let offset_facts: Vec<_> = store.scan("offset").unwrap();
    assert_eq!(offset_facts.len(), 3);
}

/// Test: non-temporal programs are unaffected by temporal machinery
#[test]
fn test_temporal_backward_compat_reachability() {
    let source = r#"
        edge(/a, /b).
        edge(/b, /c).
        edge(/c, /d).
        path(X, Y) :- edge(X, Y).
        path(X, Z) :- edge(X, Y), path(Y, Z).
    "#;

    let store = run(source);

    let facts: Vec<_> = store.scan("path").unwrap();

    let mut pairs: Vec<(String, String)> = facts
        .iter()
        .map(|f| {
            let from = match &f[0] { Value::Name(s) => s.clone(), v => panic!("{v:?}") };
            let to = match &f[1] { Value::Name(s) => s.clone(), v => panic!("{v:?}") };
            (from, to)
        })
        .collect();
    pairs.sort();

    let expected = vec![
        ("/a".to_string(), "/b".to_string()),
        ("/a".to_string(), "/c".to_string()),
        ("/a".to_string(), "/d".to_string()),
        ("/b".to_string(), "/c".to_string()),
        ("/b".to_string(), "/d".to_string()),
        ("/c".to_string(), "/d".to_string()),
    ];
    assert_eq!(pairs, expected);
}

/// `X = expr` in a rule body with a fresh LHS variable is a let-binding,
#[test]
fn test_body_eq_as_let_binding() {
    let source = r#"
        p(1). p(2). p(3).
        q(Y) :- p(X), Y = fn:plus(X, 10).
    "#;
    let store = run(source);
    let mut got: Vec<i64> = store.scan("q").unwrap().iter().map(|f| match &f[0] { Value::Number(n) => *n, v => panic!("{v:?}") })
        .collect();
    got.sort();
    assert_eq!(got, vec![11, 12, 13]);
}

/// When both sides of `=` are bound, it remains a runtime equality check
/// (non-matching rows are filtered out) rather than becoming a binding.
#[test]
fn test_body_eq_still_filters_when_bound() {
    let source = r#"
        p(1). p(2). p(3).
        only_two(X) :- p(X), X = 2.
    "#;
    let store = run(source);
    let got: Vec<i64> = store.scan("only_two").unwrap().iter().map(|f| match &f[0] { Value::Number(n) => *n, v => panic!("{v:?}") })
        .collect();
    assert_eq!(got, vec![2]);
}

/// Test: negation with temporal still works
#[test]
fn test_temporal_backward_compat_negation() {
    let source = r#"
        all(/a). all(/b). all(/c).
        excluded(/a).
        included(X) :- all(X), !excluded(X).
    "#;

    let store = run(source);

    let facts: Vec<_> = store.scan("included").unwrap();

    let mut values: Vec<String> = facts
        .iter()
        .map(|f| match &f[0] { Value::Name(s) => s.clone(), v => panic!("{v:?}") })
        .collect();
    values.sort();
    assert_eq!(values, vec!["/b", "/c"]);
}

#[test]
fn test_driver_e2e_with_package() {
    let source = r#"
        Package pkg!
        p(1).
        q(X) :- p(X).
    "#;

    let store = run(source);

    // Check results - predicates should be prefixed with "pkg."
    let facts: Vec<_> = store.scan("pkg.q").unwrap();
    assert!(!facts.is_empty(), "relation pkg.q not found");

    let values: Vec<i64> = facts
        .iter()
        .map(|t| match t[0] {
            Value::Number(n) => n,
            _ => panic!("expected number"),
        })
        .collect();
    assert_eq!(values, vec![1]);
}

#[test]
fn test_compile_units_package_use() {

    let schema = r#"
        Package config_schema !
        Decl server_port(Port).
        Decl programs_dir(Path).
    "#;

    let config = r#"
        Use config_schema !
        config_schema.server_port(8090).
        config_schema.programs_dir("/programs").
    "#;

    let store = run_with(&mut Reader::read_units(&[schema, config]), false);

    // Query the qualified predicate
    let port_facts: Vec<_> = store.scan("config_schema.server_port").unwrap();
    assert_eq!(port_facts.len(), 1);
    assert_eq!(port_facts[0][0], Value::Number(8090));

    let dir_facts: Vec<_> = store.scan("config_schema.programs_dir").unwrap();
    assert_eq!(dir_facts.len(), 1);
    assert_eq!(dir_facts[0][0], Value::String("/programs".to_string()));
}

#[test]
fn test_string_replace() {
    let source = r#"
        p("foo-bar-baz").
        q(R) :- p(S) |> let R = fn:string:replace(S, "-", "_", -1).
    "#;

    let store = run(source);

    let facts: Vec<_> = store.scan("q").unwrap();
    assert_eq!(facts.len(), 1);
    assert_eq!(facts[0][0], Value::String("foo_bar_baz".to_string()));
}

#[test]
fn test_builtin_string_predicates() {
    let source = r#"
        path("/api/users").
        path("/api/posts").
        path("/home").
        path("/api/users/admin").
        api_path(P) :- path(P), :string:starts_with(P, "/api").
        users_path(P) :- path(P), :string:contains(P, "users").
        html_path(P) :- path(P), :string:ends_with(P, "admin").
    "#;

    let store = run(source);

    let api_facts: Vec<_> = store.scan("api_path").unwrap();
    assert_eq!(api_facts.len(), 3, "api_path: {:?}", api_facts);

    let users_facts: Vec<_> = store.scan("users_path").unwrap();
    assert_eq!(users_facts.len(), 2, "users_path: {:?}", users_facts);

    let html_facts: Vec<_> = store.scan("html_path").unwrap();
    assert_eq!(html_facts.len(), 1, "html_path: {:?}", html_facts);
}

#[test]
fn test_match_prefix() {
    let source = r#"
        name(/role/admin).
        name(/role).
        name(/other).
        under_role(N) :- name(N), :match_prefix(N, /role).
    "#;

    let store = run(source);

    let facts: Vec<_> = store.scan("under_role").unwrap();
    // "/role" itself should NOT match (must be strictly longer)
    assert_eq!(facts.len(), 1, "under_role: {:?}", facts);
    assert_eq!(facts[0][0], Value::Name("/role/admin".to_string()));
}

#[test]
fn test_timestamp_literals() {
    let source = r#"
        event(2024-01-15T10:30:00Z).
        event(2024-06-01T00:00:00Z).
        has_event(X) :- event(X).
    "#;

    let store = run(source);

    let facts: Vec<_> = store.scan("has_event").unwrap();
    assert_eq!(facts.len(), 2);
    // Both should be Time values
    for fact in &facts {
        assert!(matches!(fact[0], Value::Time(_)), "expected Time, got {:?}", fact[0]);
    }
}

#[test]
fn test_duration_literals() {
    let source = r#"
        timeout(30s).
        timeout(500ms).
        has_timeout(X) :- timeout(X).
    "#;

    let store = run(source);

    let facts: Vec<_> = store.scan("has_timeout").unwrap();
    assert_eq!(facts.len(), 2);
    for fact in &facts {
        assert!(matches!(fact[0], Value::Duration(_)), "expected Duration, got {:?}", fact[0]);
    }
}

#[test]
fn test_time_arithmetic() {
    let source = r#"
        start(2024-01-15T10:00:00Z).
        result(Y) :- start(X) |> let Y = fn:time:add(X, 1h).
    "#;

    let store = run(source);

    let facts: Vec<_> = store.scan("result").unwrap();
    assert_eq!(facts.len(), 1);
    // 2024-01-15T10:00:00Z + 1h = 2024-01-15T11:00:00Z
    match &facts[0][0] {
        Value::Time(nanos) => {
            let expected = 1705276800_000_000_000i64 + (11 * 3600) * 1_000_000_000;
            assert_eq!(*nanos, expected, "time should be 2024-01-15T11:00:00Z");
        }
        v => panic!("expected Time, got {v:?}"),
    }
}

#[test]
fn test_time_sub() {
    let source = r#"
        pair(2024-01-15T12:00:00Z, 2024-01-15T10:00:00Z).
        diff(D) :- pair(A, B) |> let D = fn:time:sub(A, B).
    "#;

    let store = run(source);

    let facts: Vec<_> = store.scan("diff").unwrap();
    assert_eq!(facts.len(), 1);
    match &facts[0][0] {
        Value::Duration(nanos) => {
            assert_eq!(*nanos, 2 * 3600 * 1_000_000_000, "diff should be 2h");
        }
        v => panic!("expected Duration, got {v:?}"),
    }
}

#[test]
fn test_time_components() {
    let source = r#"
        ts(2024-06-15T14:30:45Z).
        year_of(Y) :- ts(T) |> let Y = fn:time:year(T).
        month_of(M) :- ts(T) |> let M = fn:time:month(T).
        day_of(D) :- ts(T) |> let D = fn:time:day(T).
        hour_of(H) :- ts(T) |> let H = fn:time:hour(T).
        minute_of(Min) :- ts(T) |> let Min = fn:time:minute(T).
        second_of(S) :- ts(T) |> let S = fn:time:second(T).
    "#;

    let store = run(source);

    let check = |rel: &str, expected: i64| {
        let facts: Vec<_> = store.scan(rel).unwrap();
        assert_eq!(facts.len(), 1, "{rel}");
        assert_eq!(facts[0][0], Value::Number(expected), "{rel}");
    };
    check("year_of", 2024);
    check("month_of", 6);
    check("day_of", 15);
    check("hour_of", 14);
    check("minute_of", 30);
    check("second_of", 45);
}

#[test]
fn test_duration_components() {
    let source = r#"
        dur(90s).
        dur_seconds(S) :- dur(D) |> let S = fn:duration:seconds(D).
        dur_nanos(N) :- dur(D) |> let N = fn:duration:nanos(D).
    "#;

    let store = run(source);

    let secs: Vec<_> = store.scan("dur_seconds").unwrap();
    assert_eq!(secs.len(), 1);
    assert_eq!(secs[0][0], Value::Float(90.0f64.to_bits()));

    let nanos: Vec<_> = store.scan("dur_nanos").unwrap();
    assert_eq!(nanos.len(), 1);
    assert_eq!(nanos[0][0], Value::Number(90_000_000_000));
}

#[test]
fn test_time_comparison_predicates() {
    let source = r#"
        event(2024-01-01T00:00:00Z).
        event(2024-06-15T00:00:00Z).
        event(2024-12-31T00:00:00Z).
        recent(T) :- event(T), :time:gt(T, 2024-06-01T00:00:00Z).
    "#;

    let store = run(source);

    let facts: Vec<_> = store.scan("recent").unwrap();
    assert_eq!(facts.len(), 2, "recent: {:?}", facts);
}

#[test]
fn test_date_only_timestamp() {
    let source = r#"
        d(2024-01-15).
        has(X) :- d(X).
    "#;

    let store = run(source);

    let facts: Vec<_> = store.scan("has").unwrap();
    assert_eq!(facts.len(), 1);
    match &facts[0][0] {
        Value::Time(nanos) => {
            // 2024-01-15T00:00:00Z
            assert_eq!(*nanos, 1705276800_000_000_000);
        }
        v => panic!("expected Time, got {v:?}"),
    }
}

#[test]
fn test_time_trunc() {
    let source = r#"
        ts(2024-06-15T14:30:45Z).
        truncated(Y) :- ts(T) |> let Y = fn:time:trunc(T, /hour).
    "#;

    let store = run(source);

    let facts: Vec<_> = store.scan("truncated").unwrap();
    assert_eq!(facts.len(), 1);
    match &facts[0][0] {
        Value::Time(nanos) => {
            // Should be truncated to 2024-06-15T14:00:00Z
            let display = format_time_nanos(*nanos);
            assert_eq!(display, "2024-06-15T14:00:00Z");
        }
        v => panic!("expected Time, got {v:?}"),
    }
}

#[test]
fn test_duration_arithmetic() {
    let source = r#"
        d(1h, 30m).
        total(T) :- d(A, B) |> let T = fn:duration:add(A, B).
        doubled(T) :- d(A, _) |> let T = fn:duration:mult(A, 2).
    "#;

    let store = run(source);

    let facts: Vec<_> = store.scan("total").unwrap();
    assert_eq!(facts.len(), 1);
    match &facts[0][0] {
        Value::Duration(nanos) => {
            assert_eq!(*nanos, 90 * 60 * 1_000_000_000, "1h + 30m = 90m");
        }
        v => panic!("expected Duration, got {v:?}"),
    }

    let facts: Vec<_> = store.scan("doubled").unwrap();
    assert_eq!(facts.len(), 1);
    match &facts[0][0] {
        Value::Duration(nanos) => {
            assert_eq!(*nanos, 2 * 3600 * 1_000_000_000, "2 * 1h = 2h");
        }
        v => panic!("expected Duration, got {v:?}"),
    }
}

#[test]
fn test_list_construction() {
    let source = r#"
        data(1). data(2). data(3).
        result(L) :- data(X) |> let L = fn:list(X).
    "#;
    let store = run(source);

    let facts: Vec<_> = store.scan("result").unwrap();
    // Each data fact produces a single-element list
    assert_eq!(facts.len(), 3);
    for fact in &facts {
        match &fact[0] {
            Value::Compound(_, elems) => assert_eq!(elems.len(), 1),
            v => panic!("expected Compound, got {v:?}"),
        }
    }
}

#[test]
fn test_list_literal_syntax() {
    // [1, 2, 3] stands for fn:list(1, 2, 3)
    let source = r#"
        result([1, 2, 3]).
    "#;
    let store = run(source);

    let facts: Vec<_> = store.scan("result").unwrap();
    assert_eq!(facts.len(), 1);
    match &facts[0][0] {
        Value::Compound(_, elems) => {
            assert_eq!(elems.len(), 3);
            assert_eq!(elems[0], Value::Number(1));
            assert_eq!(elems[1], Value::Number(2));
            assert_eq!(elems[2], Value::Number(3));
        }
        v => panic!("expected Compound, got {v:?}"),
    }
}

#[test]
fn test_struct_construction() {
    let source = r#"
        result({/name: "alice", /age: 30}).
    "#;
    let store = run(source);

    let facts: Vec<_> = store.scan("result").unwrap();
    assert_eq!(facts.len(), 1);
    match &facts[0][0] {
        Value::Compound(_, elems) => {
            // Interleaved: ["/name", "alice", "/age", 30]
            assert_eq!(elems.len(), 4);
            assert_eq!(elems[0], Value::Name("/name".to_string()));
            assert_eq!(elems[1], Value::String("alice".to_string()));
            assert_eq!(elems[2], Value::Name("/age".to_string()));
            assert_eq!(elems[3], Value::Number(30));
        }
        v => panic!("expected Compound, got {v:?}"),
    }
}

#[test]
fn test_pair_construction() {
    let source = r#"
        data("key", 42).
        result(P) :- data(K, V) |> let P = fn:pair(K, V).
    "#;
    let store = run(source);

    let facts: Vec<_> = store.scan("result").unwrap();
    assert_eq!(facts.len(), 1);
    match &facts[0][0] {
        Value::Compound(_, elems) => {
            assert_eq!(elems.len(), 2);
            assert_eq!(elems[0], Value::String("key".to_string()));
            assert_eq!(elems[1], Value::Number(42));
        }
        v => panic!("expected Compound, got {v:?}"),
    }
}

#[test]
fn test_list_get_and_len() {
    let source = r#"
        data([10, 20, 30]).
        first(F) :- data(L) |> let F = fn:list:get(L, 0).
        length(N) :- data(L) |> let N = fn:len(L).
    "#;
    let store = run(source);

    let facts: Vec<_> = store.scan("first").unwrap();
    assert_eq!(facts.len(), 1);
    assert_eq!(facts[0][0], Value::Number(10));

    let facts: Vec<_> = store.scan("length").unwrap();
    assert_eq!(facts.len(), 1);
    assert_eq!(facts[0][0], Value::Number(3));
}

#[test]
fn test_struct_get() {
    let source = r#"
        data({/name: "alice", /age: 30}).
        name(N) :- data(S) |> let N = fn:struct:get(S, /name).
        age(A) :- data(S) |> let A = fn:struct:get(S, /age).
    "#;
    let store = run(source);

    let facts: Vec<_> = store.scan("name").unwrap();
    assert_eq!(facts.len(), 1);
    assert_eq!(facts[0][0], Value::String("alice".to_string()));

    let facts: Vec<_> = store.scan("age").unwrap();
    assert_eq!(facts.len(), 1);
    assert_eq!(facts[0][0], Value::Number(30));
}

#[test]
fn test_pair_accessors() {
    // An intermediate relation, since there is one transform in a rule
    let source = r#"
        data(42, "hello").
        pair_data(P) :- data(A, B) |> let P = fn:pair(A, B).
        result_first(F) :- pair_data(P) |> let F = fn:pair:first(P).
        result_second(S) :- pair_data(P) |> let S = fn:pair:second(P).
    "#;
    let store = run(source);

    let facts: Vec<_> = store.scan("result_first").unwrap();
    assert_eq!(facts.len(), 1);
    assert_eq!(facts[0][0], Value::Number(42));

    let facts: Vec<_> = store.scan("result_second").unwrap();
    assert_eq!(facts.len(), 1);
    assert_eq!(facts[0][0], Value::String("hello".to_string()));
}

#[test]
fn test_map_operations() {
    let source = r#"
        data([/a: 10, /b: 20]).
        val_a(V) :- data(M) |> let V = fn:map:get(M, /a).
        val_b(V) :- data(M) |> let V = fn:map:get(M, /b).
        nkeys(N) :- data(M) |> let N = fn:map:len(M).
    "#;
    let store = run(source);

    let facts: Vec<_> = store.scan("val_a").unwrap();
    assert_eq!(facts.len(), 1);
    assert_eq!(facts[0][0], Value::Number(10));

    let facts: Vec<_> = store.scan("val_b").unwrap();
    assert_eq!(facts.len(), 1);
    assert_eq!(facts[0][0], Value::Number(20));

    let facts: Vec<_> = store.scan("nkeys").unwrap();
    assert_eq!(facts.len(), 1);
    assert_eq!(facts[0][0], Value::Number(2));
}

#[test]
fn test_nested_compound() {
    // A list of pairs
    let source = r#"
        data("a", 1).
        data("b", 2).
        pairs(P) :- data(K, V) |> let P = fn:pair(K, V).
        first_key(K) :- pairs(P) |> let K = fn:pair:first(P).
    "#;
    let store = run(source);

    let facts: Vec<_> = store.scan("first_key").unwrap();
    assert_eq!(facts.len(), 2);
    let mut keys: Vec<String> = facts
        .iter()
        .map(|t| match &t[0] {
            Value::String(s) => s.clone(),
            v => panic!("expected string, got {v:?}"),
        })
        .collect();
    keys.sort();
    assert_eq!(keys, vec!["a", "b"]);
}

/// Non-recursive: temporal facts with point annotations.
#[test]
fn test_temporal_point_facts() {
    let source = r#"
        Decl link(X, Y) temporal bound [/name, /name].
        link(/a, /b)@[2024-01-01].
        link(/a, /c)@[2024-01-02].
    "#;

    let store = run(source);

    // link is temporal so each fact has 4 columns: X, Y, start, end
    let facts: Vec<_> = store.scan("link").unwrap();
    assert_eq!(facts.len(), 2, "expected 2 temporal link facts, got {:?}", facts);

    // Each fact should have 4 columns (2 regular + 2 temporal)
    for fact in &facts {
        assert_eq!(fact.len(), 4, "temporal fact should have 4 columns, got {:?}", fact);
    }
}

/// Non-recursive: simple temporal rule copying facts.
#[test]
fn test_temporal_simple_rule() {
    let source = r#"
        Decl link(X, Y) temporal bound [/name, /name].
        Decl reachable(X, Y) temporal bound [/name, /name].
        link(/a, /b)@[2024-01-01].
        reachable(X, Y)@[T] :- link(X, Y)@[T].
    "#;

    let store = run(source);

    let facts: Vec<_> = store.scan("reachable").unwrap();
    assert_eq!(facts.len(), 1, "expected 1 reachable fact, got {:?}", facts);
    assert_eq!(facts[0].len(), 4); // X, Y, start, end
    assert_eq!(facts[0][0], Value::Name("/a".to_string()));
    assert_eq!(facts[0][1], Value::Name("/b".to_string()));
}

/// Recursive temporal graph reachability with point-in-time intervals.
#[test]
fn test_temporal_graph_points() {
    let source = r#"
        Decl link(X, Y) temporal bound [/name, /name].
        Decl reachable(X, Y) temporal bound [/name, /name].

        link(/a, /b)@[2024-01-01].
        link(/b, /c)@[2024-01-01].

        link(/a, /c)@[2024-01-02].
        link(/c, /d)@[2024-01-02].

        reachable(X, Y)@[T] :- link(X, Y)@[T].
        reachable(X, Z)@[T] :- reachable(X, Y)@[T], link(Y, Z)@[T].
    "#;

    let store = run(source);

    let facts: Vec<_> = store.scan("reachable").unwrap();

    let t1: i64 = 1704067200_000_000_000; // 2024-01-01 UTC
    let t2: i64 = 1704153600_000_000_000; // 2024-01-02 UTC

    // Collect as (from, to, time) tuples for easier comparison
    let mut results: Vec<(String, String, i64)> = facts
        .iter()
        .map(|f| {
            let from = match &f[0] {
                Value::Name(n) => n.clone(),
                v => panic!("expected name, got {v:?}"),
            };
            let to = match &f[1] {
                Value::Name(n) => n.clone(),
                v => panic!("expected name, got {v:?}"),
            };
            let time = match &f[2] {
                Value::Time(t) => *t,
                v => panic!("expected time, got {v:?}"),
            };
            (from, to, time)
        })
        .collect();
    results.sort();

    // Expected:
    // T1: a->b, b->c, a->c (derived)
    // T2: a->c, c->d, a->d (derived)
    let expected = vec![
        ("/a".to_string(), "/b".to_string(), t1),
        ("/a".to_string(), "/c".to_string(), t1),
        ("/a".to_string(), "/c".to_string(), t2),
        ("/a".to_string(), "/d".to_string(), t2),
        ("/b".to_string(), "/c".to_string(), t1),
        ("/c".to_string(), "/d".to_string(), t2),
    ];
    assert_eq!(results, expected, "temporal graph reachability mismatch");
}

/// Test temporal interval coalescing: overlapping intervals merge.
#[test]
fn test_temporal_coalescing() {
    // Two overlapping intervals for the same fact should be coalesced
    let source = r#"
        Decl link(X, Y) temporal bound [/name, /name].
        Decl reach(X, Y) temporal bound [/name, /name].
        link(/a, /b)@[2024-01-01, 2024-01-05].
        link(/a, /b)@[2024-01-03, 2024-01-10].
        reach(X, Y)@[S, E] :- link(X, Y)@[S, E].
    "#;

    let store = run(source);

    let facts: Vec<_> = store.scan("reach").unwrap();

    // After coalescing, the two overlapping intervals [Jan 1-5] and [Jan 3-10]
    // should merge into a single [Jan 1, Jan 10] interval.
    assert_eq!(facts.len(), 1, "expected 1 coalesced fact, got {:?}", facts);
    assert_eq!(facts[0][0], Value::Name("/a".to_string()));
    assert_eq!(facts[0][1], Value::Name("/b".to_string()));

    // Verify the merged interval spans Jan 1 to Jan 10
    let start = match &facts[0][2] {
        Value::Time(t) => *t,
        v => panic!("expected time, got {v:?}"),
    };
    let end = match &facts[0][3] {
        Value::Time(t) => *t,
        v => panic!("expected time, got {v:?}"),
    };
    let jan1: i64 = 1704067200_000_000_000;
    let jan10: i64 = 1704844800_000_000_000;
    assert_eq!(start, jan1, "start should be Jan 1");
    assert_eq!(end, jan10, "end should be Jan 10");
}

#[test]
fn test_temporal_coalesce_three_overlapping() {
    let source = r#"
        Decl status(X) temporal bound [/name].
        status(/active)@[2024-01-01, 2024-01-15].
        status(/active)@[2024-01-10, 2024-01-25].
        status(/active)@[2024-01-20, 2024-01-31].
    "#;

    let store = run(source);

    let facts: Vec<_> = store.scan("status").unwrap();
    // After coalescing, should be 1 fact spanning Jan 1 to Jan 31
    assert_eq!(facts.len(), 1, "expected 1 coalesced fact, got {:?}", facts);
    assert_eq!(facts[0][0], Value::Name("/active".to_string()));
}

/// (more complex variant with 3 link facts, some at different timestamps)
#[test]
fn test_temporal_reachability_mixed_timestamps() {
    let source = r#"
        Decl link(X, Y) temporal bound [/name, /name].
        Decl reachable(X, Y) temporal bound [/name, /name].

        link(/a, /b)@[2024-01-01].
        link(/b, /c)@[2024-01-01].
        link(/c, /d)@[2024-01-02].

        reachable(X, Y)@[T] :- link(X, Y)@[T].
        reachable(X, Z)@[T] :- reachable(X, Y)@[T], link(Y, Z)@[T].
    "#;

    let store = run(source);

    let facts: Vec<_> = store.scan("reachable").unwrap();

    // Collect as (from, to) ignoring time for uniqueness check
    let mut pairs: Vec<(String, String)> = facts
        .iter()
        .map(|f| {
            let from = match &f[0] { Value::Name(s) => s.clone(), v => panic!("{v:?}") };
            let to = match &f[1] { Value::Name(s) => s.clone(), v => panic!("{v:?}") };
            (from, to)
        })
        .collect();
    pairs.sort();
    pairs.dedup();

    // a->b, b->c, a->c (all at t1), c->d (at t2)
    // a->c is derived transitively at t1
    // No a->d because c->d is at t2 but a->c is at t1
    let expected = vec![
        ("/a".to_string(), "/b".to_string()),
        ("/a".to_string(), "/c".to_string()),
        ("/b".to_string(), "/c".to_string()),
        ("/c".to_string(), "/d".to_string()),
    ];
    assert_eq!(pairs, expected, "temporal reachability mismatch");
}

/// Tests interval intersection with 4 cases for deriving reachability.
#[test]
fn test_temporal_graph_intervals() {
    let source = r#"
        Decl link(X, Y) temporal bound [/name, /name].
        Decl reachable(X, Y) temporal bound [/name, /name].

        link(/a, /b)@[2024-01-01, 2024-01-10].
        link(/b, /c)@[2024-01-05, 2024-01-15].
        link(/c, /d)@[2024-01-12, 2024-01-20].

        reachable(X, Y)@[S, E] :- link(X, Y)@[S, E].

        reachable(X, Z)@[S1, E1] :-
            reachable(X, Y)@[S1, E1], link(Y, Z)@[S2, E2],
            :time:ge(S1, S2), :time:le(E1, E2), :time:le(S1, E1).

        reachable(X, Z)@[S1, E2] :-
            reachable(X, Y)@[S1, E1], link(Y, Z)@[S2, E2],
            :time:ge(S1, S2), :time:lt(E2, E1), :time:le(S1, E2).

        reachable(X, Z)@[S2, E1] :-
            reachable(X, Y)@[S1, E1], link(Y, Z)@[S2, E2],
            :time:gt(S2, S1), :time:le(E1, E2), :time:le(S2, E1).

        reachable(X, Z)@[S2, E2] :-
            reachable(X, Y)@[S1, E1], link(Y, Z)@[S2, E2],
            :time:gt(S2, S1), :time:lt(E2, E1), :time:le(S2, E2).
    "#;

    let store = run(source);

    let facts: Vec<_> = store.scan("reachable").unwrap();

    // Collect unique (from, to) pairs
    let mut pairs: Vec<(String, String)> = facts
        .iter()
        .map(|f| {
            let from = match &f[0] { Value::Name(s) => s.clone(), v => panic!("{v:?}") };
            let to = match &f[1] { Value::Name(s) => s.clone(), v => panic!("{v:?}") };
            (from, to)
        })
        .collect();
    pairs.sort();
    pairs.dedup();

    // a->b, b->c, c->d (direct)
    // a->c (intersection of [Jan1-10] and [Jan5-15] = [Jan5-10])
    // b->d (intersection of [Jan5-15] and [Jan12-20] = [Jan12-15])
    // a->d NOT derived (a->c is [Jan5-10], c->d is [Jan12-20] — no overlap)
    let expected = vec![
        ("/a".to_string(), "/b".to_string()),
        ("/a".to_string(), "/c".to_string()),
        ("/b".to_string(), "/c".to_string()),
        ("/b".to_string(), "/d".to_string()),
        ("/c".to_string(), "/d".to_string()),
    ];
    assert_eq!(pairs, expected, "interval intersection reachability mismatch");

    // Verify specific intervals for derived facts
    for f in &facts {
        let from = match &f[0] { Value::Name(s) => s.as_str(), _ => "" };
        let to = match &f[1] { Value::Name(s) => s.as_str(), _ => "" };
        let start = match &f[2] { Value::Time(t) => *t, _ => 0 };
        let end = match &f[3] { Value::Time(t) => *t, _ => 0 };

        if from == "/a" && to == "/c" {
            // Intersection of [Jan1,Jan10] and [Jan5,Jan15] = [Jan5,Jan10]
            let jan5: i64 = 1704412800_000_000_000;
            let jan10: i64 = 1704844800_000_000_000;
            assert_eq!(start, jan5, "a->c start should be Jan 5");
            assert_eq!(end, jan10, "a->c end should be Jan 10");
        }
        if from == "/b" && to == "/d" {
            // Intersection of [Jan5,Jan15] and [Jan12,Jan20] = [Jan12,Jan15]
            let jan12: i64 = 1705017600_000_000_000;
            let jan15: i64 = 1705276800_000_000_000;
            assert_eq!(start, jan12, "b->d start should be Jan 12");
            assert_eq!(end, jan15, "b->d end should be Jan 15");
        }
    }
}

/// Event sequence detection: A followed by B within 10 minutes.
/// Uses fn:time:sub to compute duration and :duration:le for comparison.
#[test]
fn test_temporal_sequence_detection() {
    // Strategy: compute the time difference via transform, then filter.
    // Rule 1: compute (U, Diff) pairs where B happens after A
    // Rule 2: filter where Diff <= 10 minutes (600 seconds = 600_000_000_000 ns)
    let source = r#"
        Decl event_a(Name) temporal bound [/name].
        Decl event_b(Name) temporal bound [/name].

        event_a(/u1)@[2024-01-01T10:00:00Z].
        event_b(/u1)@[2024-01-01T10:05:00Z].

        event_a(/u2)@[2024-01-01T10:00:00Z].
        event_b(/u2)@[2024-01-01T10:15:00Z].

        seq_pair(U, Diff) :-
            event_b(U)@[Tb],
            event_a(U)@[Ta],
            :time:lt(Ta, Tb)
            |> let Diff = fn:time:sub(Tb, Ta).

        match_seq(U) :-
            seq_pair(U, Diff),
            :duration:le(Diff, 600000000000).
    "#;

    let store = run(source);

    let facts: Vec<_> = store.scan("match_seq").unwrap();

    // Only /u1 should match (5 min gap = 300s), /u2 has 15 min gap = 900s
    assert_eq!(facts.len(), 1, "expected 1 match, got {:?}", facts);
    assert_eq!(facts[0][0], Value::Name("/u1".to_string()));
}

/// Hash joins and nested loops find the same.
#[test]
fn hash_joins_find_the_same() {
    let source = r#"
        p(1, 2). p(2, 3). p(3, 4). p(1, 5).
        q(2, "a"). q(3, "b"). q(5, "c").
        r(X, Z) :- p(X, Y), q(Y, Z).
        s(X, W) :- p(X, Y), p(Y, Z), p(Z, W).
    "#;
    let plain = run_with(&mut Reader::new(source).read(), false);
    let hashed = run_with(&mut Reader::new(source).read(), true);
    for relation in ["r", "s"] {
        let sorted = |store: &DiskStore<MemTables>| {
            let mut rows: Vec<String> = store.scan(relation).unwrap().iter().map(|r| format!("{:?}", r)).collect();
            rows.sort();
            rows
        };
        assert_eq!(sorted(&plain), sorted(&hashed));
    }
    assert_eq!(plain.scan("r").unwrap().len(), 3);
    assert_eq!(plain.scan("s").unwrap(), vec![vec![Value::Number(1), Value::Number(4)]]);
}

/// A comparison is a test, not a relation to join with.
#[test]
fn hash_joins_leave_comparisons_alone() {
    let source = r#"
        p(1, 2). p(3, 2). p(2, 5).
        name(1, "one"). name(2, "two"). name(3, "tone").
        up(X, Y) :- p(X, Y), X < Y.
        starts(N) :- name(N, S), :string:starts_with(S, "t").
    "#;
    for hash_join in [false, true] {
        let store = run_with(&mut Reader::new(source).read(), hash_join);
        let mut up: Vec<(i64, i64)> =
            store.scan("up").unwrap().iter().map(|r| (number(&r[0]), number(&r[1]))).collect();
        up.sort();
        assert_eq!(up, vec![(1, 2), (2, 5)]);
        let mut starts: Vec<i64> = store.scan("starts").unwrap().iter().map(|r| number(&r[0])).collect();
        starts.sort();
        assert_eq!(starts, vec![2, 3]);
    }
}

/// What a rule with one atom of a relation gives from the new rows of it, and nothing else.
#[test]
fn new_rows_derive_what_is_new() {
    let mut ir = Reader::new("r(X, Z) :- p(X, Y), q(Y, Z).").read();
    let rule = (0..ir.len())
        .map(InstId::new)
        .find(|&id| matches!(ir.get(id), Inst::Rule { .. }))
        .unwrap();
    let row = |a: i64, b: i64| vec![Value::Number(a), Value::Number(b)];
    let mut store = DiskStore::open(MemTables::new()).unwrap();
    for relation in ["p", "q", "r"] {
        store.create_relation(relation);
    }
    store.insert("p", row(1, 2)).unwrap();
    store.insert("q", row(2, 3)).unwrap();
    store.insert("q", row(5, 6)).unwrap();
    store.merge_deltas();
    store.merge_deltas();
    store.insert("p", row(4, 5)).unwrap();
    store.insert("p", row(7, 8)).unwrap();
    store.merge_deltas();
    let p = ir.intern_name("p");
    let all = Planner::new(&mut ir).plan_rule(rule).unwrap();
    let new = Planner::new(&mut ir).with_delta(p).plan_rule(rule).unwrap();
    let mut machine = Machine { store, env: HashMap::new() };
    machine.execute(&ir, &new);
    assert_eq!(machine.store.scan_next_delta("r").unwrap(), vec![row(4, 6)]);
    machine.execute(&ir, &all);
    let mut derived: Vec<(i64, i64)> = machine
        .store
        .scan_next_delta("r")
        .unwrap()
        .iter()
        .map(|r| (number(&r[0]), number(&r[1])))
        .collect();
    derived.sort();
    assert_eq!(derived, vec![(1, 3), (4, 6)]);
}

#[test]
fn relations_that_depend_on_each_other() {
    let store = run(
        r#"
        next(0, 1). next(1, 2). next(2, 3). next(3, 4).
        even(0).
        odd(Y) :- even(X), next(X, Y).
        even(Y) :- odd(X), next(X, Y).
        "#,
    );
    let mut even: Vec<i64> = store.scan("even").unwrap().iter().map(|r| number(&r[0])).collect();
    even.sort();
    assert_eq!(even, vec![0, 2, 4]);
    assert_eq!(store.scan("odd").unwrap().len(), 2);
}

#[test]
fn relations_of_a_program() {
    let ir = Reader::new("p(X) :- q(X), !r(X). s(1). t(X) :- s(X), p(X), X != 2.").read();
    assert_eq!(derived_relations(&ir), vec!["p".to_string(), "s".to_string(), "t".to_string()]);
    assert_eq!(extensional_relations(&ir), vec!["q".to_string(), "r".to_string()]);
}

#[test]
fn steps_of_an_execution() {
    let mut ir = Reader::new("p(X) :- e(X). p(Y) :- p(X), n(X, Y).").read();
    let strata = vec![vec!["p".to_string()]];
    let given = extensional_relations(&ir);
    let mut execution = Execution::new(&mut ir, false, given, &strata).unwrap();
    let mut seen = String::new();
    // The first plan over new rows adds a row in the first round only.
    let mut executed = 0;
    loop {
        let added = match execution.step() {
            Step::Create(name) => {
                seen.push_str(name);
                0
            }
            Step::Execute(_) => {
                seen.push('x');
                executed += 1;
                (executed == 3) as usize
            }
            Step::Merge => {
                seen.push('m');
                0
            }
            Step::Coalesce(_) => {
                seen.push('c');
                0
            }
            Step::Finished => break,
        };
        execution.advance(added);
    }
    // Two plans once, a merge, two rounds with a merge between them, and a last merge.
    assert_eq!(seen, "enxxmxmxm");
}

#[test]
fn intervals_are_joined_after_every_stratum() {
    let mut ir = Reader::new("p(1). q(X) :- p(X).").read();
    let p = ir.intern_name("p");
    ir.mark_temporal(p);
    let strata = vec![vec!["p".to_string()], vec!["q".to_string()]];
    let mut execution = Execution::new(&mut ir, false, vec![], &strata).unwrap();
    let mut joined = Vec::new();
    loop {
        match execution.step() {
            Step::Coalesce(name) => joined.push(name.to_string()),
            Step::Finished => break,
            _ => {}
        }
        execution.advance(0);
    }
    assert_eq!(joined, vec!["p".to_string(), "p".to_string()]);
}

#[test]
fn plans_that_cannot_be_made() {
    let mut ir = Reader::new("p(X) :- q(X) |> do fn:group_by(1); let Y = fn:count(X).").read();
    let strata = vec![vec!["p".to_string()]];
    let e = Execution::new(&mut ir, false, vec![], &strata).err().unwrap();
    assert!(matches!(e, PlanError::GroupKey));
    assert_eq!(e.message(), "GroupBy keys must be variables");
}

fn pairs(store: &DiskStore<MemTables>, relation: &str) -> Vec<(i64, i64)> {
    let mut rows: Vec<(i64, i64)> =
        store.scan(relation).unwrap().iter().map(|r| (number(&r[0]), number(&r[1]))).collect();
    rows.sort();
    rows
}

/// A variable that occurs twice in an atom asks for equal columns.
#[test]
fn repeated_variables_ask_for_equal_columns() {
    let source = r#"
        p(1, 1). p(1, 2). p(3, 3).
        t(1, 2, 1). t(1, 1, 1). t(2, 2, 1).
        loop(X) :- p(X, X).
        around(X, Y) :- t(X, Y, X).
        bound(X) :- p(X, Y), p(Y, Y).
    "#;
    for hash_join in [false, true] {
        let store = run_with(&mut Reader::new(source).read(), hash_join);
        let mut loops: Vec<i64> = store.scan("loop").unwrap().iter().map(|r| number(&r[0])).collect();
        loops.sort();
        assert_eq!(loops, vec![1, 3]);
        assert_eq!(pairs(&store, "around"), vec![(1, 1), (1, 2)]);
        let mut bound: Vec<i64> = store.scan("bound").unwrap().iter().map(|r| number(&r[0])).collect();
        bound.sort();
        assert_eq!(bound, vec![1, 3]);
    }
    let mut ir = Reader::new("q(X) :- p(X, X).").read();
    let rule = (0..ir.len()).map(InstId::new).find(|&id| matches!(ir.get(id), Inst::Rule { .. })).unwrap();
    match Planner::new(&mut ir).plan_rule(rule).unwrap() {
        Op::Iterate { source: DataSource::Scan { vars, .. }, body } => {
            assert_ne!(vars[0], vars[1]);
            assert!(matches!(*body, Op::Filter { cond: Condition::Compare { op: CompareOp::Eq, .. }, .. }));
        }
        other => panic!("{:?}", other),
    }
}

/// A rule that reads a relation twice joins old rows with new ones, either way round.
#[test]
fn rules_that_read_a_relation_twice_are_closed() {
    let store = run(
        r#"
        e(1, 2). e(2, 3). e(3, 4). e(4, 5). e(5, 6). e(6, 7).
        p(X, Y) :- e(X, Y).
        p(X, Z) :- p(X, Y), p(Y, Z).
        "#,
    );
    let found = pairs(&store, "p");
    let mut expected = vec![];
    for x in 1..=7i64 {
        for y in x + 1..=7 {
            expected.push((x, y));
        }
    }
    assert_eq!(found, expected);
    let store = run(
        r#"
        p(1, 2). p(3, 2). sym(2, 3).
        p(X, Y) :- p(Y, X), sym(X, Y).
        p(X, Z) :- p(X, Y), p(Y, Z).
        "#,
    );
    assert_eq!(pairs(&store, "p"), vec![(1, 2), (1, 3), (2, 2), (2, 3), (3, 2), (3, 3)]);
}

/// Each premise can be the one whose new rows are read.
#[test]
fn a_plan_reads_the_new_rows_of_one_premise() {
    let mut ir = Reader::new("p(X, Z) :- p(X, Y), p(Y, Z).").read();
    let rule = (0..ir.len()).map(InstId::new).find(|&id| matches!(ir.get(id), Inst::Rule { .. })).unwrap();
    let p = ir.intern_name("p");
    let first = Planner::new(&mut ir).with_delta_at(p, 0).plan_rule(rule).unwrap();
    assert!(matches!(first, Op::Iterate { source: DataSource::ScanDelta { .. }, .. }));
    let second = Planner::new(&mut ir).with_delta_at(p, 1).plan_rule(rule).unwrap();
    assert!(matches!(second, Op::Iterate { source: DataSource::Scan { .. }, .. }));
}

/// The rows of a relation of numbers, in order.
fn number_rows(store: &DiskStore<MemTables>, relation: &str) -> Vec<Vec<i64>> {
    let mut rows: Vec<Vec<i64>> =
        store.scan(relation).unwrap().iter().map(|row| row.iter().map(number).collect()).collect();
    rows.sort();
    rows
}

#[test]
fn a_finished_run_leaves_nothing_to_derive() {
    let source = "edge(1, 2). edge(2, 3). edge(3, 1). edge(4, 5). \
        path(X, Y) :- edge(X, Y). path(X, Z) :- path(X, Y), path(Y, Z). \
        apart(X, Y) :- edge(X, Z), edge(Y, W), !path(X, Y).";
    for hash_join in [false, true] {
        let mut ir = Reader::new(source).read();
        let store = run_with(&mut ir, hash_join);
        let paths = number_rows(&store, "path");
        assert_eq!(paths.len(), 10);
        for a in &paths {
            for b in &paths {
                assert!(a[1] != b[0] || paths.contains(&vec![a[0], b[1]]));
            }
        }
        let apart = number_rows(&store, "apart");
        assert_eq!(apart, vec![vec![1, 4], vec![2, 4], vec![3, 4], vec![4, 1], vec![4, 2], vec![4, 3], vec![4, 4]]);
        // Every rule once more adds nothing.
        let strata = stratify(&ir);
        let mut machine = Machine { store, env: HashMap::new() };
        let mut execution = Execution::new(&mut ir, hash_join, Vec::new(), &strata).unwrap();
        loop {
            match execution.step() {
                Step::Execute(op) => assert_eq!(machine.execute(&ir, op), 0),
                Step::Finished => break,
                _ => {}
            }
            execution.advance(0);
        }
    }
}

#[test]
fn every_group_gives_one_row() {
    let sales = "sale(1, 10, 7). sale(1, 20, 7). sale(1, 30, 8). sale(2, 40, 9). sale(3, 50, 50). ";
    // Rows with the same value count each for itself.
    let store = run(&format!(
        "{}total(K, S, N) :- sale(K, I, V) |> do fn:group_by(K); let S = fn:sum(V); let C = fn:count(I); \
         let N = fn:plus(C, 100).",
        sales
    ));
    assert_eq!(number_rows(&store, "total"), vec![vec![1, 22, 103], vec![2, 9, 101], vec![3, 50, 101]]);
    // A variable that stands twice, and one group for all rows.
    let store = run(&format!("{}own(K, C) :- sale(K, V, V) |> do fn:group_by(K); let C = fn:count(V).", sales));
    assert_eq!(number_rows(&store, "own"), vec![vec![3, 1]]);
    let store = run(&format!("{}all(S) :- sale(K, I, V) |> do fn:group_by(); let S = fn:sum(V).", sales));
    assert_eq!(number_rows(&store, "all"), vec![vec![81]]);
}
