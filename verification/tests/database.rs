//! Databases: facts from sources and programs, and changes to them.
use std::collections::{HashMap, HashSet};

use mangle::cache::{
    cache_is_valid, cache_meta, combine_fingerprints, compute_edb_fingerprint, compute_program_hash, CacheMeta,
    IdbMode, IdbSnapshot, RecomputeStrategy, StoreBackend,
};
use mangle::database::{
    copy_relations, extract_idb_snapshot, insert_rows, load_edb_into_store, load_facts, DatabaseState, LoadError,
};
use mangle::disk_store::DiskStore;
use mangle::execution::{Execution, Step};
use mangle::file_backend::FileIdbBackend;
use mangle::ir::{Inst, InstId, Ir, NameId};
use mangle::mem_tables::MemTables;
use mangle::physical::{CompareOp, Condition, Constant, DataSource, Expr, Op, Operand};
use mangle::relations::{derived_relations, extensional_relations, validate_program, ProgramError};
use mangle::source::{EdbSource, Fingerprint, RelationInfo, SourceError};
use mangle::store::Store;
use mangle::tables::{Db, StoreError, Tables, Write};
use mangle::value::{compare, Order, Value};

/// Reads programs into instructions.
struct Reader {
    text: Vec<char>,
    at: usize,
    ir: Ir,
}

impl Reader {
    fn new(source: &str) -> Reader {
        Reader { text: source.chars().collect(), at: 0, ir: Ir::new() }
    }

    fn skip(&mut self) {
        while self.at < self.text.len() && self.text[self.at].is_whitespace() {
            self.at += 1;
        }
    }

    fn looks_at(&mut self, token: &str) -> bool {
        self.skip();
        self.text[self.at..].iter().collect::<String>().starts_with(token)
    }

    fn eat(&mut self, token: &str) -> bool {
        let found = self.looks_at(token);
        if found {
            self.at += token.chars().count();
        }
        found
    }

    fn expect(&mut self, token: &str) {
        assert!(self.eat(token), "expected {} at {}", token, self.at);
    }

    fn word(&mut self, more: &str) -> String {
        self.skip();
        let start = self.at;
        while self.at < self.text.len()
            && (self.text[self.at].is_alphanumeric() || more.contains(self.text[self.at]))
        {
            self.at += 1;
        }
        self.text[start..self.at].iter().collect()
    }

    fn terms(&mut self, close: &str) -> Vec<InstId> {
        let mut terms = vec![];
        while !self.eat(close) {
            terms.push(self.term());
            self.eat(",");
        }
        terms
    }

    fn term(&mut self) -> InstId {
        self.skip();
        let c = self.text[self.at];
        if c == '"' {
            self.at += 1;
            let start = self.at;
            while self.text[self.at] != '"' {
                self.at += 1;
            }
            let s: String = self.text[start..self.at].iter().collect();
            self.at += 1;
            let id = self.ir.intern_string(&s);
            self.ir.add_inst(Inst::String(id))
        } else if c == '/' {
            let name = self.word("/_");
            let id = self.ir.intern_name(&name);
            self.ir.add_inst(Inst::Name(id))
        } else if c.is_ascii_digit() || c == '-' {
            self.at += 1;
            let start = self.at - 1;
            while self.text[self.at].is_ascii_digit()
                || (self.text[self.at] == '.' && self.text.get(self.at + 1).is_some_and(|c| c.is_ascii_digit()))
            {
                self.at += 1;
            }
            let s: String = self.text[start..self.at].iter().collect();
            if s.contains('.') {
                self.ir.add_inst(Inst::Float(s.parse::<f64>().unwrap().to_bits()))
            } else {
                self.ir.add_inst(Inst::Number(s.parse().unwrap()))
            }
        } else if self.looks_at("fn:") {
            let name = self.word(":_");
            let args = if self.eat("(") { self.terms(")") } else { vec![] };
            let function = self.ir.intern_name(&name);
            self.ir.add_inst(Inst::ApplyFn { function, args })
        } else {
            let name = self.word("_");
            let id = self.ir.intern_name(&name);
            self.ir.add_inst(Inst::Var(id))
        }
    }

    fn atom(&mut self) -> InstId {
        let name = self.word(":_");
        self.expect("(");
        let args = self.terms(")");
        let predicate = self.ir.intern_name(&name);
        self.ir.add_inst(Inst::Atom { predicate, args })
    }

    fn premise(&mut self) -> InstId {
        self.skip();
        if self.text[self.at] == '!' {
            self.at += 1;
            let atom = self.atom();
            return self.ir.add_inst(Inst::NegAtom(atom));
        }
        let start = self.at;
        let name = self.word(":_");
        let is_atom = name.starts_with(|c: char| c.is_lowercase() || c == ':') && !name.starts_with("fn:");
        self.at = start;
        if is_atom {
            return self.atom();
        }
        let left = self.term();
        for (op, predicate) in
            [("!=", ""), ("<=", ":le"), (">=", ":ge"), ("<", ":lt"), (">", ":gt"), ("=", "")]
        {
            if self.eat(op) {
                let right = self.term();
                return match op {
                    "=" => self.ir.add_inst(Inst::Eq(left, right)),
                    "!=" => self.ir.add_inst(Inst::Ineq(left, right)),
                    _ => {
                        let predicate = self.ir.intern_name(predicate);
                        self.ir.add_inst(Inst::Atom { predicate, args: vec![left, right] })
                    }
                };
            }
        }
        panic!("no premise at {}", self.at)
    }

    fn read(mut self) -> Ir {
        loop {
            self.skip();
            if self.at == self.text.len() {
                return self.ir;
            }
            if self.eat("Decl ") {
                let atom = self.atom();
                let mut bounds = vec![];
                while self.eat("bound") {
                    self.expect("[");
                    let base_terms = self.terms("]");
                    bounds.push(self.ir.add_inst(Inst::BoundDecl { base_terms }));
                }
                self.expect(".");
                self.ir.add_inst(Inst::Decl { atom, bounds });
                continue;
            }
            let head = self.atom();
            let mut premises = vec![];
            let mut transform = vec![];
            if self.eat(":-") {
                premises.push(self.premise());
                while self.eat(",") {
                    premises.push(self.premise());
                }
            }
            if self.eat("|>") {
                loop {
                    if self.eat("do ") {
                        let app = self.term();
                        transform.push(self.ir.add_inst(Inst::Transform { var: None, app }));
                    } else {
                        self.expect("let ");
                        let name = self.word("_");
                        let var = self.ir.intern_name(&name);
                        self.expect("=");
                        let app = self.term();
                        transform.push(self.ir.add_inst(Inst::Transform { var: Some(var), app }));
                    }
                    if !self.eat(";") && !self.eat(",") {
                        break;
                    }
                }
            }
            self.expect(".");
            self.ir.add_inst(Inst::Rule { head, premises, transform });
        }
    }
}

/// Runs plans over a store.
struct Machine {
    store: DiskStore<MemTables>,
    env: HashMap<NameId, Value>,
}

fn number(v: &Value) -> i64 {
    match v {
        Value::Number(n) => *n,
        other => panic!("expected number, got {:?}", other),
    }
}

fn as_float(v: &Value) -> f64 {
    match v {
        Value::Number(n) => *n as f64,
        Value::Float(bits) => f64::from_bits(*bits),
        other => panic!("expected a numeric value, got {:?}", other),
    }
}

fn as_text(v: &Value) -> String {
    match v {
        Value::String(s) => s.clone(),
        Value::Name(s) => s.clone(),
        Value::Number(n) => n.to_string(),
        Value::Float(bits) => f64::from_bits(*bits).to_string(),
        other => panic!("expected a text, got {:?}", other),
    }
}

fn call(function: &str, args: &[Value]) -> Value {
    match function {
        "fn:plus" => Value::Number(args.iter().map(number).sum()),
        "fn:minus" if args.len() == 1 => Value::Number(-number(&args[0])),
        "fn:minus" => Value::Number(args[1..].iter().fold(number(&args[0]), |a, b| a - number(b))),
        "fn:float:plus" => Value::Float(args.iter().map(as_float).sum::<f64>().to_bits()),
        "fn:sqrt" => Value::Float(as_float(&args[0]).sqrt().to_bits()),
        "fn:string:concat" => Value::String(args.iter().map(as_text).collect()),
        "fn:number:to_string" | "fn:float64:to_string" => Value::String(as_text(&args[0])),
        other => panic!("no function {}", other),
    }
}

impl Machine {
    fn operand(&self, ir: &Ir, o: &Operand) -> Value {
        match o {
            Operand::Var(v) => self.env[v].clone(),
            Operand::Const(Constant::Number(n)) => Value::Number(*n),
            Operand::Const(Constant::Float(bits)) => Value::Float(*bits),
            Operand::Const(Constant::String(s)) => Value::String(ir.resolve_string(*s).to_string()),
            Operand::Const(Constant::Name(n)) => Value::Name(ir.resolve_name(*n).to_string()),
            Operand::Const(Constant::Time(t)) => Value::Time(*t),
            Operand::Const(Constant::Duration(d)) => Value::Duration(*d),
        }
    }

    fn operands(&self, ir: &Ir, os: &[Operand]) -> Vec<Value> {
        os.iter().map(|o| self.operand(ir, o)).collect()
    }

    fn rows(&self, ir: &Ir, source: &DataSource) -> (Vec<NameId>, Vec<Vec<Value>>) {
        match source {
            DataSource::Scan { relation, vars } => {
                (vars.clone(), self.store.scan(ir.resolve_name(*relation)).unwrap_or_default())
            }
            DataSource::ScanDelta { relation, vars } => {
                (vars.clone(), self.store.scan_delta(ir.resolve_name(*relation)).unwrap())
            }
            DataSource::IndexLookup { relation, col_idx, key, vars } => {
                let key = self.operand(ir, key);
                (vars.clone(), self.store.scan_index(ir.resolve_name(*relation), *col_idx, &key).unwrap())
            }
        }
    }

    fn bind(&mut self, vars: &[NameId], row: &[Value]) {
        for (v, value) in vars.iter().zip(row) {
            self.env.insert(*v, value.clone());
        }
    }

    fn holds(&self, ir: &Ir, cond: &Condition) -> bool {
        match cond {
            Condition::Compare { op, left, right } => {
                let (a, b) = (self.operand(ir, left), self.operand(ir, right));
                match op {
                    CompareOp::Eq => a == b,
                    CompareOp::Neq => a != b,
                    CompareOp::Lt => compare(&a, &b) == Order::Less,
                    CompareOp::Le => compare(&a, &b) != Order::Greater,
                    CompareOp::Gt => compare(&a, &b) == Order::Greater,
                    CompareOp::Ge => compare(&a, &b) != Order::Less,
                }
            }
            Condition::Negation { relation, args } => {
                let row = self.operands(ir, args);
                !self.store.scan(ir.resolve_name(*relation)).unwrap_or_default().contains(&row)
            }
            Condition::Call { function, .. } => panic!("no predicate {}", ir.resolve_name(*function)),
        }
    }

    fn execute(&mut self, ir: &Ir, op: &Op) -> usize {
        match op {
            Op::Nop => 0,
            Op::Sequence(ops) => ops.iter().map(|op| self.execute(ir, op)).sum(),
            Op::Iterate { source, body } => {
                let (vars, rows) = self.rows(ir, source);
                let mut added = 0;
                for row in &rows {
                    self.bind(&vars, row);
                    added += self.execute(ir, body);
                }
                added
            }
            Op::Filter { cond, body } => {
                if self.holds(ir, cond) {
                    self.execute(ir, body)
                } else {
                    0
                }
            }
            Op::Insert { relation, args } => {
                let row = self.operands(ir, args);
                self.store.insert(ir.resolve_name(*relation), row).unwrap() as usize
            }
            Op::Let { var, expr, body } => {
                let value = match expr {
                    Expr::Value(o) => self.operand(ir, o),
                    Expr::Call { function, args } => call(ir.resolve_name(*function), &self.operands(ir, args)),
                };
                self.env.insert(*var, value);
                self.execute(ir, body)
            }
            Op::GroupBy { source, vars, keys, aggregates, body } => {
                let name = ir.resolve_name(*source);
                let mut rows = self.store.scan(name).unwrap_or_default();
                rows.extend(self.store.scan_next_delta(name).unwrap());
                let mut groups: Vec<(Vec<Value>, Vec<Vec<Value>>)> = Vec::new();
                for row in rows {
                    self.bind(vars, &row);
                    let key: Vec<Value> = keys.iter().map(|k| self.env[k].clone()).collect();
                    match groups.iter_mut().find(|g| g.0 == key) {
                        Some(group) => group.1.push(row),
                        None => groups.push((key, vec![row])),
                    }
                }
                let mut added = 0;
                for (key, rows) in &groups {
                    self.bind(keys, key);
                    for aggregate in aggregates {
                        let mut values = Vec::new();
                        for row in rows {
                            self.bind(vars, row);
                            values.push(self.operands(ir, &aggregate.args));
                        }
                        let result = match ir.resolve_name(aggregate.func) {
                            "fn:count" => rows.len() as i64,
                            "fn:sum" => values.iter().map(|v| number(&v[0])).sum(),
                            "fn:max" => values.iter().map(|v| number(&v[0])).max().unwrap(),
                            "fn:min" => values.iter().map(|v| number(&v[0])).min().unwrap(),
                            other => panic!("no aggregate {}", other),
                        };
                        self.env.insert(aggregate.var, Value::Number(result));
                    }
                    self.bind(keys, key);
                    added += self.execute(ir, body);
                }
                added
            }
            Op::HashJoin { build_source, probe_source, join_keys, body } => {
                let (build_vars, build) = self.rows(ir, build_source);
                let (probe_vars, probe) = self.rows(ir, probe_source);
                let mut added = 0;
                for one in &probe {
                    for other in &build {
                        self.bind(&build_vars, other);
                        let key: Vec<Value> = join_keys.iter().map(|k| self.env[k].clone()).collect();
                        self.bind(&probe_vars, one);
                        if join_keys.iter().zip(&key).all(|(k, v)| self.env[k] == *v) {
                            self.bind(&build_vars, other);
                            self.bind(&probe_vars, one);
                            added += self.execute(ir, body);
                        }
                    }
                }
                added
            }
        }
    }
}

/// The derived relations of a program in the order in which they can be computed: together if
/// they depend on each other.
fn stratify(ir: &Ir) -> Vec<Vec<String>> {
    let derived = derived_relations(ir);
    let mut reads: HashSet<(String, String)> = HashSet::new();
    for i in 0..ir.len() {
        if let Inst::Rule { head, premises, .. } = ir.get(InstId::new(i)) {
            for premise in premises {
                let atom = match ir.get(*premise) {
                    Inst::NegAtom(inner) => *inner,
                    _ => *premise,
                };
                if let (Inst::Atom { predicate: p, .. }, Inst::Atom { predicate: q, .. }) =
                    (ir.get(*head), ir.get(atom))
                {
                    reads.insert((ir.resolve_name(*p).to_string(), ir.resolve_name(*q).to_string()));
                }
            }
        }
    }
    loop {
        let mut more = HashSet::new();
        for (a, b) in &reads {
            for (c, d) in &reads {
                if b == c && !reads.contains(&(a.clone(), d.clone())) {
                    more.insert((a.clone(), d.clone()));
                }
            }
        }
        if more.is_empty() {
            break;
        }
        reads.extend(more);
    }
    let mut strata: Vec<Vec<String>> = Vec::new();
    let mut left = derived;
    while !left.is_empty() {
        let ready = left
            .iter()
            .position(|p| {
                left.iter().all(|q| {
                    !reads.contains(&(p.clone(), q.clone())) || reads.contains(&(q.clone(), p.clone()))
                })
            })
            .unwrap();
        let first = left[ready].clone();
        let (stratum, rest): (Vec<String>, Vec<String>) = left.into_iter().partition(|q| {
            *q == first
                || (reads.contains(&(first.clone(), q.clone())) && reads.contains(&(q.clone(), first.clone())))
        });
        strata.push(stratum);
        left = rest;
    }
    strata
}

/// Runs a program over a store to its end.
fn run_on(ir: &mut Ir, hash_join: bool, store: DiskStore<MemTables>) -> DiskStore<MemTables> {
    let strata = stratify(ir);
    let given = extensional_relations(ir);
    let mut machine = Machine { store, env: HashMap::new() };
    for name in strata.iter().flatten() {
        machine.store.create_relation(name);
    }
    let mut execution = Execution::new(ir, hash_join, given, &strata).unwrap();
    loop {
        let added = match execution.step() {
            Step::Create(name) => {
                machine.store.create_relation(name);
                0
            }
            Step::Execute(op) => machine.execute(ir, op),
            Step::Merge => {
                machine.store.merge_deltas();
                0
            }
            Step::Coalesce(_) => 0,
            Step::Finished => return machine.store,
        };
        execution.advance(added);
    }
}


/// Base facts of a relation.
struct TestSource {
    relation: String,
    facts: Vec<Vec<Value>>,
    fingerprint: Option<Vec<u8>>,
}

impl EdbSource for TestSource {
    fn name(&self) -> String {
        "test_source".to_string()
    }

    fn relations(&self) -> Result<Vec<RelationInfo>, SourceError> {
        Ok(vec![RelationInfo { name: self.relation.clone(), estimated_rows: self.facts.len() }])
    }

    fn scan(&self, relation: &str) -> Result<Vec<Vec<Value>>, SourceError> {
        if relation == self.relation {
            Ok(self.facts.clone())
        } else {
            Ok(vec![])
        }
    }

    fn fingerprint(&self) -> Result<Option<Fingerprint>, SourceError> {
        Ok(self.fingerprint.clone().map(Fingerprint))
    }
}

/// A source that cannot be read.
struct Broken;

impl EdbSource for Broken {
    fn name(&self) -> String {
        "broken".to_string()
    }

    fn relations(&self) -> Result<Vec<RelationInfo>, SourceError> {
        Err(SourceError { message: "no relations".to_string() })
    }

    fn scan(&self, _relation: &str) -> Result<Vec<Vec<Value>>, SourceError> {
        Err(SourceError { message: "no rows".to_string() })
    }

    fn fingerprint(&self) -> Result<Option<Fingerprint>, SourceError> {
        Err(SourceError { message: "no fingerprint".to_string() })
    }
}

type Memory = DiskStore<MemTables>;

fn empty() -> Memory {
    DiskStore::open(MemTables::new()).unwrap()
}

/// What is kept, by the paths of a backend.
type Cache = HashMap<String, (CacheMeta, IdbSnapshot)>;

/// A database in memory.
struct Database {
    program: String,
    sources: Vec<TestSource>,
    state: DatabaseState<Memory>,
    from_cache: bool,
}

/// Compiles and executes a program, and moves the results into the store.
fn full_recompute(program: &str, store: &mut Memory) -> Result<(Vec<String>, Vec<String>), String> {
    let mut ir = Reader::new(program).read();
    match validate_program(&mut ir) {
        Ok(()) => {}
        Err(ProgramError::Arity(e)) => return Err(e.message(&ir)),
        Err(ProgramError::Bounds(e)) => return Err(format!("{:?}", e)),
    }
    let edb = extensional_relations(&ir);
    let idb = derived_relations(&ir);
    let mut given = empty();
    copy_relations(store, &edb, &mut given).map_err(|e| e.message())?;
    let computed = run_on(&mut ir, false, given);
    copy_relations(&computed, &idb, store).map_err(|e| e.message())?;
    Ok((edb, idb))
}

impl Database {
    fn open_cached(
        program: &str,
        sources: Vec<TestSource>,
        cache: &mut IdbMode<(FileIdbBackend, Cache)>,
    ) -> Result<Database, String> {
        let program_hash = compute_program_hash(program);
        let edb_fingerprint = compute_edb_fingerprint(&sources).map_err(|e| e.message)?;
        let mut store = empty();
        load_edb_into_store(&sources, &mut store).map_err(|e| format!("{:?}", e))?;
        let mut from_cache = false;
        if let IdbMode::Cached((backend, kept)) = cache {
            if let Some((meta, snapshot)) = kept.get(&backend.meta_path("cached_test")) {
                if cache_is_valid(meta, &program_hash, &edb_fingerprint) {
                    load_facts(&mut store, &snapshot.relations).map_err(|e| e.message())?;
                    from_cache = true;
                }
            }
        }
        let (edb_relations, idb_relations) = if from_cache {
            let ir = Reader::new(program).read();
            (extensional_relations(&ir), derived_relations(&ir))
        } else {
            full_recompute(program, &mut store)?
        };
        if let IdbMode::Cached((backend, kept)) = cache {
            if let Some(meta) = cache_meta(&program_hash, &edb_fingerprint, 1234567890) {
                let snapshot = extract_idb_snapshot(&store, &idb_relations);
                kept.insert(backend.meta_path("cached_test"), (meta, snapshot));
            }
        }
        let state = DatabaseState { store, edb_relations, idb_relations, edb_fingerprint, program_hash };
        Ok(Database { program: program.to_string(), sources, state, from_cache })
    }

    fn open(program: &str, sources: Vec<TestSource>) -> Result<Database, String> {
        Database::open_cached(program, sources, &mut IdbMode::InMemory)
    }

    fn query(&self, relation: &str) -> Vec<Vec<Value>> {
        self.state.query(relation).unwrap()
    }

    fn recompute(&mut self) {
        self.state.clear_derived();
        let (_, idb) = full_recompute(&self.program, &mut self.state.store).unwrap();
        self.state.idb_relations = idb;
    }

    fn insert(&mut self, relation: &str, tuple: Vec<Value>) {
        if self.state.insert(relation, tuple).unwrap() {
            self.recompute();
        }
    }

    fn retract(&mut self, relation: &str, tuple: &Vec<Value>) {
        if self.state.retract(relation, tuple).unwrap() {
            self.recompute();
        }
    }

    fn reload(&mut self) {
        self.state.clear_all();
        load_edb_into_store(&self.sources, &mut self.state.store).unwrap();
        let (edb, idb) = full_recompute(&self.program, &mut self.state.store).unwrap();
        self.state.edb_relations = edb;
        self.state.idb_relations = idb;
    }
}

#[test]
fn test_database_basic() {
    let db = Database::open(
        r#"
            p(1). p(2).
            q(X) :- p(X).
        "#,
        vec![],
    )
    .unwrap();

    let facts = db.query("q");
    let mut values: Vec<i64> = facts
        .iter()
        .map(|t| match t[0] {
            Value::Number(n) => n,
            _ => panic!("expected number"),
        })
        .collect();
    values.sort();
    assert_eq!(values, vec![1, 2]);
}

#[test]
fn test_database_reachability() {
    let db = Database::open(
        r#"
            edge(1, 2). edge(2, 3). edge(3, 4).
            reachable(X, Y) :- edge(X, Y).
            reachable(X, Z) :- reachable(X, Y), edge(Y, Z).
        "#,
        vec![],
    )
    .unwrap();

    let facts = db.query("reachable");
    assert_eq!(facts.len(), 6); // (1,2),(1,3),(1,4),(2,3),(2,4),(3,4)
}

#[test]
fn test_database_insert_recompute() {
    let mut db = Database::open(
        r#"
            q(X) :- p(X).
        "#,
        vec![],
    )
    .unwrap();

    // Initially q is empty (p has no facts from source, but we can insert)
    let facts = db.query("q");
    assert!(facts.is_empty());

    // Insert into EDB relation p
    db.insert("p", vec![Value::Number(42)]);

    // q should now contain 42
    let facts = db.query("q");
    assert_eq!(facts.len(), 1);
    assert_eq!(facts[0], vec![Value::Number(42)]);
}

#[test]
fn test_database_with_edb_source() {
    let source = TestSource {
        relation: "edge".to_string(),
        facts: vec![
            vec![Value::Number(1), Value::Number(2)],
            vec![Value::Number(2), Value::Number(3)],
            vec![Value::Number(3), Value::Number(4)],
        ],
        fingerprint: Some(vec![1, 2, 3]),
    };

    let db = Database::open(
        r#"
            reachable(X, Y) :- edge(X, Y).
            reachable(X, Z) :- reachable(X, Y), edge(Y, Z).
        "#,
        vec![source],
    )
    .unwrap();

    let facts = db.query("reachable");
    assert_eq!(facts.len(), 6);

    // Check edge facts are accessible too
    let edges = db.query("edge");
    assert_eq!(edges.len(), 3);
}

#[test]
fn test_database_with_file_idb_cache() {
    let program = r#"
            p(1). p(2). p(3).
            q(X) :- p(X).
        "#;
    let mut cache = IdbMode::Cached((FileIdbBackend::new("/cache".to_string()), HashMap::new()));

    // First open: computes and caches
    let db1 = Database::open_cached(program, vec![], &mut cache).unwrap();
    let facts1 = db1.query("q");
    assert_eq!(facts1.len(), 3);
    assert!(!db1.from_cache);
    drop(db1);

    match &cache {
        IdbMode::Cached((backend, kept)) => {
            assert!(kept.contains_key("/cache/cached_test.meta.json"));
            assert_eq!(backend.idb_path("cached_test"), "/cache/cached_test.idb.mgr");
        }
        IdbMode::InMemory => unreachable!(),
    }

    // Second open: should load from cache
    let db2 = Database::open_cached(program, vec![], &mut cache).unwrap();
    let facts2 = db2.query("q");
    assert_eq!(facts2.len(), 3);
    assert!(db2.from_cache);

    // Another program is computed anew.
    let db3 = Database::open_cached("p(1). q(X) :- p(X).", vec![], &mut cache).unwrap();
    assert!(!db3.from_cache);
    assert_eq!(db3.query("q").len(), 1);
}

#[test]
fn test_database_retract_recompute() {
    // Use an EDB source so that retracted facts don't come back from source text
    let source = TestSource {
        relation: "edge".to_string(),
        facts: vec![
            vec![Value::Number(1), Value::Number(2)],
            vec![Value::Number(2), Value::Number(3)],
        ],
        fingerprint: None, // Always recompute
    };

    let mut db = Database::open(
        r#"
            reachable(X, Y) :- edge(X, Y).
            reachable(X, Z) :- reachable(X, Y), edge(Y, Z).
        "#,
        vec![source],
    )
    .unwrap();

    // Initially: reachable(1,2), reachable(2,3), reachable(1,3)
    let facts = db.query("reachable");
    assert_eq!(facts.len(), 3);

    // Retract edge(2,3) from the store
    db.retract("edge", &vec![Value::Number(2), Value::Number(3)]);

    // After retract + recompute, only edge(1,2) remains
    let facts = db.query("reachable");
    assert_eq!(facts.len(), 1);
    assert_eq!(facts[0], vec![Value::Number(1), Value::Number(2)]);
}

#[test]
fn test_database_reload() {
    let mut db = Database::open(
        r#"
            p(1). p(2).
            q(X) :- p(X).
        "#,
        vec![],
    )
    .unwrap();

    let facts = db.query("q");
    assert_eq!(facts.len(), 2);

    // Reload should re-derive the same results
    db.reload();
    let facts = db.query("q");
    assert_eq!(facts.len(), 2);
}

#[test]
fn test_database_relation_names() {
    let db = Database::open(
        r#"
            edge(1, 2).
            reachable(X, Y) :- edge(X, Y).
        "#,
        vec![],
    )
    .unwrap();

    let mut names = db.state.store.relation_names();
    names.sort();
    assert!(names.contains(&"edge".to_string()));
    assert!(names.contains(&"reachable".to_string()));
}

#[test]
fn test_database_empty_sources() {
    let db = Database::open(
        r#"
            q(X) :- p(X).
        "#,
        vec![],
    )
    .unwrap();

    let facts = db.query("q");
    assert!(facts.is_empty());
}

#[test]
fn test_database_arity_mismatch_error() {
    // Opening a database with inconsistent predicate arity should fail.
    let result = Database::open(
        r#"
            p(1).
            p(2, 3).
        "#,
        vec![],
    );
    assert!(result.is_err(), "expected arity error");
    let msg = result.err().unwrap();
    assert!(msg.contains("inconsistent arity"), "error should mention 'inconsistent arity': {}", msg);
}

#[test]
fn reloading_forgets_changes() {
    let source = TestSource {
        relation: "edge".to_string(),
        facts: vec![vec![Value::Number(1), Value::Number(2)]],
        fingerprint: None,
    };
    let mut db = Database::open("reachable(X, Y) :- edge(X, Y).", vec![source]).unwrap();
    db.insert("edge", vec![Value::Number(5), Value::Number(6)]);
    assert_eq!(db.query("reachable").len(), 2);
    db.reload();
    assert_eq!(db.query("reachable"), vec![vec![Value::Number(1), Value::Number(2)]]);
}

#[test]
fn retracting_what_was_inserted() {
    let mut db = Database::open("q(X) :- p(X).", vec![]).unwrap();
    db.insert("p", vec![Value::Number(1)]);
    db.insert("p", vec![Value::Number(2)]);
    db.retract("p", &vec![Value::Number(2)]);
    assert_eq!(db.query("p"), vec![vec![Value::Number(1)]]);
    assert_eq!(db.query("q"), vec![vec![Value::Number(1)]]);
    // A relation that no rule reads changes nothing that is derived.
    assert!(!db.state.insert("other", vec![Value::Number(3)]).unwrap());
    assert_eq!(db.query("other").len(), 1);
}

#[test]
fn hashes_of_programs() {
    let hash = compute_program_hash("abc");
    let hex: String = hash.iter().map(|b| format!("{:02x}", b)).collect();
    assert_eq!(hex, "ba7816bf8f01cfea414140de5dae2223b00361a396177a9cb410ff61f20015ad");
    assert_ne!(compute_program_hash("abd"), hash);
}

#[test]
fn fingerprints_of_sources() {
    let mark = |bytes: &[u8]| Some(Fingerprint(bytes.to_vec()));
    // The marks are hashed one after another.
    assert_eq!(combine_fingerprints(&vec![mark(b"a"), mark(b"bc")]).unwrap().0, compute_program_hash("abc"));
    assert_eq!(combine_fingerprints(&vec![mark(b"a"), None]), None);
    let source = |fingerprint: Option<Vec<u8>>| TestSource { relation: "r".to_string(), facts: vec![], fingerprint };
    let marked = compute_edb_fingerprint(&vec![source(Some(b"ab".to_vec())), source(Some(b"c".to_vec()))]).unwrap();
    assert_eq!(marked.unwrap().0, compute_program_hash("abc"));
    assert_eq!(compute_edb_fingerprint(&vec![source(Some(vec![1])), source(None)]).unwrap(), None);
    assert_eq!(compute_edb_fingerprint(&vec![Broken]).unwrap_err().message, "no fingerprint");
}

#[test]
fn when_what_was_kept_is_valid() {
    let hash = vec![1, 2];
    let mark = Some(Fingerprint(vec![3]));
    let meta = cache_meta(&hash, &mark, 7).unwrap();
    assert_eq!(meta, CacheMeta { program_hash: vec![1, 2], edb_fingerprint: vec![3], created_at: 7 });
    assert!(cache_is_valid(&meta, &hash, &mark));
    assert!(!cache_is_valid(&meta, &vec![1], &mark));
    assert!(!cache_is_valid(&meta, &hash, &Some(Fingerprint(vec![4]))));
    assert!(!cache_is_valid(&meta, &hash, &None));
    assert!(cache_meta(&hash, &None, 7).is_none());
}

#[test]
fn snapshots_restore_relations() {
    let mut store = empty();
    for relation in ["a", "b", "c"] {
        store.create_relation(relation);
    }
    insert_rows(&mut store, "a", &vec![vec![Value::Number(1)], vec![Value::Number(2)], vec![Value::Number(1)]]).unwrap();
    insert_rows(&mut store, "c", &vec![vec![Value::Null]]).unwrap();
    store.merge_deltas();
    let names = vec!["a".to_string(), "b".to_string(), "nowhere".to_string()];
    let snapshot = extract_idb_snapshot(&store, &names);
    assert_eq!(snapshot.relations.len(), 1);
    let mut other = empty();
    load_facts(&mut other, &snapshot.relations).unwrap();
    assert_eq!(other.scan("a").unwrap(), store.scan("a").unwrap());
    assert_eq!(other.scan("a").unwrap().len(), 2);
    assert!(other.scan("c").is_err());
}

#[test]
fn sources_that_cannot_be_read() {
    let e = load_edb_into_store(&vec![Broken], &mut empty()).unwrap_err();
    assert!(matches!(e, LoadError::Source(_)));
}

#[test]
fn paths_of_what_is_kept() {
    let backend = FileIdbBackend::new("dir".to_string());
    assert_eq!(backend.meta_path("test"), "dir/test.meta.json");
    assert_eq!(backend.idb_path("test"), "dir/test.idb.mgr");
    assert_eq!(FileIdbBackend::new("dir/".to_string()).meta_path("test"), "dir/test.meta.json");
    assert_eq!(FileIdbBackend::new("".to_string()).meta_path("test"), "test.meta.json");
}

#[test]
fn settings_of_databases() {
    assert_ne!(RecomputeStrategy::Full, RecomputeStrategy::Incremental);
    assert_ne!(StoreBackend::InMemory, StoreBackend::Disk("file".to_string()));
}

/// Tables that take so many changes and no more.
struct Limited {
    tables: MemTables,
    left: usize,
}

impl Tables for Limited {
    // What the tables hold is only spoken of in contracts.
    fn contents(&self) -> Db {
        unreachable!()
    }

    fn wf(&self) -> bool {
        true
    }

    fn reliable(&self) -> bool {
        false
    }

    fn version(&self) -> Result<Option<u64>, StoreError> {
        self.tables.version()
    }

    fn meta(&self) -> Result<Vec<(String, u64)>, StoreError> {
        self.tables.meta()
    }

    fn rows(&self, table: &str) -> Result<Vec<(u64, Vec<u8>)>, StoreError> {
        self.tables.rows(table)
    }

    fn row(&self, table: &str, id: u64) -> Result<Option<Vec<u8>>, StoreError> {
        self.tables.row(table, id)
    }

    fn entries(&self, table: &str, key: &Vec<u8>) -> Result<Vec<u64>, StoreError> {
        self.tables.entries(table, key)
    }

    fn entry_tables(&self) -> Result<Vec<String>, StoreError> {
        self.tables.entry_tables()
    }

    fn commit(&mut self, writes: &Vec<Write>) -> Result<(), StoreError> {
        if self.left == 0 {
            return Err(StoreError::Tables("full".to_string()));
        }
        self.left -= 1;
        self.tables.commit(writes)
    }
}

#[test]
fn copying_stops_where_there_is_no_room() {
    let mut from = empty();
    let names: Vec<String> = ["a", "b", "c"].iter().map(|s| s.to_string()).collect();
    for name in &names {
        from.create_relation(name);
        insert_rows(&mut from, name, &vec![vec![Value::Number(1)], vec![Value::Number(2)]]).unwrap();
    }
    from.merge_deltas();
    // With room everything is copied; the number of changes that it takes is counted.
    let mut whole = DiskStore::open(Limited { tables: MemTables::new(), left: 1000 }).unwrap();
    copy_relations(&from, &names, &mut whole).unwrap();
    for name in &names {
        assert_eq!(whole.scan(name).unwrap(), from.scan(name).unwrap());
    }
    // Without, copying stops, and what is there are rows of the first relations.
    let mut failed = 0;
    for left in 1..9 {
        let mut to = DiskStore::open(Limited { tables: MemTables::new(), left }).unwrap();
        if copy_relations(&from, &names, &mut to).is_err() {
            failed += 1;
            for name in &names {
                let rows = to.scan_next_delta(name).unwrap();
                assert!(rows.iter().all(|row| from.scan(name).unwrap().contains(row)));
            }
            assert!(to.scan_next_delta("c").unwrap().len() < 2);
        }
    }
    assert!(failed > 0);
    assert!(copy_relations(&from, &vec![], &mut whole).is_ok());
}

#[test]
fn a_merge_that_fails_loses_nothing() {
    for left in 3..12 {
        let mut store = DiskStore::open(Limited { tables: MemTables::new(), left }).unwrap();
        store.create_relation("r");
        let mut written = Vec::new();
        for n in 0..4 {
            let row = vec![Value::Number(n)];
            if store.insert("r", row.clone()).unwrap_or(false) {
                written.push(row);
            }
            store.merge_deltas();
        }
        let mut found = store.scan("r").unwrap();
        found.extend(store.scan_next_delta("r").unwrap());
        // A row may be in two tiers where a merge stopped between them.
        assert!(written.iter().all(|row| found.contains(row)));
        assert!(found.iter().all(|row| written.contains(row)));
    }
}
