//! The flat, indexed intermediate representation of a program.
//!
//! An [`Ir`] is an arena of instructions that refer to one another by index,
//! together with the stores of interned names and strings. Its mathematical
//! model is a [`Graph`]: a sequence of nodes and the sequences of names and
//! strings that the nodes refer to.
use vstd::prelude::*;

use crate::text::str_eq;

verus! {

/// An interned name.
#[derive(Clone, Copy, PartialEq, Eq, Structural, PartialOrd, Ord, Hash, Debug)]
pub struct NameId(pub usize);

/// An interned string.
#[derive(Clone, Copy, PartialEq, Eq, Structural, PartialOrd, Ord, Hash, Debug)]
pub struct StringId(pub usize);

/// The index of an instruction.
#[derive(Clone, Copy, PartialEq, Eq, Structural, PartialOrd, Ord, Hash, Debug)]
pub struct InstId(pub usize);

impl InstId {
    /// The instruction at `index`.
    pub fn new(index: usize) -> (id: InstId)
        ensures
            id == InstId(index),
    {
        InstId(index)
    }

    /// Where the instruction stands.
    pub fn index(self) -> (index: usize)
        ensures
            index == self.0,
    {
        self.0
    }
}

/// A logical instruction. A floating-point constant is held by its bits.
#[derive(Clone, Debug)]
pub enum Inst {
    Name(NameId),
    Number(i64),
    Float(u64),
    String(StringId),
    Bool(bool),
    Bytes(Vec<u8>),
    Time(i64),
    Duration(i64),
    Var(NameId),
    ApplyFn { function: NameId, args: Vec<InstId> },
    List(Vec<InstId>),
    Dict { keys: Vec<InstId>, values: Vec<InstId> },
    Struct { fields: Vec<NameId>, values: Vec<InstId> },
    Atom { predicate: NameId, args: Vec<InstId> },
    NegAtom(InstId),
    Eq(InstId, InstId),
    Ineq(InstId, InstId),
    Transform { var: Option<NameId>, app: InstId },
    Rule { head: InstId, premises: Vec<InstId>, transform: Vec<InstId> },
    BoundDecl { base_terms: Vec<InstId> },
    Decl { atom: InstId, bounds: Vec<InstId> },
}

/// The model of an instruction.
pub enum Node {
    Name(NameId),
    Number(i64),
    Float(u64),
    String(StringId),
    Bool(bool),
    Bytes(Seq<u8>),
    Time(i64),
    Duration(i64),
    Var(NameId),
    ApplyFn { function: NameId, args: Seq<InstId> },
    List(Seq<InstId>),
    Dict { keys: Seq<InstId>, values: Seq<InstId> },
    Struct { fields: Seq<NameId>, values: Seq<InstId> },
    Atom { predicate: NameId, args: Seq<InstId> },
    NegAtom(InstId),
    Eq(InstId, InstId),
    Ineq(InstId, InstId),
    Transform { var: Option<NameId>, app: InstId },
    Rule { head: InstId, premises: Seq<InstId>, transform: Seq<InstId> },
    BoundDecl { base_terms: Seq<InstId> },
    Decl { atom: InstId, bounds: Seq<InstId> },
}

impl View for Inst {
    type V = Node;

    open spec fn view(&self) -> Node {
        match self {
            Inst::Name(n) => Node::Name(*n),
            Inst::Number(n) => Node::Number(*n),
            Inst::Float(b) => Node::Float(*b),
            Inst::String(s) => Node::String(*s),
            Inst::Bool(b) => Node::Bool(*b),
            Inst::Bytes(b) => Node::Bytes(b@),
            Inst::Time(t) => Node::Time(*t),
            Inst::Duration(d) => Node::Duration(*d),
            Inst::Var(v) => Node::Var(*v),
            Inst::ApplyFn { function, args } => Node::ApplyFn { function: *function, args: args@ },
            Inst::List(items) => Node::List(items@),
            Inst::Dict { keys, values } => Node::Dict { keys: keys@, values: values@ },
            Inst::Struct { fields, values } => Node::Struct { fields: fields@, values: values@ },
            Inst::Atom { predicate, args } => Node::Atom { predicate: *predicate, args: args@ },
            Inst::NegAtom(a) => Node::NegAtom(*a),
            Inst::Eq(l, r) => Node::Eq(*l, *r),
            Inst::Ineq(l, r) => Node::Ineq(*l, *r),
            Inst::Transform { var, app } => Node::Transform { var: *var, app: *app },
            Inst::Rule { head, premises, transform } => Node::Rule {
                head: *head,
                premises: premises@,
                transform: transform@,
            },
            Inst::BoundDecl { base_terms } => Node::BoundDecl { base_terms: base_terms@ },
            Inst::Decl { atom, bounds } => Node::Decl { atom: *atom, bounds: bounds@ },
        }
    }
}

/// Every id of `ids` stands below `limit`.
pub open spec fn ids_below(ids: Seq<InstId>, limit: nat) -> bool {
    forall|i: int| 0 <= i < ids.len() ==> (#[trigger] ids[i]).0 < limit
}

/// Every name of `ids` stands below `limit`.
pub open spec fn names_below(ids: Seq<NameId>, limit: nat) -> bool {
    forall|i: int| 0 <= i < ids.len() ==> (#[trigger] ids[i]).0 < limit
}

impl Node {
    /// The node may stand at position `at` of a graph with that many names and
    /// strings: what it refers to stands before it.
    pub open spec fn fits(self, at: nat, names: nat, strings: nat) -> bool {
        match self {
            Node::Name(n) => n.0 < names,
            Node::String(s) => s.0 < strings,
            Node::Var(v) => v.0 < names,
            Node::ApplyFn { function, args } => function.0 < names && ids_below(args, at),
            Node::List(items) => ids_below(items, at),
            Node::Dict { keys, values } => ids_below(keys, at) && ids_below(values, at),
            Node::Struct { fields, values } => names_below(fields, names) && ids_below(values, at)
                && fields.len() == values.len(),
            Node::Atom { predicate, args } => predicate.0 < names && ids_below(args, at),
            Node::NegAtom(a) => a.0 < at,
            Node::Eq(l, r) => l.0 < at && r.0 < at,
            Node::Ineq(l, r) => l.0 < at && r.0 < at,
            Node::Transform { var, app } => app.0 < at && (var matches Some(v) ==> v.0 < names),
            Node::Rule { head, premises, transform } => head.0 < at && ids_below(premises, at)
                && ids_below(transform, at),
            Node::BoundDecl { base_terms } => ids_below(base_terms, at),
            Node::Decl { atom, bounds } => atom.0 < at && ids_below(bounds, at),
            _ => true,
        }
    }
}

/// The model of an [`Ir`].
pub struct Graph {
    pub nodes: Seq<Node>,
    pub names: Seq<Seq<char>>,
    pub strings: Seq<Seq<char>>,
    pub temporal: Set<NameId>,
}

impl Graph {
    /// `id` is the index of a node.
    pub open spec fn has(self, id: InstId) -> bool {
        id.0 < self.nodes.len()
    }

    /// `n` is an interned name.
    pub open spec fn has_name(self, n: NameId) -> bool {
        n.0 < self.names.len()
    }

    /// The node at `id`.
    pub open spec fn node(self, id: InstId) -> Node {
        self.nodes[id.0 as int]
    }

    /// The text of the name `n`.
    pub open spec fn name(self, n: NameId) -> Seq<char> {
        self.names[n.0 as int]
    }

    /// The text of the string `s`.
    pub open spec fn string(self, s: StringId) -> Seq<char> {
        self.strings[s.0 as int]
    }

    /// Every node refers to nodes before it, to names and to strings that are
    /// there; no name and no string is interned twice.
    pub open spec fn wf(self) -> bool {
        &&& forall|i: int|
            0 <= i < self.nodes.len() ==> (#[trigger] self.nodes[i]).fits(
                i as nat,
                self.names.len(),
                self.strings.len(),
            )
        &&& self.names.no_duplicates()
        &&& self.strings.no_duplicates()
        &&& self.nodes.len() <= usize::MAX
        &&& self.names.len() <= usize::MAX
        &&& self.strings.len() <= usize::MAX
    }

    /// `later` holds what this graph holds, in the same places.
    pub open spec fn extended_by(self, later: Graph) -> bool {
        &&& self.nodes.is_prefix_of(later.nodes)
        &&& self.names.is_prefix_of(later.names)
        &&& self.strings.is_prefix_of(later.strings)
        &&& self.temporal == later.temporal
    }

    /// The id of `text` once it is interned.
    pub open spec fn name_id(self, text: Seq<char>) -> NameId {
        if self.names.contains(text) {
            NameId(self.names.index_of(text) as usize)
        } else {
            NameId(self.names.len() as usize)
        }
    }

    /// The graph once `text` is interned as a name.
    pub open spec fn with_name(self, text: Seq<char>) -> Graph {
        if self.names.contains(text) {
            self
        } else {
            Graph { names: self.names.push(text), ..self }
        }
    }

    /// The id of `text` once it is interned as a string.
    pub open spec fn string_id(self, text: Seq<char>) -> StringId {
        if self.strings.contains(text) {
            StringId(self.strings.index_of(text) as usize)
        } else {
            StringId(self.strings.len() as usize)
        }
    }

    /// The graph once `text` is interned as a string.
    pub open spec fn with_string(self, text: Seq<char>) -> Graph {
        if self.strings.contains(text) {
            self
        } else {
            Graph { strings: self.strings.push(text), ..self }
        }
    }

    /// The id of the next node.
    pub open spec fn next(self) -> InstId {
        InstId(self.nodes.len() as usize)
    }

    /// The graph with one more node.
    pub open spec fn with_node(self, node: Node) -> Graph {
        Graph { nodes: self.nodes.push(node), ..self }
    }

    /// The node may be added next.
    pub open spec fn admits(self, node: Node) -> bool {
        node.fits(self.nodes.len(), self.names.len(), self.strings.len())
    }
}

/// More names and strings do not make a node invalid.
proof fn lemma_fits_grows(node: Node, at: nat, names: nat, strings: nat, more: nat, more_strings: nat)
    requires
        node.fits(at, names, strings),
        names <= more,
        strings <= more_strings,
    ensures
        node.fits(at, more, more_strings),
{
}

/// A graph stays valid when names and strings are added to it.
proof fn lemma_wf_grows(g: Graph, h: Graph)
    requires
        g.wf(),
        g.nodes == h.nodes,
        g.names.len() <= h.names.len() <= usize::MAX,
        g.strings.len() <= h.strings.len() <= usize::MAX,
        h.names.no_duplicates(),
        h.strings.no_duplicates(),
    ensures
        h.wf(),
{
    assert forall|i: int| 0 <= i < h.nodes.len() implies (#[trigger] h.nodes[i]).fits(
        i as nat,
        h.names.len(),
        h.strings.len(),
    ) by {
        lemma_fits_grows(
            g.nodes[i],
            i as nat,
            g.names.len(),
            g.strings.len(),
            h.names.len(),
            h.strings.len(),
        );
    }
}

/// The views of a list of texts.
pub open spec fn texts(v: Seq<String>) -> Seq<Seq<char>> {
    Seq::new(v.len(), |i: int| v[i]@)
}

/// The views of a list of instructions.
pub open spec fn nodes(v: Seq<Inst>) -> Seq<Node> {
    Seq::new(v.len(), |i: int| v[i]@)
}

/// The arena of a program.
pub struct Ir {
    insts: Vec<Inst>,
    name_store: Vec<String>,
    string_store: Vec<String>,
    temporal_predicates: Vec<NameId>,
}

impl View for Ir {
    type V = Graph;

    closed spec fn view(&self) -> Graph {
        Graph {
            nodes: nodes(self.insts@),
            names: texts(self.name_store@),
            strings: texts(self.string_store@),
            temporal: self.temporal_predicates@.to_set(),
        }
    }
}

/// Copies a list.
pub(crate) fn copy_items<T: Copy>(v: &Vec<T>) -> (r: Vec<T>)
    ensures
        r@ == v@,
{
    let mut r: Vec<T> = Vec::new();
    let mut i: usize = 0;
    while i < v.len()
        invariant
            i <= v@.len(),
            r@ == v@.take(i as int),
        decreases v@.len() - i,
    {
        r.push(v[i]);
        i += 1;
        assert(r@ =~= v@.take(i as int));
    }
    assert(r@ =~= v@);
    r
}

/// Finds the place of a text in a list.
fn find_text(list: &Vec<String>, text: &str) -> (r: Option<usize>)
    ensures
        match r {
            Some(i) => i < list.len() && list[i as int]@ == text@,
            None => forall|i: int| 0 <= i < list.len() ==> (#[trigger] list[i])@ != text@,
        },
{
    let mut i: usize = 0;
    while i < list.len()
        invariant
            i <= list.len(),
            forall|j: int| 0 <= j < i ==> (#[trigger] list[j])@ != text@,
        decreases list.len() - i,
    {
        if str_eq(list[i].as_str(), text) {
            return Some(i);
        }
        i += 1;
    }
    None
}

impl Ir {
    /// The empty arena.
    pub fn new() -> (ir: Ir)
        ensures
            ir@.wf(),
            ir@.nodes.len() == 0,
            ir@.names.len() == 0,
            ir@.strings.len() == 0,
            ir@.temporal == Set::<NameId>::empty(),
    {
        let ir = Ir {
            insts: Vec::new(),
            name_store: Vec::new(),
            string_store: Vec::new(),
            temporal_predicates: Vec::new(),
        };
        assert(ir@.temporal =~= Set::<NameId>::empty());
        ir
    }

    /// The number of instructions.
    pub fn len(&self) -> (n: usize)
        ensures
            n == self@.nodes.len(),
    {
        self.insts.len()
    }

    /// The number of interned names.
    pub fn num_names(&self) -> (n: usize)
        ensures
            n == self@.names.len(),
    {
        self.name_store.len()
    }

    /// The number of interned strings.
    pub fn num_strings(&self) -> (n: usize)
        ensures
            n == self@.strings.len(),
    {
        self.string_store.len()
    }

    /// The instruction at `id`.
    pub fn get(&self, id: InstId) -> (inst: &Inst)
        requires
            self@.has(id),
        ensures
            inst@ == self@.node(id),
    {
        &self.insts[id.0]
    }

    /// A copy of the instruction at `id`.
    pub fn copy_inst(&self, id: InstId) -> (inst: Inst)
        requires
            self@.has(id),
        ensures
            inst@ == self@.node(id),
    {
        match self.get(id) {
            Inst::Name(n) => Inst::Name(*n),
            Inst::Number(n) => Inst::Number(*n),
            Inst::Float(b) => Inst::Float(*b),
            Inst::String(s) => Inst::String(*s),
            Inst::Bool(b) => Inst::Bool(*b),
            Inst::Bytes(b) => Inst::Bytes(copy_items(b)),
            Inst::Time(t) => Inst::Time(*t),
            Inst::Duration(d) => Inst::Duration(*d),
            Inst::Var(v) => Inst::Var(*v),
            Inst::ApplyFn { function, args } => Inst::ApplyFn {
                function: *function,
                args: copy_items(args),
            },
            Inst::List(items) => Inst::List(copy_items(items)),
            Inst::Dict { keys, values } => Inst::Dict {
                keys: copy_items(keys),
                values: copy_items(values),
            },
            Inst::Struct { fields, values } => Inst::Struct {
                fields: copy_items(fields),
                values: copy_items(values),
            },
            Inst::Atom { predicate, args } => Inst::Atom {
                predicate: *predicate,
                args: copy_items(args),
            },
            Inst::NegAtom(a) => Inst::NegAtom(*a),
            Inst::Eq(l, r) => Inst::Eq(*l, *r),
            Inst::Ineq(l, r) => Inst::Ineq(*l, *r),
            Inst::Transform { var, app } => Inst::Transform { var: *var, app: *app },
            Inst::Rule { head, premises, transform } => Inst::Rule {
                head: *head,
                premises: copy_items(premises),
                transform: copy_items(transform),
            },
            Inst::BoundDecl { base_terms } => Inst::BoundDecl { base_terms: copy_items(base_terms) },
            Inst::Decl { atom, bounds } => Inst::Decl { atom: *atom, bounds: copy_items(bounds) },
        }
    }

    /// The text of a name.
    pub fn resolve_name(&self, n: NameId) -> (text: &str)
        requires
            self@.has_name(n),
        ensures
            text@ == self@.name(n),
    {
        self.name_store[n.0].as_str()
    }

    /// The text of a string.
    pub fn resolve_string(&self, s: StringId) -> (text: &str)
        requires
            s.0 < self@.strings.len(),
        ensures
            text@ == self@.string(s),
    {
        self.string_store[s.0].as_str()
    }

    /// The id of a name, if it is interned.
    pub fn lookup_name(&self, text: &str) -> (r: Option<NameId>)
        requires
            self@.wf(),
        ensures
            match r {
                Some(n) => self@.names.contains(text@) && n == self@.name_id(text@),
                None => !self@.names.contains(text@),
            },
    {
        match find_text(&self.name_store, text) {
            Some(i) => {
                assert(self@.names[i as int] == text@);
                Some(NameId(i))
            },
            None => {
                assert(!self@.names.contains(text@)) by {
                    if self@.names.contains(text@) {
                        let j = self@.names.index_of(text@);
                        assert(self.name_store[j]@ == text@);
                    }
                }
                None
            },
        }
    }

    /// Interns a name.
    pub fn intern_name(&mut self, text: &str) -> (n: NameId)
        requires
            old(self)@.wf(),
        ensures
            final(self)@.wf(),
            final(self)@ == old(self)@.with_name(text@),
            n == old(self)@.name_id(text@),
            final(self)@.has_name(n),
            final(self)@.name(n) == text@,
            old(self)@.extended_by(final(self)@),
    {
        let ghost before = self@;
        match self.lookup_name(text) {
            Some(n) => n,
            None => {
                let n = NameId(self.name_store.len());
                self.name_store.push(text.to_owned());
                assert(self@.names =~= before.names.push(text@));
                assert(self@.nodes =~= before.nodes);
                assert(self@.strings =~= before.strings);
                assert(self@ == before.with_name(text@));
                assert(self.name_store.len() <= usize::MAX);
                proof {
                    lemma_wf_grows(before, self@);
                }
                n
            },
        }
    }

    /// Interns a string.
    pub fn intern_string(&mut self, text: &str) -> (s: StringId)
        requires
            old(self)@.wf(),
        ensures
            final(self)@.wf(),
            final(self)@ == old(self)@.with_string(text@),
            s == old(self)@.string_id(text@),
            s.0 < final(self)@.strings.len(),
            final(self)@.string(s) == text@,
            old(self)@.extended_by(final(self)@),
    {
        let ghost before = self@;
        match find_text(&self.string_store, text) {
            Some(i) => {
                assert(self@.strings[i as int] == text@);
                StringId(i)
            },
            None => {
                let s = StringId(self.string_store.len());
                assert(!before.strings.contains(text@)) by {
                    if before.strings.contains(text@) {
                        let j = before.strings.index_of(text@);
                        assert(self.string_store[j]@ == text@);
                    }
                }
                self.string_store.push(text.to_owned());
                assert(self@.strings =~= before.strings.push(text@));
                assert(self@.nodes =~= before.nodes);
                assert(self@.names =~= before.names);
                assert(self@ == before.with_string(text@));
                assert(self.string_store.len() <= usize::MAX);
                proof {
                    lemma_wf_grows(before, self@);
                }
                s
            },
        }
    }

    /// Appends an instruction.
    pub fn add_inst(&mut self, inst: Inst) -> (id: InstId)
        requires
            old(self)@.wf(),
            old(self)@.admits(inst@),
        ensures
            final(self)@.wf(),
            final(self)@ == old(self)@.with_node(inst@),
            id == old(self)@.next(),
            old(self)@.extended_by(final(self)@),
    {
        let ghost before = self@;
        let id = InstId(self.insts.len());
        self.insts.push(inst);
        assert(self@.nodes =~= before.nodes.push(inst@));
        assert(self@.names =~= before.names);
        assert(self@.strings =~= before.strings);
        assert(self@ == before.with_node(inst@));
        assert(self.insts.len() <= usize::MAX);
        id
    }

    /// Whether the facts of `predicate` carry an interval of validity.
    pub fn is_temporal(&self, predicate: NameId) -> (r: bool)
        ensures
            r == self@.temporal.contains(predicate),
    {
        let mut i: usize = 0;
        while i < self.temporal_predicates.len()
            invariant
                i <= self.temporal_predicates@.len(),
                forall|j: int| 0 <= j < i ==> self.temporal_predicates@[j] != predicate,
            decreases self.temporal_predicates@.len() - i,
        {
            if self.temporal_predicates[i] == predicate {
                assert(self.temporal_predicates@.contains(predicate));
                return true;
            }
            i += 1;
        }
        false
    }

    /// Records that the facts of `predicate` carry an interval of validity.
    pub fn mark_temporal(&mut self, predicate: NameId)
        requires
            old(self)@.wf(),
        ensures
            final(self)@.wf(),
            final(self)@ == (Graph { temporal: old(self)@.temporal.insert(predicate), ..old(self)@ }),
    {
        let ghost before = *self;
        self.temporal_predicates.push(predicate);
        assert(self@.nodes =~= before@.nodes);
        assert(self@.names =~= before@.names);
        assert(self@.strings =~= before@.strings);
        assert(self@.temporal =~= before@.temporal.insert(predicate)) by {
            let s = before.temporal_predicates@;
            assert forall|n: NameId| self@.temporal.contains(n) == (before@.temporal.contains(n) || n == predicate) by {
                if s.contains(n) {
                    let i = s.index_of(n);
                    assert(s.push(predicate)[i] == n);
                }
                assert(s.push(predicate)[s.len() as int] == predicate);
            }
        }
    }
}

} // verus!
