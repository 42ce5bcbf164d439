//! A trie over the hierarchy of name constants.
//!
//! It gives name constants (like `/animal/dog`) their most precise type by
//! longest-prefix matching, for the inference of types of name constants.
use vstd::prelude::*;

use crate::conform::parts;
use crate::ir::{Graph, Inst, InstId, Ir, Node};
use crate::text::str_eq;
use crate::type_expr::base_type;
use crate::type_expr::{is_base_type, FN_TAGGED_UNION};
use crate::type_ops::lemma_parts_below;

verus! {

/// A trie over the `/`-separated segments of name constants.
pub struct NameTrie {
    children: Vec<Edge>,
    is_terminal: bool,
}

/// A segment and what follows it.
pub struct Edge {
    label: String,
    node: NameTrie,
}

/// The segments of `s[i..]`, the first of which begins at `start`.
pub open spec fn segments_from(s: Seq<char>, start: int, i: int) -> Seq<Seq<char>>
    decreases s.len() - i,
{
    if i < 0 || i >= s.len() {
        if 0 <= start < s.len() {
            seq![s.subrange(start, s.len() as int)]
        } else {
            Seq::empty()
        }
    } else if s[i] == '/' {
        let rest = segments_from(s, i + 1, i + 1);
        if start < i {
            seq![s.subrange(start, i)] + rest
        } else {
            rest
        }
    } else {
        segments_from(s, start, i + 1)
    }
}

/// The non-empty segments between the slashes of a name.
pub open spec fn segments(s: Seq<char>) -> Seq<Seq<char>> {
    segments_from(s, 0, 0)
}

/// Whether a text has no slash.
pub open spec fn slashless(s: Seq<char>) -> bool {
    forall|i: int| 0 <= i < s.len() ==> #[trigger] s[i] != '/'
}

/// Every segment has characters, and none of them is a slash.
pub open spec fn clean(segs: Seq<Seq<char>>) -> bool {
    forall|i: int| 0 <= i < segs.len() ==> (#[trigger] segs[i]).len() > 0 && slashless(segs[i])
}

proof fn lemma_segments_clean(s: Seq<char>, start: int, i: int)
    requires
        0 <= start <= i <= s.len(),
        slashless(s.subrange(start, i)),
    ensures
        clean(segments_from(s, start, i)),
    decreases s.len() - i,
{
    if i < s.len() {
        if s[i] == '/' {
            assert(s.subrange(i + 1, i + 1).len() == 0);
            lemma_segments_clean(s, i + 1, i + 1);
            let rest = segments_from(s, i + 1, i + 1);
            if start < i {
                let all = seq![s.subrange(start, i)] + rest;
                assert(segments_from(s, start, i) == all);
                assert forall|k: int| 0 <= k < all.len() implies (#[trigger] all[k]).len() > 0 && slashless(
                    all[k],
                ) by {
                    if k > 0 {
                        assert(all[k] == rest[k - 1]);
                    } else {
                        assert(all[k] == s.subrange(start, i));
                    }
                }
            }
        } else {
            assert forall|j: int| 0 <= j < s.subrange(start, i + 1).len() implies #[trigger] s.subrange(
                start,
                i + 1,
            )[j] != '/' by {
                if j < i - start {
                    assert(s.subrange(start, i)[j] != '/');
                }
            }
            lemma_segments_clean(s, start, i + 1);
            assert(segments_from(s, start, i) == segments_from(s, start, i + 1));
        }
    } else {
        assert forall|k: int| 0 <= k < segments_from(s, start, i).len() implies (#[trigger] segments_from(
            s,
            start,
            i,
        )[k]).len() > 0 && slashless(segments_from(s, start, i)[k]) by {
            assert(segments_from(s, start, i)[k] =~= s.subrange(start, i));
        }
    }
}

/// No segment is empty, and none has a slash.
pub proof fn segments_are_clean(s: Seq<char>)
    ensures
        clean(segments(s)),
{
    assert(s.subrange(0, 0).len() == 0);
    lemma_segments_clean(s, 0, 0);
}

proof fn lemma_last_segment(s: Seq<char>, start: int, i: int)
    requires
        0 <= start <= i <= s.len(),
        start < s.len(),
        forall|k: int| start <= k < s.len() ==> #[trigger] s[k] != '/',
    ensures
        segments_from(s, start, i) == seq![s.subrange(start, s.len() as int)],
    decreases s.len() - i,
{
    if i < s.len() {
        lemma_last_segment(s, start, i + 1);
    }
}

proof fn lemma_one_more(s: Seq<char>, t: Seq<char>, start: int, i: int)
    requires
        0 <= start <= i <= s.len(),
        t.len() > 0,
        slashless(t),
    ensures
        segments_from(s.push('/') + t, start, i) == segments_from(s, start, i).push(t),
    decreases s.len() - i,
{
    let all = s.push('/') + t;
    let n = s.len() as int;
    if i == n {
        assert(all[n] == '/');
        assert forall|k: int| n + 1 <= k < all.len() implies #[trigger] all[k] != '/' by {
            assert(all[k] == t[k - n - 1]);
        }
        lemma_last_segment(all, n + 1, n + 1);
        assert(all.subrange(n + 1, all.len() as int) =~= t);
        if start < n {
            assert(all.subrange(start, n) =~= s.subrange(start, n));
        }
        assert(segments_from(all, start, i) =~= segments_from(s, start, i).push(t));
    } else {
        assert(all[i] == s[i]);
        if s[i] == '/' {
            lemma_one_more(s, t, i + 1, i + 1);
            assert(all.subrange(start, i) =~= s.subrange(start, i));
            assert(segments_from(all, start, i) =~= segments_from(s, start, i).push(t));
        } else {
            lemma_one_more(s, t, start, i + 1);
        }
    }
}

/// Splitting the name with given segments gives them back.
pub proof fn splitting_undoes_joining(segs: Seq<Seq<char>>, n: nat)
    requires
        n <= segs.len(),
        clean(segs),
    ensures
        segments(joined(segs, n)) == segs.take(n as int),
    decreases n,
{
    if n == 0 {
        assert(segments(joined(segs, n)) =~= segs.take(0));
    } else {
        reveal_strlit("/");
        let rest = joined(segs, (n - 1) as nat);
        splitting_undoes_joining(segs, (n - 1) as nat);
        lemma_one_more(rest, segs[n - 1], 0, 0);
        assert(joined(segs, n) =~= rest.push('/') + segs[n - 1]);
        assert(segs.take(n - 1).push(segs[n - 1]) =~= segs.take(n as int));
    }
}

/// The segments of a name tell it but for empty ones: the name that has a slash before each of
/// them has the same segments.
pub proof fn segments_tell_a_name(s: Seq<char>)
    ensures
        segments(joined(segments(s), segments(s).len())) == segments(s),
{
    segments_are_clean(s);
    splitting_undoes_joining(segments(s), segments(s).len());
    assert(segments(s).take(segments(s).len() as int) =~= segments(s));
}

/// The views of texts.
pub open spec fn strs(v: Seq<&str>) -> Seq<Seq<char>> {
    Seq::new(v.len(), |i: int| v[i]@)
}

/// Splits a name like `/foo/bar` into its segments `foo` and `bar`.
pub fn split_name<'a>(name: &'a str) -> (r: Vec<&'a str>)
    ensures
        strs(r@) == segments(name@),
{
    let n = name.unicode_len();
    let mut out: Vec<&'a str> = Vec::new();
    let mut start: usize = 0;
    let mut i: usize = 0;
    assert(strs(out@) + segments(name@) =~= segments(name@));
    while i < n
        invariant
            n == name@.len(),
            start <= i <= n,
            strs(out@) + segments_from(name@, start as int, i as int) == segments(name@),
        decreases n - i,
    {
        let ghost before = strs(out@);
        let ghost rest = segments_from(name@, start as int, i as int);
        if name.get_char(i) == '/' {
            if start < i {
                out.push(name.substring_char(start, i));
                assert(strs(out@) =~= before.push(name@.subrange(start as int, i as int)));
            }
            start = i + 1;
        }
        i += 1;
        assert(strs(out@) + segments_from(name@, start as int, i as int) =~= before + rest);
    }
    if start < n {
        let ghost before = strs(out@);
        out.push(name.substring_char(start, n));
        assert(strs(out@) =~= before.push(name@.subrange(start as int, n as int)));
        assert(strs(out@) =~= segments(name@));
    } else {
        assert(strs(out@) =~= segments(name@));
    }
    out
}

/// The place of the first edge with that label, from `i` on.
spec fn edge_at(edges: Seq<Edge>, label: Seq<char>, i: int) -> Option<int>
    decreases edges.len() - i,
{
    if i < 0 || i >= edges.len() {
        None
    } else if edges[i].label@ == label {
        Some(i)
    } else {
        edge_at(edges, label, i + 1)
    }
}

proof fn lemma_edge_at(edges: Seq<Edge>, label: Seq<char>, i: int)
    requires
        0 <= i,
    ensures
        match edge_at(edges, label, i) {
            Some(k) => i <= k < edges.len() && edges[k].label@ == label && forall|j: int|
                i <= j < k ==> (#[trigger] edges[j]).label@ != label,
            None => forall|j: int| i <= j < edges.len() ==> (#[trigger] edges[j]).label@ != label,
        },
    decreases edges.len() - i,
{
    if i < edges.len() && edges[i].label@ != label {
        lemma_edge_at(edges, label, i + 1);
    }
}

/// The first edge is where a search finds it.
proof fn lemma_edge_is(edges: Seq<Edge>, label: Seq<char>, i: int, k: int)
    requires
        0 <= i <= k < edges.len(),
        edges[k].label@ == label,
        forall|j: int| i <= j < k ==> (#[trigger] edges[j]).label@ != label,
    ensures
        edge_at(edges, label, i) == Some(k),
    decreases k - i,
{
    if i < k {
        lemma_edge_is(edges, label, i + 1, k);
    }
}

fn find_edge(edges: &Vec<Edge>, label: &str) -> (r: Option<usize>)
    ensures
        match r {
            Some(k) => edge_at(edges@, label@, 0) == Some(k as int) && k < edges@.len(),
            None => edge_at(edges@, label@, 0) is None,
        },
{
    let mut i: usize = 0;
    while i < edges.len()
        invariant
            i <= edges@.len(),
            edge_at(edges@, label@, 0) == edge_at(edges@, label@, i as int),
        decreases edges@.len() - i,
    {
        if str_eq(edges[i].label.as_str(), label) {
            return Some(i);
        }
        i += 1;
    }
    None
}

impl NameTrie {
    /// A name of these segments was added below this node.
    spec fn has_path(self, path: Seq<Seq<char>>) -> bool
        decreases path.len(),
    {
        if path.len() == 0 {
            self.is_terminal
        } else {
            match edge_at(self.children@, path[0], 0) {
                Some(k) => self.children@[k].node.has_path(path.drop_first()),
                None => false,
            }
        }
    }
}

impl View for NameTrie {
    type V = Set<Seq<Seq<char>>>;

    /// The segments of the names in the trie.
    closed spec fn view(&self) -> Set<Seq<Seq<char>>> {
        Set::new(|p: Seq<Seq<char>>| self.has_path(p))
    }
}

/// The length of the longest prefix of at most `n` segments that is in the set.
pub open spec fn longest(paths: Set<Seq<Seq<char>>>, segs: Seq<Seq<char>>, n: nat) -> nat
    decreases n,
{
    if n == 0 || paths.contains(segs.take(n as int)) {
        n
    } else {
        longest(paths, segs, (n - 1) as nat)
    }
}

/// A slash before each of the first `n` segments.
pub open spec fn joined(segs: Seq<Seq<char>>, n: nat) -> Seq<char>
    decreases n,
{
    if n == 0 {
        Seq::empty()
    } else {
        joined(segs, (n - 1) as nat) + "/"@ + segs[n - 1]
    }
}

/// The longest prefix of a name, by segments, that is in the set; `/name` if none is.
pub open spec fn prefix_of(paths: Set<Seq<Seq<char>>>, name: Seq<char>) -> Seq<char> {
    let segs = segments(name);
    let n = longest(paths, segs, segs.len());
    if n == 0 {
        "/name"@
    } else {
        joined(segs, n)
    }
}

/// The paths once the names of the type `id` are collected.
pub open spec fn collected(g: Graph, id: InstId, paths: Set<Seq<Seq<char>>>) -> Set<Seq<Seq<char>>>
    decreases id.0, 1nat, 0nat,
    when g.wf() && g.has(id)
{
    match g.node(id) {
        Node::Name(n) => if !base_type(g.name(n)) && g.name(n).len() > 0 && g.name(n)[0] == '/' {
            paths.insert(segments(g.name(n)))
        } else {
            paths
        },
        Node::ApplyFn { function, args } => if g.name(function) == FN_TAGGED_UNION@ && args.len() >= 3 {
            collected_parts(g, id, 2, 2, paths)
        } else {
            collected_parts(g, id, 0, 1, paths)
        },
        _ => paths,
    }
}

/// The paths once the names of every `step`-th part from `i` on are collected.
pub open spec fn collected_parts(g: Graph, id: InstId, i: int, step: int, paths: Set<Seq<Seq<char>>>) -> Set<Seq<Seq<char>>>
    decreases id.0, 0nat, parts(g, id).len() + step - i,
    when g.wf() && g.has(id) && 0 <= i && step > 0
{
    proof {
        lemma_parts_below(g, id);
    }
    if i >= parts(g, id).len() {
        paths
    } else {
        collected_parts(g, id, i + step, step, collected(g, parts(g, id)[i], paths))
    }
}

impl NameTrie {
    /// An empty trie.
    pub fn new() -> (t: NameTrie)
        ensures
            t@ == Set::<Seq<Seq<char>>>::empty(),
    {
        let t = NameTrie { children: Vec::new(), is_terminal: false };
        assert(t@ =~= Set::<Seq<Seq<char>>>::empty());
        t
    }

    /// Inserts the segments from `i` on.
    fn insert_path(&mut self, segs: &Vec<&str>, i: usize)
        requires
            i <= segs@.len(),
        ensures
            forall|p: Seq<Seq<char>>| #[trigger]
                final(self).has_path(p) == (old(self).has_path(p) || p == strs(segs@).skip(i as int)),
        decreases segs@.len() - i,
    {
        let ghost before = *self;
        let ghost target = strs(segs@).skip(i as int);
        if i == segs.len() {
            self.is_terminal = true;
            assert forall|p: Seq<Seq<char>>| #[trigger]
                self.has_path(p) == (before.has_path(p) || p == target) by {
                if p.len() == 0 {
                    assert(p =~= target);
                } else {
                    assert(p != target);
                }
            }
            return;
        }
        let label = segs[i];
        let ghost rest = strs(segs@).skip(i + 1);
        assert(target.drop_first() =~= rest);
        assert(target[0] == label@);
        let at = find_edge(&self.children, label);
        match at {
            Some(k) => {
                let edge = &mut self.children[k];
                edge.node.insert_path(segs, i + 1);
                proof {
                    lemma_edge_at(before.children@, label@, 0);
                    let old_edge = before.children@[k as int];
                    let new_edge = self.children@[k as int];
                    assert(self.children@ =~= before.children@.update(k as int, new_edge));
                    assert(new_edge.label@ == label@);
                    assert(target.len() > 0);
                    assert forall|q: Seq<Seq<char>>| #[trigger]
                        new_edge.node.has_path(q) == (old_edge.node.has_path(q) || q == rest) by {}
                    assert forall|p: Seq<Seq<char>>| #[trigger]
                        self.has_path(p) == (before.has_path(p) || p == target) by {
                        if p.len() > 0 {
                            lemma_edge_at(before.children@, p[0], 0);
                            match edge_at(before.children@, p[0], 0) {
                                Some(j) => {
                                    assert(self.children@[j].label@ == p[0]);
                                    assert forall|m: int| 0 <= m < j implies (
                                    #[trigger] self.children@[m]).label@ != p[0] by {
                                        assert(before.children@[m].label@ != p[0]);
                                    }
                                    lemma_edge_is(self.children@, p[0], 0, j);
                                    if j == k {
                                        assert(p[0] == label@);
                                        assert(self.has_path(p) == new_edge.node.has_path(p.drop_first()));
                                    } else {
                                        assert(p[0] != label@);
                                        assert(self.children@[j] == before.children@[j]);
                                    }
                                },
                                None => {
                                    lemma_edge_at(self.children@, p[0], 0);
                                    if let Some(j) = edge_at(self.children@, p[0], 0) {
                                        assert(before.children@[j].label@ == p[0]);
                                    }
                                },
                            }
                            if p == target {
                                assert(p.drop_first() == rest);
                            } else if p[0] == label@ {
                                if p.drop_first() == rest {
                                    assert(p =~= seq![p[0]] + p.drop_first());
                                    assert(target =~= seq![target[0]] + target.drop_first());
                                }
                            }
                        }
                    }
                }
            },
            None => {
                let mut node = NameTrie::new();
                let ghost empty = node;
                node.insert_path(segs, i + 1);
                proof {
                    assert forall|q: Seq<Seq<char>>| #[trigger] node.has_path(q) == (q == rest) by {
                        assert(!empty@.contains(q));
                    }
                }
                let ghost made = node;
                let edge = Edge { label: label.to_owned(), node };
                self.children.push(edge);
                proof {
                    lemma_edge_at(before.children@, label@, 0);
                    let n = before.children@.len() as int;
                    assert(self.children@[n].label@ == label@);
                    assert(self.children@[n].node == made);
                    assert(target.len() > 0);
                    assert forall|p: Seq<Seq<char>>| #[trigger]
                        self.has_path(p) == (before.has_path(p) || p == target) by {
                        if p.len() > 0 {
                            lemma_edge_at(before.children@, p[0], 0);
                            match edge_at(before.children@, p[0], 0) {
                                Some(j) => {
                                    assert(self.children@[j] == before.children@[j]);
                                    assert forall|m: int| 0 <= m < j implies (
                                    #[trigger] self.children@[m]).label@ != p[0] by {
                                        assert(before.children@[m].label@ != p[0]);
                                    }
                                    lemma_edge_is(self.children@, p[0], 0, j);
                                },
                                None => {
                                    assert forall|m: int| 0 <= m < n implies (
                                    #[trigger] self.children@[m]).label@ != p[0] by {
                                        assert(before.children@[m].label@ != p[0]);
                                    }
                                    if p[0] == label@ {
                                        lemma_edge_is(self.children@, p[0], 0, n);
                                        assert(self.has_path(p) == made.has_path(p.drop_first()));
                                    } else {
                                        lemma_edge_at(self.children@, p[0], 0);
                                    }
                                },
                            }
                            if p == target {
                                assert(p.drop_first() == rest);
                            } else if p[0] == label@ {
                                if p.drop_first() == rest {
                                    assert(p =~= seq![p[0]] + p.drop_first());
                                    assert(target =~= seq![target[0]] + target.drop_first());
                                }
                            }
                        }
                    }
                }
            },
        }
    }

    /// Inserts a name (such as `/foo/bar`).
    pub fn add(&mut self, name: &str)
        ensures
            final(self)@ == old(self)@.insert(segments(name@)),
    {
        let ghost before = *self;
        let segs = split_name(name);
        self.insert_path(&segs, 0);
        assert(strs(segs@).skip(0) =~= segments(name@));
        assert forall|p: Seq<Seq<char>>| #[trigger] self@.contains(p) == before@.insert(
            segments(name@),
        ).contains(p) by {
            assert(self.has_path(p) == (before.has_path(p) || p == strs(segs@).skip(0)));
        }
        assert(self@ =~= before@.insert(segments(name@)));
    }

    /// Whether that very name is in the trie.
    pub fn contains(&self, name: &str) -> (r: bool)
        ensures
            r == self@.contains(segments(name@)),
    {
        let segs = split_name(name);
        let ghost path = segments(name@);
        let mut node: &NameTrie = self;
        let mut i: usize = 0;
        assert(path.skip(0) =~= path);
        while i < segs.len()
            invariant
                i <= segs@.len(),
                self.has_path(path) == node.has_path(path.skip(i as int)),
            decreases segs@.len() - i,
        {
            assert(path.skip(i as int)[0] == segs@[i as int]@);
            assert(path.skip(i as int).drop_first() =~= path.skip(i + 1));
            match find_edge(&node.children, segs[i]) {
                Some(k) => {
                    node = &node.children[k].node;
                },
                None => {
                    return false;
                },
            }
            i += 1;
        }
        node.is_terminal
    }

    /// The longest prefix of `name` that is in the trie, or `/name` if none is.
    ///
    /// With `/animal` and `/animal/dog` in the trie, `/animal/dog/poodle` gives
    /// `/animal/dog`.
    pub fn prefix_name(&self, name: &str) -> (r: String)
        ensures
            r@ == prefix_of(self@, name@),
    {
        let segs = split_name(name);
        let ghost path = segments(name@);
        let mut node: &NameTrie = self;
        let mut best: usize = 0;
        let mut i: usize = 0;
        let mut missing: bool = false;
        proof {
            assert forall|p: Seq<Seq<char>>| #[trigger] self.has_path(path.take(0) + p) == self.has_path(
                p,
            ) by {
                assert(path.take(0) + p =~= p);
            }
        }
        while i < segs.len() && !missing
            invariant
                i <= segs@.len(),
                best <= i,
                best == longest(self@, path, i as nat),
                !missing ==> forall|p: Seq<Seq<char>>| #[trigger]
                    self.has_path(path.take(i as int) + p) == node.has_path(p),
                missing ==> forall|p: Seq<Seq<char>>|
                    !#[trigger] self.has_path(path.take(i as int) + p),
                missing ==> i > 0,
            decreases segs@.len() - i, if missing { 0int } else { 1int },
        {
            let ghost here = path.take(i as int);
            let ghost next = path.take(i + 1);
            assert forall|p: Seq<Seq<char>>| next + p =~= here + (seq![path[i as int]] + p) by {}
            assert forall|p: Seq<Seq<char>>| (#[trigger] (seq![path[i as int]] + p)).drop_first() =~= p by {}
            assert(next =~= next + Seq::<Seq<char>>::empty());
            match find_edge(&node.children, segs[i]) {
                Some(k) => {
                    let child = &node.children[k].node;
                    assert forall|p: Seq<Seq<char>>| #[trigger]
                        self.has_path(next + p) == child.has_path(p) by {
                        let q = seq![path[i as int]] + p;
                        assert(next + p =~= here + q);
                        assert(q.drop_first() =~= p);
                        assert(self.has_path(here + q) == node.has_path(q));
                    }
                    assert(self.has_path(next + Seq::<Seq<char>>::empty()) == child.is_terminal);
                    if child.is_terminal {
                        best = i + 1;
                    }
                    node = child;
                },
                None => {
                    missing = true;
                    assert forall|p: Seq<Seq<char>>| !#[trigger] self.has_path(next + p) by {
                        let q = seq![path[i as int]] + p;
                        assert(next + p =~= here + q);
                        assert(self.has_path(here + q) == node.has_path(q));
                    }
                    assert(!self.has_path(next + Seq::<Seq<char>>::empty()));
                },
            }
            i += 1;
        }
        proof {
            if missing {
                lemma_longest_stays(*self, path, i as nat, path.len());
            }
        }
        if best == 0 {
            return "/name".to_owned();
        }
        let mut out = String::new();
        let mut j: usize = 0;
        assert(out@ =~= joined(path, 0));
        while j < best
            invariant
                best <= segs@.len(),
                j <= best,
                out@ == joined(path, j as nat),
            decreases best - j,
        {
            out.append("/");
            out.append(segs[j]);
            j += 1;
            assert(out@ =~= joined(path, j as nat));
        }
        out
    }

    /// Collects the name constants of a type expression.
    ///
    /// Of a tagged union only the variant structs are looked at, not the tag field
    /// and the tags.
    pub fn collect(&mut self, ir: &Ir, id: InstId)
        requires
            ir@.wf(),
            ir@.has(id),
        ensures
            final(self)@ == collected(ir@, id, old(self)@),
        decreases id.0,
    {
        proof {
            lemma_parts_below(ir@, id);
        }
        let ghost before = self@;
        match ir.get(id) {
            Inst::Name(n) => {
                let name = ir.resolve_name(*n);
                if !is_base_type(ir, id) && name.unicode_len() > 0 && name.get_char(0) == '/' {
                    self.add(name);
                }
            },
            Inst::ApplyFn { function, args } => {
                let (first, step): (usize, usize) = if str_eq(ir.resolve_name(*function), FN_TAGGED_UNION)
                    && args.len() >= 3 {
                    (2, 2)
                } else {
                    (0, 1)
                };
                let mut i: usize = first;
                while i < args.len()
                    invariant
                        step == 1 || step == 2,
                        collected(ir@, id, before) == collected_parts(
                            ir@,
                            id,
                            i as int,
                            step as int,
                            self@,
                        ),
                    decreases args@.len() - i,
                {
                    assert(args@[i as int] == parts(ir@, id)[i as int]);
                    self.collect(ir, args[i]);
                    if args.len() - i <= step {
                        assert(self@ == collected_parts(
                            ir@,
                            id,
                            i + step as int,
                            step as int,
                            self@,
                        ));
                        return;
                    }
                    i += step;
                }
            },
            _ => {},
        }
    }
}

/// Where no longer prefix leads anywhere, none is longer.
proof fn lemma_longest_stays(t: NameTrie, path: Seq<Seq<char>>, i: nat, n: nat)
    requires
        i <= n <= path.len(),
        i > 0,
        forall|p: Seq<Seq<char>>| !#[trigger] t.has_path(path.take(i as int) + p),
    ensures
        longest(t@, path, n) == longest(t@, path, i),
    decreases n,
{
    if i < n {
        assert(path.take(n as int) =~= path.take(i as int) + path.subrange(i as int, n as int));
        assert(!t.has_path(path.take(i as int) + path.subrange(i as int, n as int)));
        lemma_longest_stays(t, path, i, (n - 1) as nat);
    }
}

/// The prefix that a name gets is in the set, and no longer one is.
pub proof fn a_prefix_is_the_longest(paths: Set<Seq<Seq<char>>>, segs: Seq<Seq<char>>, n: nat)
    requires
        n <= segs.len(),
    ensures
        longest(paths, segs, n) <= n,
        longest(paths, segs, n) > 0 ==> paths.contains(
            segs.take(longest(paths, segs, n) as int),
        ),
        forall|m: int| longest(paths, segs, n) < m <= n ==> !paths.contains(#[trigger] segs.take(m)),
    decreases n,
{
    if n > 0 && !paths.contains(segs.take(n as int)) {
        a_prefix_is_the_longest(paths, segs, (n - 1) as nat);
    }
}

/// A name in the trie is its own longest prefix.
pub proof fn a_name_is_its_own_prefix(paths: Set<Seq<Seq<char>>>, segs: Seq<Seq<char>>)
    requires
        clean(segs),
        segs.len() > 0,
        paths.contains(segs),
    ensures
        segments(joined(segs, segs.len())) == segs,
        prefix_of(paths, joined(segs, segs.len())) == joined(segs, segs.len()),
{
    splitting_undoes_joining(segs, segs.len());
    assert(segs.take(segs.len() as int) =~= segs);
}

} // verus!
