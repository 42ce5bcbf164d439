//! Terms of rules: planned, they compute their values.
use vstd::prelude::*;

use crate::disk_names::lemma_decimal_injective;
use crate::ir::{ids_below, Graph, InstId, NameId, Node};
use crate::physical::{Constant, Operand, Plan, Term};
use crate::plan_expr::{
    called, evaluated, field_operands, interleaved, least, lemma_interleaved, operands, temp_text,
    term_planned, with_interned, with_names, with_temp, wrapped, PlanState,
};
use crate::plan_meaning::{
    all_within, field_values, is_temp, list_weight, operand, operand_values, plain, plain_vars,
    reaches, room, same_on, term_value, value, values, vars_within, weight, weights, Env, World,
};
use crate::planner::both_evaluated;
use crate::text::{decimal, digit};
use crate::type_laws::lemma_named;
use crate::value::Val;

verus! {

/// A term has the value that its variables give it.
pub(crate) proof fn lemma_value_same(w: World, g: Graph, id: InstId, b: Set<NameId>, s: Env, t: Env)
    requires
        g.wf(),
        g.has(id),
        vars_within(g, id, b),
        same_on(b, s, t),
    ensures
        value(w, g, id, s) == value(w, g, id, t),
    decreases id.0, 1nat, 0nat,
{
    assert(g.nodes[id.0 as int].fits(id.0 as nat, g.names.len(), g.strings.len()));
    match g.node(id) {
        Node::ApplyFn { function, args } => {
            lemma_values_same(w, g, args, args.len(), id.0 as nat, b, s, t);
        },
        Node::List(items) => {
            lemma_values_same(w, g, items, items.len(), id.0 as nat, b, s, t);
        },
        Node::Dict { keys, values: vs } => {
            let n = least(keys.len(), vs.len());
            lemma_interleaved(keys, vs, n, id.0 as nat);
            lemma_interleaved_within(g, keys, vs, n, b);
            let ids = interleaved(keys, vs, n);
            lemma_values_same(w, g, ids, ids.len(), id.0 as nat, b, s, t);
        },
        Node::Struct { fields, values: vs } => {
            lemma_field_values_same(w, g, fields, vs, vs.len(), id.0 as nat, b, s, t);
        },
        _ => {},
    }
}

pub(crate) proof fn lemma_values_same(
    w: World,
    g: Graph,
    ids: Seq<InstId>,
    n: nat,
    limit: nat,
    b: Set<NameId>,
    s: Env,
    t: Env,
)
    requires
        g.wf(),
        limit <= g.nodes.len(),
        ids_below(ids, limit),
        n <= ids.len(),
        all_within(g, ids, b),
        same_on(b, s, t),
    ensures
        values(w, g, ids, n, limit, s) == values(w, g, ids, n, limit, t),
    decreases limit, 0nat, n,
{
    if n > 0 {
        lemma_values_same(w, g, ids, (n - 1) as nat, limit, b, s, t);
        lemma_value_same(w, g, ids[n - 1], b, s, t);
    }
}

proof fn lemma_field_values_same(
    w: World,
    g: Graph,
    fields: Seq<NameId>,
    ids: Seq<InstId>,
    n: nat,
    limit: nat,
    b: Set<NameId>,
    s: Env,
    t: Env,
)
    requires
        g.wf(),
        limit <= g.nodes.len(),
        ids_below(ids, limit),
        n <= ids.len(),
        all_within(g, ids, b),
        same_on(b, s, t),
    ensures
        field_values(w, g, fields, ids, n, limit, s) == field_values(w, g, fields, ids, n, limit, t),
    decreases limit, 0nat, n,
{
    if n > 0 {
        lemma_field_values_same(w, g, fields, ids, (n - 1) as nat, limit, b, s, t);
        lemma_value_same(w, g, ids[n - 1], b, s, t);
    }
}

proof fn lemma_interleaved_within(
    g: Graph,
    keys: Seq<InstId>,
    vs: Seq<InstId>,
    n: nat,
    b: Set<NameId>,
)
    requires
        n <= keys.len(),
        n <= vs.len(),
        all_within(g, keys, b),
        all_within(g, vs, b),
    ensures
        all_within(g, interleaved(keys, vs, n), b),
    decreases n,
{
    if n > 0 {
        lemma_interleaved_within(g, keys, vs, (n - 1) as nat, b);
        let before = interleaved(keys, vs, (n - 1) as nat);
        let all = interleaved(keys, vs, n);
        assert(all == before.push(keys[n - 1]).push(vs[n - 1]));
        assert forall|k: int| 0 <= k < all.len() implies vars_within(g, #[trigger] all[k], b) by {
            if k < before.len() {
                assert(all[k] == before[k]);
            } else if k == before.len() {
                assert(all[k] == keys[n - 1]);
            } else {
                assert(all[k] == vs[n - 1]);
            }
        }
    }
}

/// A later graph has the same instructions and names.
pub(crate) proof fn lemma_same(g: Graph, later: Graph, id: InstId)
    requires
        g.wf(),
        g.extended_by(later),
        g.has(id),
    ensures
        later.has(id),
        later.node(id) == g.node(id),
        forall|n: NameId| g.has_name(n) ==> #[trigger] later.name(n) == g.name(n),
{
    assert(g.nodes[id.0 as int] == later.nodes[id.0 as int]);
    assert forall|n: NameId| g.has_name(n) implies #[trigger] later.name(n) == g.name(n) by {
        assert(g.names[n.0 as int] == later.names[n.0 as int]);
    }
}

/// A term has the same value in a later graph.
pub(crate) proof fn lemma_value_stable(w: World, g: Graph, later: Graph, id: InstId, s: Env)
    requires
        g.wf(),
        later.wf(),
        g.extended_by(later),
        g.has(id),
    ensures
        value(w, later, id, s) == value(w, g, id, s),
    decreases id.0, 1nat, 0nat,
{
    assert(g.nodes[id.0 as int].fits(id.0 as nat, g.names.len(), g.strings.len()));
    lemma_same(g, later, id);
    match g.node(id) {
        Node::ApplyFn { function, args } => {
            assert(later.name(function) == g.name(function));
            lemma_values_stable(w, g, later, args, args.len(), id.0 as nat, s);
        },
        Node::List(items) => {
            lemma_values_stable(w, g, later, items, items.len(), id.0 as nat, s);
        },
        Node::Dict { keys, values: vs } => {
            let n = least(keys.len(), vs.len());
            lemma_interleaved(keys, vs, n, id.0 as nat);
            let ids = interleaved(keys, vs, n);
            lemma_values_stable(w, g, later, ids, ids.len(), id.0 as nat, s);
        },
        Node::Struct { fields, values: vs } => {
            lemma_field_values_stable(w, g, later, fields, vs, vs.len(), id.0 as nat, s);
        },
        _ => {},
    }
}

pub(crate) proof fn lemma_values_stable(
    w: World,
    g: Graph,
    later: Graph,
    ids: Seq<InstId>,
    n: nat,
    limit: nat,
    s: Env,
)
    requires
        g.wf(),
        later.wf(),
        g.extended_by(later),
        limit <= g.nodes.len(),
        ids_below(ids, limit),
        n <= ids.len(),
    ensures
        values(w, later, ids, n, limit, s) == values(w, g, ids, n, limit, s),
    decreases limit, 0nat, n,
{
    if n > 0 {
        lemma_values_stable(w, g, later, ids, (n - 1) as nat, limit, s);
        lemma_value_stable(w, g, later, ids[n - 1], s);
    }
}

proof fn lemma_field_values_stable(
    w: World,
    g: Graph,
    later: Graph,
    fields: Seq<NameId>,
    ids: Seq<InstId>,
    n: nat,
    limit: nat,
    s: Env,
)
    requires
        g.wf(),
        later.wf(),
        g.extended_by(later),
        limit <= g.nodes.len(),
        ids_below(ids, limit),
        n <= ids.len(),
    ensures
        field_values(w, later, fields, ids, n, limit, s) == field_values(
            w,
            g,
            fields,
            ids,
            n,
            limit,
            s,
        ),
    decreases limit, 0nat, n,
{
    if n > 0 {
        lemma_field_values_stable(w, g, later, fields, ids, (n - 1) as nat, limit, s);
        lemma_value_stable(w, g, later, ids[n - 1], s);
    }
}

/// The values of terms do not depend on the limit that the terms are below.
pub(crate) proof fn lemma_limit(w: World, g: Graph, ids: Seq<InstId>, n: nat, limit: nat, other: nat, s: Env)
    requires
        g.wf(),
        limit <= g.nodes.len(),
        other <= g.nodes.len(),
        ids_below(ids, limit),
        ids_below(ids, other),
        n <= ids.len(),
    ensures
        values(w, g, ids, n, limit, s) == values(w, g, ids, n, other, s),
        values(w, g, ids, n, limit, s).len() == n,
    decreases n,
{
    if n > 0 {
        lemma_limit(w, g, ids, (n - 1) as nat, limit, other, s);
    }
}

/// A number holds no underscore.
proof fn lemma_digits(n: nat)
    ensures
        forall|i: int| 0 <= i < decimal(n).len() ==> decimal(n)[i] != '_',
    decreases n,
{
    assert(digit(n) != '_');
    if n >= 10 {
        lemma_digits(n / 10);
        assert forall|i: int| 0 <= i < decimal(n).len() implies decimal(n)[i] != '_' by {
            if i < decimal(n).len() - 1 {
                assert(decimal(n / 10)[i] == decimal(n)[i]);
            }
        }
    }
}

/// Temporaries of the same name have the same number.
proof fn lemma_temp_number(a: Seq<char>, m: usize, b: Seq<char>, n: usize)
    requires
        temp_text(a, m) == temp_text(b, n),
    ensures
        m == n,
{
    let x = decimal(m as nat);
    let y = decimal(n as nat);
    let s = temp_text(a, m);
    let t = temp_text(b, n);
    reveal_strlit("$");
    reveal_strlit("_");
    lemma_digits(m as nat);
    lemma_digits(n as nat);
    assert(s[s.len() - x.len() - 1] == '_');
    assert(t[t.len() - y.len() - 1] == '_');
    if x.len() < y.len() {
        assert(t[s.len() - x.len() - 1] == y[y.len() - x.len() - 1]);
    }
    if y.len() < x.len() {
        assert(s[t.len() - y.len() - 1] == x[x.len() - y.len() - 1]);
    }
    assert(x =~= y) by {
        assert forall|i: int| 0 <= i < x.len() implies x[i] == y[i] by {
            assert(s[s.len() - x.len() + i] == x[i]);
            assert(t[t.len() - y.len() + i] == y[i]);
        }
    }
    lemma_decimal_injective(m as nat, n as nat);
}

/// A temporary is not one of another range.
pub(crate) proof fn lemma_temps_apart(names: Seq<Seq<char>>, v: NameId, lo: nat, mid: nat, hi: nat)
    requires
        is_temp(names, v, lo, mid),
    ensures
        !is_temp(names, v, mid, hi),
{
    let (a, m) = choose|prefix: Seq<char>, n: usize|
        lo <= n < mid && names[v.0 as int] == #[trigger] temp_text(prefix, n);
    if is_temp(names, v, mid, hi) {
        let (b, n) = choose|prefix: Seq<char>, n: usize|
            mid <= n < hi && names[v.0 as int] == #[trigger] temp_text(prefix, n);
        lemma_temp_number(a, m, b, n);
    }
}

/// A plain name is no temporary.
pub(crate) proof fn lemma_plain(names: Seq<Seq<char>>, v: NameId, lo: nat, hi: nat)
    requires
        plain(names, v),
    ensures
        !is_temp(names, v, lo, hi),
{
    reveal_strlit("$");
    if is_temp(names, v, lo, hi) {
        let (a, m) = choose|prefix: Seq<char>, n: usize|
            lo <= n < hi && names[v.0 as int] == #[trigger] temp_text(prefix, n);
        assert(temp_text(a, m)[0] == '$');
    }
}

/// The plain names.
pub open spec fn plain_set(names: Seq<Seq<char>>) -> Set<NameId> {
    Set::new(|v: NameId| v.0 < names.len() && plain(names, v))
}

/// The variables of terms are plain.
pub(crate) proof fn lemma_plain_within(g: Graph, names: Seq<Seq<char>>, id: InstId)
    requires
        g.wf(),
        g.has(id),
        plain_vars(g),
        g.names.is_prefix_of(names),
    ensures
        vars_within(g, id, plain_set(names)),
    decreases id.0,
{
    assert(g.nodes[id.0 as int].fits(id.0 as nat, g.names.len(), g.strings.len()));
    match g.node(id) {
        Node::Var(v) => {
            assert(g.nodes[id.0 as int] == Node::Var(v));
            assert(g.names[v.0 as int] == names[v.0 as int]);
        },
        Node::ApplyFn { function, args } => {
            assert forall|k: int| 0 <= k < args.len() implies vars_within(
                g,
                #[trigger] args[k],
                plain_set(names),
            ) by {
                lemma_plain_within(g, names, args[k]);
            }
        },
        Node::List(items) => {
            assert forall|k: int| 0 <= k < items.len() implies vars_within(
                g,
                #[trigger] items[k],
                plain_set(names),
            ) by {
                lemma_plain_within(g, names, items[k]);
            }
        },
        Node::Dict { keys, values: vs } => {
            assert forall|k: int| 0 <= k < keys.len() implies vars_within(
                g,
                #[trigger] keys[k],
                plain_set(names),
            ) by {
                lemma_plain_within(g, names, keys[k]);
            }
            assert forall|k: int| 0 <= k < vs.len() implies vars_within(
                g,
                #[trigger] vs[k],
                plain_set(names),
            ) by {
                lemma_plain_within(g, names, vs[k]);
            }
        },
        Node::Struct { fields, values: vs } => {
            assert forall|k: int| 0 <= k < vs.len() implies vars_within(
                g,
                #[trigger] vs[k],
                plain_set(names),
            ) by {
                lemma_plain_within(g, names, vs[k]);
            }
        },
        _ => {},
    }
}

/// Both hold the same but for temporaries with numbers from `lo` on and below `hi`.
pub open spec fn agree(names: Seq<Seq<char>>, s: Env, t: Env, lo: nat, hi: nat) -> bool {
    forall|v: NameId| #![trigger s[v]] #![trigger t[v]]
        v.0 < names.len() && !is_temp(names, v, lo, hi) ==> s[v] == t[v]
}

/// From one state of planning to a later one, with no more temporaries than that.
pub open spec fn spent(p: PlanState, q: PlanState, n: nat) -> bool {
    &&& q.g.wf()
    &&& p.g.extended_by(q.g)
    &&& p.fresh <= q.fresh <= p.fresh + n
    &&& q.g.names.len() <= p.g.names.len() + 2 * n
    &&& q.g.nodes.len() <= p.g.nodes.len() + n
    &&& plain_vars(p.g) ==> plain_vars(q.g)
    &&& rule_places(q.g.nodes) == rule_places(p.g.nodes)
}

/// Where the rules are among instructions.
pub open spec fn rule_places(nodes: Seq<Node>) -> Set<int> {
    Set::new(|i: int| 0 <= i < nodes.len() && nodes[i] is Rule)
}

/// Interning a name.
proof fn lemma_interned(p: PlanState, text: Seq<char>)
    requires
        p.g.wf(),
        p.g.names.len() < usize::MAX,
    ensures
        with_interned(p, text).g.wf(),
        p.g.extended_by(with_interned(p, text).g),
        with_interned(p, text).g.names.len() <= p.g.names.len() + 1,
        with_interned(p, text).g.nodes == p.g.nodes,
        with_interned(p, text).fresh == p.fresh,
        with_interned(p, text).g.has_name(p.g.name_id(text)),
        with_interned(p, text).g.name(p.g.name_id(text)) == text,
        plain_vars(p.g) ==> plain_vars(with_interned(p, text).g),
{
    lemma_named(p.g, text);
    let h = with_interned(p, text).g;
    if plain_vars(p.g) {
        assert forall|i: int| 0 <= i < h.nodes.len() implies match #[trigger] h.nodes[i] {
            Node::Var(v) => plain(h.names, v),
            Node::Transform { var: Some(v), .. } => plain(h.names, v),
            _ => true,
        } by {
            assert(p.g.nodes[i].fits(i as nat, p.g.names.len(), p.g.strings.len()));
            match p.g.nodes[i] {
                Node::Var(v) => {
                    assert(p.g.names[v.0 as int] == h.names[v.0 as int]);
                },
                Node::Transform { var: Some(v), .. } => {
                    assert(p.g.names[v.0 as int] == h.names[v.0 as int]);
                },
                _ => {},
            }
        }
    }
}

/// A temporary has the next number.
pub(crate) proof fn lemma_temp(p: PlanState, prefix: Seq<char>)
    requires
        p.g.wf(),
        p.fresh < usize::MAX,
        p.g.names.len() < usize::MAX,
        p.g.nodes.len() <= usize::MAX,
    ensures
        ({
            let (q, t) = with_temp(p, prefix);
            &&& spent(p, q, 1)
            &&& q.fresh == p.fresh + 1
            &&& q.g.nodes == p.g.nodes
            &&& q.g.has_name(t)
            &&& q.g.name(t) == temp_text(prefix, p.fresh)
        }),
{
    lemma_interned(p, temp_text(prefix, p.fresh));
}

/// What variables hold after bindings.
pub open spec fn after(w: World, names: Seq<Seq<char>>, bs: Seq<(NameId, Term)>, env: Env) -> Env
    decreases bs.len(),
{
    if bs.len() == 0 {
        env
    } else {
        let before = after(w, names, bs.drop_last(), env);
        before.insert(bs.last().0, term_value(w, names, before, bs.last().1))
    }
}

/// Bindings one after the other.
proof fn lemma_after(
    w: World,
    names: Seq<Seq<char>>,
    a: Seq<(NameId, Term)>,
    b: Seq<(NameId, Term)>,
    env: Env,
)
    ensures
        after(w, names, a + b, env) == after(w, names, b, after(w, names, a, env)),
    decreases b.len(),
{
    if b.len() == 0 {
        assert(a + b =~= a);
    } else {
        assert((a + b).drop_last() =~= a + b.drop_last());
        lemma_after(w, names, a, b.drop_last(), env);
    }
}

/// A plan within bindings.
pub(crate) proof fn lemma_wrapped(
    w: World,
    names: Seq<Seq<char>>,
    bs: Seq<(NameId, Term)>,
    body: Plan,
    env: Env,
    want: spec_fn(NameId, Seq<Val>) -> bool,
)
    ensures
        reaches(w, names, wrapped(bs, body), env, want) == reaches(
            w,
            names,
            body,
            after(w, names, bs, env),
            want,
        ),
    decreases bs.len(),
{
    if bs.len() > 0 {
        let inner = Plan::Let { var: bs.last().0, expr: bs.last().1, body: Box::new(body) };
        lemma_wrapped(w, names, bs.drop_last(), inner, env, want);
        let before = after(w, names, bs.drop_last(), env);
        assert(reaches(w, names, inner, before, want) == reaches(
            w,
            names,
            body,
            before.insert(bs.last().0, term_value(w, names, before, bs.last().1)),
            want,
        ));
    }
}

/// The operand is a constant, a plain variable, or a temporary of the range.
pub open spec fn operand_in(names: Seq<Seq<char>>, o: Operand, lo: nat, hi: nat) -> bool {
    o matches Operand::Var(v) ==> v.0 < names.len() && (plain(names, v) || is_temp(names, v, lo, hi))
}

/// The operands are in the range.
pub open spec fn operands_in(names: Seq<Seq<char>>, ops: Seq<Operand>, lo: nat, hi: nat) -> bool {
    forall|i: int| 0 <= i < ops.len() ==> operand_in(names, #[trigger] ops[i], lo, hi)
}

/// Later temporaries do not change an operand.
proof fn lemma_operand_kept(
    w: World,
    names: Seq<Seq<char>>,
    o: Operand,
    lo: nat,
    mid: nat,
    hi: nat,
    s: Env,
    t: Env,
)
    requires
        operand_in(names, o, lo, mid),
        agree(names, s, t, mid, hi),
    ensures
        operand(w, s, o) == operand(w, t, o),
{
    if let Operand::Var(v) = o {
        if plain(names, v) {
            lemma_plain(names, v, mid, hi);
        } else {
            lemma_temps_apart(names, v, lo, mid, hi);
        }
        assert(s[v] == t[v]);
    }
}

/// An operand of a smaller range is one of a larger range.
proof fn lemma_operand_wider(names: Seq<Seq<char>>, o: Operand, lo: nat, mid: nat, hi: nat, up: nat)
    requires
        operand_in(names, o, mid, hi),
        lo <= mid,
        hi <= up,
    ensures
        operand_in(names, o, lo, up),
{
    if let Operand::Var(v) = o {
        if !plain(names, v) {
            lemma_temp_wider(names, v, lo, mid, hi, up);
        }
    }
}

pub(crate) proof fn lemma_temp_wider(names: Seq<Seq<char>>, v: NameId, lo: nat, mid: nat, hi: nat, up: nat)
    requires
        is_temp(names, v, mid, hi),
        lo <= mid,
        hi <= up,
    ensures
        is_temp(names, v, lo, up),
{
    let (a, m) = choose|prefix: Seq<char>, n: usize|
        mid <= n < hi && names[v.0 as int] == #[trigger] temp_text(prefix, n);
    assert(names[v.0 as int] == temp_text(a, m));
}

/// Agreement over ranges that follow one another.
proof fn lemma_agree(names: Seq<Seq<char>>, r: Env, s: Env, t: Env, lo: nat, mid: nat, hi: nat)
    requires
        agree(names, r, s, lo, mid),
        agree(names, s, t, mid, hi),
        lo <= mid <= hi,
    ensures
        agree(names, r, t, lo, hi),
{
    assert forall|v: NameId| #![trigger r[v]] #![trigger t[v]]
        v.0 < names.len() && !is_temp(names, v, lo, hi) implies r[v] == t[v] by {
        if is_temp(names, v, lo, mid) {
            lemma_temp_wider(names, v, lo, lo, mid, hi);
        }
        if is_temp(names, v, mid, hi) {
            lemma_temp_wider(names, v, lo, mid, hi, hi);
        }
        assert(r[v] == s[v]);
        assert(s[v] == t[v]);
    }
}

/// Agreement but for temporaries is agreement on plain names.
pub(crate) proof fn lemma_agree_plain(names: Seq<Seq<char>>, s: Env, t: Env, lo: nat, hi: nat)
    requires
        agree(names, s, t, lo, hi),
    ensures
        same_on(plain_set(names), s, t),
{
    assert forall|v: NameId| #![trigger s[v]] #![trigger t[v]]
        plain_set(names).contains(v) implies s[v] == t[v] by {
        lemma_plain(names, v, lo, hi);
        assert(s[v] == t[v]);
    }
}

/// The bindings leave everything but the temporaries of the range, and the operand then has
/// the value of the term.
pub open spec fn computes(
    w: World,
    names: Seq<Seq<char>>,
    bs: Seq<(NameId, Term)>,
    o: Operand,
    g: Graph,
    id: InstId,
    lo: nat,
    hi: nat,
) -> bool {
    &&& operand_in(names, o, lo, hi)
    &&& forall|env: Env| #[trigger]
        after(w, names, bs, env) == after(w, names, bs, env) && agree(
            names,
            env,
            after(w, names, bs, env),
            lo,
            hi,
        ) && operand(w, after(w, names, bs, env), o) == value(w, g, id, env)
}

/// The same of several terms.
pub open spec fn compute(
    w: World,
    names: Seq<Seq<char>>,
    bs: Seq<(NameId, Term)>,
    ops: Seq<Operand>,
    vs: spec_fn(Env) -> Seq<Val>,
    lo: nat,
    hi: nat,
) -> bool {
    &&& operands_in(names, ops, lo, hi)
    &&& forall|env: Env| #[trigger]
        after(w, names, bs, env) == after(w, names, bs, env) && agree(
            names,
            env,
            after(w, names, bs, env),
            lo,
            hi,
        ) && operand_values(w, after(w, names, bs, env), ops) == vs(env)
}

/// The names of the graph are among the names, none twice.
pub open spec fn names_in(g: Graph, names: Seq<Seq<char>>) -> bool {
    &&& g.names.is_prefix_of(names)
    &&& names.no_duplicates()
    &&& names.len() <= usize::MAX
}

/// Calling a function on operands that are computed.
proof fn lemma_called(
    w: World,
    names: Seq<Seq<char>>,
    g: Graph,
    id: InstId,
    p: PlanState,
    bs: Seq<(NameId, Term)>,
    ops: Seq<Operand>,
    vs: spec_fn(Env) -> Seq<Val>,
    function: NameId,
    prefix: Seq<char>,
    lo: nat,
)
    requires
        p.g.wf(),
        p.fresh < usize::MAX,
        p.g.names.len() < usize::MAX,
        p.g.nodes.len() <= usize::MAX,
        lo <= p.fresh,
        names_in(with_temp(p, prefix).0.g, names),
        compute(w, names, bs, ops, vs, lo, p.fresh as nat),
        function.0 < names.len(),
        forall|env: Env| #[trigger] value(w, g, id, env) == (w.apply)(names[function.0 as int], vs(env)),
    ensures
        ({
            let (q, r) = called(p, Ok((bs, ops)), function, prefix);
            &&& spent(p, q, 1)
            &&& r matches Ok((all, o))
            &&& computes(w, names, r->Ok_0.0, r->Ok_0.1, g, id, lo, q.fresh as nat)
        }),
{
    let (q, t) = with_temp(p, prefix);
    lemma_temp(p, prefix);
    let call = Term::Call { function, args: ops };
    let all = bs.push((t, call));
    assert(names[t.0 as int] == temp_text(prefix, p.fresh)) by {
        assert(q.g.names[t.0 as int] == names[t.0 as int]);
    }
    assert(is_temp(names, t, p.fresh as nat, q.fresh as nat));
    lemma_temp_wider(names, t, lo, p.fresh as nat, q.fresh as nat, q.fresh as nat);
    assert(all.drop_last() =~= bs);
    assert forall|env: Env| #[trigger]
        after(w, names, all, env) == after(w, names, all, env) && agree(
            names,
            env,
            after(w, names, all, env),
            lo,
            q.fresh as nat,
        ) && operand(w, after(w, names, all, env), Operand::Var(t)) == value(w, g, id, env) by {
        let mid = after(w, names, bs, env);
        assert(mid == after(w, names, bs, env));
        let end = after(w, names, all, env);
        assert(end == mid.insert(t, term_value(w, names, mid, call)));
        assert forall|v: NameId| #![trigger mid[v]] #![trigger end[v]]
            v.0 < names.len() && !is_temp(names, v, p.fresh as nat, q.fresh as nat) implies mid[v]
            == end[v] by {}
        lemma_agree(names, env, mid, end, lo, p.fresh as nat, q.fresh as nat);
    }
}

/// Instructions for names.
proof fn lemma_with_names(g: Graph, fields: Seq<NameId>, n: nat)
    requires
        g.wf(),
        n <= fields.len(),
        forall|i: int| 0 <= i < fields.len() ==> (#[trigger] fields[i]).0 < g.names.len(),
        g.nodes.len() + n <= usize::MAX,
    ensures
        with_names(g, fields, n).wf(),
        g.extended_by(with_names(g, fields, n)),
        with_names(g, fields, n).names == g.names,
        with_names(g, fields, n).nodes.len() == g.nodes.len() + n,
        plain_vars(g) ==> plain_vars(with_names(g, fields, n)),
        rule_places(with_names(g, fields, n).nodes) == rule_places(g.nodes),
    decreases n,
{
    if n > 0 {
        lemma_with_names(g, fields, (n - 1) as nat);
        let before = with_names(g, fields, (n - 1) as nat);
        let h = with_names(g, fields, n);
        assert(h.nodes == before.nodes.push(Node::Name(fields[n - 1])));
        assert(rule_places(h.nodes) =~= rule_places(before.nodes));
        assert forall|i: int| 0 <= i < h.nodes.len() implies (#[trigger] h.nodes[i]).fits(
            i as nat,
            h.names.len(),
            h.strings.len(),
        ) by {
            if i < before.nodes.len() {
                assert(before.nodes[i].fits(i as nat, before.names.len(), before.strings.len()));
            }
        }
        if plain_vars(g) {
            assert forall|i: int| 0 <= i < h.nodes.len() implies match #[trigger] h.nodes[i] {
                Node::Var(v) => plain(h.names, v),
                Node::Transform { var: Some(v), .. } => plain(h.names, v),
                _ => true,
            } by {
                if i < before.nodes.len() {
                    assert(before.nodes[i] == h.nodes[i]);
                }
            }
        }
    }
}

/// The state after planning a term.
pub(crate) proof fn lemma_evaluated_state(base: Graph, p: PlanState, id: InstId)
    requires
        base.wf(),
        p.g.wf(),
        base.extended_by(p.g),
        base.has(id),
        room(p, weight(base, id)),
    ensures
        spent(p, evaluated(base, p, id).0, weight(base, id)),
    decreases id.0, 1nat, 0nat,
{
    assert(base.nodes[id.0 as int].fits(id.0 as nat, base.names.len(), base.strings.len()));
    match base.node(id) {
        Node::ApplyFn { function, args } => {
            let (q, ops) = operands(base, p, args, args.len(), id.0 as nat);
            lemma_operands_state(base, p, args, args.len(), id.0 as nat);
            if ops is Ok {
                lemma_temp(q, "call"@);
            }
        },
        Node::List(items) => {
            let p1 = with_interned(p, "fn:list"@);
            lemma_interned(p, "fn:list"@);
            let (q, ops) = operands(base, p1, items, items.len(), id.0 as nat);
            lemma_operands_state(base, p1, items, items.len(), id.0 as nat);
            if ops is Ok {
                lemma_temp(q, "list"@);
            }
        },
        Node::Dict { keys, values: vs } => {
            let n = least(keys.len(), vs.len());
            let ids = interleaved(keys, vs, n);
            lemma_interleaved(keys, vs, n, id.0 as nat);
            let p1 = with_interned(p, "fn:map"@);
            lemma_interned(p, "fn:map"@);
            let (q, ops) = operands(base, p1, ids, ids.len(), id.0 as nat);
            lemma_operands_state(base, p1, ids, ids.len(), id.0 as nat);
            if ops is Ok {
                lemma_temp(q, "map"@);
            }
        },
        Node::Struct { fields, values: vs } => {
            let h = with_names(p.g, fields, fields.len());
            lemma_with_names(p.g, fields, fields.len());
            let p0 = PlanState { g: h, ..p };
            let p1 = with_interned(p0, "fn:struct"@);
            lemma_interned(p0, "fn:struct"@);
            let (q, ops) = field_operands(base, p1, fields, vs, vs.len(), id.0 as nat);
            lemma_field_operands_state(base, p1, fields, vs, vs.len(), id.0 as nat);
            if ops is Ok {
                lemma_temp(q, "struct"@);
            }
        },
        _ => {},
    }
}

pub(crate) proof fn lemma_operands_state(base: Graph, p: PlanState, ids: Seq<InstId>, n: nat, limit: nat)
    requires
        base.wf(),
        p.g.wf(),
        base.extended_by(p.g),
        limit <= base.nodes.len(),
        ids_below(ids, limit),
        n <= ids.len(),
        room(p, weights(base, ids, n, limit)),
    ensures
        spent(p, operands(base, p, ids, n, limit).0, weights(base, ids, n, limit)),
    decreases limit, 0nat, n,
{
    if n > 0 {
        lemma_operands_state(base, p, ids, (n - 1) as nat, limit);
        let (q, so_far) = operands(base, p, ids, (n - 1) as nat, limit);
        if so_far is Ok {
            lemma_evaluated_state(base, q, ids[n - 1]);
        }
    }
}

proof fn lemma_field_operands_state(
    base: Graph,
    p: PlanState,
    fields: Seq<NameId>,
    ids: Seq<InstId>,
    n: nat,
    limit: nat,
)
    requires
        base.wf(),
        p.g.wf(),
        base.extended_by(p.g),
        limit <= base.nodes.len(),
        ids_below(ids, limit),
        n <= ids.len(),
        room(p, weights(base, ids, n, limit)),
    ensures
        spent(p, field_operands(base, p, fields, ids, n, limit).0, weights(base, ids, n, limit)),
    decreases limit, 0nat, n,
{
    if n > 0 {
        lemma_field_operands_state(base, p, fields, ids, (n - 1) as nat, limit);
        let (q, so_far) = field_operands(base, p, fields, ids, (n - 1) as nat, limit);
        if so_far is Ok {
            lemma_evaluated_state(base, q, ids[n - 1]);
        }
    }
}

/// What is planned for a term computes its value.
pub(crate) proof fn lemma_evaluated(w: World, names: Seq<Seq<char>>, base: Graph, p: PlanState, id: InstId)
    requires
        base.wf(),
        p.g.wf(),
        base.extended_by(p.g),
        base.has(id),
        plain_vars(base),
        room(p, weight(base, id)),
        names_in(evaluated(base, p, id).0.g, names),
        evaluated(base, p, id).1 is Ok,
    ensures
        ({
            let (q, r) = evaluated(base, p, id);
            computes(w, names, r->Ok_0.0, r->Ok_0.1, base, id, p.fresh as nat, q.fresh as nat)
        }),
    decreases id.0, 1nat, 0nat,
{
    assert(base.nodes[id.0 as int].fits(id.0 as nat, base.names.len(), base.strings.len()));
    lemma_evaluated_state(base, p, id);
    let end = evaluated(base, p, id).0.g;
    match base.node(id) {
        Node::ApplyFn { function, args } => {
            let (q, ops) = operands(base, p, args, args.len(), id.0 as nat);
            lemma_operands_state(base, p, args, args.len(), id.0 as nat);
            lemma_temp(q, "call"@);
            lemma_operands(w, names, base, p, args, args.len(), id.0 as nat);
            let vs = |env: Env| values(w, base, args, args.len(), id.0 as nat, env);
            assert(base.names[function.0 as int] == p.g.names[function.0 as int]);
            assert(p.g.names[function.0 as int] == end.names[function.0 as int]);
            assert(names[function.0 as int] == end.names[function.0 as int]);
            lemma_called(
                w,
                names,
                base,
                id,
                q,
                ops->Ok_0.0,
                ops->Ok_0.1,
                vs,
                function,
                "call"@,
                p.fresh as nat,
            );
        },
        Node::List(items) => {
            let p1 = with_interned(p, "fn:list"@);
            let function = p.g.name_id("fn:list"@);
            lemma_interned(p, "fn:list"@);
            let (q, ops) = operands(base, p1, items, items.len(), id.0 as nat);
            lemma_operands_state(base, p1, items, items.len(), id.0 as nat);
            lemma_temp(q, "list"@);
            lemma_operands(w, names, base, p1, items, items.len(), id.0 as nat);
            let vs = |env: Env| values(w, base, items, items.len(), id.0 as nat, env);
            assert(p1.g.names[function.0 as int] == end.names[function.0 as int]);
            assert(names[function.0 as int] == end.names[function.0 as int]);
            lemma_called(
                w,
                names,
                base,
                id,
                q,
                ops->Ok_0.0,
                ops->Ok_0.1,
                vs,
                function,
                "list"@,
                p.fresh as nat,
            );
        },
        Node::Dict { keys, values: xs } => {
            let n = least(keys.len(), xs.len());
            let ids = interleaved(keys, xs, n);
            lemma_interleaved(keys, xs, n, id.0 as nat);
            let p1 = with_interned(p, "fn:map"@);
            let function = p.g.name_id("fn:map"@);
            lemma_interned(p, "fn:map"@);
            let (q, ops) = operands(base, p1, ids, ids.len(), id.0 as nat);
            lemma_operands_state(base, p1, ids, ids.len(), id.0 as nat);
            lemma_temp(q, "map"@);
            lemma_operands(w, names, base, p1, ids, ids.len(), id.0 as nat);
            let vs = |env: Env| values(w, base, ids, ids.len(), id.0 as nat, env);
            assert(p1.g.names[function.0 as int] == end.names[function.0 as int]);
            assert(names[function.0 as int] == end.names[function.0 as int]);
            lemma_called(
                w,
                names,
                base,
                id,
                q,
                ops->Ok_0.0,
                ops->Ok_0.1,
                vs,
                function,
                "map"@,
                p.fresh as nat,
            );
        },
        Node::Struct { fields, values: xs } => {
            let h = with_names(p.g, fields, fields.len());
            lemma_with_names(p.g, fields, fields.len());
            let p0 = PlanState { g: h, ..p };
            let p1 = with_interned(p0, "fn:struct"@);
            let function = h.name_id("fn:struct"@);
            lemma_interned(p0, "fn:struct"@);
            let (q, ops) = field_operands(base, p1, fields, xs, xs.len(), id.0 as nat);
            lemma_field_operands_state(base, p1, fields, xs, xs.len(), id.0 as nat);
            lemma_temp(q, "struct"@);
            lemma_field_operands(w, names, base, p1, fields, xs, xs.len(), id.0 as nat);
            let vs = |env: Env| field_values(w, base, fields, xs, xs.len(), id.0 as nat, env);
            assert(p1.g.names[function.0 as int] == end.names[function.0 as int]);
            assert(names[function.0 as int] == end.names[function.0 as int]);
            lemma_called(
                w,
                names,
                base,
                id,
                q,
                ops->Ok_0.0,
                ops->Ok_0.1,
                vs,
                function,
                "struct"@,
                p.fresh as nat,
            );
        },
        Node::Var(v) => {
            assert(base.nodes[id.0 as int] == Node::Var(v));
            assert(base.names[v.0 as int] == p.g.names[v.0 as int]);
            assert(names[v.0 as int] == p.g.names[v.0 as int]);
        },
        _ => {},
    }
}

/// One more term after others.
proof fn lemma_next(
    w: World,
    names: Seq<Seq<char>>,
    base: Graph,
    id: InstId,
    bs: Seq<(NameId, Term)>,
    ops: Seq<Operand>,
    vs: spec_fn(Env) -> Seq<Val>,
    b: Seq<(NameId, Term)>,
    o: Operand,
    lo: nat,
    mid: nat,
    hi: nat,
)
    requires
        base.wf(),
        base.has(id),
        plain_vars(base),
        base.names.is_prefix_of(names),
        lo <= mid <= hi,
        compute(w, names, bs, ops, vs, lo, mid),
        computes(w, names, b, o, base, id, mid, hi),
    ensures
        compute(w, names, bs + b, ops.push(o), |env: Env| vs(env).push(value(w, base, id, env)), lo, hi),
{
    let all = bs + b;
    let out = ops.push(o);
    assert forall|i: int| 0 <= i < out.len() implies operand_in(names, #[trigger] out[i], lo, hi) by {
        if i < ops.len() {
            assert(out[i] == ops[i]);
            lemma_operand_wider(names, ops[i], lo, lo, mid, hi);
        } else {
            lemma_operand_wider(names, o, lo, mid, hi, hi);
        }
    }
    lemma_plain_within(base, names, id);
    assert forall|env: Env| #[trigger]
        after(w, names, all, env) == after(w, names, all, env) && agree(
            names,
            env,
            after(w, names, all, env),
            lo,
            hi,
        ) && operand_values(w, after(w, names, all, env), out) == vs(env).push(
            value(w, base, id, env),
        ) by {
        lemma_after(w, names, bs, b, env);
        let e = after(w, names, bs, env);
        let f = after(w, names, b, e);
        assert(e == after(w, names, bs, env));
        assert(f == after(w, names, b, e));
        lemma_agree(names, env, e, f, lo, mid, hi);
        lemma_agree_plain(names, env, e, lo, mid);
        lemma_value_same(w, base, id, plain_set(names), env, e);
        assert forall|i: int| 0 <= i < out.len() implies operand_values(w, f, out)[i] == vs(env).push(
            value(w, base, id, env),
        )[i] by {
            if i < ops.len() {
                lemma_operand_kept(w, names, ops[i], lo, mid, hi, e, f);
                assert(operand_values(w, e, ops)[i] == vs(env)[i]);
            }
        }
        assert(operand_values(w, e, ops).len() == vs(env).len());
        assert(operand_values(w, f, out) =~= vs(env).push(value(w, base, id, env)));
    }
}

/// What is planned for terms computes their values.
pub(crate) proof fn lemma_operands(
    w: World,
    names: Seq<Seq<char>>,
    base: Graph,
    p: PlanState,
    ids: Seq<InstId>,
    n: nat,
    limit: nat,
)
    requires
        base.wf(),
        p.g.wf(),
        base.extended_by(p.g),
        limit <= base.nodes.len(),
        ids_below(ids, limit),
        n <= ids.len(),
        plain_vars(base),
        room(p, weights(base, ids, n, limit)),
        names_in(operands(base, p, ids, n, limit).0.g, names),
        operands(base, p, ids, n, limit).1 is Ok,
    ensures
        ({
            let (q, r) = operands(base, p, ids, n, limit);
            compute(
                w,
                names,
                r->Ok_0.0,
                r->Ok_0.1,
                |env: Env| values(w, base, ids, n, limit, env),
                p.fresh as nat,
                q.fresh as nat,
            )
        }),
    decreases limit, 0nat, n,
{
    let target = |env: Env| values(w, base, ids, n, limit, env);
    lemma_operands_state(base, p, ids, n, limit);
    if n == 0 {
        let none = Seq::<Operand>::empty();
        assert forall|env: Env| operand_values(w, env, none) =~= #[trigger] target(env) by {}
    } else {
        let (q, so_far) = operands(base, p, ids, (n - 1) as nat, limit);
        lemma_operands_state(base, p, ids, (n - 1) as nat, limit);
        lemma_evaluated_state(base, q, ids[n - 1]);
        lemma_operands(w, names, base, p, ids, (n - 1) as nat, limit);
        lemma_evaluated(w, names, base, q, ids[n - 1]);
        let (r, last) = evaluated(base, q, ids[n - 1]);
        let vs = |env: Env| values(w, base, ids, (n - 1) as nat, limit, env);
        lemma_next(
            w,
            names,
            base,
            ids[n - 1],
            so_far->Ok_0.0,
            so_far->Ok_0.1,
            vs,
            last->Ok_0.0,
            last->Ok_0.1,
            p.fresh as nat,
            q.fresh as nat,
            r.fresh as nat,
        );
        let made = |env: Env| vs(env).push(value(w, base, ids[n - 1], env));
        assert forall|env: Env| #[trigger] made(env) == target(env) by {}
        assert(made =~= target);
    }
}

/// What is planned for fields computes their names and values.
proof fn lemma_field_operands(
    w: World,
    names: Seq<Seq<char>>,
    base: Graph,
    p: PlanState,
    fields: Seq<NameId>,
    ids: Seq<InstId>,
    n: nat,
    limit: nat,
)
    requires
        base.wf(),
        p.g.wf(),
        base.extended_by(p.g),
        limit <= base.nodes.len(),
        ids_below(ids, limit),
        n <= ids.len(),
        plain_vars(base),
        room(p, weights(base, ids, n, limit)),
        names_in(field_operands(base, p, fields, ids, n, limit).0.g, names),
        field_operands(base, p, fields, ids, n, limit).1 is Ok,
    ensures
        ({
            let (q, r) = field_operands(base, p, fields, ids, n, limit);
            compute(
                w,
                names,
                r->Ok_0.0,
                r->Ok_0.1,
                |env: Env| field_values(w, base, fields, ids, n, limit, env),
                p.fresh as nat,
                q.fresh as nat,
            )
        }),
    decreases limit, 0nat, n,
{
    let target = |env: Env| field_values(w, base, fields, ids, n, limit, env);
    lemma_field_operands_state(base, p, fields, ids, n, limit);
    if n == 0 {
        let none = Seq::<Operand>::empty();
        assert forall|env: Env| operand_values(w, env, none) =~= #[trigger] target(env) by {}
    } else {
        let (q, so_far) = field_operands(base, p, fields, ids, (n - 1) as nat, limit);
        lemma_field_operands_state(base, p, fields, ids, (n - 1) as nat, limit);
        lemma_evaluated_state(base, q, ids[n - 1]);
        lemma_field_operands(w, names, base, p, fields, ids, (n - 1) as nat, limit);
        lemma_evaluated(w, names, base, q, ids[n - 1]);
        let (r, last) = evaluated(base, q, ids[n - 1]);
        let vs = |env: Env| field_values(w, base, fields, ids, (n - 1) as nat, limit, env);
        let bs = so_far->Ok_0.0;
        let ops = so_far->Ok_0.1;
        let name = Operand::Const(Constant::Name(fields[n - 1]));
        let named = ops.push(name);
        let with_name = |env: Env| vs(env).push((w.constant)(Constant::Name(fields[n - 1])));
        assert forall|i: int| 0 <= i < named.len() implies operand_in(
            names,
            #[trigger] named[i],
            p.fresh as nat,
            q.fresh as nat,
        ) by {
            if i < ops.len() {
                assert(named[i] == ops[i]);
            }
        }
        assert forall|env: Env| #[trigger]
            after(w, names, bs, env) == after(w, names, bs, env) && agree(
                names,
                env,
                after(w, names, bs, env),
                p.fresh as nat,
                q.fresh as nat,
            ) && operand_values(w, after(w, names, bs, env), named) == with_name(env) by {
            let e = after(w, names, bs, env);
            assert(operand_values(w, e, ops) == vs(env));
            assert forall|i: int| 0 <= i < named.len() implies operand_values(w, e, named)[i]
                == with_name(env)[i] by {
                if i < ops.len() {
                    assert(operand_values(w, e, ops)[i] == vs(env)[i]);
                }
            }
            assert(operand_values(w, e, ops).len() == vs(env).len());
            assert(operand_values(w, e, named) =~= with_name(env));
        }
        lemma_next(
            w,
            names,
            base,
            ids[n - 1],
            bs,
            named,
            with_name,
            last->Ok_0.0,
            last->Ok_0.1,
            p.fresh as nat,
            q.fresh as nat,
            r.fresh as nat,
        );
        let made = |env: Env| with_name(env).push(value(w, base, ids[n - 1], env));
        assert forall|env: Env| #[trigger] made(env) == target(env) by {}
        assert(made =~= target);
    }
}

/// A term is as heavy in a later graph.
pub(crate) proof fn lemma_weight_stable(g: Graph, later: Graph, id: InstId)
    requires
        g.wf(),
        later.wf(),
        g.extended_by(later),
        g.has(id),
    ensures
        weight(later, id) == weight(g, id),
    decreases id.0, 1nat, 0nat,
{
    assert(g.nodes[id.0 as int].fits(id.0 as nat, g.names.len(), g.strings.len()));
    lemma_same(g, later, id);
    match g.node(id) {
        Node::ApplyFn { function, args } => {
            lemma_weights_stable(g, later, args, args.len(), id.0 as nat, id.0 as nat);
        },
        Node::List(items) => {
            lemma_weights_stable(g, later, items, items.len(), id.0 as nat, id.0 as nat);
        },
        Node::Dict { keys, values: vs } => {
            let n = least(keys.len(), vs.len());
            let ids = interleaved(keys, vs, n);
            lemma_interleaved(keys, vs, n, id.0 as nat);
            lemma_weights_stable(g, later, ids, ids.len(), id.0 as nat, id.0 as nat);
        },
        Node::Struct { fields, values: vs } => {
            lemma_weights_stable(g, later, vs, vs.len(), id.0 as nat, id.0 as nat);
        },
        _ => {},
    }
}

pub(crate) proof fn lemma_weights_stable(
    g: Graph,
    later: Graph,
    ids: Seq<InstId>,
    n: nat,
    limit: nat,
    other: nat,
)
    requires
        g.wf(),
        later.wf(),
        g.extended_by(later),
        limit <= g.nodes.len(),
        ids_below(ids, limit),
        other <= later.nodes.len(),
        ids_below(ids, other),
        n <= ids.len(),
    ensures
        weights(later, ids, n, other) == weights(g, ids, n, limit),
        n <= weights(g, ids, n, limit),
    decreases limit, 0nat, n,
{
    if n > 0 {
        lemma_weights_stable(g, later, ids, (n - 1) as nat, limit, other);
        lemma_weight_stable(g, later, ids[n - 1]);
        assert(weight(g, ids[n - 1]) >= 1);
    }
}

/// The graph of a state of planning extends the one that holds the rule.
pub open spec fn follows(g: Graph, p: PlanState) -> bool {
    g.wf() && p.g.wf() && g.extended_by(p.g)
}

/// The parts of an instruction of the graph are in it.
pub(crate) proof fn lemma_fits(g: Graph, id: InstId)
    requires
        g.wf(),
        g.has(id),
    ensures
        g.node(id).fits(id.0 as nat, g.names.len(), g.strings.len()),
{
    assert(g.nodes[id.0 as int].fits(id.0 as nat, g.names.len(), g.strings.len()));
}

/// The state after planning an expression.
pub(crate) proof fn lemma_term_state(g: Graph, p: PlanState, id: InstId)
    requires
        follows(g, p),
        g.has(id),
        room(p, weight(g, id)),
    ensures
        spent(p, term_planned(p, id).0, weight(g, id)),
{
    lemma_fits(g, id);
    lemma_same(g, p.g, id);
    lemma_weight_stable(g, p.g, id);
    match g.node(id) {
        Node::ApplyFn { function, args } => {
            lemma_weights_stable(g, p.g, args, args.len(), id.0 as nat, p.g.nodes.len());
            lemma_operands_state(p.g, p, args, args.len(), p.g.nodes.len());
        },
        _ => {
            lemma_evaluated_state(p.g, p, id);
        },
    }
}

/// The state after planning two terms.
pub(crate) proof fn lemma_both_state(g: Graph, p: PlanState, l: InstId, r: InstId)
    requires
        follows(g, p),
        g.has(l),
        g.has(r),
        room(p, weight(g, l) + weight(g, r)),
    ensures
        spent(p, both_evaluated(p, l, r).0, weight(g, l) + weight(g, r)),
{
    lemma_weight_stable(g, p.g, l);
    lemma_evaluated_state(p.g, p, l);
    let (q, a) = evaluated(p.g, p, l);
    if a is Ok {
        lemma_weight_stable(g, q.g, r);
        lemma_evaluated_state(q.g, q, r);
    }
}

/// The weight of two terms.
pub(crate) proof fn lemma_pair_weight(g: Graph, args: Seq<InstId>)
    requires
        g.wf(),
        ids_below(args, g.nodes.len()),
        args.len() == 2,
    ensures
        list_weight(g, args) == weight(g, args[0]) + weight(g, args[1]),
{
    assert(weights(g, args, 0, g.nodes.len()) == 0);
    assert(weights(g, args, 1, g.nodes.len()) == weight(g, args[0]));
}

/// The variables are plain names of the graph.
pub open spec fn plain_in(names: Seq<Seq<char>>, b: Set<NameId>) -> bool {
    forall|v: NameId| #[trigger] b.contains(v) ==> v.0 < names.len() && plain(names, v)
}

/// Bindings that compute an expression.
pub open spec fn term_computed(
    w: World,
    names: Seq<Seq<char>>,
    bs: Seq<(NameId, Term)>,
    expr: Term,
    g: Graph,
    id: InstId,
    lo: nat,
    hi: nat,
) -> bool {
    forall|env: Env| #[trigger]
        after(w, names, bs, env) == after(w, names, bs, env) && agree(
            names,
            env,
            after(w, names, bs, env),
            lo,
            hi,
        ) && term_value(w, names, after(w, names, bs, env), expr) == value(w, g, id, env)
}

/// What is planned for an expression computes its value.
pub(crate) proof fn lemma_term(w: World, names: Seq<Seq<char>>, g: Graph, p: PlanState, id: InstId)
    requires
        follows(g, p),
        g.has(id),
        plain_vars(p.g),
        room(p, weight(g, id)),
        names_in(term_planned(p, id).0.g, names),
        term_planned(p, id).1 is Ok,
    ensures
        ({
            let (q, r) = term_planned(p, id);
            term_computed(w, names, r->Ok_0.0, r->Ok_0.1, g, id, p.fresh as nat, q.fresh as nat)
        }),
{
    lemma_fits(g, id);
    lemma_same(g, p.g, id);
    lemma_weight_stable(g, p.g, id);
    lemma_term_state(g, p, id);
    let (q, r) = term_planned(p, id);
    match g.node(id) {
        Node::ApplyFn { function, args } => {
            let limit = p.g.nodes.len();
            lemma_weights_stable(g, p.g, args, args.len(), id.0 as nat, limit);
            lemma_operands(w, names, p.g, p, args, args.len(), limit);
            let (bs, ops) = operands(p.g, p, args, args.len(), limit).1->Ok_0;
            let vs = |env: Env| values(w, p.g, args, args.len(), limit, env);
            assert(g.names[function.0 as int] == p.g.names[function.0 as int]);
            assert(p.g.names[function.0 as int] == q.g.names[function.0 as int]);
            assert(q.g.names[function.0 as int] == names[function.0 as int]);
            assert forall|env: Env| #[trigger]
                after(w, names, bs, env) == after(w, names, bs, env) && agree(
                    names,
                    env,
                    after(w, names, bs, env),
                    p.fresh as nat,
                    q.fresh as nat,
                ) && term_value(w, names, after(w, names, bs, env), Term::Call { function, args: ops })
                    == value(w, g, id, env) by {
                assert(operand_values(w, after(w, names, bs, env), ops) == vs(env));
                lemma_limit(w, p.g, args, args.len(), limit, id.0 as nat, env);
                lemma_values_stable(w, g, p.g, args, args.len(), id.0 as nat, env);
            }
        },
        _ => {
            lemma_evaluated(w, names, p.g, p, id);
            let (bs, o) = evaluated(p.g, p, id).1->Ok_0;
            assert forall|env: Env| #[trigger]
                after(w, names, bs, env) == after(w, names, bs, env) && agree(
                    names,
                    env,
                    after(w, names, bs, env),
                    p.fresh as nat,
                    q.fresh as nat,
                ) && term_value(w, names, after(w, names, bs, env), Term::Value(o)) == value(
                    w,
                    g,
                    id,
                    env,
                ) by {
                lemma_value_stable(w, g, p.g, id, env);
            }
        },
    }
}

/// Bindings that compute two terms.
pub open spec fn both_computed(
    w: World,
    names: Seq<Seq<char>>,
    bs: Seq<(NameId, Term)>,
    x: Operand,
    y: Operand,
    g: Graph,
    l: InstId,
    r: InstId,
    lo: nat,
    hi: nat,
) -> bool {
    forall|env: Env| #[trigger]
        after(w, names, bs, env) == after(w, names, bs, env) && agree(
            names,
            env,
            after(w, names, bs, env),
            lo,
            hi,
        ) && operand(w, after(w, names, bs, env), x) == value(w, g, l, env) && operand(
            w,
            after(w, names, bs, env),
            y,
        ) == value(w, g, r, env)
}

/// What is planned for two terms computes their values.
pub(crate) proof fn lemma_both(
    w: World,
    names: Seq<Seq<char>>,
    g: Graph,
    p: PlanState,
    l: InstId,
    r: InstId,
)
    requires
        follows(g, p),
        g.has(l),
        g.has(r),
        plain_vars(p.g),
        room(p, weight(g, l) + weight(g, r)),
        names_in(both_evaluated(p, l, r).0.g, names),
        both_evaluated(p, l, r).1 is Ok,
    ensures
        ({
            let (q, e) = both_evaluated(p, l, r);
            both_computed(
                w,
                names,
                e->Ok_0.0,
                e->Ok_0.1,
                e->Ok_0.2,
                g,
                l,
                r,
                p.fresh as nat,
                q.fresh as nat,
            )
        }),
{
    lemma_both_state(g, p, l, r);
    lemma_weight_stable(g, p.g, l);
    lemma_evaluated_state(p.g, p, l);
    let (m, a) = evaluated(p.g, p, l);
    lemma_weight_stable(g, m.g, r);
    lemma_evaluated_state(m.g, m, r);
    let (q, c) = evaluated(m.g, m, r);
    lemma_evaluated(w, names, p.g, p, l);
    lemma_evaluated(w, names, m.g, m, r);
    let (bs, x) = a->Ok_0;
    let (cs, y) = c->Ok_0;
    let lo = p.fresh as nat;
    let mid = m.fresh as nat;
    let hi = q.fresh as nat;
    lemma_plain_within(m.g, names, r);
    assert forall|env: Env| #[trigger]
        after(w, names, bs + cs, env) == after(w, names, bs + cs, env) && agree(
            names,
            env,
            after(w, names, bs + cs, env),
            lo,
            hi,
        ) && operand(w, after(w, names, bs + cs, env), x) == value(w, g, l, env) && operand(
            w,
            after(w, names, bs + cs, env),
            y,
        ) == value(w, g, r, env) by {
        lemma_after(w, names, bs, cs, env);
        let e = after(w, names, bs, env);
        let f = after(w, names, cs, e);
        assert(e == after(w, names, bs, env));
        assert(f == after(w, names, cs, e));
        lemma_agree(names, env, e, f, lo, mid, hi);
        lemma_operand_kept(w, names, x, lo, mid, hi, e, f);
        lemma_agree_plain(names, env, e, lo, mid);
        lemma_value_same(w, m.g, r, plain_set(names), env, e);
        lemma_value_stable(w, g, p.g, l, env);
        lemma_value_stable(w, g, m.g, r, env);
    }
}

/// Every number of a temporary is below this.
pub open spec fn top() -> nat {
    (usize::MAX + 1) as nat
}

/// A smaller range of temporaries.
pub(crate) proof fn lemma_agree_wider(
    names: Seq<Seq<char>>,
    s: Env,
    t: Env,
    lo: nat,
    mid: nat,
    hi: nat,
    up: nat,
)
    requires
        agree(names, s, t, mid, hi),
        lo <= mid,
        hi <= up,
    ensures
        agree(names, s, t, lo, up),
{
    assert forall|v: NameId| #![trigger s[v]] #![trigger t[v]]
        v.0 < names.len() && !is_temp(names, v, lo, up) implies s[v] == t[v] by {
        if is_temp(names, v, mid, hi) {
            lemma_temp_wider(names, v, lo, mid, hi, up);
        }
        assert(s[v] == t[v]);
    }
}

/// The values of terms one by one.
pub(crate) proof fn lemma_values_at(w: World, g: Graph, ids: Seq<InstId>, n: nat, limit: nat, s: Env)
    requires
        g.wf(),
        limit <= g.nodes.len(),
        ids_below(ids, limit),
        n <= ids.len(),
    ensures
        values(w, g, ids, n, limit, s).len() == n,
        forall|k: int|
            0 <= k < n ==> (#[trigger] values(w, g, ids, n, limit, s)[k]) == value(w, g, ids[k], s),
    decreases n,
{
    if n > 0 {
        lemma_values_at(w, g, ids, (n - 1) as nat, limit, s);
        let before = values(w, g, ids, (n - 1) as nat, limit, s);
        let all = values(w, g, ids, n, limit, s);
        assert(all == before.push(value(w, g, ids[n - 1], s)));
        assert forall|k: int| 0 <= k < n implies (#[trigger] all[k]) == value(w, g, ids[k], s) by {
            if k < n - 1 {
                assert(all[k] == before[k]);
            }
        }
    }
}

} // verus!
