//! The relations of a program: which are derived, which are given, and with how many columns
//! they are used.
use vstd::prelude::*;

use crate::bounds_check::{program_error, reason_in, BoundsReason};
use crate::bounds_check::{BoundsChecker, BoundsError};
use crate::ir::{Graph, Node};
use crate::ir::{Inst, InstId, Ir, NameId};
use crate::schedule::texts;
use crate::text::decimal;
use crate::text::{push_decimal, starts_with};

verus! {

/// An atom that is used: its predicate and how many arguments it has.
pub type Use = (NameId, nat);

/// The use that an instruction is.
pub open spec fn atom_use(g: Graph, id: InstId) -> Option<Use> {
    match g.node(id) {
        Node::Atom { predicate, args } => Some((predicate, args.len())),
        _ => None,
    }
}

/// The use that a premise makes, negated or not.
pub open spec fn premise_use(g: Graph, id: InstId) -> Option<Use> {
    match g.node(id) {
        Node::NegAtom(inner) => atom_use(g, inner),
        _ => atom_use(g, id),
    }
}

/// Uses with one more.
pub open spec fn with_use(us: Seq<Use>, u: Option<Use>) -> Seq<Use> {
    match u {
        Some(u) => us.push(u),
        None => us,
    }
}

/// Uses with those of the first `n` premises.
pub open spec fn premise_uses(g: Graph, premises: Seq<InstId>, us: Seq<Use>, n: nat) -> Seq<Use>
    decreases n,
{
    if n == 0 {
        us
    } else {
        with_use(premise_uses(g, premises, us, (n - 1) as nat), premise_use(g, premises[n - 1]))
    }
}

/// The uses by the premises of the rules among the first `n` instructions.
pub open spec fn read_uses(g: Graph, n: nat) -> Seq<Use>
    decreases n,
{
    if n == 0 {
        Seq::empty()
    } else {
        let before = read_uses(g, (n - 1) as nat);
        match g.nodes[n - 1] {
            Node::Rule { premises, .. } => premise_uses(g, premises, before, premises.len()),
            _ => before,
        }
    }
}

/// The uses by the heads of the rules among the first `n` instructions.
pub open spec fn head_uses(g: Graph, n: nat) -> Seq<Use>
    decreases n,
{
    if n == 0 {
        Seq::empty()
    } else {
        let before = head_uses(g, (n - 1) as nat);
        match g.nodes[n - 1] {
            Node::Rule { head, .. } => with_use(before, atom_use(g, head)),
            _ => before,
        }
    }
}

/// The uses by the rules among the first `n` instructions, heads before premises.
pub open spec fn all_uses(g: Graph, n: nat) -> Seq<Use>
    decreases n,
{
    if n == 0 {
        Seq::empty()
    } else {
        let before = all_uses(g, (n - 1) as nat);
        match g.nodes[n - 1] {
            Node::Rule { head, premises, .. } => premise_uses(
                g,
                premises,
                with_use(before, atom_use(g, head)),
                premises.len(),
            ),
            _ => before,
        }
    }
}

/// Whether a predicate is used.
pub open spec fn used(us: Seq<Use>, p: NameId) -> bool {
    exists|i: int| 0 <= i < us.len() && (#[trigger] us[i]).0 == p
}

/// The model of uses.
pub open spec fn uses_of(v: Seq<(NameId, usize)>) -> Seq<Use> {
    Seq::new(v.len(), |i: int| (v[i].0, v[i].1 as nat))
}

/// Whether all uses are of names that there are.
pub open spec fn uses_in(us: Seq<Use>, names: nat) -> bool {
    forall|i: int| 0 <= i < us.len() ==> (#[trigger] us[i]).0.0 < names
}

/// Appends the use that an instruction is.
fn push_atom_use(ir: &Ir, id: InstId, out: &mut Vec<(NameId, usize)>)
    requires
        ir@.wf(),
        ir@.has(id),
        uses_in(uses_of(old(out)@), ir@.names.len()),
    ensures
        uses_of(final(out)@) == with_use(uses_of(old(out)@), atom_use(ir@, id)),
        uses_in(uses_of(final(out)@), ir@.names.len()),
{
    let ghost before = uses_of(out@);
    assert(ir@.nodes[id.0 as int].fits(id.0 as nat, ir@.names.len(), ir@.strings.len()));
    if let Inst::Atom { predicate, args } = ir.get(id) {
        out.push((*predicate, args.len()));
        assert(uses_of(out@) =~= before.push((*predicate, args@.len())));
    }
}

/// Appends the uses that premises make.
fn push_premise_uses(ir: &Ir, premises: &Vec<InstId>, out: &mut Vec<(NameId, usize)>)
    requires
        ir@.wf(),
        crate::ir::ids_below(premises@, ir@.nodes.len()),
        uses_in(uses_of(old(out)@), ir@.names.len()),
    ensures
        uses_of(final(out)@) == premise_uses(ir@, premises@, uses_of(old(out)@), premises@.len()),
        uses_in(uses_of(final(out)@), ir@.names.len()),
{
    let ghost start = uses_of(out@);
    let mut n: usize = 0;
    while n < premises.len()
        invariant
            n <= premises@.len(),
            uses_of(out@) == premise_uses(ir@, premises@, start, n as nat),
            uses_in(uses_of(out@), ir@.names.len()),
        decreases premises@.len() - n,
    {
        let id = premises[n];
        assert(ir@.nodes[id.0 as int].fits(id.0 as nat, ir@.names.len(), ir@.strings.len()));
        let mut at = id;
        if let Inst::NegAtom(inner) = ir.get(id) {
            at = *inner;
        }
        push_atom_use(ir, at, out);
        n += 1;
    }
}

/// The uses by the rules of a program.
fn collect_uses(ir: &Ir, heads: bool, reads: bool) -> (r: Vec<(NameId, usize)>)
    requires
        ir@.wf(),
        heads || reads,
    ensures
        uses_of(r@) == (if heads && reads {
            all_uses(ir@, ir@.nodes.len())
        } else if heads {
            head_uses(ir@, ir@.nodes.len())
        } else {
            read_uses(ir@, ir@.nodes.len())
        }),
        uses_in(uses_of(r@), ir@.names.len()),
{
    let mut out: Vec<(NameId, usize)> = Vec::new();
    let n = ir.len();
    let mut i: usize = 0;
    assert(uses_of(out@) =~= Seq::<Use>::empty());
    while i < n
        invariant
            i <= n,
            n == ir@.nodes.len(),
            uses_of(out@) == (if heads && reads {
                all_uses(ir@, i as nat)
            } else if heads {
                head_uses(ir@, i as nat)
            } else {
                read_uses(ir@, i as nat)
            }),
            uses_in(uses_of(out@), ir@.names.len()),
        decreases n - i,
    {
        let id = InstId(i);
        assert(ir@.nodes[i as int].fits(i as nat, ir@.names.len(), ir@.strings.len()));
        assert(ir@.node(id) == ir@.nodes[i as int]);
        if let Inst::Rule { head, premises, .. } = ir.get(id) {
            if heads {
                push_atom_use(ir, *head, &mut out);
            }
            if reads {
                push_premise_uses(ir, premises, &mut out);
            }
        }
        i += 1;
    }
    out
}

/// Which of the names are used.
fn used_flags(us: &Vec<(NameId, usize)>, names: usize) -> (r: Vec<bool>)
    requires
        uses_in(uses_of(us@), names as nat),
    ensures
        r@.len() == names,
        forall|x: int| 0 <= x < names ==> #[trigger] r@[x] == used(uses_of(us@), NameId(x as usize)),
{
    let ghost all = uses_of(us@);
    let mut flags: Vec<bool> = Vec::new();
    let mut k: usize = 0;
    while k < names
        invariant
            k <= names,
            flags@.len() == k,
            forall|x: int| 0 <= x < k ==> !#[trigger] flags@[x],
        decreases names - k,
    {
        flags.push(false);
        k += 1;
    }
    let mut i: usize = 0;
    while i < us.len()
        invariant
            i <= us@.len(),
            flags@.len() == names,
            forall|x: int|
                0 <= x < names ==> #[trigger] flags@[x] == used(all.take(i as int), NameId(x as usize)),
        decreases us@.len() - i,
    {
        let ghost before = flags@;
        let p = us[i].0;
        assert(all[i as int].0 == p);
        flags.set(p.0, true);
        proof {
            let (some, more) = (all.take(i as int), all.take(i + 1));
            assert forall|x: int| 0 <= x < names implies #[trigger] flags@[x] == used(more, NameId(x as usize)) by {
                let q = NameId(x as usize);
                if used(some, q) {
                    let j = choose|j: int| 0 <= j < some.len() && (#[trigger] some[j]).0 == q;
                    assert(more[j].0 == q);
                }
                if used(more, q) {
                    let j = choose|j: int| 0 <= j < more.len() && (#[trigger] more[j]).0 == q;
                    if j < i {
                        assert(some[j].0 == q);
                    }
                }
                assert(more[i as int].0 == p);
                assert(before[x] == used(some, q));
            }
        }
        i += 1;
    }
    assert(all.take(all.len() as int) =~= all);
    flags
}

/// The names among the first `n` that are used one way and not another.
pub open spec fn names_where(g: Graph, by: Seq<Use>, not_by: Seq<Use>, n: nat) -> Seq<Seq<char>>
    decreases n,
{
    if n == 0 {
        Seq::empty()
    } else {
        let rest = names_where(g, by, not_by, (n - 1) as nat);
        let id = NameId((n - 1) as usize);
        if used(by, id) && !used(not_by, id) {
            rest.push(g.name(id))
        } else {
            rest
        }
    }
}

fn pick_names(ir: &Ir, by: &Vec<(NameId, usize)>, not_by: &Vec<(NameId, usize)>) -> (r: Vec<String>)
    requires
        ir@.wf(),
        uses_in(uses_of(by@), ir@.names.len()),
        uses_in(uses_of(not_by@), ir@.names.len()),
    ensures
        texts(r@) == names_where(ir@, uses_of(by@), uses_of(not_by@), ir@.names.len()),
{
    let n = ir.num_names();
    let picked = used_flags(by, n);
    let left_out = used_flags(not_by, n);
    let mut out: Vec<String> = Vec::new();
    let mut i: usize = 0;
    assert(texts(out@) =~= Seq::<Seq<char>>::empty());
    while i < n
        invariant
            i <= n,
            texts(out@) == names_where(ir@, uses_of(by@), uses_of(not_by@), i as nat),
        decreases n - i,
    {
        let ghost before = texts(out@);
        if picked[i] && !left_out[i] {
            out.push(ir.resolve_name(NameId(i)).to_owned());
            assert(texts(out@) =~= before.push(ir@.name(NameId(i))));
        }
        i += 1;
    }
    out
}

/// The relations that rules add to.
pub fn derived_relations(ir: &Ir) -> (r: Vec<String>)
    requires
        ir@.wf(),
    ensures
        texts(r@) == names_where(
            ir@,
            head_uses(ir@, ir@.nodes.len()),
            Seq::empty(),
            ir@.names.len(),
        ),
{
    let heads = collect_uses(ir, true, false);
    let none: Vec<(NameId, usize)> = Vec::new();
    assert(uses_of(none@) =~= Seq::<Use>::empty());
    pick_names(ir, &heads, &none)
}

/// The relations that rules read and none adds to: their facts have to be given.
pub fn extensional_relations(ir: &Ir) -> (r: Vec<String>)
    requires
        ir@.wf(),
    ensures
        texts(r@) == names_where(
            ir@,
            read_uses(ir@, ir@.nodes.len()),
            head_uses(ir@, ir@.nodes.len()),
            ir@.names.len(),
        ),
{
    let heads = collect_uses(ir, true, false);
    let reads = collect_uses(ir, false, true);
    pick_names(ir, &reads, &heads)
}

/// Whether the arguments of a predicate are counted. Those of a built-in one are checked
/// elsewhere, and those of a relation of intervals may lack the interval.
pub open spec fn counted(g: Graph, p: NameId) -> bool {
    !(":"@.is_prefix_of(g.name(p))) && !g.temporal.contains(p)
}

/// The number of arguments of the first use of a predicate.
pub open spec fn first_arity(us: Seq<Use>, p: NameId) -> nat
    decreases us.len(),
{
    if us.len() == 0 {
        0
    } else if us[0].0 == p {
        us[0].1
    } else {
        first_arity(us.drop_first(), p)
    }
}

/// Whether a use has another number of arguments than the first of its predicate.
pub open spec fn clashes(g: Graph, us: Seq<Use>, k: int) -> bool {
    counted(g, us[k].0) && us[k].1 != first_arity(us, us[k].0)
}

/// A predicate that is used with different numbers of arguments.
#[derive(Debug, Clone, Copy, PartialEq, Eq, Structural)]
pub struct ArityClash {
    pub predicate: NameId,
    /// How many arguments the first use has.
    pub expected: usize,
    /// How many another use has.
    pub found: usize,
}

/// Whether an error tells of the first use that clashes.
pub open spec fn first_clash(g: Graph, us: Seq<Use>, e: ArityClash) -> bool {
    exists|k: int|
        0 <= k < us.len() && #[trigger] clashes(g, us, k) && (forall|j: int|
            0 <= j < k ==> !#[trigger] clashes(g, us, j)) && e.predicate == us[k].0 && e.found as nat
            == us[k].1 && e.expected as nat == first_arity(us, us[k].0)
}

/// The first use of a predicate.
proof fn lemma_first_arity(us: Seq<Use>, i: int)
    requires
        0 <= i < us.len(),
        forall|j: int| 0 <= j < i ==> (#[trigger] us[j]).0 != us[i].0,
    ensures
        first_arity(us, us[i].0) == us[i].1,
    decreases us.len(),
{
    if i > 0 {
        assert(us[0].0 != us[i].0);
        assert forall|j: int| 0 <= j < i - 1 implies (#[trigger] us.drop_first()[j]).0 != us[i].0 by {
            assert(us[j + 1].0 != us[i].0);
        }
        lemma_first_arity(us.drop_first(), i - 1);
    }
}

/// Checks that every predicate is used with one number of arguments.
pub fn check_arities(ir: &Ir) -> (r: Result<(), ArityClash>)
    requires
        ir@.wf(),
    ensures
        r is Ok <==> (forall|k: int|
            0 <= k < all_uses(ir@, ir@.nodes.len()).len() ==> !#[trigger] clashes(
                ir@,
                all_uses(ir@, ir@.nodes.len()),
                k,
            )),
        r matches Err(e) ==> first_clash(ir@, all_uses(ir@, ir@.nodes.len()), e) && ir@.has_name(e.predicate),
{
    let us = collect_uses(ir, true, true);
    let ghost all = uses_of(us@);
    let n = ir.num_names();
    let mut seen: Vec<Option<usize>> = Vec::new();
    let mut k: usize = 0;
    while k < n
        invariant
            k <= n,
            seen@.len() == k,
            forall|x: int| 0 <= x < k ==> (#[trigger] seen@[x]) is None,
        decreases n - k,
    {
        seen.push(None);
        k += 1;
    }
    let mut i: usize = 0;
    while i < us.len()
        invariant
            i <= us@.len(),
            seen@.len() == n,
            forall|j: int| 0 <= j < i ==> !#[trigger] clashes(ir@, all, j),
            forall|x: int|
                0 <= x < n ==> match #[trigger] seen@[x] {
                    Some(a) => first_arity(all, NameId(x as usize)) == a && used(
                        all.take(i as int),
                        NameId(x as usize),
                    ),
                    None => !used(all.take(i as int), NameId(x as usize)),
                },
        decreases us@.len() - i,
    {
        let (p, found) = us[i];
        assert(all[i as int] == (p, found as nat));
        let ghost before = seen@;
        let ghost (some, more) = (all.take(i as int), all.take(i + 1));
        match seen[p.0] {
            Some(expected) => {
                if expected != found && !starts_with(ir.resolve_name(p), ":") && !ir.is_temporal(p) {
                    assert(clashes(ir@, all, i as int));
                    return Err(ArityClash { predicate: p, expected, found });
                }
            },
            None => {
                proof {
                    assert forall|j: int| 0 <= j < i implies (#[trigger] all[j]).0 != p by {
                        assert(some[j] == all[j]);
                    }
                    lemma_first_arity(all, i as int);
                }
                seen.set(p.0, Some(found));
            },
        }
        proof {
            assert(more[i as int].0 == p);
            assert forall|q: NameId| #[trigger] used(more, q) <==> used(some, q) || q == p by {
                if used(some, q) {
                    let j = choose|j: int| 0 <= j < some.len() && (#[trigger] some[j]).0 == q;
                    assert(more[j].0 == q);
                }
                if used(more, q) {
                    let j = choose|j: int| 0 <= j < more.len() && (#[trigger] more[j]).0 == q;
                    if j < i {
                        assert(some[j].0 == q);
                    }
                }
            }
            assert forall|x: int| 0 <= x < n implies match #[trigger] seen@[x] {
                Some(a) => first_arity(all, NameId(x as usize)) == a && used(more, NameId(x as usize)),
                None => !used(more, NameId(x as usize)),
            } by {
                assert(before[x] == before[x]);
            }
        }
        i += 1;
    }
    Ok(())
}

impl ArityClash {
    /// What the error says.
    pub fn message(&self, ir: &Ir) -> (r: String)
        requires
            ir@.wf(),
            ir@.has_name(self.predicate),
        ensures
            r@ == "predicate "@ + ir@.name(self.predicate) + " has inconsistent arity: "@ + decimal(
                self.expected as nat,
            ) + " and "@ + decimal(self.found as nat),
    {
        let mut s = "predicate ".to_owned().concat(ir.resolve_name(self.predicate)).concat(
            " has inconsistent arity: ",
        );
        push_decimal(&mut s, self.expected as u64);
        let mut t = s.concat(" and ");
        push_decimal(&mut t, self.found as u64);
        t
    }
}

/// Why a program is refused.
#[derive(Debug)]
pub enum ProgramError {
    Arity(ArityClash),
    Bounds(BoundsError),
}

/// Checks a program: predicates are used with one number of arguments, and facts and rules fit
/// the declared types.
pub fn validate_program(ir: &mut Ir) -> (r: Result<(), ProgramError>)
    requires
        old(ir)@.wf(),
    ensures
        final(ir)@.wf(),
        ({
            let us = all_uses(old(ir)@, old(ir)@.nodes.len());
            let clash = exists|k: int| 0 <= k < us.len() && #[trigger] clashes(old(ir)@, us, k);
            match r {
                Ok(()) => !clash && program_error(old(ir)@) == (final(ir)@, None::<BoundsReason>),
                Err(ProgramError::Arity(e)) => first_clash(old(ir)@, us, e) && final(ir)@ == old(ir)@
                    && final(ir)@.has_name(e.predicate),
                Err(ProgramError::Bounds(e)) => !clash && program_error(old(ir)@) == (
                    final(ir)@,
                    Some(e@),
                ) && reason_in(final(ir)@, e@),
            }
        }),
{
    if let Err(e) = check_arities(ir) {
        return Err(ProgramError::Arity(e));
    }
    let mut checker = BoundsChecker::new(ir);
    match checker.check() {
        Ok(()) => Ok(()),
        Err(e) => Err(ProgramError::Bounds(e)),
    }
}

} // verus!
