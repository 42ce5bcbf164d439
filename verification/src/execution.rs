//! The order in which a planned program is run.
//!
//! An [`Execution`] names one step at a time. Whoever performs the steps says of each how many
//! rows it added, and is told the next one.
use vstd::prelude::*;

use crate::driver::{plan_strata, strata_planned, stratum_models, StratumModel, StratumPlan};
use crate::ir::{Graph, Ir, NameId};
use crate::physical::{Op, Plan};
use crate::plan_expr::PlanError;
use crate::schedule::{text_lists, texts};

verus! {

/// What is run: the relations that are made first, the plans of every stratum, and the
/// relations whose intervals are joined after every stratum.
pub struct Run {
    pub relations: Seq<Seq<char>>,
    pub strata: Seq<Option<StratumModel>>,
    pub temporals: Seq<Seq<char>>,
}

/// Where an execution stands: the step that is to be performed next.
#[derive(Clone, Copy)]
pub enum Phase {
    /// Making a relation.
    Create(usize),
    /// A plan of a stratum that is run once.
    Initial { stratum: usize, plan: usize },
    /// The merge before the first round of a recursive stratum.
    FirstMerge { stratum: usize },
    /// A plan over new rows, and whether one before it in the same round added a row.
    Round { stratum: usize, plan: usize, changed: bool },
    /// The merge between two rounds.
    RoundMerge { stratum: usize },
    /// Joining intervals after the last round.
    LoopCoalesce { stratum: usize, relation: usize },
    /// The merge at the end of a stratum.
    LastMerge { stratum: usize },
    /// Joining intervals at the end of a stratum.
    LastCoalesce { stratum: usize, relation: usize },
    /// Nothing is left to do.
    Done,
}

/// A step of an execution.
pub enum Step<'a> {
    Create(&'a str),
    Execute(&'a Op),
    Merge,
    Coalesce(&'a str),
    Finished,
}

/// The model of a [`Step`].
pub enum Action {
    Create(Seq<char>),
    Execute(Plan),
    Merge,
    Coalesce(Seq<char>),
    Finished,
}

impl<'a> Step<'a> {
    /// The model of the step.
    pub open spec fn action(self) -> Action {
        match self {
            Step::Create(name) => Action::Create(name@),
            Step::Execute(op) => Action::Execute(op@),
            Step::Merge => Action::Merge,
            Step::Coalesce(name) => Action::Coalesce(name@),
            Step::Finished => Action::Finished,
        }
    }
}

impl Run {
    /// The plans of a stratum that are run once.
    pub open spec fn initial(self, s: int) -> Seq<Plan> {
        match self.strata[s] {
            Some(StratumModel::NonRecursive(ops)) => ops,
            Some(StratumModel::Recursive { initial, .. }) => initial,
            None => Seq::empty(),
        }
    }

    /// The plans of a stratum over new rows.
    pub open spec fn deltas(self, s: int) -> Seq<Plan> {
        match self.strata[s] {
            Some(StratumModel::Recursive { deltas, .. }) => deltas,
            _ => Seq::empty(),
        }
    }

    /// Whether a stratum is recursive.
    pub open spec fn loops(self, s: int) -> bool {
        self.strata[s] matches Some(StratumModel::Recursive { .. })
    }

    /// Whether the phase speaks of what there is.
    pub open spec fn admits(self, p: Phase) -> bool {
        match p {
            Phase::Create(i) => i < self.relations.len(),
            Phase::Initial { stratum, plan } => stratum < self.strata.len() && plan < self.initial(
                stratum as int,
            ).len(),
            Phase::FirstMerge { stratum } => stratum < self.strata.len() && self.loops(stratum as int),
            Phase::Round { stratum, plan, .. } => stratum < self.strata.len() && plan < self.deltas(
                stratum as int,
            ).len(),
            Phase::RoundMerge { stratum } => stratum < self.strata.len() && self.loops(stratum as int),
            Phase::LoopCoalesce { stratum, relation } => stratum < self.strata.len() && self.loops(
                stratum as int,
            ) && relation < self.temporals.len(),
            Phase::LastMerge { stratum } => stratum < self.strata.len(),
            Phase::LastCoalesce { stratum, relation } => stratum < self.strata.len() && relation
                < self.temporals.len(),
            Phase::Done => true,
        }
    }

    /// The step of a phase.
    pub open spec fn action(self, p: Phase) -> Action {
        match p {
            Phase::Create(i) => Action::Create(self.relations[i as int]),
            Phase::Initial { stratum, plan } => Action::Execute(self.initial(stratum as int)[plan as int]),
            Phase::FirstMerge { .. } => Action::Merge,
            Phase::Round { stratum, plan, .. } => Action::Execute(self.deltas(stratum as int)[plan as int]),
            Phase::RoundMerge { .. } => Action::Merge,
            Phase::LoopCoalesce { relation, .. } => Action::Coalesce(self.temporals[relation as int]),
            Phase::LastMerge { .. } => Action::Merge,
            Phase::LastCoalesce { relation, .. } => Action::Coalesce(self.temporals[relation as int]),
            Phase::Done => Action::Finished,
        }
    }

    /// The first phase of a stratum.
    pub open spec fn entered(self, s: int) -> Phase {
        let stratum = s as usize;
        if s >= self.strata.len() {
            Phase::Done
        } else if self.initial(s).len() > 0 {
            Phase::Initial { stratum, plan: 0 }
        } else if self.loops(s) {
            Phase::FirstMerge { stratum }
        } else {
            Phase::LastMerge { stratum }
        }
    }

    /// The phase after the last round.
    pub open spec fn settled(self, stratum: usize) -> Phase {
        if self.temporals.len() > 0 {
            Phase::LoopCoalesce { stratum, relation: 0 }
        } else {
            Phase::LastMerge { stratum }
        }
    }

    /// The first phase of a round. A round without plans adds nothing and is the last.
    pub open spec fn round(self, stratum: usize) -> Phase {
        if self.deltas(stratum as int).len() > 0 {
            Phase::Round { stratum, plan: 0, changed: false }
        } else {
            self.settled(stratum)
        }
    }

    /// The first phase of an execution.
    pub open spec fn first(self) -> Phase {
        if self.relations.len() > 0 {
            Phase::Create(0)
        } else {
            self.entered(0)
        }
    }

    /// The phase after one whose step added a row or did not.
    pub open spec fn after(self, p: Phase, added: bool) -> Phase {
        match p {
            Phase::Create(i) => if i + 1 < self.relations.len() {
                Phase::Create((i + 1) as usize)
            } else {
                self.entered(0)
            },
            Phase::Initial { stratum, plan } => if plan + 1 < self.initial(stratum as int).len() {
                Phase::Initial { stratum, plan: (plan + 1) as usize }
            } else if self.loops(stratum as int) {
                Phase::FirstMerge { stratum }
            } else {
                Phase::LastMerge { stratum }
            },
            Phase::FirstMerge { stratum } => self.round(stratum),
            Phase::Round { stratum, plan, changed } => if plan + 1 < self.deltas(stratum as int).len() {
                Phase::Round { stratum, plan: (plan + 1) as usize, changed: changed || added }
            } else if changed || added {
                Phase::RoundMerge { stratum }
            } else {
                self.settled(stratum)
            },
            Phase::RoundMerge { stratum } => self.round(stratum),
            Phase::LoopCoalesce { stratum, relation } => if relation + 1 < self.temporals.len() {
                Phase::LoopCoalesce { stratum, relation: (relation + 1) as usize }
            } else {
                Phase::LastMerge { stratum }
            },
            Phase::LastMerge { stratum } => if self.temporals.len() > 0 {
                Phase::LastCoalesce { stratum, relation: 0 }
            } else {
                self.entered(stratum + 1)
            },
            Phase::LastCoalesce { stratum, relation } => if relation + 1 < self.temporals.len() {
                Phase::LastCoalesce { stratum, relation: (relation + 1) as usize }
            } else {
                self.entered(stratum + 1)
            },
            Phase::Done => Phase::Done,
        }
    }

    /// The phase after `n` steps, of which each added a row or did not.
    pub open spec fn reached(self, added: Seq<bool>, n: nat) -> Phase
        decreases n,
    {
        if n == 0 {
            self.first()
        } else {
            self.after(self.reached(added, (n - 1) as nat), added[n - 1])
        }
    }

    /// Whether machine integers can count what there is.
    pub open spec fn fits(self) -> bool {
        &&& self.relations.len() <= usize::MAX
        &&& self.strata.len() <= usize::MAX
        &&& self.temporals.len() <= usize::MAX
        &&& forall|s: int|
            #![trigger self.initial(s)]
            #![trigger self.deltas(s)]
            0 <= s < self.strata.len() ==> self.initial(s).len() <= usize::MAX
                && self.deltas(s).len() <= usize::MAX
    }
}

/// Where in the order of strata a phase stands: making relations comes before the first, and
/// the end after the last.
pub open spec fn place(run: Run, p: Phase) -> int {
    match p {
        Phase::Create(_) => -1,
        Phase::Initial { stratum, .. } => stratum as int,
        Phase::FirstMerge { stratum } => stratum as int,
        Phase::Round { stratum, .. } => stratum as int,
        Phase::RoundMerge { stratum } => stratum as int,
        Phase::LoopCoalesce { stratum, .. } => stratum as int,
        Phase::LastMerge { stratum } => stratum as int,
        Phase::LastCoalesce { stratum, .. } => stratum as int,
        Phase::Done => run.strata.len() as int,
    }
}

/// Every phase that an execution reaches speaks of what there is.
pub proof fn phases_are_admitted(run: Run, added: Seq<bool>, n: nat)
    requires
        run.fits(),
    ensures
        run.admits(run.reached(added, n)),
    decreases n,
{
    if n > 0 {
        phases_are_admitted(run, added, (n - 1) as nat);
    }
}

/// Strata are run in their order: a step stays in its stratum or goes on to the next one.
pub proof fn strata_run_in_order(run: Run, added: Seq<bool>, n: nat)
    requires
        run.fits(),
    ensures
        ({
            let here = place(run, run.reached(added, n));
            let there = place(run, run.reached(added, n + 1));
            here <= there <= here + 1
        }),
{
    phases_are_admitted(run, added, n);
}

/// A round in which a row was added is followed by a merge and by another round.
pub proof fn a_round_with_new_rows_is_repeated(run: Run, added: Seq<bool>, n: nat)
    requires
        run.fits(),
        run.reached(added, n) matches Phase::Round { stratum, plan, changed } && plan + 1
            == run.deltas(stratum as int).len() && (changed || added[n as int]),
    ensures
        run.reached(added, n)->Round_stratum == run.reached(added, n + 2)->Round_stratum,
        run.action(run.reached(added, n + 1)) == Action::Merge,
        run.reached(added, n + 2) matches Phase::Round { plan, changed, .. } && plan == 0 && !changed,
{
    phases_are_admitted(run, added, n);
    let st = run.reached(added, n)->Round_stratum;
    assert(run.reached(added, n + 1) == Phase::RoundMerge { stratum: st });
    assert(run.reached(added, n + 2) == run.after(
        run.reached(added, n + 1),
        added[(n + 2) - 1],
    ));
}

/// Up to a plan of a round, the round ran the plans before it, and `changed` says whether one
/// of them added a row.
proof fn lemma_round_so_far(run: Run, added: Seq<bool>, n: nat)
    requires
        run.fits(),
        run.reached(added, n) is Round,
    ensures
        ({
            let (s, i, c) = (
                run.reached(added, n)->Round_stratum,
                run.reached(added, n)->Round_plan,
                run.reached(added, n)->Round_changed,
            );
            &&& i <= n
            &&& forall|j: int|
                0 <= j < i ==> {
                    let p = #[trigger] run.reached(added, (n - i + j) as nat);
                    p is Round && p->Round_stratum == s && p->Round_plan == j
                }
            &&& c == exists|j: int| 0 <= j < i && #[trigger] added[n - i + j]
        }),
    decreases n,
{
    phases_are_admitted(run, added, n);
    let p = run.reached(added, n);
    let (s, i, c) = (p->Round_stratum, p->Round_plan, p->Round_changed);
    if n > 0 {
        phases_are_admitted(run, added, (n - 1) as nat);
        assert(p == run.after(run.reached(added, (n - 1) as nat), added[n - 1]));
    }
    if i > 0 {
        let q = run.reached(added, (n - 1) as nat);
        assert(q is Round && q->Round_stratum == s && q->Round_plan + 1 == i);
        lemma_round_so_far(run, added, (n - 1) as nat);
        let k = q->Round_plan as int;
        assert(n - 1 - k == n - i);
        assert forall|j: int| 0 <= j < i implies {
            let r = #[trigger] run.reached(added, (n - i + j) as nat);
            r is Round && r->Round_stratum == s && r->Round_plan == j
        } by {
            if j < k {
                assert(run.reached(added, ((n - 1) as nat - k + j) as nat) is Round);
            } else {
                assert((n - i + j) as nat == (n - 1) as nat);
            }
        }
        if c {
            if added[n - 1] {
                assert(added[n - i + k]);
            } else {
                let j = choose|j: int| 0 <= j < k && #[trigger] added[(n - 1) as nat - k + j];
                assert(added[n - i + j]);
            }
        } else {
            assert forall|j: int| 0 <= j < i implies !#[trigger] added[n - i + j] by {
                if j < k {
                    assert(!added[(n - 1) as nat - k + j]);
                }
            }
        }
    }
}

/// A recursive stratum is left only after a whole round that added no row: all its plans over
/// new rows were run, one after another, and none added any.
pub proof fn a_loop_ends_after_a_round_without_new_rows(run: Run, added: Seq<bool>, n: nat)
    requires
        run.fits(),
        run.reached(added, n) is Round,
        !(run.reached(added, n + 1) is Round),
        !(run.reached(added, n + 1) is RoundMerge),
    ensures
        ({
            let s = run.reached(added, n)->Round_stratum;
            let m = run.deltas(s as int).len();
            &&& run.reached(added, n + 1) == run.settled(s)
            &&& m <= n + 1
            &&& forall|j: int|
                0 <= j < m ==> {
                    let p = #[trigger] run.reached(added, (n + 1 - m + j) as nat);
                    &&& run.action(p) == Action::Execute(run.deltas(s as int)[j])
                    &&& !added[n + 1 - m + j]
                }
        }),
{
    phases_are_admitted(run, added, n);
    lemma_round_so_far(run, added, n);
    let p = run.reached(added, n);
    let s = p->Round_stratum;
    let i = p->Round_plan;
    let m = run.deltas(s as int).len();
    assert(run.reached(added, n + 1) == run.after(p, added[(n + 1) - 1]));
    assert(m == i + 1);
    assert forall|j: int| 0 <= j < m implies {
        let q = #[trigger] run.reached(added, (n + 1 - m + j) as nat);
        &&& run.action(q) == Action::Execute(run.deltas(s as int)[j])
        &&& !added[n + 1 - m + j]
    } by {
        if j < i {
            assert(run.reached(added, (n - i + j) as nat) is Round);
            assert(!added[n - i + j]);
        } else {
            assert((n + 1 - m + j) as nat == n);
        }
    }
}

/// The phase after `n` steps that add nothing.
pub open spec fn quiet(run: Run, p: Phase, n: nat) -> Phase
    decreases n,
{
    if n == 0 {
        p
    } else {
        quiet(run, run.after(p, false), (n - 1) as nat)
    }
}

/// The parts of a stratum that are ahead of a phase when nothing is added any more.
pub closed spec fn rank(p: Phase) -> nat {
    match p {
        Phase::Create(_) => 0,
        Phase::Initial { .. } => 7,
        Phase::FirstMerge { .. } => 6,
        Phase::Round { changed, .. } => if changed {
            5
        } else {
            3
        },
        Phase::RoundMerge { .. } => 4,
        Phase::LoopCoalesce { .. } => 2,
        Phase::LastMerge { .. } => 1,
        Phase::LastCoalesce { .. } => 0,
        Phase::Done => 0,
    }
}

/// The steps of the same kind that are ahead of a phase.
pub closed spec fn alike(run: Run, p: Phase) -> int {
    match p {
        Phase::Create(i) => run.relations.len() - i,
        Phase::Initial { stratum, plan } => run.initial(stratum as int).len() - plan,
        Phase::Round { stratum, plan, .. } => run.deltas(stratum as int).len() - plan,
        Phase::LoopCoalesce { relation, .. } => run.temporals.len() - relation,
        Phase::LastCoalesce { relation, .. } => run.temporals.len() - relation,
        _ => 0,
    }
}

/// Once no step adds a row any more, the execution comes to its end.
pub proof fn an_execution_ends_once_nothing_is_added(run: Run, p: Phase) -> (n: nat)
    requires
        run.fits(),
        run.admits(p),
    ensures
        quiet(run, p, n) == Phase::Done,
    decreases run.strata.len() - place(run, p), rank(p), alike(run, p),
{
    if p is Done {
        0
    } else {
        let k = an_execution_ends_once_nothing_is_added(run, run.after(p, false));
        assert(quiet(run, p, k + 1) == quiet(run, run.after(p, false), k));
        k + 1
    }
}

/// The names that stand for relations of intervals, among the first `n`.
pub open spec fn temporal_texts(g: Graph, n: nat) -> Seq<Seq<char>>
    decreases n,
{
    if n == 0 {
        Seq::empty()
    } else {
        let rest = temporal_texts(g, (n - 1) as nat);
        let id = NameId((n - 1) as usize);
        if g.temporal.contains(id) {
            rest.push(g.name(id))
        } else {
            rest
        }
    }
}

/// The names of the relations of intervals.
pub fn temporal_names(ir: &Ir) -> (r: Vec<String>)
    requires
        ir@.wf(),
    ensures
        texts(r@) == temporal_texts(ir@, ir@.names.len()),
{
    let mut out: Vec<String> = Vec::new();
    let mut i: usize = 0;
    assert(texts(out@) =~= temporal_texts(ir@, 0));
    while i < ir.num_names()
        invariant
            i <= ir@.names.len(),
            texts(out@) == temporal_texts(ir@, i as nat),
        decreases ir@.names.len() - i,
    {
        let ghost before = texts(out@);
        let id = NameId(i);
        if ir.is_temporal(id) {
            out.push(ir.resolve_name(id).to_string());
            assert(texts(out@) =~= before.push(ir@.name(id)));
        }
        i += 1;
    }
    out
}

/// A planned program and where its execution stands.
pub struct Execution {
    relations: Vec<String>,
    strata: Vec<Option<StratumPlan>>,
    temporals: Vec<String>,
    phase: Phase,
}

impl Execution {
    /// What is run.
    pub closed spec fn run(&self) -> Run {
        Run {
            relations: texts(self.relations@),
            strata: stratum_models(self.strata@),
            temporals: texts(self.temporals@),
        }
    }

    /// Where the execution stands.
    pub closed spec fn phase(&self) -> Phase {
        self.phase
    }

    #[verifier::type_invariant]
    spec fn inv(&self) -> bool {
        self.run().admits(self.phase)
    }

    /// An execution of a stratified program at its start. `relations` are made first; `strata`
    /// lists the names of the relations of every stratum.
    pub fn new(ir: &mut Ir, hash_join: bool, relations: Vec<String>, strata: &Vec<Vec<String>>) -> (r: Result<
        Execution,
        PlanError,
    >)
        requires
            old(ir)@.wf(),
        ensures
            final(ir)@.wf(),
            old(ir)@.extended_by(final(ir)@),
            ({
                let (g, out) = strata_planned(
                    hash_join,
                    old(ir)@,
                    text_lists(strata@),
                    strata@.len(),
                );
                &&& final(ir)@ == g
                &&& match r {
                    Ok(e) => {
                        &&& out is Ok
                        &&& e.run() == Run {
                            relations: texts(relations@),
                            strata: out->Ok_0,
                            temporals: temporal_texts(g, g.names.len()),
                        }
                        &&& e.run().fits()
                        &&& e.phase() == e.run().first()
                    },
                    Err(e) => out == Err::<Seq<Option<StratumModel>>, PlanError>(e),
                }
            }),
    {
        match plan_strata(ir, hash_join, strata) {
            Err(e) => Err(e),
            Ok(planned) => {
                let temporals = temporal_names(ir);
                let phase = if relations.len() > 0 {
                    Phase::Create(0)
                } else {
                    entered(&planned, 0)
                };
                let e = Execution { relations, strata: planned, temporals, phase };
                proof {
                    lemma_fits(&e.relations, &e.strata, &e.temporals);
                }
                Ok(e)
            },
        }
    }

    /// The step that is to be performed.
    pub fn step(&self) -> (r: Step<'_>)
        ensures
            r.action() == self.run().action(self.phase()),
    {
        proof {
            use_type_invariant(self);
        }
        match self.phase {
            Phase::Create(i) => Step::Create(self.relations[i].as_str()),
            Phase::Initial { stratum, plan } => Step::Execute(initial_plan(&self.strata, stratum, plan)),
            Phase::FirstMerge { .. } => Step::Merge,
            Phase::Round { stratum, plan, .. } => Step::Execute(delta_plan(&self.strata, stratum, plan)),
            Phase::RoundMerge { .. } => Step::Merge,
            Phase::LoopCoalesce { relation, .. } => Step::Coalesce(self.temporals[relation].as_str()),
            Phase::LastMerge { .. } => Step::Merge,
            Phase::LastCoalesce { relation, .. } => Step::Coalesce(self.temporals[relation].as_str()),
            Phase::Done => Step::Finished,
        }
    }

    /// Goes on after the step was performed and added that many rows.
    pub fn advance(&mut self, changes: usize)
        ensures
            final(self).run() == old(self).run(),
            final(self).phase() == old(self).run().after(old(self).phase(), changes > 0),
    {
        proof {
            use_type_invariant(&*self);
            lemma_fits(&self.relations, &self.strata, &self.temporals);
        }
        let next = match self.phase {
            Phase::Create(i) => if i + 1 < self.relations.len() {
                Phase::Create(i + 1)
            } else {
                entered(&self.strata, 0)
            },
            Phase::Initial { stratum, plan } => if plan + 1 < initial_len(&self.strata, stratum) {
                Phase::Initial { stratum, plan: plan + 1 }
            } else if loops(&self.strata, stratum) {
                Phase::FirstMerge { stratum }
            } else {
                Phase::LastMerge { stratum }
            },
            Phase::FirstMerge { stratum } => round(&self.strata, &self.temporals, stratum),
            Phase::Round { stratum, plan, changed } => if plan + 1 < delta_len(&self.strata, stratum) {
                Phase::Round { stratum, plan: plan + 1, changed: changed || changes > 0 }
            } else if changed || changes > 0 {
                Phase::RoundMerge { stratum }
            } else {
                settled(&self.temporals, stratum)
            },
            Phase::RoundMerge { stratum } => round(&self.strata, &self.temporals, stratum),
            Phase::LoopCoalesce { stratum, relation } => if relation + 1 < self.temporals.len() {
                Phase::LoopCoalesce { stratum, relation: relation + 1 }
            } else {
                Phase::LastMerge { stratum }
            },
            Phase::LastMerge { stratum } => if self.temporals.len() > 0 {
                Phase::LastCoalesce { stratum, relation: 0 }
            } else {
                entered(&self.strata, stratum + 1)
            },
            Phase::LastCoalesce { stratum, relation } => if relation + 1 < self.temporals.len() {
                Phase::LastCoalesce { stratum, relation: relation + 1 }
            } else {
                entered(&self.strata, stratum + 1)
            },
            Phase::Done => Phase::Done,
        };
        self.phase = next;
    }
}

/// A run over these strata, with nothing else.
spec fn strata_run(strata: Seq<Option<StratumPlan>>) -> Run {
    Run { relations: Seq::empty(), strata: stratum_models(strata), temporals: Seq::empty() }
}

/// What vectors hold can be counted.
proof fn lemma_fits(relations: &Vec<String>, strata: &Vec<Option<StratumPlan>>, temporals: &Vec<String>)
    ensures
        (Run {
            relations: texts(relations@),
            strata: stratum_models(strata@),
            temporals: texts(temporals@),
        }).fits(),
{
    let run = Run {
        relations: texts(relations@),
        strata: stratum_models(strata@),
        temporals: texts(temporals@),
    };
    assert(relations@.len() == relations.len() && strata@.len() == strata.len() && temporals@.len()
        == temporals.len());
    assert forall|s: int|
        #![trigger run.initial(s)]
        #![trigger run.deltas(s)]
        0 <= s < run.strata.len() implies run.initial(s).len() <= usize::MAX && run.deltas(s).len()
        <= usize::MAX by {
        match strata@[s] {
            Some(StratumPlan::NonRecursive(ops)) => {
                assert(ops@.len() == ops.len());
            },
            Some(StratumPlan::Recursive { initial_ops, delta_plans }) => {
                assert(initial_ops@.len() == initial_ops.len());
                assert(delta_plans@.len() == delta_plans.len());
            },
            None => {},
        }
    }
}

/// The first phase of a stratum.
fn entered(strata: &Vec<Option<StratumPlan>>, s: usize) -> (r: Phase)
    ensures
        r == strata_run(strata@).entered(s as int),
{
    if s >= strata.len() {
        Phase::Done
    } else if initial_len(strata, s) > 0 {
        Phase::Initial { stratum: s, plan: 0 }
    } else if loops(strata, s) {
        Phase::FirstMerge { stratum: s }
    } else {
        Phase::LastMerge { stratum: s }
    }
}

/// How many plans of a stratum are run once.
fn initial_len(strata: &Vec<Option<StratumPlan>>, s: usize) -> (r: usize)
    requires
        s < strata@.len(),
    ensures
        r == strata_run(strata@).initial(s as int).len(),
{
    match &strata[s] {
        Some(StratumPlan::NonRecursive(ops)) => ops.len(),
        Some(StratumPlan::Recursive { initial_ops, .. }) => initial_ops.len(),
        None => 0,
    }
}

/// How many plans of a stratum are over new rows.
fn delta_len(strata: &Vec<Option<StratumPlan>>, s: usize) -> (r: usize)
    requires
        s < strata@.len(),
    ensures
        r == strata_run(strata@).deltas(s as int).len(),
{
    match &strata[s] {
        Some(StratumPlan::Recursive { delta_plans, .. }) => delta_plans.len(),
        _ => 0,
    }
}

/// Whether a stratum is recursive.
fn loops(strata: &Vec<Option<StratumPlan>>, s: usize) -> (r: bool)
    requires
        s < strata@.len(),
    ensures
        r == strata_run(strata@).loops(s as int),
{
    match &strata[s] {
        Some(StratumPlan::Recursive { .. }) => true,
        _ => false,
    }
}

/// A plan of a stratum that is run once.
fn initial_plan(strata: &Vec<Option<StratumPlan>>, s: usize, i: usize) -> (r: &Op)
    requires
        s < strata@.len(),
        i < strata_run(strata@).initial(s as int).len(),
    ensures
        r@ == strata_run(strata@).initial(s as int)[i as int],
{
    match &strata[s] {
        Some(StratumPlan::NonRecursive(ops)) => &ops[i],
        Some(StratumPlan::Recursive { initial_ops, .. }) => &initial_ops[i],
        None => vstd::pervasive::unreached(),
    }
}

/// A plan of a stratum over new rows.
fn delta_plan(strata: &Vec<Option<StratumPlan>>, s: usize, i: usize) -> (r: &Op)
    requires
        s < strata@.len(),
        i < strata_run(strata@).deltas(s as int).len(),
    ensures
        r@ == strata_run(strata@).deltas(s as int)[i as int],
{
    match &strata[s] {
        Some(StratumPlan::Recursive { delta_plans, .. }) => &delta_plans[i],
        _ => vstd::pervasive::unreached(),
    }
}

/// The phase after the last round.
fn settled(temporals: &Vec<String>, stratum: usize) -> (r: Phase)
    ensures
        r == (if temporals@.len() > 0 {
            Phase::LoopCoalesce { stratum, relation: 0 }
        } else {
            Phase::LastMerge { stratum }
        }),
{
    if temporals.len() > 0 {
        Phase::LoopCoalesce { stratum, relation: 0 }
    } else {
        Phase::LastMerge { stratum }
    }
}

/// The first phase of a round.
fn round(strata: &Vec<Option<StratumPlan>>, temporals: &Vec<String>, stratum: usize) -> (r: Phase)
    requires
        stratum < strata@.len(),
    ensures
        r == (if strata_run(strata@).deltas(stratum as int).len() > 0 {
            Phase::Round { stratum, plan: 0, changed: false }
        } else if temporals@.len() > 0 {
            Phase::LoopCoalesce { stratum, relation: 0 }
        } else {
            Phase::LastMerge { stratum }
        }),
{
    if delta_len(strata, stratum) > 0 {
        Phase::Round { stratum, plan: 0, changed: false }
    } else {
        settled(temporals, stratum)
    }
}

} // verus!
