use vstd::prelude::*;
use crate::span::Span;
use crate::expr::{
    Expression, Env, spec_refs, spec_refs_list, spec_eval, spec_eval_list, has_capture,
    lemma_eval_consumption,
};
use crate::scope::{
    Assignment, Scope, index_of_name, lemma_index_of_name, defines, lookup_name, dedupe,
    dedupe_spec, lemma_dedupe_spec,
};
use crate::feature::{FeatureGate, UnstableFeature};
use crate::error::EvalError;
use crate::scope::EvaluatedValue;
use crate::expr::Progress;

verus! {

/// The capture results handed to the engine so far for one assignment, each
/// as a character sequence, starting at position `from`.
pub open spec fn outs_from(outs: Seq<String>, from: int) -> Seq<Seq<char>> {
    outs.skip(from).map_values(|s: String| s@)
}

/// Dropping consumed results commutes with viewing them.
pub proof fn lemma_outs_from_skip(outs: Seq<String>, from: int, u: int)
    requires
        0 <= from,
        0 <= u,
        from + u <= outs.len(),
    ensures
        outs_from(outs, from).skip(u) == outs_from(outs, from + u),
{
    assert(outs_from(outs, from).skip(u) =~= outs_from(outs, from + u));
}

/// Whether one reference can be read back: the referenced name is defined
/// and its value is already memoized.
pub open spec fn ref_ready(asg: Seq<Assignment>, memo: Seq<Option<String>>, p: (Seq<char>, Span)) -> bool {
    let i = index_of_name(asg, p.0);
    0 <= i < memo.len() && memo[i] is Some
}

/// Whether every reference of `e` can be read back.
pub open spec fn refs_ready(e: Expression, asg: Seq<Assignment>, memo: Seq<Option<String>>) -> bool {
    forall|k: int|
        0 <= k < spec_refs(e).len() ==> ref_ready(asg, memo, #[trigger] spec_refs(e)[k])
}

/// The environment the memo table realizes: each defined-and-memoized name
/// maps to its memoized value.
pub open spec fn env_of(asg: Seq<Assignment>, memo: Seq<Option<String>>) -> Env {
    Map::new(
        |n: Seq<char>|
            {
                let i = index_of_name(asg, n);
                0 <= i < memo.len() && memo[i] is Some
            },
        |n: Seq<char>| memo[index_of_name(asg, n)]->Some_0@,
    )
}

/// Readiness of every reference of `parts[i..]` passes down to each part.
pub proof fn lemma_refs_ready_list(
    parts: Vec<Expression>,
    i: int,
    j: int,
    asg: Seq<Assignment>,
    memo: Seq<Option<String>>,
)
    requires
        0 <= i <= j < parts.len(),
        forall|k: int|
            0 <= k < spec_refs_list(parts, i).len() ==> ref_ready(
                asg,
                memo,
                #[trigger] spec_refs_list(parts, i)[k],
            ),
    ensures
        refs_ready(parts[j], asg, memo),
    decreases j - i,
{
    if i == j {
        assert forall|k: int|
            0 <= k < spec_refs(parts[j]).len() implies ref_ready(
            asg,
            memo,
            #[trigger] spec_refs(parts[j])[k],
        ) by {
            assert(spec_refs_list(parts, i)[k] == spec_refs(parts[j])[k]);
        }
    } else {
        assert forall|k: int|
            0 <= k < spec_refs_list(parts, i + 1).len() implies ref_ready(
            asg,
            memo,
            #[trigger] spec_refs_list(parts, i + 1)[k],
        ) by {
            assert(spec_refs_list(parts, i)[spec_refs(parts[i]).len() + k] == spec_refs_list(
                parts,
                i + 1,
            )[k]);
        }
        lemma_refs_ready_list(parts, i + 1, j, asg, memo);
    }
}

/// A concatenation part inherits readiness from the whole.
pub proof fn lemma_refs_ready_part(
    e: Expression,
    parts: Vec<Expression>,
    j: int,
    asg: Seq<Assignment>,
    memo: Seq<Option<String>>,
)
    requires
        refs_ready(e, asg, memo),
        e matches Expression::Concat { parts: p, .. } && p == parts,
        0 <= j < parts.len(),
    ensures
        refs_ready(parts[j], asg, memo),
{
    assert(spec_refs(e) == spec_refs_list(parts, 0));
    assert forall|k: int|
        0 <= k < spec_refs_list(parts, 0).len() implies ref_ready(
        asg,
        memo,
        #[trigger] spec_refs_list(parts, 0)[k],
    ) by {
        assert(ref_ready(asg, memo, spec_refs(e)[k]));
    }
    lemma_refs_ready_list(parts, 0, j, asg, memo);
}

/// Each operand of a conditional inherits readiness from the whole.
pub proof fn lemma_refs_ready_cond(e: Expression, asg: Seq<Assignment>, memo: Seq<Option<String>>)
    requires
        refs_ready(e, asg, memo),
        e is Conditional,
    ensures
        refs_ready(*e->Conditional_cond, asg, memo),
        refs_ready(*e->Conditional_then_branch, asg, memo),
        refs_ready(*e->Conditional_else_branch, asg, memo),
{
    let a = spec_refs(*e->Conditional_cond);
    let b = spec_refs(*e->Conditional_then_branch);
    let c = spec_refs(*e->Conditional_else_branch);
    assert(spec_refs(e) == a + b + c);
    assert forall|k: int| 0 <= k < a.len() implies ref_ready(asg, memo, #[trigger] a[k]) by {
        assert(spec_refs(e)[k] == a[k]);
    }
    assert forall|k: int| 0 <= k < b.len() implies ref_ready(asg, memo, #[trigger] b[k]) by {
        assert(spec_refs(e)[a.len() + k] == b[k]);
    }
    assert forall|k: int| 0 <= k < c.len() implies ref_ready(asg, memo, #[trigger] c[k]) by {
        assert(spec_refs(e)[a.len() + b.len() + k] == c[k]);
    }
}

/// What one pass over an expression produced: its value, or the first
/// capture for which no result has been supplied yet.
pub enum ExprResult {
    Done(String),
    Need { command: String, span: Span },
}

/// Evaluates `e` against the memo table and the capture results supplied so
/// far, consuming results from position `from` on. Returns the value and
/// the position after the last consumed result, or the first capture whose
/// result is missing — in which case every supplied result is consumed.
#[verifier::loop_isolation(false)]
fn eval_expr(
    e: &Expression,
    asg: &Vec<Assignment>,
    memo: &Vec<Option<String>>,
    outs: &Vec<String>,
    from: usize,
) -> (r: (ExprResult, usize))
    requires
        memo.len() == asg.len(),
        refs_ready(*e, asg@, memo@),
        from <= outs.len(),
    ensures
        r.1 <= outs.len(),
        ({
            let prog = spec_eval(*e, env_of(asg@, memo@), outs_from(outs@, from as int));
            match r.0 {
                ExprResult::Done(v) => prog matches Ok((t, u)) && v@ == t && r.1 == from + u,
                ExprResult::Need { command, span } => prog matches Err((c, s, u)) && command@ == c
                    && span == s && r.1 == from + u && r.1 == outs.len(),
            }
        }),
    decreases *e,
{
    let ghost env = env_of(asg@, memo@);
    match e {
        Expression::Literal { text, .. } => (ExprResult::Done(text.clone()), from),
        Expression::Reference { name, span } => {
            proof {
                assert(spec_refs(*e)[0] == (name@, *span));
                assert(ref_ready(asg@, memo@, (name@, *span)));
                lemma_index_of_name(asg@, name@);
            }
            let i = lookup_name(asg, name).unwrap();
            let v = memo[i].as_ref().unwrap().clone();
            proof {
                assert(env[name@] == memo@[index_of_name(asg@, name@)]->Some_0@);
            }
            (ExprResult::Done(v), from)
        },
        Expression::Capture { command, span } => {
            if from < outs.len() {
                proof {
                    assert(outs_from(outs@, from as int)[0] == outs@[from as int]@);
                }
                (ExprResult::Done(outs[from].clone()), from + 1)
            } else {
                (ExprResult::Need { command: command.clone(), span: *span }, from)
            }
        },
        Expression::Concat { parts, .. } => {
            let mut acc = String::new();
            let mut cur = from;
            let mut j: usize = 0;
            while j < parts.len()
                invariant
                    from <= cur <= outs.len(),
                    j <= parts.len(),
                    ({
                        let full = spec_eval_list(
                            *parts,
                            0,
                            env,
                            outs_from(outs@, from as int),
                        );
                        match spec_eval_list(*parts, j as int, env, outs_from(outs@, cur as int)) {
                            Ok((t, u)) => full matches Ok((ft, fu)) && ft == acc@ + t && fu == (cur
                                - from) + u,
                            Err((c, s, u)) => full matches Err((fc, fs, fu)) && fc == c && fs == s
                                && fu == (cur - from) + u,
                        }
                    }),
                decreases parts.len() - j,
            {
                proof {
                    assert((*e)->Concat_parts == *parts);
                    assert(decreases_to!(*e => (*e)->Concat_parts));
                    assert(decreases_to!(*parts => parts@));
                    assert(decreases_to!(parts@ => parts@[j as int]));
                    assert(decreases_to!(*e => parts@[j as int]));
                    lemma_refs_ready_part(*e, *parts, j as int, asg@, memo@);
                }
                let (pr, next) = eval_expr(&parts[j], asg, memo, outs, cur);
                match pr {
                    ExprResult::Done(v) => {
                        proof {
                            let sub = spec_eval(
                                parts@[j as int],
                                env,
                                outs_from(outs@, cur as int),
                            );
                            lemma_eval_consumption(
                                parts@[j as int],
                                env,
                                outs_from(outs@, cur as int),
                            );
                            lemma_outs_from_skip(outs@, cur as int, sub->Ok_0.1 as int);
                        }
                        acc.append(v.as_str());
                        cur = next;
                    },
                    ExprResult::Need { command, span } => {
                        proof {
                            let sub = spec_eval(
                                parts@[j as int],
                                env,
                                outs_from(outs@, cur as int),
                            );
                            lemma_eval_consumption(
                                parts@[j as int],
                                env,
                                outs_from(outs@, cur as int),
                            );
                        }
                        return (ExprResult::Need { command, span }, next);
                    },
                }
                j += 1;
            }
            proof {
                assert(spec_eval_list(*parts, parts.len() as int, env, outs_from(outs@, cur as int))
                    == Ok::<_, (Seq<char>, Span, nat)>((Seq::<char>::empty(), 0nat)));
                assert(acc@ + Seq::<char>::empty() =~= acc@);
            }
            (ExprResult::Done(acc), cur)
        },
        Expression::Conditional { cond, then_branch, else_branch, .. } => {
            proof {
                lemma_refs_ready_cond(*e, asg@, memo@);
            }
            let (cr, next) = eval_expr(cond, asg, memo, outs, from);
            match cr {
                ExprResult::Done(cv) => {
                    proof {
                        let sub = spec_eval(*(*cond), env, outs_from(outs@, from as int));
                        lemma_eval_consumption(*(*cond), env, outs_from(outs@, from as int));
                        lemma_outs_from_skip(outs@, from as int, sub->Ok_0.1 as int);
                    }
                    let branch: &Expression = if !cv.as_str().is_empty() {
                        then_branch
                    } else {
                        else_branch
                    };
                    let (br, after) = eval_expr(branch, asg, memo, outs, next);
                    proof {
                        lemma_eval_consumption(*branch, env, outs_from(outs@, next as int));
                    }
                    (br, after)
                },
                ExprResult::Need { command, span } => (
                    ExprResult::Need { command, span },
                    next,
                ),
            }
        },
    }
}

} // verus!

verus! {

/// The engine-level run state.
#[derive(Clone, Copy, Debug, PartialEq, Eq, Structural)]
pub enum EngineState {
    /// More evaluation work may be done: call [`Engine::step`].
    Running,
    /// A capture's command was handed out and its outcome is awaited: run
    /// it and call [`Engine::provide`].
    Awaiting,
    /// Every assignment in the evaluation order has a value.
    Completed,
    /// The run failed; [`Engine::failure`] holds the first error.
    Aborted,
}

/// What a call to [`Engine::step`] asks of the embedding.
pub enum StepOutcome {
    /// Run `command` through the command interpreter, then hand the exit
    /// code and captured standard output to [`Engine::provide`]. The span
    /// is that of the capture expression as written in source.
    RunCommand { command: String, span: Span },
    /// Evaluation finished; [`Engine::values`] returns the mapping.
    Finished,
}

/// The capture results supplied so far, as character sequences.
pub open spec fn outs_all(outs: Seq<String>) -> Seq<Seq<char>> {
    outs_from(outs, 0)
}

/// The environment of the values memoized for the first `k` positions of
/// the evaluation order.
pub open spec fn env_at(
    asg: Seq<Assignment>,
    order: Seq<usize>,
    memo: Seq<Option<String>>,
    k: int,
) -> Env {
    Map::new(
        |n: Seq<char>|
            {
                let i = index_of_name(asg, n);
                0 <= i < memo.len() && memo[i] is Some && crate::graph::in_order(order.take(k), i)
            },
        |n: Seq<char>| memo[index_of_name(asg, n)]->Some_0@,
    )
}

/// Every reference of the assignment at order position `k` resolves to an
/// assignment listed earlier in the order.
pub open spec fn refs_before(asg: Seq<Assignment>, order: Seq<usize>, k: int) -> bool {
    forall|r: int|
        0 <= r < spec_refs(asg[order[k] as int].value).len() ==> {
            let t = index_of_name(asg, (#[trigger] spec_refs(asg[order[k] as int].value)[r]).0);
            0 <= t < asg.len() && crate::graph::in_order(order.take(k), t)
        }
}

/// The dependency-aware evaluation engine for one scope. Construction
/// decides which assignments must be computed and in what order; stepping
/// evaluates them one by one, handing each capture expression's command out
/// to the embedding and memoizing each assignment's value so that it is
/// computed at most once per run.
pub struct Engine {
    /// The scope's assignments after last-wins shadowing.
    pub assignments: Vec<Assignment>,
    /// The evaluation order: the demand closure, topologically sorted.
    pub order: Vec<usize>,
    /// How many positions of `order` are fully evaluated.
    pub pos: usize,
    /// The memoized value of each assignment, `None` outside `order[..pos]`.
    pub memo: Vec<Option<String>>,
    /// The capture results supplied for the assignment at `order[pos]`.
    pub outs: Vec<String>,
    /// The run state.
    pub state: EngineState,
    /// The command handed out and not yet answered, in state `Awaiting`.
    pub pending: Option<(String, Span)>,
    /// The error that aborted the run, in state `Aborted`.
    pub failure: Option<EvalError>,
    /// The capture results each completed assignment consumed.
    pub history: Ghost<Seq<Seq<Seq<char>>>>,
}

impl Engine {
    /// The structural invariant every engine state satisfies.
    pub open spec fn wf(self) -> bool {
        let asg = self.assignments@;
        let order = self.order@;
        &&& self.memo.len() == asg.len()
        &&& crate::scope::names_unique(asg)
        &&& order.no_duplicates()
        &&& forall|k: int| 0 <= k < order.len() ==> 0 <= #[trigger] order[k] < asg.len()
        &&& forall|k: int| 0 <= k < order.len() ==> #[trigger] refs_before(asg, order, k)
        &&& self.pos <= order.len()
        &&& forall|j: int|
            0 <= j < asg.len() ==> ((#[trigger] self.memo@[j]) is Some <==> crate::graph::in_order(
                order.take(self.pos as int),
                j,
            ))
        &&& self.history@.len() == self.pos
        &&& forall|k: int|
            0 <= k < self.pos ==> {
                &&& (#[trigger] spec_eval(
                    asg[order[k] as int].value,
                    env_at(asg, order, self.memo@, k),
                    self.history@[k],
                )) matches Ok((t, u))
                &&& spec_eval(
                    asg[order[k] as int].value,
                    env_at(asg, order, self.memo@, k),
                    self.history@[k],
                )->Ok_0.0 == self.memo@[order[k] as int]->Some_0@
            }
        &&& (self.pos == order.len() ==> self.outs@ == Seq::<String>::empty())
        &&& (self.state is Running ==> self.pending is None && self.failure is None)
        &&& (self.state is Awaiting ==> {
            &&& self.failure is None
            &&& self.pos < order.len()
            &&& self.pending matches Some((c, sp)) && spec_eval(
                asg[order[self.pos as int] as int].value,
                env_at(asg, order, self.memo@, self.pos as int),
                outs_all(self.outs@),
            ) == Progress::Err((c@, sp, self.outs@.len() as nat)) && has_capture(
                asg[order[self.pos as int] as int].value,
                c@,
                sp,
            )
        })
        &&& (self.state is Completed ==> self.pos == order.len() && self.pending is None
            && self.failure is None)
        &&& (self.state is Aborted ==> self.failure is Some)
    }
}

} // verus!

verus! {

/// When the memoized entries are exactly those listed in the first `pos`
/// order positions, the full memo environment is the position-`pos`
/// environment.
pub proof fn lemma_env_full(
    asg: Seq<Assignment>,
    order: Seq<usize>,
    memo: Seq<Option<String>>,
    pos: int,
)
    requires
        memo.len() == asg.len(),
        forall|j: int|
            0 <= j < asg.len() ==> ((#[trigger] memo[j]) is Some <==> crate::graph::in_order(
                order.take(pos),
                j,
            )),
    ensures
        env_of(asg, memo) == env_at(asg, order, memo, pos),
{
    assert(env_of(asg, memo) =~= env_at(asg, order, memo, pos));
}

/// Updating a memo entry not listed in the first `k` order positions leaves
/// the position-`k` environment unchanged.
pub proof fn lemma_env_at_update(
    asg: Seq<Assignment>,
    order: Seq<usize>,
    memo: Seq<Option<String>>,
    k: int,
    t: int,
    v: Option<String>,
)
    requires
        0 <= t < memo.len(),
        !crate::graph::in_order(order.take(k), t),
    ensures
        env_at(asg, order, memo.update(t, v), k) == env_at(asg, order, memo, k),
{
    assert(env_at(asg, order, memo.update(t, v), k) =~= env_at(asg, order, memo, k));
}

/// Memo tables that agree on every assignment listed in the first `k`
/// order positions give the same position-`k` environment.
pub proof fn lemma_env_at_agree(
    asg: Seq<Assignment>,
    order: Seq<usize>,
    m1: Seq<Option<String>>,
    m2: Seq<Option<String>>,
    k: int,
)
    requires
        m1.len() == m2.len(),
        forall|j: int|
            0 <= j < m1.len() && crate::graph::in_order(order.take(k), j) ==> #[trigger] m1[j]
                == m2[j],
    ensures
        env_at(asg, order, m1, k) == env_at(asg, order, m2, k),
{
    assert(env_at(asg, order, m1, k) =~= env_at(asg, order, m2, k));
}

impl Engine {
    /// Performs evaluation work until it either finishes or needs the
    /// outcome of a capture expression's command, which the embedding must
    /// run and report through [`Engine::provide`]. The command handed out
    /// is a capture node of the assignment currently being evaluated, with
    /// that node's own source span.
    ///
    /// The supplied capture results are the only source of capture values:
    /// when the assignment at `pos` completes, its recorded transcript is
    /// exactly the results supplied for it so far, and any assignment
    /// completed later in the same call evaluated without any capture
    /// result. With the invariant, which makes each expression evaluate to
    /// its memoized value on its recorded transcript, this forces a step to
    /// hand out a command — never to finish — whenever the current
    /// assignment's evaluation stalls on what was supplied (see
    /// [`crate::laws::law_values_come_from_supplied_results`]). Memoized values are
    /// never rewritten.
    #[verifier::loop_isolation(false)]
    pub fn step(&mut self) -> (r: StepOutcome)
        requires
            old(self).wf(),
            old(self).state is Running,
        ensures
            final(self).wf(),
            final(self).assignments == old(self).assignments,
            final(self).order == old(self).order,
            final(self).pos >= old(self).pos,
            forall|j: int|
                0 <= j < old(self).memo@.len() && (#[trigger] old(self).memo@[j]) is Some
                    ==> final(self).memo@[j] == old(self).memo@[j],
            final(self).pos == old(self).pos ==> final(self).memo == old(self).memo
                && final(self).history == old(self).history && final(self).outs == old(self).outs,
            final(self).pos > old(self).pos ==> {
                &&& final(self).history@.take(old(self).pos as int) == old(self).history@
                &&& final(self).history@[old(self).pos as int] == outs_all(old(self).outs@)
                &&& forall|k: int|
                    old(self).pos < k < final(self).pos ==> #[trigger] final(self).history@[k]
                        == Seq::<Seq<char>>::empty()
                &&& final(self).outs@ == Seq::<String>::empty()
            },
            match r {
                StepOutcome::RunCommand { command, span } => {
                    &&& final(self).state is Awaiting
                    &&& final(self).pos < final(self).order@.len()
                    &&& final(self).pending matches Some((c, sp)) && c@ == command@ && sp == span
                    &&& has_capture(
                        final(self).assignments@[final(self).order@[final(self).pos as int] as int].value,
                        command@,
                        span,
                    )
                },
                StepOutcome::Finished => {
                    &&& final(self).state is Completed
                    &&& final(self).pos == final(self).order@.len()
                },
            },
    {
        loop
            invariant
                self.wf(),
                self.state is Running,
                self.assignments == old(self).assignments,
                self.order == old(self).order,
                self.pos >= old(self).pos,
                forall|j: int|
                    0 <= j < old(self).memo@.len() && (#[trigger] old(self).memo@[j]) is Some
                        ==> self.memo@[j] == old(self).memo@[j],
                self.pos == old(self).pos ==> self.memo == old(self).memo && self.history == old(
                    self,
                ).history && self.outs == old(self).outs,
                self.pos > old(self).pos ==> {
                    &&& self.history@.take(old(self).pos as int) == old(self).history@
                    &&& self.history@[old(self).pos as int] == outs_all(old(self).outs@)
                    &&& forall|k: int|
                        old(self).pos < k < self.pos ==> #[trigger] self.history@[k]
                            == Seq::<Seq<char>>::empty()
                    &&& self.outs@ == Seq::<String>::empty()
                },
            decreases self.order@.len() - self.pos,
        {
            if self.pos == self.order.len() {
                self.state = EngineState::Completed;
                return StepOutcome::Finished;
            }
            let idx = self.order[self.pos];
            let ghost asg = self.assignments@;
            let ghost order = self.order@;
            let ghost pos = self.pos as int;
            proof {
                assert(refs_before(asg, order, pos));
                assert forall|k: int|
                    0 <= k < spec_refs(asg[idx as int].value).len() implies ref_ready(
                    asg,
                    self.memo@,
                    #[trigger] spec_refs(asg[idx as int].value)[k],
                ) by {
                    let t = index_of_name(asg, spec_refs(asg[idx as int].value)[k].0);
                    assert(crate::graph::in_order(order.take(pos), t));
                }
                lemma_env_full(asg, order, self.memo@, pos);
            }
            let (res, _used) = eval_expr(
                &self.assignments[idx].value,
                &self.assignments,
                &self.memo,
                &self.outs,
                0,
            );
            match res {
                ExprResult::Done(v) => {
                    let ghost memo0 = self.memo@;
                    let ghost hist0 = self.history@;
                    let ghost entry = outs_all(self.outs@);
                    proof {
                        assert(!crate::graph::in_order(order.take(pos), idx as int)) by {
                            if crate::graph::in_order(order.take(pos), idx as int) {
                                let m = choose|m: int|
                                    0 <= m < order.take(pos).len() && #[trigger] order.take(
                                        pos,
                                    )[m] as int == idx as int;
                                assert(order[m] == order[pos]);
                            }
                        }
                    }
                    self.memo.set(idx, Some(v));
                    proof {
                        self.history@ = self.history@.push(entry);
                    }
                    self.outs = Vec::new();
                    self.pos = self.pos + 1;
                    proof {
                        let memo1 = self.memo@;
                        assert(memo1 == memo0.update(idx as int, memo1[idx as int]));
                        // Membership in the one-longer prefix.
                        assert(order.take(pos + 1) =~= order.take(pos).push(order[pos]));
                        assert forall|j: int|
                            0 <= j < asg.len() implies ((#[trigger] memo1[j]) is Some
                            <==> crate::graph::in_order(order.take(pos + 1), j)) by {
                            if j == idx as int {
                                assert(order.take(pos + 1)[pos] as int == j);
                                assert(crate::graph::in_order(order.take(pos + 1), j));
                            } else {
                                assert(memo1[j] == memo0[j]);
                                assert forall|m: int|
                                    0 <= m < order.take(pos + 1).len() && #[trigger] order.take(
                                        pos + 1,
                                    )[m] as int == j implies crate::graph::in_order(
                                    order.take(pos),
                                    j,
                                ) by {
                                    assert(m != pos);
                                    assert(order.take(pos)[m] as int == j);
                                }
                                assert forall|m: int|
                                    0 <= m < order.take(pos).len() && #[trigger] order.take(
                                        pos,
                                    )[m] as int == j implies crate::graph::in_order(
                                    order.take(pos + 1),
                                    j,
                                ) by {
                                    assert(order.take(pos + 1)[m] as int == j);
                                }
                            }
                        }
                        // Earlier history entries still evaluate the same way.
                        assert forall|k: int|
                            0 <= k < pos implies env_at(asg, order, memo1, k) == env_at(
                            asg,
                            order,
                            memo0,
                            k,
                        ) by {
                            assert(!crate::graph::in_order(order.take(k), idx as int)) by {
                                if crate::graph::in_order(order.take(k), idx as int) {
                                    let m = choose|m: int|
                                        0 <= m < order.take(k).len() && #[trigger] order.take(
                                            k,
                                        )[m] as int == idx as int;
                                    assert(order[m] == order[pos]);
                                }
                            }
                            lemma_env_at_update(
                                asg,
                                order,
                                memo0,
                                k,
                                idx as int,
                                memo1[idx as int],
                            );
                        }
                        // The new entry records the value just computed.
                        assert(env_at(asg, order, memo1, pos) == env_at(asg, order, memo0, pos))
                            by {
                            lemma_env_at_update(asg, order, memo0, pos, idx as int, memo1[idx as int]);
                        }
                        assert(self.history@[pos] == entry);
                        assert(spec_eval(asg[idx as int].value, env_at(asg, order, memo1, pos), entry)
                            matches Ok((t, u)) && spec_eval(
                            asg[idx as int].value,
                            env_at(asg, order, memo1, pos),
                            entry,
                        )->Ok_0.0 == memo1[idx as int]->Some_0@);
                        // Memoized values are never rewritten: the slot just
                        // filled was empty before this call began.
                        let oldpos = old(self).pos as int;
                        assert forall|j: int|
                            0 <= j < old(self).memo@.len() && (#[trigger] old(
                                self,
                            ).memo@[j]) is Some implies self.memo@[j] == old(self).memo@[j] by {
                            if j == idx as int {
                                assert(!crate::graph::in_order(order.take(oldpos), idx as int))
                                    by {
                                    if crate::graph::in_order(order.take(oldpos), idx as int) {
                                        let m = choose|m: int|
                                            0 <= m < order.take(oldpos).len() && #[trigger] order.take(
                                                oldpos,
                                            )[m] as int == idx as int;
                                        assert(order[m] == order[pos]);
                                    }
                                }
                                assert(false);
                            } else {
                                assert(self.memo@[j] == memo0[j]);
                            }
                        }
                        // The transcript records exactly the supplied results.
                        assert(self.outs@ == Seq::<String>::empty()) by {
                            assert(self.outs@ =~= Seq::<String>::empty());
                        }
                        if pos == oldpos {
                            assert(hist0 == old(self).history@);
                            assert(self.history@.take(oldpos) =~= hist0);
                            assert(entry == outs_all(old(self).outs@));
                        } else {
                            assert(self.history@.take(oldpos) =~= hist0.take(oldpos));
                            assert(self.history@[oldpos] == hist0[oldpos]);
                            assert(entry =~= Seq::<Seq<char>>::empty());
                            assert forall|k: int|
                                oldpos < k < self.pos implies #[trigger] self.history@[k]
                                == Seq::<Seq<char>>::empty() by {
                                if k < pos {
                                    assert(self.history@[k] == hist0[k]);
                                }
                            }
                        }
                    }
                },
                ExprResult::Need { command, span } => {
                    proof {
                        lemma_eval_consumption(
                            asg[idx as int].value,
                            env_of(asg, self.memo@),
                            outs_all(self.outs@),
                        );
                    }
                    self.pending = Some((command.clone(), span));
                    self.state = EngineState::Awaiting;
                    return StepOutcome::RunCommand { command, span };
                },
            }
        }
    }

    /// Reports the outcome of the command last handed out: on exit code
    /// zero the captured standard output becomes the capture's value and
    /// evaluation may resume; on a non-zero exit code the whole run aborts
    /// with `BacktickFailed`, carrying that exit code and the span of the
    /// capture expression as written in source.
    pub fn provide(&mut self, exit_code: i32, stdout: String)
        requires
            old(self).wf(),
            old(self).state is Awaiting,
        ensures
            final(self).wf(),
            final(self).assignments == old(self).assignments,
            final(self).order == old(self).order,
            final(self).pos == old(self).pos,
            final(self).memo == old(self).memo,
            final(self).history == old(self).history,
            exit_code == 0 ==> {
                &&& final(self).state is Running
                &&& final(self).outs@ == old(self).outs@.push(stdout)
            },
            exit_code != 0 ==> {
                &&& final(self).state is Aborted
                &&& final(self).failure matches Some(EvalError::BacktickFailed {
                    exit_code: ec,
                    span: sp,
                }) && ec == exit_code && sp == old(self).pending->Some_0.1
                &&& has_capture(
                    final(self).assignments@[final(self).order@[final(self).pos as int] as int].value,
                    old(self).pending->Some_0.0@,
                    old(self).pending->Some_0.1,
                )
            },
    {
        if exit_code == 0 {
            self.outs.push(stdout);
            self.pending = None;
            self.state = EngineState::Running;
        } else {
            let sp = self.pending.as_ref().unwrap().1;
            self.failure = Some(EvalError::BacktickFailed { exit_code, span: sp });
            self.pending = None;
            self.state = EngineState::Aborted;
        }
    }

    /// The full name-to-value mapping of a completed run, in evaluation
    /// order: each evaluated assignment's name beside its computed value.
    /// Names outside the evaluation order are absent: they were never
    /// evaluated.
    #[verifier::loop_isolation(false)]
    pub fn values(&self) -> (r: Vec<EvaluatedValue>)
        requires
            self.wf(),
            self.state is Completed,
        ensures
            r@.len() == self.order@.len(),
            forall|k: int|
                0 <= k < r@.len() ==> (#[trigger] r@[k]).name@ == self.assignments@[self.order@[
                    k] as int].name@ && r@[k].string_value@ == self.memo@[self.order@[
                    k] as int]->Some_0@,
    {
        let mut r: Vec<EvaluatedValue> = Vec::new();
        let mut k: usize = 0;
        while k < self.order.len()
            invariant
                k <= self.order@.len(),
                r@.len() == k,
                forall|m: int|
                    0 <= m < k ==> (#[trigger] r@[m]).name@ == self.assignments@[self.order@[
                        m] as int].name@ && r@[m].string_value@ == self.memo@[self.order@[
                        m] as int]->Some_0@,
            decreases self.order@.len() - k,
        {
            let idx = self.order[k];
            proof {
                assert(crate::graph::in_order(self.order@.take(self.pos as int), idx as int)) by {
                    assert(self.order@.take(self.pos as int)[k as int] as int == idx as int);
                }
            }
            let name = self.assignments[idx].name.clone();
            let value = self.memo[idx].as_ref().unwrap().clone();
            r.push(EvaluatedValue { name, string_value: value });
            k += 1;
        }
        r
    }
}

} // verus!

verus! {

/// Whether assignment `i` belongs to the effective root set before
/// dependency analysis: every assignment under the eager policy or a
/// scope-wide `export` setting; otherwise the `exported` assignments and
/// those an external root names.
pub open spec fn spec_root(
    asg: Seq<Assignment>,
    ext: Seq<(String, Span)>,
    lazy: bool,
    export_all: bool,
    i: int,
) -> bool {
    ||| !lazy
    ||| export_all
    ||| asg[i].exported
    ||| exists|k: int| 0 <= k < ext.len() && (#[trigger] ext[k]).0@ == asg[i].name@
}

/// The effective root set, as one flag per assignment.
pub open spec fn root_flags(
    asg: Seq<Assignment>,
    ext: Seq<(String, Span)>,
    lazy: bool,
    export_all: bool,
) -> Seq<bool> {
    Seq::new(asg.len(), |i: int| spec_root(asg, ext, lazy, export_all, i))
}

/// The demand closure of the root set, as one flag per assignment.
pub open spec fn closure_flags(asg: Seq<Assignment>, roots: Seq<bool>) -> Seq<bool> {
    Seq::new(asg.len(), |i: int| crate::graph::in_closure(asg, roots, i))
}

/// A vector of `n` absent values.
fn option_vec(n: usize) -> (r: Vec<Option<String>>)
    ensures
        r.len() == n,
        forall|i: int| 0 <= i < n ==> (#[trigger] r@[i]) is None,
{
    let mut r: Vec<Option<String>> = Vec::new();
    while r.len() < n
        invariant
            r.len() <= n,
            forall|i: int| 0 <= i < r.len() ==> (#[trigger] r@[i]) is None,
        decreases n - r.len(),
    {
        r.push(None);
    }
    r
}

impl Engine {
    /// Prepares an evaluation run for one scope. The `lazy` setting is a
    /// gated feature: using it at all requires the opt-in, whatever its
    /// value. The effective root set is the external roots (each resolved,
    /// an unknown name failing with `UndefinedReference` at the
    /// referencing construct's span) together with every `exported`
    /// assignment, and every assignment when the policy is eager or the
    /// scope's `export` setting is on. The evaluation order is the demand
    /// closure of those roots in dependency order; an assignment outside it
    /// is never evaluated, so a failure latent in its expression never
    /// surfaces. A dependency cycle reachable from the roots fails with the
    /// names on the cycle.
    #[verifier::loop_isolation(false)]
    pub fn new(scope: Scope, external_roots: &Vec<(String, Span)>, gate: &FeatureGate) -> (r:
        Result<Engine, EvalError>)
        ensures
            ({
                let dd = dedupe_spec(scope.assignments@);
                let rf = root_flags(
                    dd,
                    external_roots@,
                    scope.spec_is_lazy(),
                    scope.export_setting,
                );
                match r {
                    Ok(engine) => {
                        &&& engine.wf()
                        &&& engine.state is Running
                        &&& engine.pos == 0
                        &&& engine.history@.len() == 0
                        &&& engine.outs@ == Seq::<String>::empty()
                        &&& engine.assignments@ == dd
                        &&& forall|i: int|
                            0 <= i < dd.len() ==> (crate::graph::in_order(engine.order@, i)
                                <==> crate::graph::in_closure(dd, rf, i))
                        &&& crate::graph::topo_ok(dd, closure_flags(dd, rf), engine.order@)
                        &&& (scope.lazy_setting is Some ==> gate.unstable_enabled)
                    },
                    Err(e) => {
                        ||| {
                            &&& e matches EvalError::Unstable { feature, message }
                            &&& !gate.unstable_enabled
                            &&& scope.lazy_setting is Some
                            &&& feature == UnstableFeature::LazySetting
                            &&& message@ == UnstableFeature::LazySetting.spec_message()
                        }
                        ||| {
                            &&& e matches EvalError::UndefinedReference { name, span }
                            &&& !defines(dd, name@)
                            &&& {
                                ||| exists|k: int|
                                    0 <= k < external_roots@.len() && (#[trigger] external_roots@[
                                        k]).0@ == name@ && external_roots@[k].1 == span
                                ||| exists|i: int|
                                    0 <= i < dd.len() && #[trigger] crate::graph::in_closure(
                                        dd,
                                        rf,
                                        i,
                                    ) && exists|k: int|
                                        0 <= k < crate::graph::refs_of(dd, i).len()
                                            && #[trigger] crate::graph::refs_of(dd, i)[k] == (
                                            name@,
                                            span,
                                        )
                            }
                        }
                        ||| {
                            &&& e matches EvalError::CyclicDependency { cycle_names }
                            &&& crate::graph::cycle_ok(dd, closure_flags(dd, rf), cycle_names@)
                        }
                    },
                }
            }),
            scope.lazy_setting is Some && !gate.unstable_enabled ==> r is Err,
    {
        let lazy = scope.is_lazy();
        let export_all = scope.export_setting;
        if scope.lazy_setting.is_some() {
            match gate.check(UnstableFeature::LazySetting) {
                Ok(_) => {},
                Err(e) => {
                    return Err(e);
                },
            }
        }
        let mut asg = scope.assignments;
        dedupe(&mut asg);
        proof {
            lemma_dedupe_spec(scope.assignments@);
        }
        let ghost dd = asg@;
        let n = asg.len();
        // The effective root set.
        let mut flags = crate::graph::bool_vec(n, false);
        let mut i: usize = 0;
        while i < n
            invariant
                i <= n,
                flags.len() == n,
                asg.len() == n,
                forall|j: int|
                    0 <= j < i ==> (flags@[j] <==> (!lazy || export_all || dd[j].exported)),
                forall|j: int| i <= j < n ==> !flags@[j],
            decreases n - i,
        {
            if !lazy || export_all || asg[i].exported {
                flags.set(i, true);
            }
            i += 1;
        }
        let mut k: usize = 0;
        while k < external_roots.len()
            invariant
                k <= external_roots@.len(),
                flags.len() == n,
                asg.len() == n,
                forall|j: int|
                    0 <= j < n ==> (flags@[j] <==> ((!lazy || export_all || dd[j].exported)
                        || exists|k2: int|
                        0 <= k2 < k && (#[trigger] external_roots@[k2]).0@ == dd[j].name@)),
            decreases external_roots@.len() - k,
        {
            match lookup_name(&asg, &external_roots[k].0) {
                Some(t) => {
                    proof {
                        lemma_index_of_name(dd, external_roots@[k as int].0@);
                    }
                    let ghost flags0 = flags@;
                    flags.set(t, true);
                    proof {
                        assert forall|j: int|
                            0 <= j < n implies (flags@[j] <==> ((!lazy || export_all
                            || dd[j].exported) || exists|k2: int|
                            0 <= k2 < k + 1 && (#[trigger] external_roots@[k2]).0@
                                == dd[j].name@)) by {
                            if j == t as int {
                                assert(external_roots@[k as int].0@ == dd[j].name@);
                            } else if flags0[j] {
                            } else {
                                if exists|k2: int|
                                    0 <= k2 < k + 1 && (#[trigger] external_roots@[k2]).0@
                                        == dd[j].name@ {
                                    let k2 = choose|k2: int|
                                        0 <= k2 < k + 1 && (#[trigger] external_roots@[k2]).0@
                                            == dd[j].name@;
                                    if k2 == k as int {
                                        assert(dd[j].name@ == dd[t as int].name@);
                                        assert(crate::scope::names_unique(dd));
                                        assert(false);
                                    }
                                }
                            }
                        }
                    }
                },
                None => {
                    return Err(
                        EvalError::UndefinedReference {
                            name: external_roots[k].0.clone(),
                            span: external_roots[k].1,
                        },
                    );
                },
            }
            k += 1;
        }
        proof {
            assert(flags@ =~= root_flags(dd, external_roots@, lazy, export_all));
        }
        // The demand closure and its dependency lists.
        let (marked, deps) = match crate::graph::reach(&asg, &flags) {
            Ok(p) => p,
            Err(e) => {
                return Err(e);
            },
        };
        proof {
            assert forall|i2: int, k2: int|
                0 <= i2 < dd.len() && marked@[i2] && 0 <= k2 < deps@[i2]@.len() implies marked@[
            #[trigger] deps@[i2]@[k2] as int] by {
                crate::graph::lemma_deps_ok_edges(dd, i2, deps@[i2]@);
                assert(crate::graph::edge(dd, i2, deps@[i2]@[k2] as int));
                crate::graph::lemma_closure_step(dd, flags@, i2, deps@[i2]@[k2] as int);
            }
        }
        // The evaluation order.
        let order = match crate::graph::toposort(&asg, &marked, &deps) {
            Ok(o) => o,
            Err(e) => {
                proof {
                    assert(marked@ =~= closure_flags(dd, flags@));
                }
                return Err(e);
            },
        };
        proof {
            assert(marked@ =~= closure_flags(dd, flags@));
        }
        let memo = option_vec(n);
        let engine = Engine {
            assignments: asg,
            order,
            pos: 0,
            memo,
            outs: Vec::new(),
            state: EngineState::Running,
            pending: None,
            failure: None,
            history: Ghost(Seq::empty()),
        };
        proof {
            let ord = engine.order@;
            assert forall|kk: int| 0 <= kk < ord.len() implies #[trigger] refs_before(
                dd,
                ord,
                kk,
            ) by {
                let u = ord[kk] as int;
                assert(marked@[u]);
                assert(crate::graph::deps_ok(dd, u, deps@[u]@));
                crate::graph::lemma_deps_ok_edges(dd, u, deps@[u]@);
                assert forall|r2: int|
                    0 <= r2 < spec_refs(dd[u].value).len() implies {
                    let t = index_of_name(dd, (#[trigger] spec_refs(dd[u].value)[r2]).0);
                    0 <= t < dd.len() && crate::graph::in_order(ord.take(kk), t)
                } by {
                    let t = index_of_name(dd, spec_refs(dd[u].value)[r2].0);
                    assert(deps@[u]@[r2] as int == t);
                    assert(crate::graph::edge(dd, u, t));
                }
            }
            assert(engine.outs@ =~= Seq::<String>::empty());
            assert forall|j: int|
                0 <= j < dd.len() implies ((#[trigger] engine.memo@[j]) is Some
                <==> crate::graph::in_order(ord.take(0), j)) by {
                assert(ord.take(0).len() == 0);
            }
            assert forall|i2: int|
                0 <= i2 < dd.len() implies (crate::graph::in_order(ord, i2)
                <==> crate::graph::in_closure(dd, flags@, i2)) by {
                if crate::graph::in_order(ord, i2) {
                    let m = choose|m: int| 0 <= m < ord.len() && #[trigger] ord[m] as int == i2;
                    assert(marked@[ord[m] as int]);
                }
                if crate::graph::in_closure(dd, flags@, i2) {
                    assert(marked@[i2]);
                }
            }
        }
        Ok(engine)
    }
}

} // verus!
