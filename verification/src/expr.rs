use vstd::prelude::*;
use crate::span::Span;

verus! {

broadcast use vstd::std_specs::vec::axiom_vec_index_decreases;

/// A value-producing syntax node. Each node carries the [`Span`] of its own
/// source text and owns its sub-nodes outright: the tree is acyclic by
/// construction, and only the reference graph derived from it can contain
/// cycles (a detected error, never a structural possibility).
///
/// A `Capture` holds the literal command text of a subprocess-capture
/// (backtick) expression; its value is the captured standard output of the
/// child process that the embedding runs on the engine's behalf. A
/// `Conditional` selects its `then_branch` when the condition's value is
/// non-empty and its `else_branch` otherwise; the unselected branch is not
/// evaluated.
pub enum Expression {
    Literal { text: String, span: Span },
    Reference { name: String, span: Span },
    Concat { parts: Vec<Expression>, span: Span },
    Conditional {
        cond: Box<Expression>,
        then_branch: Box<Expression>,
        else_branch: Box<Expression>,
        span: Span,
    },
    Capture { command: String, span: Span },
}

/// The variable references a static walk of the tree finds, left to right,
/// each with the span of the `Reference` node itself. Both branches of a
/// `Conditional` count: dependencies are collected statically, before it is
/// known which branch an evaluation will select. A `Capture` holds literal
/// command text rather than sub-expressions, so it contributes no
/// references; a parser that wants a variable's value inside a command must
/// hand the capture over as a `Concat` of literal and reference parts.
pub open spec fn spec_refs(e: Expression) -> Seq<(Seq<char>, Span)>
    decreases e, 0int,
{
    match e {
        Expression::Literal { .. } => Seq::empty(),
        Expression::Reference { name, span } => seq![(name@, span)],
        Expression::Concat { parts, .. } => spec_refs_list(parts, 0),
        Expression::Conditional { cond, then_branch, else_branch, .. } => spec_refs(*cond)
            + spec_refs(*then_branch) + spec_refs(*else_branch),
        Expression::Capture { .. } => Seq::empty(),
    }
}

/// The references of `parts[i..]`, in order.
pub open spec fn spec_refs_list(parts: Vec<Expression>, i: int) -> Seq<(Seq<char>, Span)>
    decreases parts, parts.len() - i,
{
    if i < 0 || i >= parts.len() {
        Seq::empty()
    } else {
        spec_refs(parts[i]) + spec_refs_list(parts, i + 1)
    }
}

/// The view of a collected reference list: each entry's name as a character
/// sequence, beside the span of the reference.
pub open spec fn refs_view(rs: Seq<(String, Span)>) -> Seq<(Seq<char>, Span)> {
    rs.map_values(|p: (String, Span)| (p.0@, p.1))
}

/// An environment giving the already-computed value of each name a node may
/// reference.
pub type Env = Map<Seq<char>, Seq<char>>;

/// The outcome of evaluating a node against a finite sequence of capture
/// results: either the value together with how many results were consumed,
/// or — when the walk reaches a capture for which no result is available —
/// the command text and span of that capture, with every supplied result
/// consumed. Evaluation consumes capture results strictly left to right, and
/// a `Conditional` evaluates its condition and then only the selected
/// branch: a capture in the unselected branch consumes nothing.
pub type Progress = Result<(Seq<char>, nat), (Seq<char>, Span, nat)>;

/// Evaluates `e` under `env`, drawing capture results from `outs` in order.
pub open spec fn spec_eval(e: Expression, env: Env, outs: Seq<Seq<char>>) -> Progress
    decreases e, 0int,
{
    match e {
        Expression::Literal { text, .. } => Ok((text@, 0)),
        Expression::Reference { name, .. } => Ok((env[name@], 0)),
        Expression::Concat { parts, .. } => spec_eval_list(parts, 0, env, outs),
        Expression::Conditional { cond, then_branch, else_branch, .. } => {
            match spec_eval(*cond, env, outs) {
                Ok((cv, u)) => {
                    let branch = if cv.len() > 0 {
                        *then_branch
                    } else {
                        *else_branch
                    };
                    match spec_eval(branch, env, outs.skip(u as int)) {
                        Ok((bv, u2)) => Ok((bv, (u + u2) as nat)),
                        Err((c, s, u2)) => Err((c, s, (u + u2) as nat)),
                    }
                },
                Err(need) => Err(need),
            }
        },
        Expression::Capture { command, span } => {
            if outs.len() > 0 {
                Ok((outs[0], 1))
            } else {
                Err((command@, span, 0))
            }
        },
    }
}

/// Evaluates `parts[i..]` left to right and concatenates the values.
pub open spec fn spec_eval_list(parts: Vec<Expression>, i: int, env: Env, outs: Seq<Seq<char>>) -> Progress
    decreases parts, parts.len() - i,
{
    if i < 0 || i >= parts.len() {
        Ok((Seq::empty(), 0))
    } else {
        match spec_eval(parts[i], env, outs) {
            Ok((v, u)) => {
                match spec_eval_list(parts, i + 1, env, outs.skip(u as int)) {
                    Ok((rest, u2)) => Ok((v + rest, (u + u2) as nat)),
                    Err((c, s, u2)) => Err((c, s, (u + u2) as nat)),
                }
            },
            Err(need) => Err(need),
        }
    }
}

/// Whether a `Capture` node with command view `c` and span `s` occurs
/// somewhere in `e`.
pub open spec fn has_capture(e: Expression, c: Seq<char>, s: Span) -> bool
    decreases e, 0int,
{
    match e {
        Expression::Literal { .. } => false,
        Expression::Reference { .. } => false,
        Expression::Concat { parts, .. } => has_capture_list(parts, 0, c, s),
        Expression::Conditional { cond, then_branch, else_branch, .. } => has_capture(*cond, c, s)
            || has_capture(*then_branch, c, s) || has_capture(*else_branch, c, s),
        Expression::Capture { command, span } => command@ == c && span == s,
    }
}

/// Whether such a `Capture` node occurs in `parts[i..]`.
pub open spec fn has_capture_list(parts: Vec<Expression>, i: int, c: Seq<char>, s: Span) -> bool
    decreases parts, parts.len() - i,
{
    if i < 0 || i >= parts.len() {
        false
    } else {
        has_capture(parts[i], c, s) || has_capture_list(parts, i + 1, c, s)
    }
}

/// An evaluation that stalls has consumed every supplied capture result, and
/// one that completes never consumes more than were supplied. The stalled
/// capture is a node of the expression itself: this is what lets a failure
/// be reported at the capture's own source location, no matter how many
/// dependency hops lie between it and the name actually demanded.
pub proof fn lemma_eval_consumption(e: Expression, env: Env, outs: Seq<Seq<char>>)
    ensures
        spec_eval(e, env, outs) matches Ok((v, u)) ==> u <= outs.len(),
        spec_eval(e, env, outs) matches Err((c, s, u)) ==> u == outs.len() && has_capture(e, c, s),
    decreases e, 0int,
{
    match e {
        Expression::Concat { parts, .. } => {
            lemma_eval_list_consumption(parts, 0, env, outs);
        },
        Expression::Conditional { cond, then_branch, else_branch, .. } => {
            lemma_eval_consumption(*cond, env, outs);
            match spec_eval(*cond, env, outs) {
                Ok((cv, u)) => {
                    let branch = if cv.len() > 0 {
                        *then_branch
                    } else {
                        *else_branch
                    };
                    lemma_eval_consumption(branch, env, outs.skip(u as int));
                },
                Err(_) => {},
            }
        },
        _ => {},
    }
}

/// The list form of [`lemma_eval_consumption`].
pub proof fn lemma_eval_list_consumption(parts: Vec<Expression>, i: int, env: Env, outs: Seq<Seq<char>>)
    ensures
        spec_eval_list(parts, i, env, outs) matches Ok((v, u)) ==> u <= outs.len(),
        spec_eval_list(parts, i, env, outs) matches Err((c, s, u)) ==> u == outs.len()
            && has_capture_list(parts, i, c, s),
    decreases parts, parts.len() - i,
{
    if 0 <= i < parts.len() {
        lemma_eval_consumption(parts[i], env, outs);
        match spec_eval(parts[i], env, outs) {
            Ok((v, u)) => {
                lemma_eval_list_consumption(parts, i + 1, env, outs.skip(u as int));
            },
            Err(_) => {},
        }
    }
}

} // verus!

verus! {

/// Appends to `acc` the references of `e`, in the order a left-to-right
/// static walk of the tree meets them.
#[verifier::loop_isolation(false)]
pub fn collect_refs(e: &Expression, acc: &mut Vec<(String, Span)>)
    ensures
        refs_view(final(acc)@) == refs_view(old(acc)@) + spec_refs(*e),
    decreases *e,
{
    match e {
        Expression::Literal { .. } => {
            proof {
                assert(refs_view(acc@) =~= refs_view(acc@) + spec_refs(*e));
            }
        },
        Expression::Capture { .. } => {
            proof {
                assert(refs_view(acc@) =~= refs_view(acc@) + spec_refs(*e));
            }
        },
        Expression::Reference { name, span } => {
            let entry = (name.clone(), *span);
            proof {
                assert(refs_view(acc@.push(entry)) =~= refs_view(acc@) + spec_refs(*e));
            }
            acc.push(entry);
        },
        Expression::Concat { parts, .. } => {
            let mut j: usize = 0;
            proof {
                assert(refs_view(acc@) + spec_refs_list(*parts, 0) =~= refs_view(acc@)
                    + spec_refs_list(*parts, 0));
            }
            while j < parts.len()
                invariant
                    j <= parts.len(),
                    refs_view(acc@) + spec_refs_list(*parts, j as int) == refs_view(old(acc)@)
                        + spec_refs_list(*parts, 0),
                decreases parts.len() - j,
            {
                let ghost pre = acc@;
                proof {
                    assert((*e)->Concat_parts == *parts);
                    assert(decreases_to!(*e => (*e)->Concat_parts));
                    assert(decreases_to!(*parts => parts@));
                    assert(decreases_to!(parts@ => parts@[j as int]));
                    assert(decreases_to!(*e => parts@[j as int]));
                }
                collect_refs(&parts[j], acc);
                proof {
                    assert(spec_refs_list(*parts, j as int) == spec_refs(parts[j as int])
                        + spec_refs_list(*parts, j + 1));
                    assert((refs_view(pre) + spec_refs(parts[j as int])) + spec_refs_list(
                        *parts,
                        j + 1,
                    ) =~= refs_view(pre) + (spec_refs(parts[j as int]) + spec_refs_list(
                        *parts,
                        j + 1,
                    )));
                }
                j += 1;
            }
            proof {
                assert(spec_refs_list(*parts, parts.len() as int) == Seq::<(
                    Seq<char>,
                    Span,
                )>::empty());
                assert(refs_view(acc@) + Seq::<(Seq<char>, Span)>::empty() =~= refs_view(acc@));
            }
        },
        Expression::Conditional { cond, then_branch, else_branch, .. } => {
            collect_refs(cond, acc);
            collect_refs(then_branch, acc);
            collect_refs(else_branch, acc);
            proof {
                assert(refs_view(acc@) =~= refs_view(old(acc)@) + spec_refs(*e));
            }
        },
    }
}

} // verus!
