use vstd::prelude::*;
use crate::span::Span;
use crate::scope::{Assignment, Scope};
use crate::graph::{edge, rooted, closed, in_closure, in_order, topo_ok};
use crate::engine::{Engine, root_flags, closure_flags};

verus! {

/// Laziness pruning: an assignment outside the demand closure is outside
/// the evaluation order, and its expression is never evaluated — its memo
/// entry stays absent in every reachable engine state. A set containing the
/// roots and closed under dependency edges that avoids the assignment
/// witnesses that it is outside the closure.
pub proof fn law_pruning(engine: Engine, asg: Seq<Assignment>, rf: Seq<bool>, i: int, t: Set<int>)
    requires
        engine.assignments@ == asg,
        forall|j: int|
            0 <= j < asg.len() ==> (in_order(engine.order@, j) <==> in_closure(asg, rf, j)),
        0 <= i < asg.len(),
        rooted(rf, t),
        closed(asg, t),
        !t.contains(i),
        engine.wf(),
    ensures
        !in_order(engine.order@, i),
        engine.memo@[i] is None,
{
    if in_closure(asg, rf, i) {
        assert(t.contains(i));
    }
    if engine.memo@[i] is Some {
        let p = engine.pos as int;
        assert(in_order(engine.order@.take(p), i));
        let m = choose|m: int|
            0 <= m < engine.order@.take(p).len() && #[trigger] engine.order@.take(p)[m] as int == i;
        assert(engine.order@[m] as int == i);
        assert(in_order(engine.order@, i));
    }
}

/// With no roots at all, nothing is in the demand closure and nothing is
/// evaluated: the empty set is rooted and closed, so it witnesses pruning
/// for every assignment. This is why a lazy scope whose tasks are invoked
/// only through a submodule leaves even a failing parent assignment
/// untouched: each scope's closure is computed from that scope's own
/// assignments and roots alone.
pub proof fn law_no_roots_nothing_evaluated(
    engine: Engine,
    asg: Seq<Assignment>,
    rf: Seq<bool>,
    i: int,
)
    requires
        engine.assignments@ == asg,
        forall|j: int|
            0 <= j < asg.len() ==> (in_order(engine.order@, j) <==> in_closure(asg, rf, j)),
        forall|j: int| 0 <= j < rf.len() ==> !rf[j],
        0 <= i < asg.len(),
        engine.wf(),
    ensures
        !in_order(engine.order@, i),
        engine.memo@[i] is None,
{
    let t = Set::<int>::empty();
    assert(rooted(rf, t));
    assert(closed(asg, t));
    law_pruning(engine, asg, rf, i, t);
}

/// Eager default: when the policy is eager (no `lazy` setting, or one set
/// to false), every assignment is a root, so every assignment is in the
/// evaluation order — an unreferenced failing expression still runs, and
/// still fails the invocation.
pub proof fn law_eager_all(
    engine: Engine,
    asg: Seq<Assignment>,
    ext: Seq<(String, Span)>,
    export_all: bool,
    i: int,
)
    requires
        engine.assignments@ == asg,
        forall|j: int|
            0 <= j < asg.len() ==> (in_order(engine.order@, j) <==> in_closure(
                asg,
                root_flags(asg, ext, false, export_all),
                j,
            )),
        0 <= i < asg.len(),
    ensures
        in_order(engine.order@, i),
{
    let rf = root_flags(asg, ext, false, export_all);
    assert(rf[i]);
    assert forall|s: Set<int>| rooted(rf, s) && closed(asg, s) implies #[trigger] s.contains(
        i,
    ) by {}
}

/// Export overrides laziness: an `exported` assignment is a root whatever
/// the policy, so it is always evaluated, referenced or not.
pub proof fn law_export_overrides_lazy(
    engine: Engine,
    asg: Seq<Assignment>,
    ext: Seq<(String, Span)>,
    lazy: bool,
    export_all: bool,
    i: int,
)
    requires
        engine.assignments@ == asg,
        forall|j: int|
            0 <= j < asg.len() ==> (in_order(engine.order@, j) <==> in_closure(
                asg,
                root_flags(asg, ext, lazy, export_all),
                j,
            )),
        0 <= i < asg.len(),
        asg[i].exported,
    ensures
        in_order(engine.order@, i),
{
    let rf = root_flags(asg, ext, lazy, export_all);
    assert(rf[i]);
    assert forall|s: Set<int>| rooted(rf, s) && closed(asg, s) implies #[trigger] s.contains(
        i,
    ) by {}
}

/// Scope-wide export forces full evaluation: with the scope's `export`
/// setting on, every assignment is a root even under the lazy policy, so
/// every assignment is evaluated regardless of usage.
pub proof fn law_export_setting_evaluates_all(
    engine: Engine,
    asg: Seq<Assignment>,
    ext: Seq<(String, Span)>,
    lazy: bool,
    i: int,
)
    requires
        engine.assignments@ == asg,
        forall|j: int|
            0 <= j < asg.len() ==> (in_order(engine.order@, j) <==> in_closure(
                asg,
                root_flags(asg, ext, lazy, true),
                j,
            )),
        0 <= i < asg.len(),
    ensures
        in_order(engine.order@, i),
{
    let rf = root_flags(asg, ext, lazy, true);
    assert(rf[i]);
    assert forall|s: Set<int>| rooted(rf, s) && closed(asg, s) implies #[trigger] s.contains(
        i,
    ) by {}
}

/// Transitivity: when `a` references `b`, `b` references `c`, and `a` is
/// demanded, all three are evaluated, and in dependency order — `c` before
/// `b` before `a`.
pub proof fn law_transitive(
    engine: Engine,
    asg: Seq<Assignment>,
    rf: Seq<bool>,
    a: int,
    b: int,
    c: int,
)
    requires
        engine.assignments@ == asg,
        forall|j: int|
            0 <= j < asg.len() ==> (in_order(engine.order@, j) <==> in_closure(asg, rf, j)),
        topo_ok(asg, closure_flags(asg, rf), engine.order@),
        0 <= a < asg.len() && 0 <= b < asg.len() && 0 <= c < asg.len(),
        edge(asg, a, b),
        edge(asg, b, c),
        in_closure(asg, rf, a),
    ensures
        in_order(engine.order@, a),
        in_order(engine.order@, b),
        in_order(engine.order@, c),
        exists|ka: int, kb: int, kc: int|
            {
                &&& 0 <= kc < kb < ka < engine.order@.len()
                &&& #[trigger] engine.order@[ka] as int == a
                &&& #[trigger] engine.order@[kb] as int == b
                &&& #[trigger] engine.order@[kc] as int == c
            },
{
    let order = engine.order@;
    crate::graph::lemma_closure_step(asg, rf, a, b);
    crate::graph::lemma_closure_step(asg, rf, b, c);
    let ka = choose|ka: int| 0 <= ka < order.len() && #[trigger] order[ka] as int == a;
    assert(edge(asg, order[ka] as int, b));
    assert(in_order(order.take(ka), b));
    let kb = choose|kb: int|
        0 <= kb < order.take(ka).len() && #[trigger] order.take(ka)[kb] as int == b;
    assert(order[kb] as int == b);
    assert(edge(asg, order[kb] as int, c));
    assert(in_order(order.take(kb), c));
    let kc = choose|kc: int|
        0 <= kc < order.take(kb).len() && #[trigger] order.take(kb)[kc] as int == c;
    assert(order[kc] as int == c);
    assert(in_order(order, b)) by {
        assert(order[kb] as int == b);
    }
    assert(in_order(order, c)) by {
        assert(order[kc] as int == c);
    }
}

/// Memoization: the evaluation order lists each assignment at most once,
/// so each completes in exactly one step of the run; `Engine::step`'s
/// contract keeps every memoized value unchanged from then on and ties it
/// to the capture results supplied for that one evaluation (see
/// [`law_values_come_from_supplied_results`]) — an assignment demanded
/// along two paths is evaluated exactly once, and every reference reads
/// the identical value.
pub proof fn law_memoized(engine: Engine, k1: int, k2: int)
    requires
        engine.wf(),
        0 <= k1 < engine.order@.len(),
        0 <= k2 < engine.order@.len(),
        engine.order@[k1] == engine.order@[k2],
    ensures
        k1 == k2,
{
}

/// Explicit boolean override: `set lazy := true` selects the same policy
/// as a bare `set lazy`, and `set lazy := false` the same as no setting at
/// all; every engine decision depends on the setting only through this
/// policy.
pub proof fn law_explicit_boolean(s1: Scope, s2: Scope, s3: Scope)
    requires
        s1.lazy_setting == Some(true),
        s2.lazy_setting == Some(false),
        s3.lazy_setting is None,
    ensures
        s1.spec_is_lazy(),
        !s2.spec_is_lazy(),
        !s3.spec_is_lazy(),
        s2.spec_is_lazy() == s3.spec_is_lazy(),
{
}

/// Span fidelity: whenever the engine awaits a command's outcome, the
/// pending command and span are those of a capture node inside the
/// assignment currently being evaluated — so the `BacktickFailed` that a
/// non-zero exit produces carries the capture expression's own source
/// location, not that of whatever assignment demanded it.
pub proof fn law_span_fidelity(engine: Engine)
    requires
        engine.wf(),
        engine.state is Awaiting,
    ensures
        engine.pending matches Some((c, sp)) && crate::expr::has_capture(
            engine.assignments@[engine.order@[engine.pos as int] as int].value,
            c@,
            sp,
        ),
{
}

} // verus!



verus! {

/// One step of [`law_order_deterministic`]: orders that agree on their
/// first `k` positions agree on position `k` as well, because both must
/// take the smallest ready index there.
proof fn lemma_order_prefix_step(
    asg: Seq<Assignment>,
    marked: Seq<bool>,
    o1: Seq<usize>,
    o2: Seq<usize>,
    k: int,
)
    requires
        marked.len() == asg.len(),
        topo_ok(asg, marked, o1),
        topo_ok(asg, marked, o2),
        o1.len() == o2.len(),
        0 <= k < o1.len(),
        o1.take(k) == o2.take(k),
    ensures
        o1[k] == o2[k],
{
    let a: int = o1[k] as int;
    let b: int = o2[k] as int;
    assert(!in_order(o1.take(k), a)) by {
        if in_order(o1.take(k), a) {
            let m = choose|m: int| 0 <= m < o1.take(k).len() && #[trigger] o1.take(k)[m] as int == a;
            assert(o1[m] == o1[k]);
        }
    }
    assert(!in_order(o2.take(k), b)) by {
        if in_order(o2.take(k), b) {
            let m = choose|m: int| 0 <= m < o2.take(k).len() && #[trigger] o2.take(k)[m] as int == b;
            assert(o2[m] == o2[k]);
        }
    }
    assert(crate::graph::ready(asg, o1.take(k), a)) by {
        assert forall|j: int| #[trigger] edge(asg, a, j) implies in_order(o1.take(k), j) by {
            assert(edge(asg, o1[k] as int, j));
        }
    }
    assert(crate::graph::ready(asg, o2.take(k), b)) by {
        assert forall|j: int| #[trigger] edge(asg, b, j) implies in_order(o2.take(k), j) by {
            assert(edge(asg, o2[k] as int, j));
        }
    }
    if a < b {
        assert(crate::graph::is_min_ready(asg, marked, o2, k));
        assert(crate::graph::ready(asg, o2.take(k), a));
        assert(false);
    }
    if b < a {
        assert(crate::graph::is_min_ready(asg, marked, o1, k));
        assert(crate::graph::ready(asg, o1.take(k), b));
        assert(false);
    }
}

/// Orders that agree up to `k` agree from `k` on.
proof fn lemma_order_prefix_all(
    asg: Seq<Assignment>,
    marked: Seq<bool>,
    o1: Seq<usize>,
    o2: Seq<usize>,
    k: int,
)
    requires
        marked.len() == asg.len(),
        topo_ok(asg, marked, o1),
        topo_ok(asg, marked, o2),
        o1.len() == o2.len(),
        0 <= k <= o1.len(),
        o1.take(k) == o2.take(k),
    ensures
        o1 == o2,
    decreases o1.len() - k,
{
    if k == o1.len() {
        assert(o1.take(k) =~= o1);
        assert(o2.take(k) =~= o2);
    } else {
        lemma_order_prefix_step(asg, marked, o1, o2, k);
        assert(o1.take(k + 1) =~= o2.take(k + 1)) by {
            assert forall|m: int| 0 <= m < k + 1 implies #[trigger] o1.take(k + 1)[m] == o2.take(
                k + 1,
            )[m] by {
                if m < k {
                    assert(o1.take(k)[m] == o2.take(k)[m]);
                }
            }
        }
        lemma_order_prefix_all(asg, marked, o1, o2, k + 1);
    }
}

/// Determinism: the declaration-order tie-break pins the evaluation order
/// down completely — any two orders that are correct for the same
/// assignments and the same demand set are equal.
pub proof fn law_order_deterministic(
    asg: Seq<Assignment>,
    marked: Seq<bool>,
    o1: Seq<usize>,
    o2: Seq<usize>,
)
    requires
        marked.len() == asg.len(),
        topo_ok(asg, marked, o1),
        topo_ok(asg, marked, o2),
    ensures
        o1 == o2,
{
    // Both orders enumerate exactly the marked indices without repeats, so
    // they have the same length.
    assert(o1.to_set() =~= o2.to_set()) by {
        assert forall|x: usize| #[trigger] o1.to_set().contains(x) implies o2.to_set().contains(
            x,
        ) by {
            let m = choose|m: int| 0 <= m < o1.len() && o1[m] == x;
            assert(marked[o1[m] as int]);
            assert(in_order(o2, x as int));
            let m2 = choose|m2: int| 0 <= m2 < o2.len() && #[trigger] o2[m2] as int == x as int;
            assert(o2[m2] == x);
        }
        assert forall|x: usize| #[trigger] o2.to_set().contains(x) implies o1.to_set().contains(
            x,
        ) by {
            let m = choose|m: int| 0 <= m < o2.len() && o2[m] == x;
            assert(marked[o2[m] as int]);
            assert(in_order(o1, x as int));
            let m2 = choose|m2: int| 0 <= m2 < o1.len() && #[trigger] o1[m2] as int == x as int;
            assert(o1[m2] == x);
        }
    }
    o1.unique_seq_to_set();
    o2.unique_seq_to_set();
    assert(o1.take(0) =~= o2.take(0));
    lemma_order_prefix_all(asg, marked, o1, o2, 0);
}

} // verus!

verus! {

/// Positions scanned so far hold no member of the cycle `c`; then no
/// position at all does, since the first member met would need a fellow
/// member earlier.
proof fn lemma_cycle_has_no_position(
    asg: Seq<Assignment>,
    marked: Seq<bool>,
    order: Seq<usize>,
    c: Seq<usize>,
    k: int,
)
    requires
        topo_ok(asg, marked, order),
        c.len() >= 1,
        forall|i: int| 0 <= i < c.len() ==> 0 <= #[trigger] c[i] < asg.len(),
        forall|i: int| 0 <= i < c.len() - 1 ==> edge(asg, #[trigger] c[i] as int, c[i + 1] as int),
        edge(asg, c[c.len() - 1] as int, c[0] as int),
        0 <= k <= order.len(),
        forall|m: int| 0 <= m < k ==> !in_order(c, #[trigger] order[m] as int),
    ensures
        forall|m: int| 0 <= m < order.len() ==> !in_order(c, #[trigger] order[m] as int),
    decreases order.len() - k,
{
    if k < order.len() {
        assert(!in_order(c, order[k] as int)) by {
            if in_order(c, order[k] as int) {
                let i = choose|i: int| 0 <= i < c.len() && #[trigger] c[i] as int == order[k] as int;
                let next: int = if i < c.len() - 1 {
                    c[i + 1] as int
                } else {
                    c[0] as int
                };
                assert(edge(asg, order[k] as int, next));
                assert(in_order(order.take(k), next));
                let m = choose|m: int|
                    0 <= m < order.take(k).len() && #[trigger] order.take(k)[m] as int == next;
                assert(order[m] as int == next);
                assert(in_order(c, next)) by {
                    if i < c.len() - 1 {
                        assert(c[i + 1] as int == next);
                    } else {
                        assert(c[0] as int == next);
                    }
                }
            }
        }
        lemma_cycle_has_no_position(asg, marked, order, c, k + 1);
    }
}

/// Acyclicity: the dependency graph is acyclic over the closure actually
/// evaluated — no dependency chain through the assignments a correct
/// evaluation order lists can close back on its own first member. A cycle
/// reachable from the root set therefore never reaches evaluation:
/// planning fails instead.
pub proof fn law_order_acyclic(
    asg: Seq<Assignment>,
    marked: Seq<bool>,
    order: Seq<usize>,
    c: Seq<usize>,
)
    requires
        marked.len() == asg.len(),
        topo_ok(asg, marked, order),
        c.len() >= 1,
        forall|i: int|
            0 <= i < c.len() ==> 0 <= #[trigger] c[i] < asg.len() && marked[c[i] as int],
        forall|i: int| 0 <= i < c.len() - 1 ==> edge(asg, #[trigger] c[i] as int, c[i + 1] as int),
    ensures
        !edge(asg, c[c.len() - 1] as int, c[0] as int),
{
    if edge(asg, c[c.len() - 1] as int, c[0] as int) {
        lemma_cycle_has_no_position(asg, marked, order, c, 0);
        assert(marked[c[0] as int]);
        assert(in_order(order, c[0] as int));
        let m = choose|m: int| 0 <= m < order.len() && #[trigger] order[m] as int == c[0] as int;
        assert(in_order(c, order[m] as int)) by {
            assert(c[0] as int == order[m] as int);
        }
    }
}

} // verus!

verus! {

/// Supplied results are the only source of capture values. Take a step
/// that moved past the assignment at `pre.pos`: by [`Engine::step`]'s
/// contract the assignment's recorded transcript is exactly the results
/// supplied so far, its memoized value survives unchanged, and the
/// invariant then forces the assignment's expression to evaluate to
/// completion on those very results — and the memoized value to be that
/// evaluation's result. Contrapositively, when the expression stalls on
/// what was supplied — a demanded capture has no result yet — no
/// conforming step can move past the assignment or finish: it must hand
/// the stalled capture's command out and await [`Engine::provide`]. In
/// particular, a run whose order holds a failing capture can never
/// complete without that capture being run.
pub proof fn law_values_come_from_supplied_results(pre: Engine, post: Engine)
    requires
        pre.wf(),
        post.wf(),
        pre.pos < pre.order@.len(),
        post.assignments == pre.assignments,
        post.order == pre.order,
        post.pos > pre.pos,
        post.history@[pre.pos as int] == crate::engine::outs_all(pre.outs@),
        forall|j: int|
            0 <= j < pre.memo@.len() && (#[trigger] pre.memo@[j]) is Some ==> post.memo@[j]
                == pre.memo@[j],
    ensures
        crate::expr::spec_eval(
            pre.assignments@[pre.order@[pre.pos as int] as int].value,
            crate::engine::env_at(pre.assignments@, pre.order@, pre.memo@, pre.pos as int),
            crate::engine::outs_all(pre.outs@),
        ) matches Ok((t, u)),
        crate::expr::spec_eval(
            pre.assignments@[pre.order@[pre.pos as int] as int].value,
            crate::engine::env_at(pre.assignments@, pre.order@, pre.memo@, pre.pos as int),
            crate::engine::outs_all(pre.outs@),
        )->Ok_0.0 == post.memo@[pre.order@[pre.pos as int] as int]->Some_0@,
{
    let asg = pre.assignments@;
    let order = pre.order@;
    let k = pre.pos as int;
    assert forall|j: int|
        0 <= j < post.memo@.len() && in_order(order.take(k), j) implies #[trigger] post.memo@[j]
        == pre.memo@[j] by {
        let m = choose|m: int| 0 <= m < order.take(k).len() && #[trigger] order.take(k)[m] as int == j;
        assert(order[m] as int == j);
        assert(in_order(order.take(pre.pos as int), j));
        assert(pre.memo@[j] is Some);
    }
    crate::engine::lemma_env_at_agree(asg, order, post.memo@, pre.memo@, k);
    assert(crate::expr::spec_eval(
        asg[order[k] as int].value,
        crate::engine::env_at(asg, order, post.memo@, k),
        post.history@[k],
    ) matches Ok((t, u)));
}

} // verus!

