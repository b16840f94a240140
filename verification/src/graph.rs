use vstd::prelude::*;
use crate::span::Span;
use crate::expr::{spec_refs, refs_view, collect_refs};
use crate::scope::{Assignment, defines, index_of_name, lemma_index_of_name, lookup_name};
use crate::error::EvalError;

verus! {

/// The references of the assignment at index `i`, as a static walk of its
/// expression collects them.
pub open spec fn refs_of(asg: Seq<Assignment>, i: int) -> Seq<(Seq<char>, Span)> {
    spec_refs(asg[i].value)
}

/// The dependency edge relation: assignment `i` references the name of
/// assignment `j`. A reference inside either branch of a conditional counts,
/// whether or not an evaluation would select that branch.
pub open spec fn edge(asg: Seq<Assignment>, i: int, j: int) -> bool {
    exists|k: int|
        0 <= k < refs_of(asg, i).len() && #[trigger] index_of_name(asg, refs_of(asg, i)[k].0) == j
}

/// Whether `s` contains every root index.
pub open spec fn rooted(roots: Seq<bool>, s: Set<int>) -> bool {
    forall|i: int| 0 <= i < roots.len() && roots[i] ==> #[trigger] s.contains(i)
}

/// Whether `s` is closed under dependency edges.
pub open spec fn closed(asg: Seq<Assignment>, s: Set<int>) -> bool {
    forall|i: int, j: int| #[trigger] s.contains(i) && #[trigger] edge(asg, i, j) ==> s.contains(j)
}

/// The demand closure, as a least fixed point: `i` is in the closure of the
/// root set exactly when every edge-closed superset of the roots contains
/// it.
pub open spec fn in_closure(asg: Seq<Assignment>, roots: Seq<bool>, i: int) -> bool {
    forall|s: Set<int>| rooted(roots, s) && closed(asg, s) ==> #[trigger] s.contains(i)
}

/// Whether `order` lists index `i`.
pub open spec fn in_order(order: Seq<usize>, i: int) -> bool {
    exists|k: int| 0 <= k < order.len() && #[trigger] order[k] as int == i
}

/// A correctly resolved dependency list for assignment `i`: one entry per
/// reference, in reference order, each the index of the (unique) assignment
/// with the referenced name.
pub open spec fn deps_ok(asg: Seq<Assignment>, i: int, d: Seq<usize>) -> bool {
    &&& d.len() == refs_of(asg, i).len()
    &&& forall|k: int| 0 <= k < d.len() ==> 0 <= #[trigger] d[k] < asg.len()
    &&& forall|k: int|
        0 <= k < d.len() ==> #[trigger] d[k] as int == index_of_name(asg, refs_of(asg, i)[k].0)
}

/// A resolved dependency list realizes exactly the edge relation of its
/// assignment.
pub proof fn lemma_deps_ok_edges(asg: Seq<Assignment>, i: int, d: Seq<usize>)
    requires
        deps_ok(asg, i, d),
    ensures
        forall|k: int| 0 <= k < d.len() ==> edge(asg, i, #[trigger] d[k] as int),
        forall|j: int| #[trigger] edge(asg, i, j) ==> exists|k: int|
            0 <= k < d.len() && #[trigger] d[k] as int == j,
{
    assert forall|k: int| 0 <= k < d.len() implies edge(asg, i, #[trigger] d[k] as int) by {
        assert(index_of_name(asg, refs_of(asg, i)[k].0) == d[k] as int);
    }
    assert forall|j: int| #[trigger] edge(asg, i, j) implies exists|k: int|
        0 <= k < d.len() && #[trigger] d[k] as int == j by {
        let k = choose|k: int|
            0 <= k < refs_of(asg, i).len() && #[trigger] index_of_name(asg, refs_of(asg, i)[k].0)
                == j;
        assert(d[k] as int == j);
    }
}

/// Resolves every reference of assignment `i` to the index of the referenced
/// assignment, in reference order; fails with the reference's own name and
/// span when no assignment has the name.
pub fn resolve_deps(asg: &Vec<Assignment>, i: usize) -> (r: Result<Vec<usize>, EvalError>)
    requires
        i < asg.len(),
    ensures
        r matches Ok(d) ==> deps_ok(asg@, i as int, d@),
        r matches Err(e) ==> {
            &&& e matches EvalError::UndefinedReference { name, span }
            &&& !defines(asg@, name@)
            &&& exists|k: int|
                0 <= k < refs_of(asg@, i as int).len() && #[trigger] refs_of(asg@, i as int)[k]
                    == (name@, span)
        },
{
    let mut refs: Vec<(String, Span)> = Vec::new();
    collect_refs(&asg[i].value, &mut refs);
    proof {
        assert(refs_view(Seq::<(String, Span)>::empty()) + spec_refs(asg@[i as int].value)
            =~= refs_of(asg@, i as int));
    }
    let mut d: Vec<usize> = Vec::new();
    let mut k: usize = 0;
    while k < refs.len()
        invariant
            i < asg.len(),
            k <= refs.len(),
            refs_view(refs@) == refs_of(asg@, i as int),
            d@.len() == k,
            forall|m: int| 0 <= m < k ==> 0 <= #[trigger] d@[m] < asg.len(),
            forall|m: int|
                0 <= m < k ==> #[trigger] d@[m] as int == index_of_name(
                    asg@,
                    refs_of(asg@, i as int)[m].0,
                ),
        decreases refs.len() - k,
    {
        proof {
            assert(refs_view(refs@)[k as int] == (refs@[k as int].0@, refs@[k as int].1));
        }
        match lookup_name(asg, &refs[k].0) {
            Some(t) => {
                d.push(t);
            },
            None => {
                proof {
                    assert(refs_of(asg@, i as int)[k as int] == (refs@[k as int].0@, refs@[
                        k as int].1));
                }
                return Err(
                    EvalError::UndefinedReference {
                        name: refs[k].0.clone(),
                        span: refs[k].1,
                    },
                );
            },
        }
        k += 1;
    }
    Ok(d)
}

/// How many entries of a flag sequence are set.
pub open spec fn count_true(s: Seq<bool>) -> nat
    decreases s.len(),
{
    if s.len() == 0 {
        0
    } else {
        (if s[0] {
            1nat
        } else {
            0nat
        }) + count_true(s.drop_first())
    }
}

/// Setting one flag raises the count by one exactly when it was clear.
pub proof fn lemma_count_true_update(s: Seq<bool>, i: int)
    requires
        0 <= i < s.len(),
    ensures
        s[i] ==> count_true(s.update(i, true)) == count_true(s),
        !s[i] ==> count_true(s.update(i, true)) == count_true(s) + 1,
    decreases s.len(),
{
    let t = s.update(i, true);
    if i == 0 {
        assert(t.drop_first() =~= s.drop_first());
    } else {
        assert(t.drop_first() =~= s.drop_first().update(i - 1, true));
        lemma_count_true_update(s.drop_first(), i - 1);
    }
}

/// A count never exceeds the length.
pub proof fn lemma_count_true_le_len(s: Seq<bool>)
    ensures
        count_true(s) <= s.len(),
    decreases s.len(),
{
    if s.len() > 0 {
        lemma_count_true_le_len(s.drop_first());
    }
}

/// A duplicate-free sequence of indices below `n` has at most `n` entries.
pub proof fn lemma_no_dup_bounded(s: Seq<usize>, n: nat)
    requires
        s.no_duplicates(),
        forall|k: int| 0 <= k < s.len() ==> (#[trigger] s[k] as int) < n,
    ensures
        s.len() <= n,
{
    let t = s.map_values(|u: usize| u as int);
    assert(t.no_duplicates()) by {
        assert forall|p: int, q: int|
            0 <= p < t.len() && 0 <= q < t.len() && p != q implies t[p] != t[q] by {
            assert(s[p] != s[q]);
        }
    }
    t.unique_seq_to_set();
    assert(t.to_set().subset_of(vstd::set_lib::set_int_range(0, n as int))) by {
        assert forall|x: int| t.to_set().contains(x) implies vstd::set_lib::set_int_range(
            0,
            n as int,
        ).contains(x) by {
            let k = choose|k: int| 0 <= k < t.len() && t[k] == x;
            assert(s[k] as int == x);
        }
    }
    vstd::set_lib::lemma_int_range(0, n as int);
    vstd::set_lib::lemma_len_subset(t.to_set(), vstd::set_lib::set_int_range(0, n as int));
}

} // verus!

verus! {

/// Every root index is in the closure.
pub proof fn lemma_root_in_closure(asg: Seq<Assignment>, roots: Seq<bool>, i: int)
    requires
        0 <= i < roots.len(),
        roots[i],
    ensures
        in_closure(asg, roots, i),
{
}

/// The closure is closed under edges.
pub proof fn lemma_closure_step(asg: Seq<Assignment>, roots: Seq<bool>, i: int, j: int)
    requires
        in_closure(asg, roots, i),
        edge(asg, i, j),
    ensures
        in_closure(asg, roots, j),
{
    assert forall|s: Set<int>| rooted(roots, s) && closed(asg, s) implies #[trigger] s.contains(
        j,
    ) by {
        assert(s.contains(i));
    }
}

/// A vector of `n` copies of `v`.
pub(crate) fn bool_vec(n: usize, v: bool) -> (r: Vec<bool>)
    ensures
        r.len() == n,
        forall|i: int| 0 <= i < n ==> r@[i] == v,
{
    let mut r: Vec<bool> = Vec::new();
    while r.len() < n
        invariant
            r.len() <= n,
            forall|i: int| 0 <= i < r.len() ==> r@[i] == v,
        decreases n - r.len(),
    {
        r.push(v);
    }
    r
}

/// A vector of `n` empty dependency lists.
fn empty_deps(n: usize) -> (r: Vec<Vec<usize>>)
    ensures
        r.len() == n,
{
    let mut r: Vec<Vec<usize>> = Vec::new();
    while r.len() < n
        invariant
            r.len() <= n,
        decreases n - r.len(),
    {
        r.push(Vec::new());
    }
    r
}

/// Marks exactly the demand closure of the root set, resolving the
/// dependency list of every closure member along the way. Fails with
/// `UndefinedReference` when a closure member references a name no
/// assignment has; an assignment outside the closure is never examined, so
/// a fault latent in it never surfaces.
#[verifier::loop_isolation(false)]
pub fn reach(asg: &Vec<Assignment>, roots: &Vec<bool>) -> (r: Result<
    (Vec<bool>, Vec<Vec<usize>>),
    EvalError,
>)
    requires
        roots.len() == asg.len(),
    ensures
        r matches Ok(p) ==> {
            &&& p.0.len() == asg.len()
            &&& p.1.len() == asg.len()
            &&& forall|i: int|
                0 <= i < asg.len() ==> (p.0@[i] <==> in_closure(asg@, roots@, i))
            &&& forall|i: int|
                0 <= i < asg.len() && p.0@[i] ==> deps_ok(asg@, i, #[trigger] p.1@[i]@)
        },
        r matches Err(e) ==> {
            &&& e matches EvalError::UndefinedReference { name, span }
            &&& !defines(asg@, name@)
            &&& exists|i: int|
                0 <= i < asg.len() && #[trigger] in_closure(asg@, roots@, i) && exists|k: int|
                    0 <= k < refs_of(asg@, i).len() && #[trigger] refs_of(asg@, i)[k] == (
                    name@,
                    span,
                )
        },
{
    let n = asg.len();
    let mut marked = bool_vec(n, false);
    let mut deps = empty_deps(n);
    let mut stack: Vec<usize> = Vec::new();
    // Seed the walk with the root set.
    let mut i: usize = 0;
    while i < n
        invariant
            i <= n,
            marked.len() == n,
            stack@.no_duplicates(),
            forall|k: int| 0 <= k < stack@.len() ==> #[trigger] stack@[k] < n,
            forall|j: int| 0 <= j < n ==> (marked@[j] <==> in_order(stack@, j)),
            forall|j: int| 0 <= j < n && marked@[j] ==> in_closure(asg@, roots@, j),
            forall|j: int| 0 <= j < i && roots@[j] ==> marked@[j],
        decreases n - i,
    {
        if roots[i] && !marked[i] {
            proof {
                lemma_root_in_closure(asg@, roots@, i as int);
                assert forall|j: int| #[trigger] in_order(stack@, j) implies in_order(
                    stack@.push(i),
                    j,
                ) by {
                    let m = choose|m: int|
                        0 <= m < stack@.len() && #[trigger] stack@[m] as int == j;
                    assert(stack@.push(i)[m] as int == j);
                }
                assert(in_order(stack@.push(i), i as int)) by {
                    assert(stack@.push(i)[stack@.len() as int] as int == i as int);
                }
                assert forall|j: int| #[trigger] in_order(stack@.push(i), j) implies (in_order(
                    stack@,
                    j,
                ) || j == i as int) by {
                    let m = choose|m: int|
                        0 <= m < stack@.push(i).len() && #[trigger] stack@.push(i)[m] as int == j;
                    if m < stack@.len() {
                        assert(stack@[m] as int == j);
                    }
                }
            }
            marked.set(i, true);
            stack.push(i);
        } else {
            proof {
                if roots[i as int] {
                    assert(marked@[i as int]);
                }
            }
        }
        i += 1;
    }
    proof {
        lemma_count_true_le_len(marked@);
    }
    // Walk: pop a marked assignment, resolve its references, mark what they
    // target.
    while stack.len() > 0
        invariant
            marked.len() == n,
            deps.len() == n,
            count_true(marked@) <= n,
            stack@.no_duplicates(),
            forall|k: int| 0 <= k < stack@.len() ==> #[trigger] stack@[k] < n,
            forall|k: int| 0 <= k < stack@.len() ==> marked@[#[trigger] stack@[k] as int],
            forall|j: int| 0 <= j < n && marked@[j] ==> in_closure(asg@, roots@, j),
            forall|j: int| 0 <= j < n && roots@[j] ==> marked@[j],
            forall|j: int|
                0 <= j < n && marked@[j] && !in_order(stack@, j) ==> deps_ok(
                    asg@,
                    j,
                    #[trigger] deps@[j]@,
                ),
            forall|j: int, k: int|
                0 <= j < n && marked@[j] && !in_order(stack@, j) && 0 <= k < deps@[j]@.len()
                    ==> marked@[#[trigger] deps@[j]@[k] as int],
        decreases n - count_true(marked@), stack@.len(),
    {
        let ghost stack0 = stack@;
        let ghost marked0 = marked@;
        let u = stack.pop().unwrap();
        let ghost stackp = stack@;
        proof {
            assert(stack0[stack0.len() - 1] == u);
            assert(marked@[u as int]);
            assert(!in_order(stack@, u as int)) by {
                if in_order(stack@, u as int) {
                    let k = choose|k: int| 0 <= k < stack@.len() && #[trigger] stack@[k] as int == u as int;
                    assert(stack0[k] == stack0[stack0.len() - 1]);
                }
            }
            assert(forall|j: int|
                #[trigger] in_order(stack@, j) ==> in_order(stack0, j));
            assert forall|j: int|
                #[trigger] in_order(stack0, j) && j != u as int implies in_order(stackp, j) by {
                let k = choose|k: int| 0 <= k < stack0.len() && #[trigger] stack0[k] as int == j;
                assert(k < stack0.len() - 1);
                assert(stackp[k] as int == j);
            }
        }
        match resolve_deps(asg, u) {
            Err(e) => {
                return Err(e);
            },
            Ok(du) => {
                let mut k: usize = 0;
                while k < du.len()
                    invariant
                        marked.len() == n,
                        deps.len() == n,
                        count_true(marked@) <= n,
                        count_true(marked@) >= count_true(marked0),
                        count_true(marked@) == count_true(marked0) ==> stack@ == stackp,
                        k <= du.len(),
                        deps_ok(asg@, u as int, du@),
                        u < n,
                        marked@[u as int],
                        !in_order(stack@, u as int),
                        stack@.no_duplicates(),
                        forall|m: int| 0 <= m < stack@.len() ==> #[trigger] stack@[m] < n,
                        forall|m: int|
                            0 <= m < stack@.len() ==> marked@[#[trigger] stack@[m] as int],
                        forall|j: int|
                            0 <= j < n && marked@[j] ==> in_closure(asg@, roots@, j),
                        forall|j: int| 0 <= j < n && roots@[j] ==> marked@[j],
                        forall|j: int|
                            0 <= j < n && marked@[j] && !in_order(stack@, j) && j != u as int
                                ==> deps_ok(asg@, j, #[trigger] deps@[j]@),
                        forall|j: int, m: int|
                            0 <= j < n && marked@[j] && !in_order(stack@, j) && j != u as int && 0
                                <= m < deps@[j]@.len() ==> marked@[#[trigger] deps@[j]@[m] as int],
                        forall|m: int| 0 <= m < k ==> marked@[#[trigger] du@[m] as int],
                    decreases du.len() - k,
                {
                    let t = du[k];
                    if !marked[t] {
                        proof {
                            lemma_deps_ok_edges(asg@, u as int, du@);
                            lemma_closure_step(asg@, roots@, u as int, t as int);
                            lemma_count_true_update(marked@, t as int);
                            lemma_count_true_le_len(marked@.update(t as int, true));
                            assert forall|j: int| #[trigger] in_order(stack@.push(t), j) implies (
                            in_order(stack@, j) || j == t as int) by {
                                let m = choose|m: int|
                                    0 <= m < stack@.push(t).len() && #[trigger] stack@.push(
                                        t,
                                    )[m] as int == j;
                                if m < stack@.len() {
                                    assert(stack@[m] as int == j);
                                }
                            }
                            assert forall|j: int| #[trigger] in_order(stack@, j) implies in_order(
                                stack@.push(t),
                                j,
                            ) by {
                                let m = choose|m: int|
                                    0 <= m < stack@.len() && #[trigger] stack@[m] as int == j;
                                assert(stack@.push(t)[m] as int == j);
                            }
                            assert(in_order(stack@.push(t), t as int)) by {
                                assert(stack@.push(t)[stack@.len() as int] as int == t as int);
                            }
                        }
                        marked.set(t, true);
                        stack.push(t);
                    }
                    k += 1;
                }
                deps.set(u, du);
            },
        }
    }
    proof {
        let s = Set::new(|j: int| 0 <= j < n && marked@[j]);
        assert(rooted(roots@, s)) by {
            assert forall|j: int|
                0 <= j < roots@.len() && roots@[j] implies #[trigger] s.contains(j) by {
                assert(marked@[j]);
            }
        }
        assert(closed(asg@, s)) by {
            assert forall|a: int, b: int|
                #[trigger] s.contains(a) && #[trigger] edge(asg@, a, b) implies s.contains(b) by {
                assert(marked@[a]);
                assert(!in_order(stack@, a));
                assert(deps_ok(asg@, a, deps@[a]@));
                lemma_deps_ok_edges(asg@, a, deps@[a]@);
                let m = choose|m: int|
                    0 <= m < deps@[a]@.len() && #[trigger] deps@[a]@[m] as int == b;
                assert(marked@[b]);
            }
        }
        assert forall|j: int|
            0 <= j < n && in_closure(asg@, roots@, j) implies marked@[j] by {
            assert(s.contains(j));
        }
    }
    Ok((marked, deps))
}

} // verus!

verus! {

/// Whether every dependency of `i` is already listed in `done`.
pub open spec fn ready(asg: Seq<Assignment>, done: Seq<usize>, i: int) -> bool {
    forall|j: int| #[trigger] edge(asg, i, j) ==> in_order(done, j)
}

/// Position `k` of `order` holds the smallest ready index: among the marked
/// indices not yet listed before `k` whose dependencies are all listed
/// before `k`, none is smaller than `order[k]`. Ties among independent
/// assignments are thus broken by ascending declaration order.
pub open spec fn is_min_ready(asg: Seq<Assignment>, marked: Seq<bool>, order: Seq<usize>, k: int) -> bool {
    forall|i: int|
        #![trigger ready(asg, order.take(k), i)]
        0 <= i < order[k] as int && marked[i] && !in_order(order.take(k), i) ==> !ready(
            asg,
            order.take(k),
            i,
        )
}

/// A correct evaluation order for the marked set: it lists each marked
/// index exactly once; every dependency of a listed index is listed
/// earlier; and each position takes the smallest ready index.
pub open spec fn topo_ok(asg: Seq<Assignment>, marked: Seq<bool>, order: Seq<usize>) -> bool {
    &&& order.no_duplicates()
    &&& forall|k: int|
        0 <= k < order.len() ==> 0 <= #[trigger] order[k] < asg.len() && marked[order[k] as int]
    &&& forall|i: int| 0 <= i < asg.len() && #[trigger] marked[i] ==> in_order(order, i)
    &&& forall|k: int, j: int|
        #![trigger edge(asg, order[k] as int, j)]
        0 <= k < order.len() && edge(asg, order[k] as int, j) ==> in_order(order.take(k), j)
    &&& forall|k: int| 0 <= k < order.len() ==> #[trigger] is_min_ready(asg, marked, order, k)
}

/// The reported names trace an actual dependency cycle within the marked
/// set: each assignment named references the next, and the last references
/// the first.
pub open spec fn cycle_ok(asg: Seq<Assignment>, marked: Seq<bool>, names: Seq<String>) -> bool {
    exists|c: Seq<usize>|
        {
            &&& c.len() == names.len()
            &&& c.len() >= 1
            &&& forall|k: int|
                0 <= k < c.len() ==> 0 <= #[trigger] c[k] < asg.len() && marked[c[k] as int]
            &&& forall|k: int| 0 <= k < c.len() ==> (#[trigger] names[k])@ == asg[c[k] as int].name@
            &&& forall|k: int|
                0 <= k < c.len() - 1 ==> edge(asg, #[trigger] c[k] as int, c[k + 1] as int)
            &&& edge(asg, c[c.len() - 1] as int, c[0] as int)
        }
}

/// Whether every target of `d` is flagged in `emitted`.
fn deps_emitted(d: &Vec<usize>, emitted: &Vec<bool>) -> (r: bool)
    requires
        forall|k: int| 0 <= k < d@.len() ==> (#[trigger] d@[k] as int) < emitted@.len(),
    ensures
        r <==> forall|k: int| 0 <= k < d@.len() ==> emitted@[#[trigger] d@[k] as int],
{
    let mut k: usize = 0;
    while k < d.len()
        invariant
            k <= d.len(),
            forall|m: int| 0 <= m < d@.len() ==> (#[trigger] d@[m] as int) < emitted@.len(),
            forall|m: int| 0 <= m < k ==> emitted@[#[trigger] d@[m] as int],
        decreases d.len() - k,
    {
        if !emitted[d[k]] {
            return false;
        }
        k += 1;
    }
    true
}

} // verus!

verus! {

/// Whether assignment `q` has a dependency that is not yet emitted.
pub open spec fn has_unemitted_dep(deps: Seq<Vec<usize>>, emitted: Seq<bool>, q: int) -> bool {
    exists|m: int| 0 <= m < deps[q]@.len() && !emitted[#[trigger] deps[q]@[m] as int]
}

/// Orders the marked assignments so that every assignment appears after all
/// its dependencies, breaking ties among independent assignments by
/// ascending declaration order; fails with the names of an actual
/// dependency cycle when no such order exists.
#[verifier::loop_isolation(false)]
pub fn toposort(asg: &Vec<Assignment>, marked: &Vec<bool>, deps: &Vec<Vec<usize>>) -> (r: Result<
    Vec<usize>,
    EvalError,
>)
    requires
        marked.len() == asg.len(),
        deps.len() == asg.len(),
        forall|i: int| 0 <= i < asg.len() && marked@[i] ==> deps_ok(asg@, i, #[trigger] deps@[i]@),
        forall|i: int, k: int|
            0 <= i < asg.len() && marked@[i] && 0 <= k < deps@[i]@.len() ==> marked@[#[trigger] deps@[i]@[k] as int],
    ensures
        r matches Ok(order) ==> topo_ok(asg@, marked@, order@),
        r matches Err(e) ==> {
            &&& e matches EvalError::CyclicDependency { cycle_names }
            &&& cycle_ok(asg@, marked@, cycle_names@)
        },
{
    let n = asg.len();
    let mut emitted = bool_vec(n, false);
    let mut order: Vec<usize> = Vec::new();
    proof {
        lemma_count_true_le_len(emitted@);
    }
    loop
        invariant
            emitted.len() == n,
            count_true(emitted@) <= n,
            forall|j: int| 0 <= j < n ==> (emitted@[j] <==> in_order(order@, j)),
            order@.no_duplicates(),
            forall|k: int|
                0 <= k < order@.len() ==> 0 <= #[trigger] order@[k] < n && marked@[order@[k] as int],
            forall|k: int, j: int|
                #![trigger edge(asg@, order@[k] as int, j)]
                0 <= k < order@.len() && edge(asg@, order@[k] as int, j) ==> in_order(
                    order@.take(k),
                    j,
                ),
            forall|k: int| 0 <= k < order@.len() ==> #[trigger] is_min_ready(asg@, marked@, order@, k),
        decreases n - count_true(emitted@),
    {
        // Scan for the smallest marked, unemitted index whose dependencies
        // are all emitted.
        let mut i: usize = 0;
        let mut pick: usize = n;
        while i < n
            invariant
                i <= n,
                pick <= n,
                pick == n || i == n,
                pick == n ==> forall|q: int|
                    0 <= q < i && marked@[q] && !emitted@[q] ==> #[trigger] has_unemitted_dep(
                        deps@,
                        emitted@,
                        q,
                    ),
                pick < n ==> {
                    &&& marked@[pick as int]
                    &&& !emitted@[pick as int]
                    &&& forall|m: int|
                        0 <= m < deps@[pick as int]@.len() ==> emitted@[#[trigger] deps@[
                        pick as int]@[m] as int]
                    &&& forall|q: int|
                        0 <= q < pick && marked@[q] && !emitted@[q] ==> #[trigger] has_unemitted_dep(
                            deps@,
                            emitted@,
                            q,
                        )
                },
            decreases n - i,
        {
            if marked[i] && !emitted[i] {
                if deps_emitted(&deps[i], &emitted) {
                    pick = i;
                    i = n;
                } else {
                    proof {
                        let m = choose|m: int|
                            0 <= m < deps@[i as int]@.len() && !emitted@[#[trigger] deps@[
                            i as int]@[m] as int];
                        assert(has_unemitted_dep(deps@, emitted@, i as int));
                    }
                    i += 1;
                }
            } else {
                i += 1;
            }
        }
        if pick < n {
            let ghost order0 = order@;
            let ghost emitted0 = emitted@;
            proof {
                lemma_count_true_update(emitted@, pick as int);
                lemma_count_true_le_len(emitted@.update(pick as int, true));
            }
            order.push(pick);
            emitted.set(pick, true);
            proof {
                // Prefixes are unchanged by the push.
                assert forall|k: int| 0 <= k <= order0.len() implies order@.take(k)
                    =~= order0.take(k) by {}
                assert(order@.take(order0.len() as int) =~= order0);
                // Membership after the push.
                assert forall|j: int| #[trigger] in_order(order0, j) implies in_order(
                    order@,
                    j,
                ) by {
                    let m = choose|m: int| 0 <= m < order0.len() && #[trigger] order0[m] as int == j;
                    assert(order@[m] as int == j);
                }
                assert(in_order(order@, pick as int)) by {
                    assert(order@[order0.len() as int] as int == pick as int);
                }
                assert forall|j: int| #[trigger] in_order(order@, j) implies (in_order(order0, j)
                    || j == pick as int) by {
                    let m = choose|m: int| 0 <= m < order@.len() && #[trigger] order@[m] as int == j;
                    if m < order0.len() {
                        assert(order0[m] as int == j);
                    }
                }
                // The emitted position respects dependency order.
                let kn = order0.len() as int;
                lemma_deps_ok_edges(asg@, pick as int, deps@[pick as int]@);
                assert forall|j: int| #[trigger] edge(asg@, pick as int, j) implies in_order(
                    order@.take(kn),
                    j,
                ) by {
                    let m = choose|m: int|
                        0 <= m < deps@[pick as int]@.len() && #[trigger] deps@[
                        pick as int]@[m] as int == j;
                    assert(emitted0[j]);
                }
                // The emitted position is the smallest ready one.
                assert(is_min_ready(asg@, marked@, order@, kn)) by {
                    assert forall|q: int|
                        0 <= q < order@[kn] as int && marked@[q] && !in_order(
                            order@.take(kn),
                            q,
                        ) implies !ready(asg@, order@.take(kn), q) by {
                        assert(!emitted0[q]);
                        assert(has_unemitted_dep(deps@, emitted0, q));
                        let m = choose|m: int|
                            0 <= m < deps@[q]@.len() && !emitted0[#[trigger] deps@[q]@[m] as int];
                        lemma_deps_ok_edges(asg@, q, deps@[q]@);
                        if ready(asg@, order@.take(kn), q) {
                            assert(edge(asg@, q, deps@[q]@[m] as int));
                            assert(in_order(order0, deps@[q]@[m] as int));
                            assert(emitted0[deps@[q]@[m] as int]);
                        }
                    }
                }
                assert forall|k: int|
                    0 <= k < order@.len() implies #[trigger] is_min_ready(
                    asg@,
                    marked@,
                    order@,
                    k,
                ) by {
                    if k < kn {
                        assert(is_min_ready(asg@, marked@, order0, k));
                        assert(order@.take(k) =~= order0.take(k));
                        assert(order@[k] == order0[k]);
                    }
                }
            }
        } else {
            // Nothing is ready: either everything marked is emitted and the
            // order is complete, or what remains contains a cycle.
            let mut j: usize = 0;
            let mut start: usize = n;
            while j < n
                invariant
                    j <= n,
                    start <= n,
                    start == n ==> forall|q: int| 0 <= q < j && marked@[q] ==> emitted@[q],
                    start < n ==> marked@[start as int] && !emitted@[start as int],
                decreases n - j,
            {
                if marked[j] && !emitted[j] {
                    start = j;
                    j = n;
                } else {
                    j += 1;
                }
            }
            if start == n {
                return Ok(order);
            }
            return Err(find_cycle(asg, marked, deps, &emitted, start));
        }
    }
}

/// Follows unemitted dependencies from `start` until an assignment repeats,
/// and reports the names on the cycle.
#[verifier::loop_isolation(false)]
#[verifier::rlimit(60)]
fn find_cycle(
    asg: &Vec<Assignment>,
    marked: &Vec<bool>,
    deps: &Vec<Vec<usize>>,
    emitted: &Vec<bool>,
    start: usize,
) -> (r: EvalError)
    requires
        marked.len() == asg.len(),
        deps.len() == asg.len(),
        emitted.len() == asg.len(),
        forall|i: int| 0 <= i < asg.len() && marked@[i] ==> deps_ok(asg@, i, #[trigger] deps@[i]@),
        forall|i: int, k: int|
            0 <= i < asg.len() && marked@[i] && 0 <= k < deps@[i]@.len() ==> marked@[#[trigger] deps@[i]@[k] as int],
        start < asg.len(),
        marked@[start as int],
        !emitted@[start as int],
        forall|q: int|
            0 <= q < asg.len() && marked@[q] && !emitted@[q] ==> #[trigger] has_unemitted_dep(
                deps@,
                emitted@,
                q,
            ),
    ensures
        r matches EvalError::CyclicDependency { cycle_names } && cycle_ok(
            asg@,
            marked@,
            cycle_names@,
        ),
{
    let n = asg.len();
    let mut path: Vec<usize> = Vec::new();
    path.push(start);
    loop
        invariant
            path@.len() >= 1,
            path@.no_duplicates(),
            forall|k: int|
                0 <= k < path@.len() ==> 0 <= #[trigger] path@[k] < n && marked@[path@[k] as int]
                    && !emitted@[path@[k] as int],
            forall|k: int|
                0 <= k < path@.len() - 1 ==> edge(asg@, #[trigger] path@[k] as int, path@[k
                    + 1] as int),
        decreases n - path@.len(),
    {
        let u = path[path.len() - 1];
        // Find the first unemitted dependency of `u`; the stuck condition
        // guarantees one exists.
        let du = &deps[u];
        proof {
            assert(has_unemitted_dep(deps@, emitted@, u as int));
        }
        let dlen = du.len();
        let mut m: usize = 0;
        while emitted[du[m]]
            invariant
                dlen == du@.len(),
                m < dlen,
                exists|m2: int|
                    m <= m2 < du@.len() && !emitted@[#[trigger] du@[m2] as int],
                forall|k: int| 0 <= k < du@.len() ==> (#[trigger] du@[k] as int) < n,
            decreases du@.len() - m,
        {
            proof {
                let m2 = choose|m2: int|
                    m <= m2 < du@.len() && !emitted@[#[trigger] du@[m2] as int];
                assert(m2 != m);
            }
            m += 1;
        }
        let v = du[m];
        proof {
            lemma_deps_ok_edges(asg@, u as int, deps@[u as int]@);
            assert(edge(asg@, u as int, v as int));
        }
        // Does `v` close a cycle with the path walked so far?
        let mut p: usize = 0;
        let mut found: bool = false;
        while p < path.len() && !found
            invariant
                p <= path.len(),
                found ==> p < path.len() && path@[p as int] == v,
                !found ==> forall|q: int| 0 <= q < p ==> path@[q] != v,
            decreases path.len() - p, 1int - (if found { 1int } else { 0int }),
        {
            if path[p] == v {
                found = true;
            } else {
                p += 1;
            }
        }
        if found {
            // The cycle is path[p..] back to v == path[p].
            let mut names: Vec<String> = Vec::new();
            let mut q: usize = p;
            while q < path.len()
                invariant
                    p <= q <= path.len(),
                    names@.len() == q - p,
                    forall|w: int|
                        0 <= w < names@.len() ==> (#[trigger] names@[w])@ == asg@[path@[p
                            + w] as int].name@,
                decreases path.len() - q,
            {
                names.push(asg[path[q]].name.clone());
                q += 1;
            }
            proof {
                let c = path@.skip(p as int);
                assert(c.len() == names@.len());
                assert forall|k: int| 0 <= k < c.len() implies 0 <= #[trigger] c[k] < asg@.len()
                    && marked@[c[k] as int] by {
                    assert(c[k] == path@[p + k]);
                }
                assert forall|k: int|
                    0 <= k < c.len() implies (#[trigger] names@[k])@ == asg@[c[k] as int].name@ by {
                    assert(c[k] == path@[p + k]);
                }
                assert forall|k: int|
                    0 <= k < c.len() - 1 implies edge(asg@, #[trigger] c[k] as int, c[k
                    + 1] as int) by {
                    assert(c[k] == path@[p + k] && c[k + 1] == path@[p + k + 1]);
                }
                assert(c[c.len() - 1] == path@[path@.len() - 1]);
                assert(c[0] == path@[p as int]);
                assert(edge(asg@, c[c.len() - 1] as int, c[0] as int));
                assert(cycle_ok(asg@, marked@, names@));
            }
            return EvalError::CyclicDependency { cycle_names: names };
        }
        proof {
            lemma_no_dup_bounded(path@.push(v), n as nat);
            assert forall|k: int|
                0 <= k < path@.push(v).len() implies (#[trigger] path@.push(v)[k] as int)
                < n by {
                if k < path@.len() {
                    assert(path@[k] < n);
                }
            }
            assert(path@.push(v).no_duplicates());
        }
        path.push(v);
    }
}

} // verus!
