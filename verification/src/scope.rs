use vstd::prelude::*;
use crate::expr::Expression;

verus! {

/// A named binding from an identifier to an [`Expression`]. The declaration
/// order index of an assignment is its position in the owning scope's
/// assignment sequence. `exported` assignments are always visible to
/// subprocesses, so their values are demanded by every invocation.
pub struct Assignment {
    pub name: String,
    pub value: Expression,
    pub exported: bool,
}

/// The terminal output of evaluating one assignment: its name and the
/// computed string value.
pub struct EvaluatedValue {
    pub name: String,
    pub string_value: String,
}

/// A named child scope of a parent scope.
pub struct Submodule {
    pub name: String,
    pub scope: Scope,
}

/// A top-level file or a submodule: an ordered sequence of assignments (the
/// position is the declaration order index; a later declaration of the same
/// name shadows an earlier one) and a set of child scopes. A submodule's
/// assignments are invisible to the parent and vice versa: each scope is
/// evaluated independently, with its own closure computation, at the point
/// it is actually invoked.
///
/// `lazy_setting` is the resolved value of the scope's `lazy` setting
/// (`None` when unset; the policy defaults to eager). `export_setting` is
/// the scope's `export` setting, which forces every assignment of this
/// scope — not of its children — into the root set.
pub struct Scope {
    pub assignments: Vec<Assignment>,
    pub lazy_setting: Option<bool>,
    pub export_setting: bool,
    pub submodules: Vec<Submodule>,
}

impl Scope {
    /// The evaluation policy the scope's `lazy` setting selects: lazy
    /// exactly when the setting is present and true. `set lazy` with no
    /// value and `set lazy := true` are the same; `set lazy := false` and
    /// an absent setting both select eager evaluation.
    pub open spec fn spec_is_lazy(self) -> bool {
        self.lazy_setting == Some(true)
    }

    /// Returns whether the scope's `lazy` setting selects lazy evaluation.
    pub fn is_lazy(&self) -> (r: bool)
        ensures
            r == self.spec_is_lazy(),
    {
        match self.lazy_setting {
            Some(b) => b,
            None => false,
        }
    }

    /// Looks up a child scope by name; `None` when no submodule has the
    /// name.
    pub fn submodule(&self, name: &String) -> (r: Option<&Scope>)
        ensures
            r matches Some(s) ==> exists|i: int|
                0 <= i < self.submodules.len() && self.submodules[i].name@ == name@
                    && *s == self.submodules[i].scope,
            r is None ==> forall|i: int|
                0 <= i < self.submodules.len() ==> self.submodules[i].name@ != name@,
    {
        let mut i: usize = 0;
        while i < self.submodules.len()
            invariant
                i <= self.submodules.len(),
                forall|k: int| 0 <= k < i ==> self.submodules[k].name@ != name@,
            decreases self.submodules.len() - i,
        {
            if self.submodules[i].name.eq(name) {
                return Some(&self.submodules[i].scope);
            }
            i += 1;
        }
        None
    }
}

/// Whether no two assignments share a name.
pub open spec fn names_unique(asg: Seq<Assignment>) -> bool {
    forall|i: int, j: int| 0 <= i < j < asg.len() ==> asg[i].name@ != asg[j].name@
}

/// The index of the first assignment named `n`, or -1 when none is.
pub open spec fn index_of_name(asg: Seq<Assignment>, n: Seq<char>) -> int
    decreases asg.len(),
{
    if asg.len() == 0 {
        -1
    } else if asg[0].name@ == n {
        0
    } else {
        let r = index_of_name(asg.drop_first(), n);
        if r < 0 {
            -1
        } else {
            r + 1
        }
    }
}

/// Whether some assignment is named `n`.
pub open spec fn defines(asg: Seq<Assignment>, n: Seq<char>) -> bool {
    exists|i: int| 0 <= i < asg.len() && asg[i].name@ == n
}

/// `index_of_name` finds exactly the first assignment with the name.
pub proof fn lemma_index_of_name(asg: Seq<Assignment>, n: Seq<char>)
    ensures
        index_of_name(asg, n) == -1 <==> !defines(asg, n),
        index_of_name(asg, n) != -1 ==> {
            &&& 0 <= index_of_name(asg, n) < asg.len()
            &&& asg[index_of_name(asg, n)].name@ == n
            &&& forall|k: int| 0 <= k < index_of_name(asg, n) ==> asg[k].name@ != n
        },
    decreases asg.len(),
{
    if asg.len() > 0 && asg[0].name@ != n {
        lemma_index_of_name(asg.drop_first(), n);
        let r = index_of_name(asg.drop_first(), n);
        if r >= 0 {
            assert(asg.drop_first()[r] == asg[r + 1]);
            assert forall|k: int| 0 <= k < r + 1 implies #[trigger] asg[k].name@ != n by {
                if k > 0 {
                    assert(asg.drop_first()[k - 1] == asg[k]);
                }
            }
        }
        assert forall|i: int| 0 <= i < asg.len() && asg[i].name@ == n implies index_of_name(
            asg,
            n,
        ) != -1 by {
            if i > 0 {
                assert(asg.drop_first()[i - 1] == asg[i]);
            }
        }
    }
}

/// Finds the first assignment named `n`.
pub fn lookup_name(asg: &Vec<Assignment>, n: &String) -> (r: Option<usize>)
    ensures
        r matches Some(i) ==> i == index_of_name(asg@, n@) && i < asg.len(),
        r is None ==> !defines(asg@, n@),
{
    proof {
        lemma_index_of_name(asg@, n@);
    }
    let mut i: usize = 0;
    while i < asg.len()
        invariant
            i <= asg.len(),
            forall|k: int| 0 <= k < i ==> asg@[k].name@ != n@,
        decreases asg.len() - i,
    {
        if asg[i].name.eq(n) {
            proof {
                lemma_index_of_name(asg@, n@);
                assert(defines(asg@, n@));
            }
            return Some(i);
        }
        i += 1;
    }
    None
}

/// The assignments that survive last-wins shadowing: of several assignments
/// sharing a name, only the last declared is kept, and the survivors keep
/// their relative declaration order.
pub open spec fn dedupe_spec(asg: Seq<Assignment>) -> Seq<Assignment>
    decreases asg.len(),
{
    if asg.len() == 0 {
        Seq::empty()
    } else if exists|j: int| 1 <= j < asg.len() && #[trigger] asg[j].name@ == asg[0].name@ {
        dedupe_spec(asg.drop_first())
    } else {
        seq![asg[0]] + dedupe_spec(asg.drop_first())
    }
}

/// Whether no later declaration shadows `asg[j]`.
pub open spec fn is_unshadowed(asg: Seq<Assignment>, j: int) -> bool {
    forall|k: int| j < k < asg.len() ==> asg[k].name@ != asg[j].name@
}

/// What shadowing keeps: unique names; every survivor is an assignment of
/// the input that no later declaration shadows; every unshadowed assignment
/// of the input survives; and a name is defined after shadowing exactly
/// when it was defined before.
pub proof fn lemma_dedupe_spec(asg: Seq<Assignment>)
    ensures
        names_unique(dedupe_spec(asg)),
        forall|i: int|
            0 <= i < dedupe_spec(asg).len() ==> exists|j: int|
                0 <= j < asg.len() && asg[j] == #[trigger] dedupe_spec(asg)[i] && is_unshadowed(
                    asg,
                    j,
                ),
        forall|j: int|
            0 <= j < asg.len() && #[trigger] is_unshadowed(asg, j) ==> defines(
                dedupe_spec(asg),
                asg[j].name@,
            ),
        forall|n: Seq<char>| #[trigger] defines(dedupe_spec(asg), n) <==> defines(asg, n),
    decreases asg.len(),
{
    if asg.len() > 0 {
        let tail = asg.drop_first();
        lemma_dedupe_spec(tail);
        let d = dedupe_spec(asg);
        let dt = dedupe_spec(tail);
        assert forall|i: int| 0 <= i < tail.len() implies tail[i] == asg[i + 1] by {}
        if exists|j: int| 1 <= j < asg.len() && #[trigger] asg[j].name@ == asg[0].name@ {
            // The head is shadowed: the survivors are those of the tail.
            assert(d == dt);
            assert forall|j: int|
                0 <= j < asg.len() && #[trigger] is_unshadowed(asg, j) implies defines(
                d,
                asg[j].name@,
            ) by {
                if j == 0 {
                    let w = choose|w: int| 1 <= w < asg.len() && #[trigger] asg[w].name@ == asg[0].name@;
                    assert(asg[w].name@ == asg[j].name@);
                    assert(false);
                } else {
                    assert(tail[j - 1] == asg[j]);
                    assert(is_unshadowed(tail, j - 1));
                    assert(defines(dt, tail[j - 1].name@));
                }
            }
            assert forall|i: int|
                0 <= i < d.len() implies exists|j: int|
                0 <= j < asg.len() && asg[j] == #[trigger] d[i] && is_unshadowed(asg, j) by {
                let j = choose|j: int|
                    0 <= j < tail.len() && tail[j] == #[trigger] dt[i] && is_unshadowed(tail, j);
                assert(asg[j + 1] == d[i]);
                assert(is_unshadowed(asg, j + 1)) by {
                    assert forall|k: int|
                        j + 1 < k < asg.len() implies #[trigger] asg[k].name@ != asg[j
                        + 1].name@ by {
                        assert(tail[k - 1] == asg[k]);
                        assert(tail[j] == asg[j + 1]);
                    }
                }
            }
            assert forall|n: Seq<char>| defines(asg, n) implies #[trigger] defines(d, n) by {
                let i = choose|i: int| 0 <= i < asg.len() && #[trigger] asg[i].name@ == n;
                if i == 0 {
                    let w = choose|w: int| 1 <= w < asg.len() && #[trigger] asg[w].name@ == asg[0].name@;
                    assert(tail[w - 1].name@ == n);
                    assert(defines(tail, n));
                } else {
                    assert(tail[i - 1].name@ == n);
                    assert(defines(tail, n));
                }
            }
            assert forall|n: Seq<char>| #[trigger] defines(d, n) implies defines(asg, n) by {
                assert(defines(tail, n));
                let i = choose|i: int| 0 <= i < tail.len() && #[trigger] tail[i].name@ == n;
                assert(asg[i + 1].name@ == n);
            }
        } else {
            // The head survives in front of the deduplicated tail.
            assert(d == seq![asg[0]] + dt);
            assert(d[0] == asg[0]);
            assert forall|i: int| 0 <= i < dt.len() implies d[i + 1] == dt[i] by {}
            assert forall|n: Seq<char>| #[trigger] defines(dt, n) implies defines(tail, n) by {}
            // Unique names: the head's name does not occur in the tail.
            assert forall|i: int, j: int| 0 <= i < j < d.len() implies d[i].name@ != d[j].name@ by {
                if i == 0 {
                    if d[0].name@ == d[j].name@ {
                        assert(defines(dt, d[j].name@));
                        assert(defines(tail, d[j].name@));
                        let w = choose|w: int| 0 <= w < tail.len() && #[trigger] tail[w].name@ == d[j].name@;
                        assert(asg[w + 1].name@ == asg[0].name@);
                        assert(false);
                    }
                } else {
                    assert(d[i] == dt[i - 1] && d[j] == dt[j - 1]);
                }
            }
            assert forall|i: int|
                0 <= i < d.len() implies exists|j: int|
                0 <= j < asg.len() && asg[j] == #[trigger] d[i] && is_unshadowed(asg, j) by {
                if i == 0 {
                    assert(asg[0] == d[0]);
                    assert(is_unshadowed(asg, 0)) by {
                        assert forall|k: int| 0 < k < asg.len() implies #[trigger] asg[k].name@
                            != asg[0].name@ by {
                            if asg[k].name@ == asg[0].name@ {
                                assert(1 <= k < asg.len() && asg[k].name@ == asg[0].name@);
                            }
                        }
                    }
                } else {
                    let j = choose|j: int|
                        0 <= j < tail.len() && tail[j] == #[trigger] dt[i - 1] && is_unshadowed(
                            tail,
                            j,
                        );
                    assert(asg[j + 1] == d[i]);
                    assert(is_unshadowed(asg, j + 1)) by {
                        assert forall|k: int|
                            j + 1 < k < asg.len() implies #[trigger] asg[k].name@ != asg[j
                            + 1].name@ by {
                            assert(tail[k - 1] == asg[k]);
                            assert(tail[j] == asg[j + 1]);
                        }
                    }
                }
            }
            assert forall|j: int|
                0 <= j < asg.len() && #[trigger] is_unshadowed(asg, j) implies defines(
                d,
                asg[j].name@,
            ) by {
                if j == 0 {
                    assert(d[0].name@ == asg[0].name@);
                } else {
                    assert(tail[j - 1] == asg[j]);
                    assert(is_unshadowed(tail, j - 1));
                    assert(defines(dt, tail[j - 1].name@));
                    let w = choose|w: int| 0 <= w < dt.len() && #[trigger] dt[w].name@ == asg[j].name@;
                    assert(d[w + 1].name@ == asg[j].name@);
                }
            }
            assert forall|n: Seq<char>| defines(asg, n) implies #[trigger] defines(d, n) by {
                let i = choose|i: int| 0 <= i < asg.len() && #[trigger] asg[i].name@ == n;
                if i == 0 {
                    assert(d[0].name@ == n);
                } else {
                    assert(tail[i - 1].name@ == n);
                    assert(defines(tail, n));
                    assert(defines(dt, n));
                    let w = choose|w: int| 0 <= w < dt.len() && #[trigger] dt[w].name@ == n;
                    assert(d[w + 1].name@ == n);
                }
            }
            assert forall|n: Seq<char>| #[trigger] defines(d, n) implies defines(asg, n) by {
                let i = choose|i: int| 0 <= i < d.len() && #[trigger] d[i].name@ == n;
                if i == 0 {
                    assert(asg[0].name@ == n);
                } else {
                    assert(dt[i - 1].name@ == n);
                    assert(defines(dt, n));
                    assert(defines(tail, n));
                    let w = choose|w: int| 0 <= w < tail.len() && #[trigger] tail[w].name@ == n;
                    assert(asg[w + 1].name@ == n);
                }
            }
        }
    }
}

/// Applies last-wins shadowing to an assignment sequence, in place: of
/// several assignments sharing a name, only the last declared one is kept.
pub fn dedupe(asg: &mut Vec<Assignment>)
    ensures
        final(asg)@ == dedupe_spec(old(asg)@),
{
    let ghost orig = asg@;
    proof {
        assert(orig.take(0) =~= Seq::<Assignment>::empty());
        assert(orig.skip(0) =~= orig);
        assert(Seq::<Assignment>::empty() + dedupe_spec(orig) =~= dedupe_spec(orig));
    }
    let mut i: usize = 0;
    while i < asg.len()
        invariant
            i <= asg.len(),
            dedupe_spec(orig) == asg@.take(i as int) + dedupe_spec(asg@.skip(i as int)),
        decreases asg.len() - i,
    {
        // Is asg[i] shadowed by a later assignment with the same name?
        let mut j: usize = i + 1;
        let mut shadowed = false;
        while j < asg.len()
            invariant
                i < asg.len(),
                i + 1 <= j <= asg.len(),
                shadowed ==> exists|k: int|
                    i < k < asg.len() && asg@[k].name@ == asg@[i as int].name@,
                !shadowed ==> forall|k: int|
                    i < k < j ==> asg@[k].name@ != asg@[i as int].name@,
            decreases asg.len() - j,
        {
            if asg[j].name.eq(&asg[i].name) {
                shadowed = true;
                j = asg.len();
            } else {
                j += 1;
            }
        }
        let ghost pre = asg@;
        let ghost sfx = pre.skip(i as int);
        proof {
            assert(sfx.len() > 0);
            assert(sfx[0] == pre[i as int]);
            assert forall|k: int| 0 <= k < sfx.len() implies sfx[k] == pre[i + k] by {}
        }
        if shadowed {
            let _ = asg.remove(i);
            proof {
                assert(exists|j2: int| 1 <= j2 < sfx.len() && #[trigger] sfx[j2].name@ == sfx[0].name@) by {
                    let k = choose|k: int| i < k < pre.len() && pre[k].name@ == pre[i as int].name@;
                    assert(sfx[k - i] == pre[k]);
                }
                assert(dedupe_spec(sfx) == dedupe_spec(sfx.drop_first()));
                assert(asg@.take(i as int) =~= pre.take(i as int));
                assert(asg@.skip(i as int) =~= sfx.drop_first());
            }
        } else {
            proof {
                assert forall|j2: int| 1 <= j2 < sfx.len() implies #[trigger] sfx[j2].name@ != sfx[0].name@ by {
                    assert(sfx[j2] == pre[i + j2]);
                }
                assert(dedupe_spec(sfx) == seq![sfx[0]] + dedupe_spec(sfx.drop_first()));
                assert(pre.take(i + 1) =~= pre.take(i as int) + seq![sfx[0]]);
                assert(pre.skip(i + 1) =~= sfx.drop_first());
                assert(pre.take(i as int) + dedupe_spec(sfx) =~= pre.take(i + 1) + dedupe_spec(
                    pre.skip(i + 1),
                ));
            }
            i += 1;
        }
    }
    proof {
        assert(asg@.take(i as int) =~= asg@);
        assert(dedupe_spec(asg@.skip(i as int)) == Seq::<Assignment>::empty());
        assert(asg@ + Seq::<Assignment>::empty() =~= asg@);
    }
}

} // verus!
