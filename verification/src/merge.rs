//! Merging partial prompts that share a template.
//!
//! The fill states of several partial prompts over one template instance
//! are combined placeholder by placeholder. For each placeholder the
//! values recorded by the inputs are folded in input order,
//! first-seen-wins: agreeing values resolve silently, and a disagreeing
//! value is handed to the conflict resolver together with the
//! accumulated value, or reported as a conflict when no resolver was
//! supplied.

use vstd::prelude::*;

use crate::errors::DifferentTemplateOrigins;
use crate::errors::MergeConflict;
use crate::errors::MergeError;
use crate::prompt::opt_view;
use crate::prompt::opt_views;
use crate::prompt::PartialPrompt;
use crate::scan::string_views;

verus! {

/// The values recorded for placeholder `n` by the prompts, in input
/// order; prompts that leave `n` unset contribute nothing.
pub open spec fn candidates(ps: Seq<PartialPrompt>, n: Seq<char>) -> Seq<Seq<char>>
    decreases ps.len(),
{
    if ps.len() == 0 {
        Seq::empty()
    } else {
        candidates(ps.drop_last(), n) + match ps.last().value_of(n) {
            Some(v) => seq![v],
            None => Seq::empty(),
        }
    }
}

/// All candidate values agree.
pub open spec fn all_equal(cs: Seq<Seq<char>>) -> bool {
    forall|i: int| 0 <= i < cs.len() ==> #[trigger] cs[i] == cs[0]
}

/// The prompts disagree about the value of placeholder `n`.
pub open spec fn has_conflict(ps: Seq<PartialPrompt>, n: Seq<char>) -> bool {
    !all_equal(candidates(ps, n))
}

/// The position of the first candidate that diverges from the first-seen
/// value, scanning from `k`; the length when all agree.
pub open spec fn first_div_idx(cs: Seq<Seq<char>>, k: int) -> int
    decreases cs.len() - k,
{
    if k < 0 || k >= cs.len() {
        cs.len() as int
    } else if cs[k] != cs[0] {
        k
    } else {
        first_div_idx(cs, k + 1)
    }
}

/// The index of the first placeholder the prompts disagree about,
/// scanning the first prompt's names from `j`; the name count when none.
pub open spec fn first_conflict_idx(ps: Seq<PartialPrompt>, j: int) -> int
    decreases ps[0].placeholder_names().len() - j,
{
    let names = ps[0].placeholder_names();
    if j < 0 || j >= names.len() {
        names.len() as int
    } else if has_conflict(ps, names[j]) {
        j
    } else {
        first_conflict_idx(ps, j + 1)
    }
}

/// Pins `first_div_idx` down from a witness.
proof fn lemma_first_div_idx(cs: Seq<Seq<char>>, i: int, k: int)
    requires
        0 <= i <= k < cs.len(),
        cs[k] != cs[0],
        forall|k2: int| i <= k2 < k ==> #[trigger] cs[k2] == cs[0],
    ensures
        first_div_idx(cs, i) == k,
    decreases k - i,
{
    if i < k {
        lemma_first_div_idx(cs, i + 1, k);
    }
}

/// Pins `first_conflict_idx` down from a witness.
proof fn lemma_first_conflict_idx(ps: Seq<PartialPrompt>, i: int, j: int)
    requires
        0 <= i <= j < ps[0].placeholder_names().len(),
        has_conflict(ps, ps[0].placeholder_names()[j]),
        forall|j2: int|
            i <= j2 < j ==> !has_conflict(ps, #[trigger] ps[0].placeholder_names()[j2]),
    ensures
        first_conflict_idx(ps, i) == j,
    decreases j - i,
{
    if i < j {
        lemma_first_conflict_idx(ps, i + 1, j);
    }
}

/// The value `out` is an output of the conflict resolver `f` for the
/// placeholder named `n`, on some pair of values.
pub open spec fn resolver_output<F: Fn(&String, (&String, &String)) -> String>(
    f: F,
    n: Seq<char>,
    out: Seq<char>,
) -> bool {
    exists|np: String, vn: String, vo: String, o: String|
        np@ == n && o@ == out && #[trigger] f.ensures((&np, (&vn, &vo)), o)
}

/// All prompts come from templates with the same content.
pub open spec fn same_template_models(ps: Seq<PartialPrompt>) -> bool {
    forall|i: int|
        0 <= i < ps.len() ==> (#[trigger] ps[i]).template_model() == ps[0].template_model()
}

/// What a merge result records for each placeholder: nothing when no
/// input filled it; the agreed value when every input that filled it
/// agrees; and some value (from the conflict resolver) otherwise.
pub open spec fn merged_values(ps: Seq<PartialPrompt>, m: PartialPrompt) -> bool {
    forall|n: Seq<char>|
        #[trigger] m.placeholders_set().contains(n) ==> {
            let cs = candidates(ps, n);
            &&& (cs.len() == 0 ==> m.value_of(n) is None)
            &&& (cs.len() > 0 && all_equal(cs) ==> m.value_of(n) == Some(cs[0]))
            &&& (cs.len() > 0 && !all_equal(cs) ==> m.value_of(n) is Some)
        }
}

/// A placeholder no input fills has no candidates.
proof fn lemma_candidates_none(ps: Seq<PartialPrompt>, n: Seq<char>)
    requires
        forall|i: int| 0 <= i < ps.len() ==> !((#[trigger] ps[i].value_of(n)) is Some),
    ensures
        candidates(ps, n) == Seq::<Seq<char>>::empty(),
    decreases ps.len(),
{
    if ps.len() > 0 {
        let ps0 = ps.drop_last();
        assert forall|i: int|
            0 <= i < ps0.len() implies !((#[trigger] ps0[i].value_of(n)) is Some) by {
            assert(ps0[i] == ps[i]);
        }
        lemma_candidates_none(ps0, n);
        assert(!(ps.last().value_of(n) is Some));
        assert(candidates(ps, n) =~= Seq::<Seq<char>>::empty());
    }
}

/// Merge determinism, disjoint case: when at most one input fills a
/// placeholder, the inputs cannot disagree about it, and the merged value
/// is that input's value.
pub proof fn lemma_disjoint_fills_no_conflict(ps: Seq<PartialPrompt>, n: Seq<char>)
    requires
        forall|i1: int, i2: int|
            0 <= i1 < i2 < ps.len() ==> !((#[trigger] ps[i1].value_of(n)) is Some
                && (#[trigger] ps[i2].value_of(n)) is Some),
    ensures
        !has_conflict(ps, n),
        candidates(ps, n).len() <= 1,
        forall|i: int|
            0 <= i < ps.len() && (#[trigger] ps[i].value_of(n)) is Some ==> candidates(ps, n)
                == seq![ps[i].value_of(n).unwrap()],
    decreases ps.len(),
{
    if ps.len() > 0 {
        let ps0 = ps.drop_last();
        assert forall|i1: int, i2: int|
            0 <= i1 < i2 < ps0.len() implies !((#[trigger] ps0[i1].value_of(n)) is Some && (
        #[trigger] ps0[i2].value_of(n)) is Some) by {
            assert(ps0[i1] == ps[i1] && ps0[i2] == ps[i2]);
        }
        lemma_disjoint_fills_no_conflict(ps0, n);
        if ps.last().value_of(n) is Some {
            assert forall|i: int|
                0 <= i < ps0.len() implies !((#[trigger] ps0[i].value_of(n)) is Some) by {
                assert(ps[i] == ps0[i]);
                assert(!(ps[i].value_of(n) is Some && ps[ps.len() - 1].value_of(n) is Some)
                    || !(0 <= i < ps.len() - 1));
            }
            lemma_candidates_none(ps0, n);
        }
        assert forall|i: int|
            0 <= i < ps.len() && (#[trigger] ps[i].value_of(n)) is Some implies candidates(
            ps,
            n,
        ) == seq![ps[i].value_of(n).unwrap()] by {
            if i < ps.len() - 1 {
                assert(ps0[i] == ps[i]);
                assert(!(ps.last().value_of(n) is Some));
                assert(candidates(ps, n) =~= candidates(ps0, n));
            } else {
                assert(candidates(ps, n) =~= seq![ps.last().value_of(n).unwrap()]);
            }
        }
    }
}

/// Merge determinism, agreeing case: when every input that fills a
/// placeholder records the same value, there is no conflict, and the
/// merged value is that value.
pub proof fn lemma_agreeing_fills_no_conflict(ps: Seq<PartialPrompt>, n: Seq<char>, v: Seq<char>)
    requires
        forall|i: int|
            0 <= i < ps.len() ==> ((#[trigger] ps[i].value_of(n)) matches Some(x) ==> x == v),
    ensures
        !has_conflict(ps, n),
        forall|k: int| 0 <= k < candidates(ps, n).len() ==> #[trigger] candidates(ps, n)[k] == v,
    decreases ps.len(),
{
    if ps.len() > 0 {
        let ps0 = ps.drop_last();
        assert forall|i: int|
            0 <= i < ps0.len() implies ((#[trigger] ps0[i].value_of(n)) matches Some(x) ==> x
            == v) by {
            assert(ps0[i] == ps[i]);
        }
        lemma_agreeing_fills_no_conflict(ps0, n, v);
    }
}

/// Extending the candidate fold by one prompt.
proof fn lemma_candidates_take_step(ps: Seq<PartialPrompt>, n: Seq<char>, i: int)
    requires
        0 <= i < ps.len(),
    ensures
        candidates(ps.take(i + 1), n) == candidates(ps.take(i), n) + (match ps[i].value_of(n) {
            Some(v) => seq![v],
            None => Seq::<Seq<char>>::empty(),
        }),
{
    assert(ps.take(i + 1).drop_last() =~= ps.take(i));
    assert(ps.take(i + 1).last() == ps[i]);
}

/// A prefix of the inputs contributes a prefix of the candidates.
proof fn lemma_candidates_prefix(ps: Seq<PartialPrompt>, n: Seq<char>, i: int)
    requires
        0 <= i <= ps.len(),
    ensures
        candidates(ps.take(i), n).is_prefix_of(candidates(ps, n)),
    decreases ps.len() - i,
{
    if i == ps.len() {
        assert(ps.take(i) =~= ps);
    } else {
        lemma_candidates_take_step(ps, n, i);
        lemma_candidates_prefix(ps, n, i + 1);
    }
}

/// The first disagreement seen by the fold is the first disagreement of
/// the whole candidate list.
proof fn lemma_conflict_witness(ps: Seq<PartialPrompt>, nm: Seq<char>, i2: int, v: Seq<char>)
    requires
        0 <= i2 < ps.len(),
        candidates(ps.take(i2 + 1), nm) == candidates(ps.take(i2), nm) + seq![v],
        candidates(ps.take(i2), nm).len() > 0,
        all_equal(candidates(ps.take(i2), nm)),
        v != candidates(ps.take(i2), nm)[0],
    ensures
        has_conflict(ps, nm),
        candidates(ps, nm).len() > 0,
        candidates(ps, nm)[0] == candidates(ps.take(i2), nm)[0],
        0 < first_div_idx(candidates(ps, nm), 0) < candidates(ps, nm).len(),
        candidates(ps, nm)[first_div_idx(candidates(ps, nm), 0)] == v,
{
    lemma_candidates_prefix(ps, nm, i2 + 1);
    let cs = candidates(ps, nm);
    let cs_pre = candidates(ps.take(i2), nm);
    let cs_post = candidates(ps.take(i2 + 1), nm);
    let k = cs_pre.len() as int;
    assert(cs_post =~= cs.subrange(0, cs_post.len() as int));
    assert(cs_post[k] == v);
    assert(cs[k] == cs_post[k]);
    assert(cs[0] == cs_post[0]);
    assert(cs_post[0] == cs_pre[0]);
    assert forall|k2: int| 0 <= k2 < k implies #[trigger] candidates(ps, nm)[k2] == candidates(
        ps,
        nm,
    )[0] by {
        assert(cs[k2] == cs_post[k2]);
        assert(cs_post[k2] == cs_pre[k2]);
    }
    assert(cs[k] != cs[0]);
    lemma_first_div_idx(cs, 0, k);
}

/// The names among the first `j` whose slot is unset, in order.
pub open spec fn unfilled_prefix(
    names: Seq<Seq<char>>,
    vals: Seq<Option<Seq<char>>>,
    j: int,
) -> Seq<Seq<char>>
    decreases j,
{
    if j <= 0 {
        Seq::empty()
    } else {
        unfilled_prefix(names, vals, j - 1) + if vals[j - 1] is None {
            seq![names[j - 1]]
        } else {
            Seq::empty()
        }
    }
}

/// Membership in the unset-name list.
proof fn lemma_unfilled_prefix_contains(
    names: Seq<Seq<char>>,
    vals: Seq<Option<Seq<char>>>,
    j: int,
    n: Seq<char>,
)
    requires
        0 <= j,
    ensures
        unfilled_prefix(names, vals, j).contains(n) <==> exists|i: int|
            0 <= i < j && names[i] == n && (#[trigger] vals[i]) is None,
    decreases j,
{
    if j > 0 {
        lemma_unfilled_prefix_contains(names, vals, j - 1, n);
        let u0 = unfilled_prefix(names, vals, j - 1);
        let u1 = unfilled_prefix(names, vals, j);
        if u1.contains(n) {
            let idx = choose|idx: int| 0 <= idx < u1.len() && #[trigger] u1[idx] == n;
            if idx < u0.len() {
                assert(u0[idx] == n);
                assert(u0.contains(n));
            } else {
                assert(vals[j - 1] is None && names[j - 1] == n);
            }
        }
        if exists|i: int| 0 <= i < j && names[i] == n && (#[trigger] vals[i]) is None {
            let i = choose|i: int| 0 <= i < j && names[i] == n && (#[trigger] vals[i]) is None;
            if i < j - 1 {
                assert(u0.contains(n));
                let idx = choose|idx: int| 0 <= idx < u0.len() && #[trigger] u0[idx] == n;
                assert(u1[idx] == n);
            } else {
                assert(u1[u1.len() - 1] == n);
            }
        }
    }
}

/// The unset-name list reads only the first `j` slots.
proof fn lemma_unfilled_prefix_agree(
    names: Seq<Seq<char>>,
    v1: Seq<Option<Seq<char>>>,
    v2: Seq<Option<Seq<char>>>,
    j: int,
)
    requires
        forall|i: int| 0 <= i < j ==> v1[i] == v2[i],
    ensures
        unfilled_prefix(names, v1, j) == unfilled_prefix(names, v2, j),
    decreases j,
{
    if j > 0 {
        lemma_unfilled_prefix_agree(names, v1, v2, j - 1);
    }
}

/// With duplicate-free names the unset-name list is duplicate-free.
proof fn lemma_unfilled_prefix_nodup(names: Seq<Seq<char>>, vals: Seq<Option<Seq<char>>>, j: int)
    requires
        0 <= j <= names.len(),
        names.no_duplicates(),
    ensures
        unfilled_prefix(names, vals, j).no_duplicates(),
    decreases j,
{
    if j > 0 {
        lemma_unfilled_prefix_nodup(names, vals, j - 1);
        let u0 = unfilled_prefix(names, vals, j - 1);
        let u1 = unfilled_prefix(names, vals, j);
        if vals[j - 1] is None {
            lemma_unfilled_prefix_contains(names, vals, j - 1, names[j - 1]);
            assert(!u0.contains(names[j - 1]));
            assert forall|a: int, b: int|
                0 <= a < u1.len() && 0 <= b < u1.len() && a != b implies u1[a] != u1[b] by {
                if a < u0.len() && b < u0.len() {
                    assert(u0[a] == u1[a] && u0[b] == u1[b]);
                } else if a == u0.len() && b < u0.len() {
                    assert(u0.contains(u1[b]) ==> u1[a] != u1[b]);
                    assert(u0[b] == u1[b]);
                } else if b == u0.len() && a < u0.len() {
                    assert(u0[a] == u1[a]);
                }
            }
        }
    }
}

/// Folds the values recorded for one placeholder across all inputs, in
/// input order, first-seen-wins; disagreements go to the resolver or are
/// reported.
fn fold_value<F: Fn(&String, (&String, &String)) -> String>(
    prompts: &Vec<PartialPrompt>,
    j: usize,
    name: &String,
    resolve_conflict: &Option<F>,
) -> (r: Result<Option<String>, MergeConflict>)
    requires
        forall|i: int| 0 <= i < prompts@.len() ==> (#[trigger] prompts@[i]).wf(),
        same_template_models(prompts@),
        prompts@.len() > 0,
        j < prompts@[0].placeholder_names().len(),
        name@ == prompts@[0].placeholder_names()[j as int],
        resolve_conflict matches Some(f) ==> forall|n: &String, va: &String, vb: &String|
            f.requires((n, (va, vb))),
    ensures
        r matches Ok(acc) ==> {
            let cs = candidates(prompts@, name@);
            &&& (acc is None <==> cs.len() == 0)
            &&& (cs.len() > 0 && all_equal(cs) ==> opt_view(acc) == Some(cs[0]))
            &&& (resolve_conflict is None ==> all_equal(cs))
            &&& (resolve_conflict matches Some(f) ==> (!all_equal(cs) ==> acc is Some
                && resolver_output(*f, name@, acc.unwrap()@)))
        },
        r matches Err(c) ==> {
            let cs = candidates(prompts@, name@);
            &&& resolve_conflict is None
            &&& has_conflict(prompts@, name@)
            &&& c.placeholder@ == name@
            &&& c.value_a@ == cs[0]
            &&& 0 < first_div_idx(cs, 0) < cs.len()
            &&& c.value_b@ == cs[first_div_idx(cs, 0)]
        },
{
    let ghost ps = prompts@;
    let ghost nm = name@;
    let len = prompts.len();
    let mut acc: Option<String> = None;
    let mut i2: usize = 0;
    while i2 < len
        invariant
            len == ps.len(),
            ps == prompts@,
            nm == name@,
            forall|i3: int| 0 <= i3 < ps.len() ==> (#[trigger] ps[i3]).wf(),
            same_template_models(ps),
            ps.len() > 0,
            j < ps[0].placeholder_names().len(),
            nm == ps[0].placeholder_names()[j as int],
            i2 <= len,
            resolve_conflict matches Some(f) ==> forall|n: &String, va: &String, vb: &String|
                f.requires((n, (va, vb))),
            resolve_conflict is None ==> all_equal(candidates(ps.take(i2 as int), nm)),
            match acc {
                Some(a) => {
                    &&& candidates(ps.take(i2 as int), nm).len() > 0
                    &&& (all_equal(candidates(ps.take(i2 as int), nm)) ==> a@ == candidates(
                        ps.take(i2 as int),
                        nm,
                    )[0])
                    &&& (resolve_conflict matches Some(f) ==> (!all_equal(
                        candidates(ps.take(i2 as int), nm),
                    ) ==> resolver_output(*f, nm, a@)))
                },
                None => candidates(ps.take(i2 as int), nm).len() == 0,
            },
        decreases len - i2,
    {
        let ghost cs_pre = candidates(ps.take(i2 as int), nm);
        proof {
            lemma_candidates_take_step(ps, nm, i2 as int);
            assert(ps[i2 as int].placeholder_names() == ps[0].placeholder_names());
            ps[i2 as int].lemma_value_at(j as int);
        }
        let slot = prompts[i2].value_at(j);
        if let Some(v) = slot {
            let ghost cs_post = candidates(ps.take(i2 as int + 1), nm);
            assert(cs_post == cs_pre + seq![v@]);
            let filled_before = acc.is_some();
            if !filled_before {
                acc = Some(v.clone());
            } else {
                let agree = {
                    let a = acc.as_ref().unwrap();
                    *v == *a
                };
                if !agree {
                    match resolve_conflict {
                        Some(f) => {
                            let a = acc.as_ref().unwrap();
                            let out = f(name, (v, a));
                            proof {
                                let np = *name;
                                let vn = *v;
                                let vo = *a;
                                assert(f.ensures((&np, (&vn, &vo)), out));
                                assert(resolver_output(*f, nm, out@));
                            }
                            acc = Some(out);
                        },
                        None => {
                            let a = acc.as_ref().unwrap();
                            let c = MergeConflict {
                                placeholder: name.clone(),
                                value_a: a.clone(),
                                value_b: v.clone(),
                            };
                            proof {
                                lemma_conflict_witness(ps, nm, i2 as int, v@);
                            }
                            return Err(c);
                        },
                    }
                }
            }
            proof {
                let lp = cs_pre.len() as int;
                assert(cs_post.len() == lp + 1);
                assert(cs_post[lp] == v@);
                assert forall|ii: int| 0 <= ii < lp implies #[trigger] cs_post[ii]
                    == cs_pre[ii] by {}
                if all_equal(cs_post) && lp > 0 {
                    assert(cs_post[0] == cs_pre[0]);
                    assert forall|ii: int| 0 <= ii < lp implies #[trigger] cs_pre[ii]
                        == cs_pre[0] by {
                        assert(cs_post[ii] == cs_post[0]);
                    }
                    assert(all_equal(cs_pre));
                    assert(cs_post[lp] == cs_post[0]);
                    assert(v@ == cs_pre[0]);
                }
                if all_equal(cs_pre) && lp > 0 && cs_post[lp] == cs_pre[0] {
                    assert forall|ii: int| 0 <= ii < cs_post.len() implies #[trigger] cs_post[ii]
                        == cs_post[0] by {
                        if ii < lp {
                            assert(cs_post[ii] == cs_pre[ii]);
                        }
                    }
                    assert(all_equal(cs_post));
                }
                if lp == 0 {
                    assert(all_equal(cs_post));
                }
                if !all_equal(cs_pre) {
                    let (b1, b2) = choose|b1: int, b2: int|
                        0 <= b1 < cs_pre.len() && 0 <= b2 < cs_pre.len() && #[trigger] cs_pre[b1]
                            != #[trigger] cs_pre[b2];
                    assert(cs_post[b1] == cs_pre[b1] && cs_post[b2] == cs_pre[b2]);
                    assert(!all_equal(cs_post));
                }
            }
        } else {
            assert(candidates(ps.take(i2 as int + 1), nm) == cs_pre);
        }
        i2 = i2 + 1;
    }
    proof {
        assert(ps.take(len as int) =~= ps);
    }
    Ok(acc)
}

impl PartialPrompt {
    /// Merges the fill states of several partial prompts over one
    /// template instance.
    ///
    /// For each placeholder the recorded values are folded in input
    /// order, first seen as the accumulator. Agreeing values resolve
    /// silently. A disagreeing value is passed with the accumulator to
    /// `resolve_conflict`, whose result becomes the new accumulator; when
    /// no resolver is supplied the first disagreement is reported as a
    /// conflict, naming the placeholder and both values. A single input
    /// is returned unchanged; an empty input list is an error, as are
    /// inputs from different template instances.
    #[verifier::rlimit(60)]
    #[verifier::spinoff_prover]
    pub fn merge_partial_prompts<F: Fn(&String, (&String, &String)) -> String>(
        partial_prompts: Vec<PartialPrompt>,
        resolve_conflict: Option<F>,
    ) -> (r: Result<PartialPrompt, MergeError>)
        requires
            forall|i: int|
                0 <= i < partial_prompts@.len() ==> (#[trigger] partial_prompts@[i]).wf(),
            resolve_conflict matches Some(f) ==> forall|n: &String, va: &String, vb: &String|
                f.requires((n, (va, vb))),
        ensures
            partial_prompts@.len() == 0 <==> r matches Err(MergeError::NoPartialPrompts),
            partial_prompts@.len() == 1 ==> (r matches Ok(m) && m == partial_prompts@[0]),
            r matches Ok(m) ==> {
                &&& m.wf()
                &&& partial_prompts@.len() >= 1
                &&& m.template_model() == partial_prompts@[0].template_model()
                &&& partial_prompts@.len() >= 2 ==> {
                    &&& same_template_models(partial_prompts@)
                    &&& merged_values(partial_prompts@, m)
                    &&& (resolve_conflict is None ==> forall|n: Seq<char>|
                        #[trigger] m.placeholders_set().contains(n) ==> !has_conflict(
                            partial_prompts@,
                            n,
                        ))
                }
            },
            r matches Ok(m) ==> (resolve_conflict matches Some(f) ==> (partial_prompts@.len()
                >= 2 ==> forall|n: Seq<char>|
                #[trigger] m.placeholders_set().contains(n) && has_conflict(partial_prompts@, n)
                    ==> m.value_of(n) is Some && resolver_output(
                    f,
                    n,
                    m.value_of(n).unwrap(),
                ))),
            r matches Err(MergeError::DifferentOrigins(d)) ==> {
                &&& d.partial_prompts@ == partial_prompts@
                &&& partial_prompts@.len() >= 2
            },
            r matches Err(MergeError::Conflict(c)) ==> resolve_conflict is None,
            r matches Err(MergeError::Conflict(c)) ==> partial_prompts@.len() >= 2,
            r matches Err(MergeError::Conflict(c)) ==> same_template_models(partial_prompts@),
            r matches Err(MergeError::Conflict(c)) ==> {
                let names = partial_prompts@[0].placeholder_names();
                let jx = first_conflict_idx(partial_prompts@, 0);
                let cs = candidates(partial_prompts@, names[jx]);
                &&& 0 <= jx < names.len()
                &&& has_conflict(partial_prompts@, names[jx])
                &&& c.placeholder@ == names[jx]
                &&& c.value_a@ == cs[0]
                &&& 0 < first_div_idx(cs, 0) < cs.len()
                &&& c.value_b@ == cs[first_div_idx(cs, 0)]
            },
    {
        let ghost ps = partial_prompts@;
        let len = partial_prompts.len();
        if len == 0 {
            return Err(MergeError::NoPartialPrompts);
        }
        if len == 1 {
            let mut v = partial_prompts;
            let last = v.pop();
            match last {
                Some(p) => {
                    return Ok(p);
                },
                None => {
                    assert(false);
                    return Err(MergeError::NoPartialPrompts);
                },
            }
        }
        let mut i: usize = 1;
        while i < len
            invariant
                len == ps.len(),
                ps == partial_prompts@,
                2 <= len,
                1 <= i <= len,
                forall|i2: int| 0 <= i2 < ps.len() ==> (#[trigger] ps[i2]).wf(),
                forall|i2: int|
                    0 <= i2 < i ==> (#[trigger] ps[i2]).template_model()
                        == ps[0].template_model(),
            decreases len - i,
        {
            let same = (&partial_prompts[0]).is_from_same_template(&partial_prompts[i]);
            if !same {
                return Err(
                    MergeError::DifferentOrigins(DifferentTemplateOrigins { partial_prompts }),
                );
            }
            i = i + 1;
        }
        assert(same_template_models(ps));
        let template = partial_prompts[0].template().clone();
        let ghost names = ps[0].placeholder_names();
        let n_names = partial_prompts[0].template().placeholders().len();
        let mut vals: Vec<Option<String>> = Vec::new();
        let mut unfilled: Vec<String> = Vec::new();
        let mut j: usize = 0;
        while j < n_names
            invariant
                len == ps.len(),
                ps == partial_prompts@,
                2 <= len,
                forall|i2: int| 0 <= i2 < ps.len() ==> (#[trigger] ps[i2]).wf(),
                same_template_models(ps),
                names == ps[0].placeholder_names(),
                n_names == names.len(),
                template.model() == ps[0].template_model(),
                template.wf(),
                j <= n_names,
                vals@.len() == j,
                forall|j2: int|
                    0 <= j2 < j ==> {
                        let cs = candidates(ps, names[j2]);
                        &&& (cs.len() == 0 <==> (#[trigger] opt_views(vals@)[j2]) is None)
                        &&& (cs.len() > 0 && all_equal(cs) ==> opt_views(vals@)[j2] == Some(
                            cs[0],
                        ))
                    },
                resolve_conflict is None ==> forall|j2: int|
                    0 <= j2 < j ==> !has_conflict(ps, #[trigger] names[j2]),
                resolve_conflict matches Some(f) ==> forall|n: &String, va: &String, vb: &String|
                    f.requires((n, (va, vb))),
                resolve_conflict matches Some(f) ==> forall|j2: int|
                    0 <= j2 < j && has_conflict(ps, names[j2]) ==> (#[trigger] opt_views(
                        vals@,
                    )[j2]) is Some && resolver_output(f, names[j2], opt_views(vals@)[j2].unwrap()),
                string_views(unfilled@) == unfilled_prefix(names, opt_views(vals@), j as int),
            decreases n_names - j,
        {
            let name = {
                let pvec = partial_prompts[0].template().placeholders();
                pvec[j].clone()
            };
            let folded = fold_value(&partial_prompts, j, &name, &resolve_conflict);
            let acc = match folded {
                Ok(acc) => acc,
                Err(c) => {
                    proof {
                        assert(has_conflict(ps, names[j as int]));
                        lemma_first_conflict_idx(ps, 0, j as int);
                    }
                    return Err(MergeError::Conflict(c));
                },
            };
            let ghost vals_pre = vals@;
            if acc.is_none() {
                unfilled.push(name);
            }
            vals.push(acc);
            proof {
                assert(opt_views(vals@) =~= opt_views(vals_pre).push(opt_view(vals@[j as int])));
                lemma_unfilled_prefix_agree(names, opt_views(vals_pre), opt_views(vals@), j as int);
                assert forall|j2: int| 0 <= j2 < j + 1 implies {
                    let cs = candidates(ps, names[j2]);
                    &&& (cs.len() == 0 <==> (#[trigger] opt_views(vals@)[j2]) is None)
                    &&& (cs.len() > 0 && all_equal(cs) ==> opt_views(vals@)[j2] == Some(cs[0]))
                } by {
                    if j2 < j {
                        assert(opt_views(vals@)[j2] == opt_views(vals_pre)[j2]);
                    }
                }
                assert(string_views(unfilled@) =~= unfilled_prefix(
                    names,
                    opt_views(vals@),
                    j as int + 1,
                ));
            }
            j = j + 1;
        }
        let result = PartialPrompt {
            template,
            placeholder_to_vals: vals,
            unfilled_placeholders: unfilled,
        };
        proof {
            lemma_merge_result_wf(ps, result);
            if resolve_conflict is Some {
                assert forall|n: Seq<char>|
                    #[trigger] result.placeholders_set().contains(n) && has_conflict(
                        ps,
                        n,
                    ) implies result.value_of(n) is Some && opt_views(vals@)[result.index_of(n)]
                    == result.value_of(n) by {
                    let idx = result.index_of(n);
                    assert(0 <= idx < names.len() && names[idx] == n);
                    result.lemma_value_at(idx);
                }
            }
        }
        Ok(result)
    }
}

/// The assembled merge result is well formed and records the folded
/// values.
proof fn lemma_merge_result_wf(ps: Seq<PartialPrompt>, result: PartialPrompt)
    requires
        ps.len() >= 1,
        forall|i: int| 0 <= i < ps.len() ==> (#[trigger] ps[i]).wf(),
        result.template_model() == ps[0].template_model(),
        result.template_spec().wf(),
        result.vals_view().len() == result.placeholder_names().len(),
        result.unfilled_views() == unfilled_prefix(
            result.placeholder_names(),
            result.vals_view(),
            result.placeholder_names().len() as int,
        ),
        forall|j2: int|
            0 <= j2 < result.placeholder_names().len() ==> {
                let cs = candidates(ps, result.placeholder_names()[j2]);
                &&& (cs.len() == 0 <==> (#[trigger] result.vals_view()[j2]) is None)
                &&& (cs.len() > 0 && all_equal(cs) ==> result.vals_view()[j2] == Some(cs[0]))
            },
    ensures
        result.wf(),
        merged_values(ps, result),
{
    let names = result.placeholder_names();
    let vals = result.vals_view();
    let n_names = names.len() as int;
    lemma_unfilled_prefix_nodup(names, vals, n_names);
    assert forall|idx: int|
        0 <= idx < n_names implies ((#[trigger] result.vals_view()[idx]) is None
        <==> result.unfilled_set().contains(names[idx])) by {
        lemma_unfilled_prefix_contains(names, vals, n_names, names[idx]);
        if result.vals_view()[idx] is None {
            assert(result.unfilled_views().contains(names[idx]));
        }
        if result.unfilled_set().contains(names[idx]) {
            let i3 = choose|i3: int|
                0 <= i3 < n_names && names[i3] == names[idx] && (#[trigger] vals[i3]) is None;
            assert(i3 == idx);
        }
    }
    assert forall|n: Seq<char>|
        #[trigger] result.unfilled_set().contains(n) implies result.placeholders_set().contains(
        n,
    ) by {
        lemma_unfilled_prefix_contains(names, vals, n_names, n);
        let i3 = choose|i3: int|
            0 <= i3 < n_names && names[i3] == n && (#[trigger] vals[i3]) is None;
        assert(result.placeholder_names()[i3] == n);
    }
    assert(result.wf());
    assert forall|n: Seq<char>| #[trigger] result.placeholders_set().contains(n) implies {
        let cs = candidates(ps, n);
        &&& (cs.len() == 0 ==> result.value_of(n) is None)
        &&& (cs.len() > 0 && all_equal(cs) ==> result.value_of(n) == Some(cs[0]))
        &&& (cs.len() > 0 && !all_equal(cs) ==> result.value_of(n) is Some)
    } by {
        let idx = result.index_of(n);
        assert(0 <= idx < names.len() && names[idx] == n);
        result.lemma_value_at(idx);
    }
}

} // verus!
