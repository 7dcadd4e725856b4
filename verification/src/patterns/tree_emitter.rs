//! Helpers that turn a decision tree into lowered `if` chains and switches.
use vstd::prelude::*;

use crate::patterns::decision_tree::{
    BindingModel, BranchModel, ChainTest, Decision, DecisionModel, PatternBinding, SwitchBranch,
    TestModel, bindings_model, branches_model, checks_model, lemma_branches_model, lemma_tests_model,
    tests_model,
};
use crate::text::str_eq;
use crate::patterns::decision_tree::paths_equal;
use crate::plan::bodies::{ElseArm, IfPlan, LoweredBlock, LoweredStatement, list_diverges};

verus! {

/// Whether a chain ends in an implicit catch-all: its fallback is
/// unreachable and it has more than one test, so the last test acts as `else`.
pub fn chain_last_is_catchall(tests: &[ChainTest], fallback: &Decision) -> (r: bool)
    ensures
        r == (fallback@ is Unreachable && tests@.len() > 1),
{
    matches!(fallback, Decision::Unreachable) && tests.len() > 1
}

/// Without a fallback, the last branch is lifted into the `default` slot.
pub fn split_with_default_lift<'t>(
    branches: &'t [SwitchBranch],
    fallback: Option<&'t Decision>,
) -> (r: (&'t [SwitchBranch], Option<&'t Decision>))
    ensures
        fallback is None && branches@.len() > 0 ==> r.0@ == branches@.drop_last() && r.1
            == Some(&branches@.last().decision),
        !(fallback is None && branches@.len() > 0) ==> r.0@ == branches@ && r.1 == fallback,
{
    match fallback {
        None => {
            if branches.len() > 0 {
                let n = branches.len();
                let (rest, last) = branches.split_at(n - 1);
                proof {
                    assert(last@.len() == 1);
                    assert(last@[0] == branches@.last());
                }
                (rest, Some(&last[0].decision))
            } else {
                (branches, fallback)
            }
        },
        Some(_) => (branches, fallback),
    }
}

/// The bindings a decision introduces at its top level: those of a
/// `Success` or `Guard`, none for the other forms.
pub open spec fn top_bindings(d: DecisionModel) -> Seq<BindingModel> {
    match d {
        DecisionModel::Success { bindings, .. } => bindings,
        DecisionModel::Guard { bindings, .. } => bindings,
        _ => Seq::empty(),
    }
}

/// The bindings of a `Success` or `Guard` decision; empty otherwise.
pub fn decision_top_bindings(decision: &Decision) -> (r: &[PatternBinding])
    ensures
        bindings_model(r@) == top_bindings(decision@),
{
    match decision {
        Decision::Guard { bindings, .. } => bindings.as_slice(),
        Decision::Success { bindings, .. } => bindings.as_slice(),
        _ => {
            let empty: &[PatternBinding] = &[];
            proof {
                assert(bindings_model(empty@) =~= Seq::<BindingModel>::empty());
            }
            empty
        },
    }
}

/// Whether `body_statements` ends in a diverging statement; the statements
/// are then moved to the end of `statements`.
pub fn capture_diverge(
    body_statements: Vec<LoweredStatement>,
    statements: &mut Vec<LoweredStatement>,
) -> (r: bool)
    ensures
        r == list_diverges(body_statements@),
        final(statements)@ == old(statements)@ + body_statements@,
{
    let block = LoweredBlock { statements: body_statements };
    let diverges = block.ends_with_diverge();
    let mut moved = block.statements;
    statements.append(&mut moved);
    diverges
}

/// One non-catch-all branch of a pattern chain: its condition and lowered body.
pub struct ChainBranch {
    pub condition: String,
    pub body: LoweredBlock,
}

/// Whether `p` is the `if` of `branches[0]`, followed by `else if`s for the
/// remaining branches in order, with `trailing` as the innermost else arm.
pub open spec fn is_chain_plan(p: IfPlan, branches: Seq<ChainBranch>, trailing: ElseArm) -> bool
    decreases branches.len(), 0nat,
{
    &&& branches.len() > 0
    &&& p.condition_setup@.len() == 0
    &&& p.condition == branches[0].condition
    &&& p.then_body == branches[0].body
    &&& is_chain_else(p.else_arm, branches.drop_first(), trailing)
}

/// Whether `e` continues a chain with `branches`, ending in `trailing`.
pub open spec fn is_chain_else(e: ElseArm, branches: Seq<ChainBranch>, trailing: ElseArm) -> bool
    decreases branches.len(), 1nat,
{
    if branches.len() == 0 {
        e == trailing
    } else {
        match e {
            ElseArm::ElseIf(q) => is_chain_plan(*q, branches, trailing),
            _ => false,
        }
    }
}

/// Assemble chain branches into a nested `if` / `else if` plan with
/// `trailing` as the innermost else arm.
pub fn build_chain_plan(branches: Vec<ChainBranch>, trailing: ElseArm) -> (r: IfPlan)
    requires
        branches@.len() > 0,
    ensures
        is_chain_plan(r, branches@, trailing),
{
    let ghost all = branches@;
    let mut branches = branches;
    let mut else_arm = trailing;
    while branches.len() > 1
        invariant
            1 <= branches@.len() <= all.len(),
            branches@ == all.subrange(0, branches@.len() as int),
            is_chain_else(else_arm, all.subrange(branches@.len() as int, all.len() as int), trailing),
        decreases branches@.len(),
    {
        let ghost k = branches@.len() as int;
        let branch = branches.pop().unwrap();
        proof {
            assert(branch == all[k - 1]);
            assert(all.subrange(k - 1, all.len() as int).drop_first() =~= all.subrange(k, all.len() as int));
            assert(all.subrange(k - 1, all.len() as int)[0] == all[k - 1]);
            assert(branches@ =~= all.subrange(0, k - 1));
        }
        let plan = IfPlan {
            condition_setup: Vec::new(),
            condition: branch.condition,
            then_body: branch.body,
            else_arm,
        };
        else_arm = ElseArm::ElseIf(Box::new(plan));
    }
    let head = branches.pop().unwrap();
    proof {
        assert(head == all[0]);
        assert(all.drop_first() =~= all.subrange(1, all.len() as int));
    }
    IfPlan { condition_setup: Vec::new(), condition: head.condition, then_body: head.body, else_arm }
}

/// Whether any switch case of the tree renders through the standard
/// library prelude.
pub open spec fn needs_stdlib(d: DecisionModel) -> bool
    decreases d,
{
    match d {
        DecisionModel::Success { .. } => false,
        DecisionModel::Unreachable => false,
        DecisionModel::Guard { success, failure, .. } => needs_stdlib(*success) || needs_stdlib(
            *failure,
        ),
        DecisionModel::Switch { branches, fallback, .. } => (exists|i: int|
            0 <= i < branches.len() && (branches[i].needs_stdlib || needs_stdlib(
                #[trigger] branches[i].decision,
            ))) || match fallback {
            Some(f) => needs_stdlib(*f),
            None => false,
        },
        DecisionModel::Chain { tests, fallback } => (exists|i: int|
            0 <= i < tests.len() && needs_stdlib(#[trigger] tests[i].decision)) || needs_stdlib(
            *fallback,
        ),
    }
}

/// Whether `s` is `d` or a decision nested anywhere inside it: under a
/// guard, in a switch branch or fallback, or in a chain test or fallback.
pub open spec fn occurs_in(s: DecisionModel, d: DecisionModel) -> bool
    decreases d,
{
    s == d || match d {
        DecisionModel::Guard { success, failure, .. } => occurs_in(s, *success) || occurs_in(
            s,
            *failure,
        ),
        DecisionModel::Switch { branches, fallback, .. } => (exists|i: int|
            0 <= i < branches.len() && occurs_in(s, #[trigger] branches[i].decision)) || match fallback {
            Some(f) => occurs_in(s, *f),
            None => false,
        },
        DecisionModel::Chain { tests, fallback } => (exists|i: int|
            0 <= i < tests.len() && occurs_in(s, #[trigger] tests[i].decision)) || occurs_in(
            s,
            *fallback,
        ),
        _ => false,
    }
}

/// A switch with a case whose label renders through the prelude.
pub open spec fn has_prelude_case(s: DecisionModel) -> bool {
    s matches DecisionModel::Switch { branches, .. } && exists|i: int|
        0 <= i < branches.len() && #[trigger] branches[i].needs_stdlib
}

/// The prelude need rises through the tree: if a decision nested anywhere
/// in a tree (inside a guard, a switch branch or fallback, or a chain test
/// or fallback) needs the prelude, the whole tree needs it.
pub proof fn law_stdlib_need_rises(s: DecisionModel, d: DecisionModel)
    requires
        occurs_in(s, d),
        needs_stdlib(s),
    ensures
        needs_stdlib(d),
    decreases d,
{
    if s != d {
        match d {
            DecisionModel::Guard { success, failure, .. } => {
                if occurs_in(s, *success) {
                    law_stdlib_need_rises(s, *success);
                } else {
                    law_stdlib_need_rises(s, *failure);
                }
            },
            DecisionModel::Switch { branches, fallback, .. } => {
                if exists|i: int| 0 <= i < branches.len() && occurs_in(s, #[trigger] branches[i].decision) {
                    let i = choose|i: int| 0 <= i < branches.len() && occurs_in(s, #[trigger] branches[i].decision);
                    law_stdlib_need_rises(s, branches[i].decision);
                    assert(branches[i].needs_stdlib || needs_stdlib(branches[i].decision));
                } else {
                    let f = fallback->0;
                    law_stdlib_need_rises(s, *f);
                }
            },
            DecisionModel::Chain { tests, fallback } => {
                if exists|i: int| 0 <= i < tests.len() && occurs_in(s, #[trigger] tests[i].decision) {
                    let i = choose|i: int| 0 <= i < tests.len() && occurs_in(s, #[trigger] tests[i].decision);
                    law_stdlib_need_rises(s, tests[i].decision);
                } else {
                    law_stdlib_need_rises(s, *fallback);
                }
            },
            _ => {},
        }
    }
}

proof fn lemma_prelude_case_witness(d: DecisionModel)
    requires
        needs_stdlib(d),
    ensures
        exists|s: DecisionModel| #[trigger] occurs_in(s, d) && has_prelude_case(s),
    decreases d,
{
    match d {
        DecisionModel::Guard { success, failure, .. } => {
            let sub = if needs_stdlib(*success) { *success } else { *failure };
            lemma_prelude_case_witness(sub);
            let s = choose|s: DecisionModel| #[trigger] occurs_in(s, sub) && has_prelude_case(s);
            assert(occurs_in(s, d));
        },
        DecisionModel::Switch { branches, fallback, .. } => {
            if exists|i: int| 0 <= i < branches.len() && #[trigger] branches[i].needs_stdlib {
                assert(has_prelude_case(d));
                assert(occurs_in(d, d));
            } else if exists|i: int| 0 <= i < branches.len() && needs_stdlib(#[trigger] branches[i].decision) {
                let i = choose|i: int| 0 <= i < branches.len() && needs_stdlib(#[trigger] branches[i].decision);
                lemma_prelude_case_witness(branches[i].decision);
                let s = choose|s: DecisionModel| #[trigger] occurs_in(s, branches[i].decision) && has_prelude_case(s);
                assert(occurs_in(s, d));
            } else {
                let f = fallback->0;
                lemma_prelude_case_witness(*f);
                let s = choose|s: DecisionModel| #[trigger] occurs_in(s, *f) && has_prelude_case(s);
                assert(occurs_in(s, d));
            }
        },
        DecisionModel::Chain { tests, fallback } => {
            if exists|i: int| 0 <= i < tests.len() && needs_stdlib(#[trigger] tests[i].decision) {
                let i = choose|i: int| 0 <= i < tests.len() && needs_stdlib(#[trigger] tests[i].decision);
                lemma_prelude_case_witness(tests[i].decision);
                let s = choose|s: DecisionModel| #[trigger] occurs_in(s, tests[i].decision) && has_prelude_case(s);
                assert(occurs_in(s, d));
            } else {
                lemma_prelude_case_witness(*fallback);
                let s = choose|s: DecisionModel| #[trigger] occurs_in(s, *fallback) && has_prelude_case(s);
                assert(occurs_in(s, d));
            }
        },
        _ => {},
    }
}

/// A tree needs the prelude exactly when some switch nested anywhere in it
/// (the tree itself included) has a case whose label renders through the
/// prelude.
pub proof fn law_stdlib_need_iff_prelude_case(d: DecisionModel)
    ensures
        needs_stdlib(d) <==> exists|s: DecisionModel| #[trigger] occurs_in(s, d) && has_prelude_case(s),
{
    if needs_stdlib(d) {
        lemma_prelude_case_witness(d);
    }
    if exists|s: DecisionModel| #[trigger] occurs_in(s, d) && has_prelude_case(s) {
        let s = choose|s: DecisionModel| #[trigger] occurs_in(s, d) && has_prelude_case(s);
        let i = choose|i: int| 0 <= i < s->Switch_branches.len() && #[trigger] s->Switch_branches[i].needs_stdlib;
        assert(s->Switch_branches[i].needs_stdlib || needs_stdlib(s->Switch_branches[i].decision));
        assert(needs_stdlib(s));
        law_stdlib_need_rises(s, d);
    }
}

/// Whether the tree needs the standard library prelude for a case label.
pub fn decision_needs_stdlib(decision: &Decision) -> (r: bool)
    ensures
        r == needs_stdlib(decision@),
    decreases decision,
{
    match decision {
        Decision::Success { .. } => false,
        Decision::Unreachable => false,
        Decision::Guard { success, failure, .. } => decision_needs_stdlib(success)
            || decision_needs_stdlib(failure),
        Decision::Switch { branches, fallback, .. } => {
            proof {
                lemma_branches_model(branches@);
            }
            let ghost bm = branches_model(branches@);
            let mut i: usize = 0;
            while i < branches.len()
                invariant
                    i <= branches@.len(),
                    decision is Switch,
                    branches == decision->Switch_branches,
                    bm == branches_model(branches@),
                    bm.len() == branches@.len(),
                    forall|k: int|
                        0 <= k < branches@.len() ==> #[trigger] bm[k] == (BranchModel {
                            case_label: branches@[k].case_label@,
                            needs_stdlib: branches@[k].needs_stdlib,
                            decision: branches@[k].decision@,
                        }),
                    forall|k: int|
                        0 <= k < i ==> !(bm[k].needs_stdlib || needs_stdlib(#[trigger] bm[k].decision)),
                decreases branches@.len() - i,
            {
                proof {
                    assert(decreases_to!(*decision => decision->Switch_branches));
                    vstd::std_specs::vec::axiom_vec_index_decreases(decision->Switch_branches, i as int);
                }
                if branches[i].needs_stdlib || decision_needs_stdlib(&branches[i].decision) {
                    proof {
                        assert(bm[i as int].needs_stdlib || needs_stdlib(bm[i as int].decision));
                    }
                    return true;
                }
                i += 1;
            }
            match fallback {
                Some(f) => decision_needs_stdlib(f),
                None => false,
            }
        },
        Decision::Chain { tests, fallback } => {
            proof {
                lemma_tests_model(tests@);
            }
            let ghost tm = tests_model(tests@);
            let mut i: usize = 0;
            while i < tests.len()
                invariant
                    i <= tests@.len(),
                    decision is Chain,
                    tests == decision->Chain_tests,
                    tm == tests_model(tests@),
                    tm.len() == tests@.len(),
                    forall|k: int|
                        0 <= k < tests@.len() ==> #[trigger] tm[k] == (TestModel {
                            checks: checks_model(tests@[k].checks@),
                            decision: tests@[k].decision@,
                        }),
                    forall|k: int| 0 <= k < i ==> !needs_stdlib(#[trigger] tm[k].decision),
                decreases tests@.len() - i,
            {
                proof {
                    assert(decreases_to!(*decision => decision->Chain_tests));
                    vstd::std_specs::vec::axiom_vec_index_decreases(decision->Chain_tests, i as int);
                }
                if decision_needs_stdlib(&tests[i].decision) {
                    proof {
                        assert(needs_stdlib(tm[i as int].decision));
                    }
                    return true;
                }
                i += 1;
            }
            decision_needs_stdlib(fallback)
        },
    }
}

/// `acc` with arm `i` appended unless it is already there.
pub open spec fn with_arm(acc: Seq<usize>, i: usize) -> Seq<usize> {
    if acc.contains(i) {
        acc
    } else {
        acc.push(i)
    }
}

/// The arms reachable in `d`, in walk order, added to `acc` without repeats.
pub open spec fn reachable_arms(d: Decision, acc: Seq<usize>) -> Seq<usize>
    decreases d, 1nat,
{
    match d {
        Decision::Success { arm_index, .. } => with_arm(acc, arm_index),
        Decision::Guard { arm_index, success, failure, .. } => reachable_arms(
            *failure,
            reachable_arms(*success, with_arm(acc, arm_index)),
        ),
        Decision::Switch { branches, fallback, .. } => {
            let after = branches_reachable_arms(branches@, acc);
            match fallback {
                Some(f) => reachable_arms(*f, after),
                None => after,
            }
        },
        Decision::Chain { tests, fallback } => reachable_arms(
            *fallback,
            tests_reachable_arms(tests@, acc),
        ),
        Decision::Unreachable => acc,
    }
}

/// The arms reachable in each branch, in order.
pub open spec fn branches_reachable_arms(bs: Seq<SwitchBranch>, acc: Seq<usize>) -> Seq<usize>
    decreases bs, 0nat,
{
    if bs.len() == 0 {
        acc
    } else {
        reachable_arms(bs.last().decision, branches_reachable_arms(bs.drop_last(), acc))
    }
}

/// The arms reachable in each chain test, in order.
pub open spec fn tests_reachable_arms(ts: Seq<ChainTest>, acc: Seq<usize>) -> Seq<usize>
    decreases ts, 0nat,
{
    if ts.len() == 0 {
        acc
    } else {
        reachable_arms(ts.last().decision, tests_reachable_arms(ts.drop_last(), acc))
    }
}

/// Whether `x` occurs in `v`.
fn contains_index(v: &Vec<usize>, x: usize) -> (r: bool)
    ensures
        r == v@.contains(x),
{
    let mut i: usize = 0;
    while i < v.len()
        invariant
            i <= v@.len(),
            forall|k: int| 0 <= k < i ==> v@[k] != x,
        decreases v@.len() - i,
    {
        if v[i] == x {
            return true;
        }
        i += 1;
    }
    false
}

fn push_arm(out: &mut Vec<usize>, i: usize)
    ensures
        final(out)@ == with_arm(old(out)@, i),
{
    if !contains_index(out, i) {
        out.push(i);
    }
}

/// Appends to `out` every arm reachable in `decision`, in walk order,
/// skipping arms already present.
pub fn collect_reachable_arms(decision: &Decision, out: &mut Vec<usize>)
    ensures
        final(out)@ == reachable_arms(*decision, old(out)@),
    decreases decision,
{
    match decision {
        Decision::Success { arm_index, .. } => push_arm(out, *arm_index),
        Decision::Guard { arm_index, success, failure, .. } => {
            push_arm(out, *arm_index);
            collect_reachable_arms(success, out);
            collect_reachable_arms(failure, out);
        },
        Decision::Switch { branches, fallback, .. } => {
            let ghost start = out@;
            let mut i: usize = 0;
            while i < branches.len()
                invariant
                    i <= branches@.len(),
                    decision is Switch,
                    branches == decision->Switch_branches,
                    out@ == branches_reachable_arms(branches@.subrange(0, i as int), start),
                decreases branches@.len() - i,
            {
                proof {
                    assert(decreases_to!(*decision => decision->Switch_branches));
                    vstd::std_specs::vec::axiom_vec_index_decreases(decision->Switch_branches, i as int);
                }
                collect_reachable_arms(&branches[i].decision, out);
                proof {
                    let next = branches@.subrange(0, i + 1);
                    assert(next.drop_last() =~= branches@.subrange(0, i as int));
                    assert(next.last() == branches@[i as int]);
                }
                i += 1;
            }
            proof {
                assert(branches@.subrange(0, branches@.len() as int) =~= branches@);
            }
            match fallback {
                Some(f) => collect_reachable_arms(f, out),
                None => {},
            }
        },
        Decision::Chain { tests, fallback } => {
            let ghost start = out@;
            let mut i: usize = 0;
            while i < tests.len()
                invariant
                    i <= tests@.len(),
                    decision is Chain,
                    tests == decision->Chain_tests,
                    out@ == tests_reachable_arms(tests@.subrange(0, i as int), start),
                decreases tests@.len() - i,
            {
                proof {
                    assert(decreases_to!(*decision => decision->Chain_tests));
                    vstd::std_specs::vec::axiom_vec_index_decreases(decision->Chain_tests, i as int);
                }
                collect_reachable_arms(&tests[i].decision, out);
                proof {
                    let next = tests@.subrange(0, i + 1);
                    assert(next.drop_last() =~= tests@.subrange(0, i as int));
                    assert(next.last() == tests@[i as int]);
                }
                i += 1;
            }
            proof {
                assert(tests@.subrange(0, tests@.len() as int) =~= tests@);
            }
            collect_reachable_arms(fallback, out);
        },
        Decision::Unreachable => {},
    }
}

proof fn lemma_prefix_trans(a: Seq<usize>, b: Seq<usize>, c: Seq<usize>)
    requires
        a.is_prefix_of(b),
        b.is_prefix_of(c),
    ensures
        a.is_prefix_of(c),
{
    assert(a =~= c.subrange(0, a.len() as int)) by {
        assert forall|k: int| 0 <= k < a.len() implies a[k] == c[k] by {
            assert(a[k] == b[k]);
            assert(b[k] == c[k]);
        }
    }
}

proof fn lemma_with_arm(acc: Seq<usize>, i: usize)
    ensures
        acc.is_prefix_of(with_arm(acc, i)),
        acc.no_duplicates() ==> with_arm(acc, i).no_duplicates(),
{
    assert(acc =~= with_arm(acc, i).subrange(0, acc.len() as int));
}

/// Collecting reachable arms keeps what was collected before, in place, and
/// never records an arm twice: starting from a list without repeats, the
/// result has none.
pub proof fn law_reachable_arms_extend(d: Decision, acc: Seq<usize>)
    ensures
        acc.is_prefix_of(reachable_arms(d, acc)),
        acc.no_duplicates() ==> reachable_arms(d, acc).no_duplicates(),
    decreases d, 1nat,
{
    match d {
        Decision::Success { arm_index, .. } => lemma_with_arm(acc, arm_index),
        Decision::Guard { arm_index, success, failure, .. } => {
            let a1 = with_arm(acc, arm_index);
            lemma_with_arm(acc, arm_index);
            law_reachable_arms_extend(*success, a1);
            let a2 = reachable_arms(*success, a1);
            law_reachable_arms_extend(*failure, a2);
            lemma_prefix_trans(acc, a1, a2);
            lemma_prefix_trans(acc, a2, reachable_arms(*failure, a2));
        },
        Decision::Switch { branches, fallback, .. } => {
            lemma_branches_reachable_extend(branches@, acc);
            let after = branches_reachable_arms(branches@, acc);
            match fallback {
                Some(f) => {
                    law_reachable_arms_extend(*f, after);
                    lemma_prefix_trans(acc, after, reachable_arms(*f, after));
                },
                None => {},
            }
        },
        Decision::Chain { tests, fallback } => {
            lemma_tests_reachable_extend(tests@, acc);
            let after = tests_reachable_arms(tests@, acc);
            law_reachable_arms_extend(*fallback, after);
            lemma_prefix_trans(acc, after, reachable_arms(*fallback, after));
        },
        Decision::Unreachable => {
            assert(acc =~= acc.subrange(0, acc.len() as int));
        },
    }
}

proof fn lemma_branches_reachable_extend(bs: Seq<SwitchBranch>, acc: Seq<usize>)
    ensures
        acc.is_prefix_of(branches_reachable_arms(bs, acc)),
        acc.no_duplicates() ==> branches_reachable_arms(bs, acc).no_duplicates(),
    decreases bs, 0nat,
{
    if bs.len() == 0 {
        assert(acc =~= acc.subrange(0, acc.len() as int));
    } else {
        lemma_branches_reachable_extend(bs.drop_last(), acc);
        let mid = branches_reachable_arms(bs.drop_last(), acc);
        law_reachable_arms_extend(bs.last().decision, mid);
        lemma_prefix_trans(acc, mid, reachable_arms(bs.last().decision, mid));
    }
}

proof fn lemma_tests_reachable_extend(ts: Seq<ChainTest>, acc: Seq<usize>)
    ensures
        acc.is_prefix_of(tests_reachable_arms(ts, acc)),
        acc.no_duplicates() ==> tests_reachable_arms(ts, acc).no_duplicates(),
    decreases ts, 0nat,
{
    if ts.len() == 0 {
        assert(acc =~= acc.subrange(0, acc.len() as int));
    } else {
        lemma_tests_reachable_extend(ts.drop_last(), acc);
        let mid = tests_reachable_arms(ts.drop_last(), acc);
        law_reachable_arms_extend(ts.last().decision, mid);
        lemma_prefix_trans(acc, mid, reachable_arms(ts.last().decision, mid));
    }
}

/// Whether two bindings have the same name, Go name and path.
fn binding_equal(a: &PatternBinding, b: &PatternBinding) -> (r: bool)
    ensures
        r == (a@ == b@),
{
    let names = str_eq(a.lisette_name.as_str(), b.lisette_name.as_str());
    let go = match (&a.go_name, &b.go_name) {
        (Some(x), Some(y)) => str_eq(x.as_str(), y.as_str()),
        (None, None) => true,
        _ => false,
    };
    names && go && paths_equal(&a.path, &b.path)
}

/// Whether two binding lists are equal element by element.
fn same_bindings(a: &[PatternBinding], b: &[PatternBinding]) -> (r: bool)
    ensures
        r == (bindings_model(a@) == bindings_model(b@)),
{
    if a.len() != b.len() {
        proof {
            assert(bindings_model(a@).len() != bindings_model(b@).len());
        }
        return false;
    }
    let mut i: usize = 0;
    while i < a.len()
        invariant
            i <= a@.len(),
            a@.len() == b@.len(),
            forall|k: int| 0 <= k < i ==> a@[k]@ == b@[k]@,
        decreases a@.len() - i,
    {
        if !binding_equal(&a[i], &b[i]) {
            proof {
                assert(bindings_model(a@)[i as int] != bindings_model(b@)[i as int]);
            }
            return false;
        }
        i += 1;
    }
    proof {
        assert(bindings_model(a@) =~= bindings_model(b@));
    }
    true
}

/// The top-level bindings of the test at `indices[k]`.
pub open spec fn indexed_bindings(tests: Seq<ChainTest>, indices: Seq<usize>, k: int) -> Seq<
    BindingModel,
> {
    top_bindings(tests[indices[k] as int].decision@)
}

/// The first non-empty binding list among the tests at `indices[j..]`.
pub open spec fn first_bound_from(tests: Seq<ChainTest>, indices: Seq<usize>, j: int) -> Option<
    Seq<BindingModel>,
>
    decreases indices.len() - j,
{
    if j < 0 || j >= indices.len() {
        None
    } else if indexed_bindings(tests, indices, j).len() > 0 {
        Some(indexed_bindings(tests, indices, j))
    } else {
        first_bound_from(tests, indices, j + 1)
    }
}

/// Whether the tests at `indices` can share one hoisted set of bindings:
/// more than one test, some test binds, and every test binds either nothing
/// or exactly what the first binding test binds.
pub open spec fn hoistable(tests: Seq<ChainTest>, indices: Seq<usize>) -> bool {
    indices.len() > 1 && match first_bound_from(tests, indices, 0) {
        None => false,
        Some(reference) => forall|k: int|
            0 <= k < indices.len() ==> #[trigger] indexed_bindings(tests, indices, k).len() == 0
                || indexed_bindings(tests, indices, k) == reference,
    }
}

proof fn lemma_first_bound_skip(tests: Seq<ChainTest>, indices: Seq<usize>, j: int)
    requires
        0 <= j <= indices.len(),
        forall|k: int| 0 <= k < j ==> #[trigger] indexed_bindings(tests, indices, k).len() == 0,
    ensures
        first_bound_from(tests, indices, 0) == first_bound_from(tests, indices, j),
    decreases j,
{
    if j > 0 {
        lemma_first_bound_skip(tests, indices, j - 1);
        assert(indexed_bindings(tests, indices, j - 1).len() == 0);
    }
}

/// Whether the grouped chain tests at `indices` bind the same variables, so
/// that the bindings can be declared once above the group.
pub fn bindings_are_hoistable(tests: &[ChainTest], indices: &[usize]) -> (r: bool)
    requires
        forall|k: int| 0 <= k < indices@.len() ==> #[trigger] indices@[k] < tests@.len(),
    ensures
        r == hoistable(tests@, indices@),
{
    if indices.len() <= 1 {
        return false;
    }
    let mut j: usize = 0;
    while j < indices.len() && decision_top_bindings(&tests[indices[j]].decision).len() == 0
        invariant
            j <= indices@.len(),
            forall|k: int| 0 <= k < indices@.len() ==> #[trigger] indices@[k] < tests@.len(),
            forall|k: int| 0 <= k < j ==> #[trigger] indexed_bindings(tests@, indices@, k).len() == 0,
        decreases indices@.len() - j,
    {
        proof {
            let b = tests@[indices@[j as int] as int].decision@;
            assert(indexed_bindings(tests@, indices@, j as int) == top_bindings(b));
        }
        j += 1;
    }
    proof {
        lemma_first_bound_skip(tests@, indices@, j as int);
    }
    if j == indices.len() {
        return false;
    }
    let reference = decision_top_bindings(&tests[indices[j]].decision);
    proof {
        assert(bindings_model(reference@).len() == reference@.len());
    }
    let ghost rm = bindings_model(reference@);
    let mut i: usize = 0;
    while i < indices.len()
        invariant
            i <= indices@.len(),
            forall|k: int| 0 <= k < indices@.len() ==> #[trigger] indices@[k] < tests@.len(),
            first_bound_from(tests@, indices@, 0) == Some(rm),
            rm == bindings_model(reference@),
            forall|k: int|
                0 <= k < i ==> #[trigger] indexed_bindings(tests@, indices@, k).len() == 0
                    || indexed_bindings(tests@, indices@, k) == rm,
        decreases indices@.len() - i,
    {
        let bindings = decision_top_bindings(&tests[indices[i]].decision);
        proof {
            assert(bindings_model(bindings@).len() == bindings@.len());
        }
        if !(bindings.len() == 0 || same_bindings(bindings, reference)) {
            proof {
                assert(!(indexed_bindings(tests@, indices@, i as int).len() == 0
                    || indexed_bindings(tests@, indices@, i as int) == rm));
            }
            return false;
        }
        i += 1;
    }
    true
}

/// The grouping key of a rendered condition: the text, or empty for none.
pub open spec fn condition_key(c: Option<String>) -> Seq<char> {
    match c {
        Some(s) => s@,
        None => Seq::empty(),
    }
}

/// Runs of consecutive equal keys, each with the positions it covers.
pub open spec fn key_runs(keys: Seq<Seq<char>>) -> Seq<(Seq<char>, Seq<usize>)>
    decreases keys.len(),
{
    if keys.len() == 0 {
        Seq::empty()
    } else {
        let before = key_runs(keys.drop_last());
        let key = keys.last();
        let at = (keys.len() - 1) as usize;
        if before.len() > 0 && before.last().0 == key {
            before.update(before.len() - 1, (key, before.last().1.push(at)))
        } else {
            before.push((key, seq![at]))
        }
    }
}

/// The plain view of grouped runs.
pub open spec fn runs_view<'a>(groups: Seq<(&'a str, Vec<usize>)>) -> Seq<(Seq<char>, Seq<usize>)> {
    groups.map_values(|g: (&'a str, Vec<usize>)| (g.0@, g.1@))
}

/// Groups consecutive conditions with equal text (an absent condition
/// counts as empty text), keeping each group's positions in order.
pub fn group_chain_tests_by_condition(conditions: &[Option<String>]) -> (r: Vec<(&str, Vec<usize>)>)
    ensures
        runs_view(r@) == key_runs(conditions@.map_values(|c: Option<String>| condition_key(c))),
{
    let ghost keys = conditions@.map_values(|c: Option<String>| condition_key(c));
    let mut groups: Vec<(&str, Vec<usize>)> = Vec::new();
    let mut i: usize = 0;
    while i < conditions.len()
        invariant
            i <= conditions@.len(),
            keys == conditions@.map_values(|c: Option<String>| condition_key(c)),
            runs_view(groups@) == key_runs(keys.subrange(0, i as int)),
        decreases conditions@.len() - i,
    {
        let key: &str = match &conditions[i] {
            Some(text) => text.as_str(),
            None => {
                proof {
                    reveal_strlit("");
                }
                ""
            },
        };
        proof {
            assert(key@ == keys[i as int]);
            assert(keys.subrange(0, i + 1).drop_last() =~= keys.subrange(0, i as int));
            assert(keys.subrange(0, i + 1).last() == keys[i as int]);
        }
        let ghost before = groups@;
        let n = groups.len();
        if n > 0 && str_eq(groups[n - 1].0, key) {
            let (k, mut indices) = groups.pop().unwrap();
            indices.push(i);
            groups.push((k, indices));
            proof {
                assert(runs_view(groups@) =~= runs_view(before).update(
                    n - 1,
                    (key@, runs_view(before).last().1.push(i)),
                ));
            }
        } else {
            let mut indices: Vec<usize> = Vec::new();
            indices.push(i);
            groups.push((key, indices));
            proof {
                assert(indices@ =~= seq![i]);
                assert(runs_view(groups@) =~= runs_view(before).push((key@, seq![i])));
            }
        }
        i += 1;
    }
    proof {
        assert(keys.subrange(0, conditions@.len() as int) =~= keys);
    }
    groups
}

/// Whether `runs` cuts the positions of `keys` into consecutive runs, in
/// order, each covering positions with the run's key, and with neighbouring
/// runs under different keys.
pub open spec fn is_run_partition(keys: Seq<Seq<char>>, runs: Seq<(Seq<char>, Seq<usize>)>) -> bool {
    &&& (keys.len() == 0 <==> runs.len() == 0)
    &&& forall|g: int| 0 <= g < runs.len() ==> (#[trigger] runs[g]).1.len() > 0
    &&& forall|g: int, k: int|
        0 <= g < runs.len() && 0 <= k < runs[g].1.len() ==> #[trigger] runs[g].1[k] < keys.len()
            && keys[runs[g].1[k] as int] == runs[g].0
    &&& forall|g: int, k: int|
        0 <= g < runs.len() && 0 <= k < runs[g].1.len() - 1 ==> #[trigger] runs[g].1[k + 1]
            == runs[g].1[k] + 1
    &&& runs.len() > 0 ==> runs[0].1[0] == 0 && runs.last().1.last() == keys.len() - 1
    &&& forall|g: int|
        0 <= g < runs.len() - 1 ==> (#[trigger] runs[g + 1]).1[0] == runs[g].1.last() + 1
            && runs[g + 1].0 != runs[g].0
}

/// Grouping conditions keeps every position exactly once, in order, and
/// merges only neighbouring positions whose conditions are equal.
pub proof fn law_key_runs_partition(keys: Seq<Seq<char>>)
    requires
        keys.len() <= usize::MAX,
    ensures
        is_run_partition(keys, key_runs(keys)),
    decreases keys.len(),
{
    if keys.len() > 0 {
        let prev = keys.drop_last();
        law_key_runs_partition(prev);
        let before = key_runs(prev);
        let key = keys.last();
        let at = (keys.len() - 1) as usize;
        let runs = key_runs(keys);
        assert forall|i: int| 0 <= i < prev.len() implies prev[i] == keys[i] by {}
        if before.len() > 0 && before.last().0 == key {
            let last = before.len() - 1;
            assert(runs == before.update(last, (key, before.last().1.push(at))));
            assert forall|g: int, k: int|
                0 <= g < runs.len() && 0 <= k < runs[g].1.len() implies #[trigger] runs[g].1[k]
                < keys.len() && keys[runs[g].1[k] as int] == runs[g].0 by {
                if g < last {
                    assert(runs[g] == before[g]);
                } else if k < before[g].1.len() {
                    assert(runs[g].1[k] == before[g].1[k]);
                }
            }
            assert forall|g: int, k: int|
                0 <= g < runs.len() && 0 <= k < runs[g].1.len() - 1 implies #[trigger] runs[g].1[k
                + 1] == runs[g].1[k] + 1 by {
                if g < last {
                    assert(runs[g] == before[g]);
                } else if k + 1 < before[g].1.len() {
                    assert(runs[g].1[k] == before[g].1[k]);
                    assert(runs[g].1[k + 1] == before[g].1[k + 1]);
                } else {
                    assert(runs[g].1[k] == before[g].1.last());
                }
            }
            assert forall|g: int| 0 <= g < runs.len() - 1 implies (#[trigger] runs[g + 1]).1[0]
                == runs[g].1.last() + 1 && runs[g + 1].0 != runs[g].0 by {
                assert(runs[g] == before[g]);
                if g + 1 < last {
                    assert(runs[g + 1] == before[g + 1]);
                } else {
                    assert(runs[g + 1].1[0] == before[g + 1].1[0]);
                }
            }
            if last > 0 {
                assert(runs[0] == before[0]);
            } else {
                assert(runs[0].1[0] == before[0].1[0]);
            }
        } else {
            assert(runs == before.push((key, seq![at])));
            assert forall|g: int, k: int|
                0 <= g < runs.len() && 0 <= k < runs[g].1.len() implies #[trigger] runs[g].1[k]
                < keys.len() && keys[runs[g].1[k] as int] == runs[g].0 by {
                if g < before.len() {
                    assert(runs[g] == before[g]);
                }
            }
            assert forall|g: int, k: int|
                0 <= g < runs.len() && 0 <= k < runs[g].1.len() - 1 implies #[trigger] runs[g].1[k
                + 1] == runs[g].1[k] + 1 by {
                if g < before.len() {
                    assert(runs[g] == before[g]);
                }
            }
            assert forall|g: int| 0 <= g < runs.len() - 1 implies (#[trigger] runs[g + 1]).1[0]
                == runs[g].1.last() + 1 && runs[g + 1].0 != runs[g].0 by {
                assert(runs[g] == before[g]);
                if g + 1 < before.len() {
                    assert(runs[g + 1] == before[g + 1]);
                }
            }
            if before.len() > 0 {
                assert(runs[0] == before[0]);
            }
        }
    }
}

} // verus!
