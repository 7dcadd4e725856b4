//! What a decision tree selects for one subject value, against what
//! trying the arms in source order selects.
use vstd::prelude::*;

use crate::patterns::decision_tree::{
    ArmModel, BranchModel, CheckModel, DecisionModel, SegmentModel, SwitchKind, TestModel,
    arm_fits, arms_fit, arms_with_label, assertion_check, branch_list, case_arms, case_label,
    catchalls_of, chain_checks, chain_of, chain_tests, check_path, first_relevant, groups_of,
    inner_arm, is_catchall, labels_of, lemma_case_arms_weight, lemma_catchalls, lemma_first_relevant,
    lemma_label_nonempty, lemma_stop_index, lemma_weight_positive, pick_kind, some_inner_can_fail,
    stop_index, switch_of, tree_of, weight, expand_arm, is_first_root_assertion,
    is_interface_or_with_extras, is_root_assertion_shape, lift_root, lifted_assertion,
    root_assertion_liftable,
};
use crate::text::join;

verus! {

/// Whether every check passes.
pub open spec fn all_hold(checks: Seq<CheckModel>, holds: spec_fn(CheckModel) -> bool) -> bool {
    forall|i: int| 0 <= i < checks.len() ==> holds(#[trigger] checks[i])
}

/// Whether an arm is taken for the value: its root type assertion and its
/// checks pass, and so does its guard when it has one.
pub open spec fn arm_selected(a: ArmModel, holds: spec_fn(CheckModel) -> bool, guard: spec_fn(nat) -> bool) -> bool {
    &&& match a.root_assertion {
        Some(t) => holds(assertion_check(t)),
        None => true,
    }
    &&& all_hold(a.checks, holds)
    &&& (a.has_guard ==> guard(a.arm_index))
}

/// The arm that trying the arms in order takes: the first one selected.
pub open spec fn first_match(arms: Seq<ArmModel>, holds: spec_fn(CheckModel) -> bool, guard: spec_fn(nat) -> bool) -> Option<nat>
    decreases arms.len(),
{
    if arms.len() == 0 {
        None
    } else {
        match first_match(arms.drop_last(), holds, guard) {
            Some(a) => Some(a),
            None => if arm_selected(arms.last(), holds, guard) {
                Some(arms.last().arm_index)
            } else {
                None
            },
        }
    }
}

/// Whether a `case` with `label` of a switch of `kind` on `path` selects
/// the value: the tag or literal check it stands for passes; a type-switch
/// label lists types, one of which the value has.
pub open spec fn case_matches(kind: SwitchKind, path: Seq<SegmentModel>, label: Seq<char>, holds: spec_fn(CheckModel) -> bool) -> bool {
    match kind {
        SwitchKind::EnumTag => holds(CheckModel::EnumTag { path, tag_constant: label, needs_stdlib: false }),
        SwitchKind::Value => holds(CheckModel::Literal { path, go_literal: label }),
        SwitchKind::TypeSwitch => exists|types: Seq<Seq<char>>|
            join(types, seq![',', ' ']) == label && exists|i: int|
                0 <= i < types.len() && holds(CheckModel::TypeAssert { path, go_type: #[trigger] types[i] }),
    }
}

/// The first case label, in order, that selects the value.
pub open spec fn first_label(labels: Seq<Seq<char>>, kind: SwitchKind, path: Seq<SegmentModel>, holds: spec_fn(CheckModel) -> bool) -> Option<int>
    decreases labels.len(),
{
    if labels.len() == 0 {
        None
    } else {
        match first_label(labels.drop_last(), kind, path, holds) {
            Some(k) => Some(k),
            None => if case_matches(kind, path, labels.last(), holds) {
                Some(labels.len() - 1)
            } else {
                None
            },
        }
    }
}

/// The first chain test, in order, whose checks all pass.
pub open spec fn first_test(tests: Seq<TestModel>, holds: spec_fn(CheckModel) -> bool) -> Option<int>
    decreases tests.len(),
{
    if tests.len() == 0 {
        None
    } else {
        match first_test(tests.drop_last(), holds) {
            Some(k) => Some(k),
            None => if all_hold(tests.last().checks, holds) {
                Some(tests.len() - 1)
            } else {
                None
            },
        }
    }
}

/// The case labels of a switch's branches.
pub open spec fn branch_labels(branches: Seq<BranchModel>) -> Seq<Seq<char>> {
    branches.map_values(|b: BranchModel| b.case_label)
}

/// The arm a decision tree selects for the value: a switch runs its first
/// matching case (else its default), a chain its first passing test (else
/// its fallback), a guard its success or failure branch.
pub open spec fn outcome(d: DecisionModel, holds: spec_fn(CheckModel) -> bool, guard: spec_fn(nat) -> bool) -> Option<nat>
    decreases d,
{
    match d {
        DecisionModel::Success { arm_index, .. } => Some(arm_index),
        DecisionModel::Guard { arm_index, success, failure, .. } => if guard(arm_index) {
            outcome(*success, holds, guard)
        } else {
            outcome(*failure, holds, guard)
        },
        DecisionModel::Switch { path, kind, branches, fallback, .. } => match first_label(
            branch_labels(branches),
            kind,
            path,
            holds,
        ) {
            Some(k) => if 0 <= k < branches.len() {
                outcome(branches[k].decision, holds, guard)
            } else {
                None
            },
            None => match fallback {
                Some(f) => outcome(*f, holds, guard),
                None => None,
            },
        },
        DecisionModel::Chain { tests, fallback } => match first_test(tests, holds) {
            Some(k) => if 0 <= k < tests.len() {
                outcome(tests[k].decision, holds, guard)
            } else {
                None
            },
            None => outcome(*fallback, holds, guard),
        },
        DecisionModel::Unreachable => None,
    }
}

/// An arm without a root type assertion, with at most one check.
pub open spec fn simple_arm(a: ArmModel) -> bool {
    a.root_assertion is None && a.checks.len() <= 1
}

/// Simple arms, with a catch-all arm only in last position.
pub open spec fn simple_arms(arms: Seq<ArmModel>) -> bool {
    forall|i: int|
        0 <= i < arms.len() ==> simple_arm(#[trigger] arms[i]) && (is_catchall(arms[i]) ==> i == arms.len() - 1)
}

/// A check's meaning does not depend on whether its tag needs the prelude.
pub open spec fn stdlib_flag_irrelevant(holds: spec_fn(CheckModel) -> bool) -> bool {
    forall|p: Seq<SegmentModel>, t: Seq<char>|
        #[trigger] holds(CheckModel::EnumTag { path: p, tag_constant: t, needs_stdlib: true }) == holds(
            CheckModel::EnumTag { path: p, tag_constant: t, needs_stdlib: false },
        )
}

/// Arms that are each simple, conditional and fit one tag or value switch.
pub open spec fn switch_body(xs: Seq<ArmModel>, kind: SwitchKind, path: Seq<SegmentModel>) -> bool {
    &&& kind != SwitchKind::TypeSwitch
    &&& forall|i: int|
        0 <= i < xs.len() ==> simple_arm(#[trigger] xs[i]) && !is_catchall(xs[i]) && !xs[i].has_guard
            && arm_fits(xs[i], kind, path)
}

proof fn lemma_selected_is_case(x: ArmModel, kind: SwitchKind, path: Seq<SegmentModel>, holds: spec_fn(CheckModel) -> bool, guard: spec_fn(nat) -> bool)
    requires
        kind != SwitchKind::TypeSwitch,
        simple_arm(x),
        !x.has_guard,
        !is_catchall(x),
        arm_fits(x, kind, path),
        stdlib_flag_irrelevant(holds),
    ensures
        arm_selected(x, holds, guard) == case_matches(kind, path, case_label(x, kind), holds),
{
    let c = x.checks[0];
    assert(x.checks.len() == 1);
    assert(all_hold(x.checks, holds) == holds(c));
    match c {
        CheckModel::EnumTag { path: p, tag_constant: t, needs_stdlib: ns } => {
            assert(check_path(c) == Some(p));
            assert(holds(CheckModel::EnumTag { path: p, tag_constant: t, needs_stdlib: true }) == holds(
                CheckModel::EnumTag { path: p, tag_constant: t, needs_stdlib: false },
            ));
        },
        CheckModel::Literal { path: p, go_literal: l } => {
            assert(check_path(c) == Some(p));
        },
        _ => {},
    }
}

proof fn lemma_no_label_matches(labels: Seq<Seq<char>>, kind: SwitchKind, path: Seq<SegmentModel>, holds: spec_fn(CheckModel) -> bool)
    requires
        first_label(labels, kind, path, holds) is None,
    ensures
        forall|k: int| 0 <= k < labels.len() ==> !case_matches(kind, path, #[trigger] labels[k], holds),
    decreases labels.len(),
{
    if labels.len() > 0 {
        lemma_no_label_matches(labels.drop_last(), kind, path, holds);
        assert forall|k: int| 0 <= k < labels.len() implies !case_matches(kind, path, #[trigger] labels[k], holds) by {
            if k < labels.len() - 1 {
                assert(labels.drop_last()[k] == labels[k]);
            }
        }
    }
}

proof fn lemma_unlabelled_is_empty(ys: Seq<ArmModel>, kind: SwitchKind, label: Seq<char>)
    requires
        !labels_of(ys, kind).contains(label),
    ensures
        arms_with_label(ys, kind, label).len() == 0,
    decreases ys.len(),
{
    if ys.len() > 0 {
        let prev = ys.drop_last();
        let earlier = labels_of(prev, kind);
        if !is_catchall(ys.last()) && !earlier.contains(case_label(ys.last(), kind)) {
            assert(labels_of(ys, kind) == earlier.push(case_label(ys.last(), kind)));
            assert(labels_of(ys, kind)[earlier.len() as int] == case_label(ys.last(), kind));
            assert(!earlier.contains(label)) by {
                if earlier.contains(label) {
                    let k = choose|k: int| 0 <= k < earlier.len() && earlier[k] == label;
                    assert(labels_of(ys, kind)[k] == label);
                }
            }
        } else {
            assert(labels_of(ys, kind) == earlier);
        }
        lemma_unlabelled_is_empty(prev, kind, label);
        if !is_catchall(ys.last()) && case_label(ys.last(), kind) == label {
            if earlier.contains(case_label(ys.last(), kind)) {
                assert(false);
            } else {
                assert(labels_of(ys, kind)[earlier.len() as int] == label);
                assert(false);
            }
        }
    }
}

/// Trying tag or value arms in order picks the arm of the first matching
/// case label, and each case starts with the first arm of its label.
proof fn lemma_label_order(xs: Seq<ArmModel>, kind: SwitchKind, path: Seq<SegmentModel>, holds: spec_fn(CheckModel) -> bool, guard: spec_fn(nat) -> bool)
    requires
        switch_body(xs, kind, path),
        stdlib_flag_irrelevant(holds),
    ensures
        (first_match(xs, holds, guard) is None) == (first_label(labels_of(xs, kind), kind, path, holds) is None),
        first_match(xs, holds, guard) matches Some(a) ==> (first_label(labels_of(xs, kind), kind, path, holds) matches Some(k)
            && 0 <= k < labels_of(xs, kind).len() && arms_with_label(xs, kind, labels_of(xs, kind)[k]).len() > 0
            && arms_with_label(xs, kind, labels_of(xs, kind)[k])[0].arm_index == a),
    decreases xs.len(),
{
    if xs.len() > 0 {
        let ys = xs.drop_last();
        let x = xs.last();
        assert(switch_body(ys, kind, path)) by {
            assert forall|i: int| 0 <= i < ys.len() implies simple_arm(#[trigger] ys[i]) && !is_catchall(ys[i])
                && !ys[i].has_guard && arm_fits(ys[i], kind, path) by {
                assert(ys[i] == xs[i]);
            }
        }
        assert(x == xs[xs.len() - 1]);
        lemma_label_order(ys, kind, path, holds, guard);
        lemma_selected_is_case(x, kind, path, holds, guard);
        let earlier = labels_of(ys, kind);
        let lx = case_label(x, kind);
        let labels = labels_of(xs, kind);
        match first_match(ys, holds, guard) {
            Some(a) => {
                let k = first_label(earlier, kind, path, holds)->0;
                let lk = earlier[k];
                assert(earlier.contains(lk));
                lemma_label_nonempty(ys, kind, lk);
                if earlier.contains(lx) {
                    assert(labels == earlier);
                } else {
                    assert(labels == earlier.push(lx));
                    assert(labels.drop_last() == earlier);
                    assert(labels[k] == lk);
                }
                let g = arms_with_label(ys, kind, lk);
                if lx == lk {
                    assert(arms_with_label(xs, kind, lk) == g.push(inner_arm(x, kind)));
                    assert(arms_with_label(xs, kind, lk)[0] == g[0]);
                } else {
                    assert(arms_with_label(xs, kind, lk) == g);
                }
            },
            None => {
                lemma_no_label_matches(earlier, kind, path, holds);
                if arm_selected(x, holds, guard) {
                    if earlier.contains(lx) {
                        let k = choose|k: int| 0 <= k < earlier.len() && earlier[k] == lx;
                        assert(!case_matches(kind, path, earlier[k], holds));
                        assert(false);
                    }
                    assert(labels == earlier.push(lx));
                    assert(labels.drop_last() == earlier);
                    assert(labels[earlier.len() as int] == lx);
                    lemma_unlabelled_is_empty(ys, kind, lx);
                    let g = arms_with_label(ys, kind, lx);
                    assert(arms_with_label(xs, kind, lx) == g.push(inner_arm(x, kind)));
                    assert(arms_with_label(xs, kind, lx)[0] == inner_arm(x, kind));
                } else {
                    if earlier.contains(lx) {
                        assert(labels == earlier);
                    } else {
                        assert(labels == earlier.push(lx));
                        assert(labels.drop_last() == earlier);
                    }
                }
            },
        }
    }
}

proof fn lemma_branch_list(arms: Seq<ArmModel>, kind: SwitchKind, n: nat)
    requires
        n <= groups_of(arms, kind).len(),
    ensures
        branch_list(arms, kind, n).len() == n,
        forall|k: int|
            0 <= k < n ==> #[trigger] branch_list(arms, kind, n)[k] == (BranchModel {
                case_label: groups_of(arms, kind)[k].label,
                needs_stdlib: groups_of(arms, kind)[k].needs_stdlib,
                decision: if weight(case_arms(groups_of(arms, kind)[k], catchalls_of(arms))) < weight(arms) {
                    tree_of(case_arms(groups_of(arms, kind)[k], catchalls_of(arms)))
                } else {
                    DecisionModel::Unreachable
                },
            }),
    decreases n,
{
    if n > 0 {
        lemma_branch_list(arms, kind, (n - 1) as nat);
    }
}

/// Inside a tag or value case of simple arms, every arm is settled: no
/// check, no guard and no assertion is left.
proof fn lemma_settled_case_arms(arms: Seq<ArmModel>, kind: SwitchKind, path: Seq<SegmentModel>, label: Seq<char>)
    requires
        kind != SwitchKind::TypeSwitch,
        arms_fit(arms, kind, path),
        forall|i: int| 0 <= i < arms.len() ==> simple_arm(#[trigger] arms[i]),
    ensures
        forall|j: int|
            0 <= j < arms_with_label(arms, kind, label).len() ==> (#[trigger] arms_with_label(arms, kind, label)[j]).checks.len()
                == 0 && !arms_with_label(arms, kind, label)[j].has_guard
                && arms_with_label(arms, kind, label)[j].root_assertion is None,
    decreases arms.len(),
{
    if arms.len() > 0 {
        let prev = arms.drop_last();
        assert(arms_fit(prev, kind, path)) by {
            assert forall|i: int| 0 <= i < prev.len() implies #[trigger] arm_fits(prev[i], kind, path) by {
                assert(prev[i] == arms[i]);
            }
        }
        assert forall|i: int| 0 <= i < prev.len() implies simple_arm(#[trigger] prev[i]) by {
            assert(prev[i] == arms[i]);
        }
        lemma_settled_case_arms(prev, kind, path, label);
        let x = arms.last();
        assert(x == arms[arms.len() - 1]);
        assert(arm_fits(x, kind, path));
        assert(simple_arm(x));
        let g = arms_with_label(prev, kind, label);
        if !is_catchall(x) && case_label(x, kind) == label {
            assert(arms_with_label(arms, kind, label) == g.push(inner_arm(x, kind)));
            assert(x.checks.len() == 1);
            assert(inner_arm(x, kind).checks =~= Seq::<CheckModel>::empty());
        }
    }
}

proof fn lemma_no_catchalls(xs: Seq<ArmModel>)
    requires
        forall|i: int| 0 <= i < xs.len() ==> !is_catchall(#[trigger] xs[i]),
    ensures
        catchalls_of(xs).len() == 0,
    decreases xs.len(),
{
    if xs.len() > 0 {
        assert forall|i: int| 0 <= i < xs.drop_last().len() implies !is_catchall(#[trigger] xs.drop_last()[i]) by {
            assert(xs.drop_last()[i] == xs[i]);
        }
        lemma_no_catchalls(xs.drop_last());
        assert(!is_catchall(xs[xs.len() - 1]));
    }
}

/// The number of conditional arms of simple arms: all but a final catch-all.
pub open spec fn conditional_count(arms: Seq<ArmModel>) -> int {
    if arms.len() > 0 && is_catchall(arms.last()) {
        arms.len() - 1
    } else {
        arms.len() as int
    }
}

proof fn lemma_first_match_split(a: Seq<ArmModel>, b: Seq<ArmModel>, holds: spec_fn(CheckModel) -> bool, guard: spec_fn(nat) -> bool)
    ensures
        first_match(a + b, holds, guard) == match first_match(a, holds, guard) {
            Some(x) => Some(x),
            None => first_match(b, holds, guard),
        },
    decreases b.len(),
{
    if b.len() == 0 {
        assert(a + b =~= a);
    } else {
        lemma_first_match_split(a, b.drop_last(), holds, guard);
        assert((a + b).drop_last() =~= a + b.drop_last());
        assert((a + b).last() == b.last());
    }
}

proof fn lemma_first_match_none(a: Seq<ArmModel>, holds: spec_fn(CheckModel) -> bool, guard: spec_fn(nat) -> bool)
    requires
        forall|j: int| 0 <= j < a.len() ==> !arm_selected(#[trigger] a[j], holds, guard),
    ensures
        first_match(a, holds, guard) is None,
    decreases a.len(),
{
    if a.len() > 0 {
        assert forall|j: int| 0 <= j < a.drop_last().len() implies !arm_selected(#[trigger] a.drop_last()[j], holds, guard) by {
            assert(a.drop_last()[j] == a[j]);
        }
        lemma_first_match_none(a.drop_last(), holds, guard);
        assert(a.last() == a[a.len() - 1]);
    }
}

/// Trying the arms in order, when the arms before `i` all fail: arm `i` if
/// it is taken, else whatever the arms after it take.
proof fn lemma_first_match_at(arms: Seq<ArmModel>, i: int, holds: spec_fn(CheckModel) -> bool, guard: spec_fn(nat) -> bool)
    requires
        0 <= i < arms.len(),
        forall|j: int| 0 <= j < i ==> !arm_selected(#[trigger] arms[j], holds, guard),
    ensures
        first_match(arms, holds, guard) == if arm_selected(arms[i], holds, guard) {
            Some(arms[i].arm_index)
        } else {
            first_match(arms.subrange(i + 1, arms.len() as int), holds, guard)
        },
{
    let before = arms.take(i);
    assert forall|j: int| 0 <= j < before.len() implies !arm_selected(#[trigger] before[j], holds, guard) by {
        assert(before[j] == arms[j]);
    }
    lemma_first_match_none(before, holds, guard);
    let upto = arms.take(i + 1);
    assert(upto.drop_last() =~= before);
    assert(upto.last() == arms[i]);
    lemma_first_match_split(upto, arms.subrange(i + 1, arms.len() as int), holds, guard);
    assert(upto + arms.subrange(i + 1, arms.len() as int) =~= arms);
}

/// The first of the first `k` arms whose checks pass.
pub open spec fn first_passing(arms: Seq<ArmModel>, k: int, holds: spec_fn(CheckModel) -> bool) -> Option<int>
    decreases k,
{
    if k <= 0 {
        None
    } else {
        match first_passing(arms, k - 1, holds) {
            Some(i) => Some(i),
            None => if all_hold(arms[k - 1].checks, holds) {
                Some(k - 1)
            } else {
                None
            },
        }
    }
}

proof fn lemma_first_passing(arms: Seq<ArmModel>, k: int, holds: spec_fn(CheckModel) -> bool)
    requires
        0 <= k <= arms.len(),
    ensures
        match first_passing(arms, k, holds) {
            Some(i) => 0 <= i < k && all_hold(arms[i].checks, holds) && forall|j: int|
                0 <= j < i ==> !all_hold(#[trigger] arms[j].checks, holds),
            None => forall|j: int| 0 <= j < k ==> !all_hold(#[trigger] arms[j].checks, holds),
        },
    decreases k,
{
    if k > 0 {
        lemma_first_passing(arms, k - 1, holds);
    }
}

proof fn lemma_chain_tests(arms: Seq<ArmModel>, k: nat)
    requires
        k <= arms.len(),
    ensures
        chain_tests(arms, k).len() == k,
        forall|i: int|
            0 <= i < k ==> #[trigger] chain_tests(arms, k)[i] == (TestModel {
                checks: chain_checks(arms[i]),
                decision: if arms[i].has_guard {
                    DecisionModel::Guard {
                        arm_index: arms[i].arm_index,
                        bindings: arms[i].bindings,
                        success: Box::new(DecisionModel::Success { arm_index: arms[i].arm_index, bindings: Seq::empty() }),
                        failure: Box::new(tree_of(arms.subrange(i + 1, arms.len() as int))),
                    }
                } else {
                    DecisionModel::Success { arm_index: arms[i].arm_index, bindings: arms[i].bindings }
                },
            }),
    decreases k,
{
    if k > 0 {
        lemma_chain_tests(arms, (k - 1) as nat);
    }
}

proof fn lemma_first_test(arms: Seq<ArmModel>, k: nat, holds: spec_fn(CheckModel) -> bool)
    requires
        k <= arms.len(),
        forall|i: int| 0 <= i < k ==> (#[trigger] arms[i]).root_assertion is None,
    ensures
        first_test(chain_tests(arms, k), holds) == first_passing(arms, k as int, holds),
    decreases k,
{
    lemma_chain_tests(arms, k);
    if k > 0 {
        lemma_first_test(arms, (k - 1) as nat, holds);
        let t = chain_tests(arms, k);
        assert(t.drop_last() =~= chain_tests(arms, (k - 1) as nat));
        assert(t.last() == t[k - 1]);
        assert(arms[k - 1].root_assertion is None);
        assert(chain_checks(arms[k - 1]) == arms[k - 1].checks);
    }
}

proof fn lemma_simple_suffix(arms: Seq<ArmModel>, i: int)
    requires
        simple_arms(arms),
        0 <= i <= arms.len(),
    ensures
        simple_arms(arms.subrange(i, arms.len() as int)),
{
    let r = arms.subrange(i, arms.len() as int);
    assert forall|j: int| 0 <= j < r.len() implies simple_arm(#[trigger] r[j]) && (is_catchall(r[j]) ==> j == r.len() - 1) by {
        assert(r[j] == arms[i + j]);
        assert(simple_arm(arms[i + j]));
    }
}

proof fn lemma_chain_outcome(arms: Seq<ArmModel>, holds: spec_fn(CheckModel) -> bool, guard: spec_fn(nat) -> bool)
    requires
        simple_arms(arms),
        stdlib_flag_irrelevant(holds),
        arms.len() > 0,
        !is_catchall(arms[0]),
    ensures
        outcome(chain_of(arms), holds, guard) == first_match(arms, holds, guard),
    decreases arms.len(), 0nat,
{
    let n = arms.len() as int;
    let last = arms[n - 1];
    assert(simple_arm(last));
    let stop = if is_catchall(last) && !last.has_guard {
        n - 1
    } else {
        n
    };
    assert forall|k: int| 0 <= k < stop implies !(#[trigger] is_catchall(arms[k]) && !arms[k].has_guard) by {
        assert(simple_arm(arms[k]));
    }
    lemma_stop_index(arms, stop);
    assert(stop_index(arms, 0) == stop);
    assert(stop >= 1);
    assert forall|i: int| 0 <= i < stop implies (#[trigger] arms[i]).root_assertion is None by {
        assert(simple_arm(arms[i]));
    }
    lemma_chain_tests(arms, stop as nat);
    lemma_first_test(arms, stop as nat, holds);
    lemma_first_passing(arms, stop, holds);
    let tests = chain_tests(arms, stop as nat);
    let fallback = if stop < n {
        DecisionModel::Success { arm_index: arms[stop].arm_index, bindings: arms[stop].bindings }
    } else {
        DecisionModel::Unreachable
    };
    assert(chain_of(arms) == DecisionModel::Chain { tests, fallback: Box::new(fallback) });
    match first_passing(arms, stop, holds) {
        Some(i) => {
            assert(simple_arm(arms[i]));
            assert forall|j: int| 0 <= j < i implies !arm_selected(#[trigger] arms[j], holds, guard) by {
                assert(!all_hold(arms[j].checks, holds));
            }
            lemma_first_match_at(arms, i, holds, guard);
            let d = tests[i].decision;
            if arms[i].has_guard {
                let rest = arms.subrange(i + 1, n);
                lemma_simple_suffix(arms, i + 1);
                law_simple_arms_first_match(rest, holds, guard);
                let success = DecisionModel::Success { arm_index: arms[i].arm_index, bindings: Seq::empty() };
                assert(outcome(success, holds, guard) == Some(arms[i].arm_index));
                assert(outcome(d, holds, guard) == if guard(arms[i].arm_index) {
                    Some(arms[i].arm_index)
                } else {
                    outcome(tree_of(rest), holds, guard)
                });
            } else {
                assert(outcome(d, holds, guard) == Some(arms[i].arm_index));
            }
            assert(outcome(chain_of(arms), holds, guard) == outcome(d, holds, guard));
        },
        None => {
            assert(outcome(chain_of(arms), holds, guard) == outcome(fallback, holds, guard));
            if stop < n {
                assert forall|j: int| 0 <= j < stop implies !arm_selected(#[trigger] arms[j], holds, guard) by {
                    assert(!all_hold(arms[j].checks, holds));
                }
                lemma_first_match_at(arms, stop, holds, guard);
                assert(all_hold(arms[stop].checks, holds));
            } else {
                assert forall|j: int| 0 <= j < n implies !arm_selected(#[trigger] arms[j], holds, guard) by {
                    assert(!all_hold(arms[j].checks, holds));
                }
                lemma_first_match_none(arms, holds, guard);
            }
        },
    }
}

/// A lone catch-all is taken exactly when its guard (if any) passes.
proof fn lemma_lone_catchall(arms: Seq<ArmModel>, holds: spec_fn(CheckModel) -> bool, guard: spec_fn(nat) -> bool)
    requires
        arms.len() == 1,
        is_catchall(arms[0]),
    ensures
        outcome(tree_of(arms), holds, guard) == if arm_selected(arms[0], holds, guard) {
            Some(arms[0].arm_index)
        } else {
            None::<nat>
        },
        first_match(arms, holds, guard) == if arm_selected(arms[0], holds, guard) {
            Some(arms[0].arm_index)
        } else {
            None::<nat>
        },
{
    let c = arms[0];
    assert(all_hold(c.checks, holds));
    assert(arms.drop_last() =~= Seq::<ArmModel>::empty());
    assert(arms.drop_first() =~= Seq::<ArmModel>::empty());
    assert(arms.last() == c);
    assert(first_match(arms.drop_last(), holds, guard) is None);
    assert(tree_of(Seq::<ArmModel>::empty()) == DecisionModel::Unreachable);
    assert(outcome(DecisionModel::Unreachable, holds, guard) == None::<nat>);
    let only = DecisionModel::Success { arm_index: c.arm_index, bindings: Seq::empty() };
    assert(outcome(only, holds, guard) == Some(c.arm_index));
    if c.has_guard {
        let t = DecisionModel::Guard {
            arm_index: c.arm_index,
            bindings: c.bindings,
            success: Box::new(only),
            failure: Box::new(tree_of(arms.drop_first())),
        };
        assert(tree_of(arms) == t);
        assert(outcome(t, holds, guard) == if guard(c.arm_index) {
            Some(c.arm_index)
        } else {
            None::<nat>
        });
    } else {
        assert(tree_of(arms) == DecisionModel::Success { arm_index: c.arm_index, bindings: c.bindings });
    }
}

proof fn lemma_switch_outcome(arms: Seq<ArmModel>, holds: spec_fn(CheckModel) -> bool, guard: spec_fn(nat) -> bool)
    requires
        simple_arms(arms),
        stdlib_flag_irrelevant(holds),
        arms.len() > 0,
        !is_catchall(arms[0]),
        switch_of(arms) is Some,
    ensures
        outcome(switch_of(arms)->0, holds, guard) == first_match(arms, holds, guard),
{
    lemma_first_relevant(arms, 0);
    assert(first_relevant(arms) == Some(arms[0]));
    let (kind, path) = pick_kind(arms[0])->0;
    assert(simple_arm(arms[0]));
    assert(kind != SwitchKind::TypeSwitch);
    assert(arms_fit(arms, kind, path));
    let n0 = conditional_count(arms);
    assert forall|i: int| 0 <= i < n0 implies !is_catchall(#[trigger] arms[i]) by {
        assert(simple_arm(arms[i]));
    }
    let xs = arms.take(n0);
    assert(switch_body(xs, kind, path)) by {
        assert forall|i: int| 0 <= i < xs.len() implies simple_arm(#[trigger] xs[i]) && !is_catchall(xs[i])
            && !xs[i].has_guard && arm_fits(xs[i], kind, path) by {
            assert(xs[i] == arms[i]);
            assert(arm_fits(arms[i], kind, path));
            assert(simple_arm(arms[i]));
        }
    }
    assert forall|i: int| 0 <= i < xs.len() implies !is_catchall(#[trigger] xs[i]) by {
        assert(xs[i] == arms[i]);
    }
    lemma_no_catchalls(xs);
    lemma_label_order(xs, kind, path, holds, guard);
    assert forall|i: int| 0 <= i < arms.len() implies simple_arm(#[trigger] arms[i]) by {}
    let labels = labels_of(arms, kind);
    if n0 < arms.len() {
        assert(xs =~= arms.drop_last());
        assert(labels == labels_of(xs, kind));
        assert(catchalls_of(arms) == catchalls_of(xs).push(arms.last()));
        lemma_first_match_split(xs, seq![arms.last()], holds, guard);
        assert(xs + seq![arms.last()] =~= arms);
        assert(seq![arms.last()].drop_last() =~= Seq::<ArmModel>::empty());
    } else {
        assert(xs =~= arms);
        assert(labels == labels_of(xs, kind));
    }
    let groups = groups_of(arms, kind);
    let n = groups.len();
    lemma_branch_list(arms, kind, n);
    let branches = branch_list(arms, kind, n);
    assert(branch_labels(branches) =~= labels);
    lemma_weight_positive(arms, 0);
    lemma_catchalls(arms);
    let fallback_arms = catchalls_of(arms);
    let fallback = if fallback_arms.len() == 0 {
        None
    } else if weight(fallback_arms) < weight(arms) {
        Some(Box::new(tree_of(fallback_arms)))
    } else {
        Some(Box::new(DecisionModel::Unreachable))
    };
    let d = switch_of(arms)->0;
    assert(d == DecisionModel::Switch {
        path,
        kind,
        shape: crate::patterns::decision_tree::shape_of(kind, branches, fallback is Some),
        branches,
        fallback,
    });
    match first_match(xs, holds, guard) {
        Some(a) => {
            let k = first_label(labels, kind, path, holds)->0;
            let label = labels[k];
            let g = groups[k];
            assert(g.arms == arms_with_label(arms, kind, label));
            if n0 < arms.len() {
                assert(arms.drop_last() == xs);
                assert(arms_with_label(arms, kind, label) == arms_with_label(xs, kind, label));
            }
            lemma_settled_case_arms(arms, kind, path, label);
            assert(!some_inner_can_fail(g.arms));
            assert(case_arms(g, catchalls_of(arms)) == g.arms);
            lemma_case_arms_weight(arms, kind, path, k);
            assert(g.arms[0].checks.len() == 0 && !g.arms[0].has_guard && g.arms[0].root_assertion is None);
            assert(branches[k].decision == tree_of(g.arms));
            assert(tree_of(g.arms) == DecisionModel::Success { arm_index: g.arms[0].arm_index, bindings: g.arms[0].bindings });
            assert(first_label(branch_labels(branches), kind, path, holds) == Some(k));
            assert(outcome(branches[k].decision, holds, guard) == Some(a));
            assert(outcome(d, holds, guard) == Some(a));
        },
        None => {
            assert(first_label(branch_labels(branches), kind, path, holds) is None);
            if n0 < arms.len() {
                let c = arms.last();
                assert(c == arms[arms.len() - 1]);
                assert(simple_arm(c));
                assert(all_hold(c.checks, holds));
                assert(catchalls_of(arms) =~= seq![c]);
                assert(fallback == Some(Box::new(tree_of(seq![c]))));
                assert(seq![c][0] == c);
                lemma_lone_catchall(seq![c], holds, guard);
                assert(outcome(d, holds, guard) == outcome(tree_of(seq![c]), holds, guard));
            } else {
                assert(catchalls_of(arms).len() == 0);
                assert(outcome(d, holds, guard) == None::<nat>);
            }
        },
    }
}

/// Inside the case a switch opens for an arm, the arm keeps its meaning:
/// for every subject value and guard outcome, the arm is taken exactly when
/// its case condition holds (its root type assertion in a type switch, its
/// leading tag or literal check otherwise) and the arm as seen inside the
/// case is taken. No check that the case label does not settle is dropped,
/// and the arm keeps its index, bindings and guard.
pub proof fn law_case_body_keeps_arm(a: ArmModel, kind: SwitchKind, path: Seq<SegmentModel>, holds: spec_fn(CheckModel) -> bool, guard: spec_fn(nat) -> bool)
    requires
        arm_fits(a, kind, path),
        !is_catchall(a),
        stdlib_flag_irrelevant(holds),
    ensures
        inner_arm(a, kind).arm_index == a.arm_index,
        inner_arm(a, kind).bindings == a.bindings,
        inner_arm(a, kind).has_guard == a.has_guard,
        inner_arm(a, kind).root_assertion is None,
        kind == SwitchKind::TypeSwitch ==> inner_arm(a, kind).checks == a.checks,
        kind != SwitchKind::TypeSwitch ==> seq![a.checks[0]] + inner_arm(a, kind).checks == a.checks,
        kind == SwitchKind::TypeSwitch ==> arm_selected(a, holds, guard) == (holds(
            assertion_check(a.root_assertion->0),
        ) && arm_selected(inner_arm(a, kind), holds, guard)),
        kind != SwitchKind::TypeSwitch ==> arm_selected(a, holds, guard) == (case_matches(
            kind,
            path,
            case_label(a, kind),
            holds,
        ) && arm_selected(inner_arm(a, kind), holds, guard)),
{
    let inner = inner_arm(a, kind);
    if kind != SwitchKind::TypeSwitch {
        let c = a.checks[0];
        assert(a.checks.len() > 0);
        assert(inner.checks == a.checks.drop_first());
        assert(seq![c] + inner.checks =~= a.checks);
        assert(all_hold(a.checks, holds) == (holds(c) && all_hold(inner.checks, holds))) by {
            if holds(c) && all_hold(inner.checks, holds) {
                assert forall|i: int| 0 <= i < a.checks.len() implies holds(#[trigger] a.checks[i]) by {
                    if i > 0 {
                        assert(a.checks[i] == inner.checks[i - 1]);
                    }
                }
            }
            if all_hold(a.checks, holds) {
                assert(holds(a.checks[0]));
                assert forall|i: int| 0 <= i < inner.checks.len() implies holds(#[trigger] inner.checks[i]) by {
                    assert(inner.checks[i] == a.checks[i + 1]);
                }
            }
        }
        match c {
            CheckModel::EnumTag { path: p, tag_constant: t, needs_stdlib: ns } => {
                assert(check_path(c) == Some(p));
                assert(holds(CheckModel::EnumTag { path: p, tag_constant: t, needs_stdlib: true }) == holds(
                    CheckModel::EnumTag { path: p, tag_constant: t, needs_stdlib: false },
                ));
            },
            CheckModel::Literal { path: p, go_literal: l } => {
                assert(check_path(c) == Some(p));
            },
            _ => {},
        }
    }
}

/// An or-check holds exactly when every check of one of its alternatives holds.
pub open spec fn or_means_some_alternative(holds: spec_fn(CheckModel) -> bool) -> bool {
    forall|alts: Seq<Seq<CheckModel>>|
        #[trigger] holds(CheckModel::Or { alternatives: alts }) == exists|j: int|
            0 <= j < alts.len() && all_hold(#[trigger] alts[j], holds)
}

proof fn lemma_lifted_means_check(c: CheckModel, holds: spec_fn(CheckModel) -> bool)
    requires
        is_root_assertion_shape(c),
        !(c matches CheckModel::Or { alternatives } && alternatives.len() == 0),
        or_means_some_alternative(holds),
    ensures
        holds(assertion_check(lifted_assertion(c))) == holds(c),
{
    match c {
        CheckModel::TypeAssert { path, go_type } => {
            let t = lifted_assertion(c);
            assert(t.go_types.len() == 1);
            assert(assertion_check(t) == c);
        },
        CheckModel::Or { alternatives } => {
            let t = lifted_assertion(c);
            let n = alternatives.len();
            assert(alternatives[0].len() == 1 && alternatives[0][0] is TypeAssert);
            assert(forall|i: int| 0 <= i < n ==> (#[trigger] alternatives[i]).len() == 1);
            if n == 1 {
                let x = alternatives[0][0];
                assert(assertion_check(t) == x);
                assert(holds(c) == all_hold(alternatives[0], holds));
                assert(all_hold(alternatives[0], holds) == holds(x));
            } else {
                let alts2 = Seq::new(
                    t.go_types.len(),
                    |i: int| seq![CheckModel::TypeAssert { path: t.path, go_type: t.go_types[i] }],
                );
                assert(assertion_check(t) == CheckModel::Or { alternatives: alts2 });
                assert forall|i: int| 0 <= i < n implies #[trigger] alts2[i] == alternatives[i] by {
                    let x = alternatives[i][0];
                    assert(alternatives[i].len() == 1 && x is TypeAssert && x->TypeAssert_path.len() == 0);
                    assert(x->TypeAssert_path =~= t.path);
                    assert(alts2[i][0] == x);
                    assert(alts2[i] =~= alternatives[i]);
                }
                assert(alts2 =~= alternatives);
            }
        },
        _ => {},
    }
}

proof fn lemma_lift_root_meaning(checks: Seq<CheckModel>, holds: spec_fn(CheckModel) -> bool)
    requires
        root_assertion_liftable(checks),
        or_means_some_alternative(holds),
    ensures
        match lift_root(checks).0 {
            Some(t) => holds(assertion_check(t)) && all_hold(lift_root(checks).1, holds),
            None => all_hold(lift_root(checks).1, holds),
        } == all_hold(checks, holds),
{
    if exists|k: int| is_first_root_assertion(checks, k) {
        let k = choose|k: int| is_first_root_assertion(checks, k);
        let c = checks[k];
        let rest = checks.remove(k);
        assert(lift_root(checks) == (Some(lifted_assertion(c)), rest));
        lemma_lifted_means_check(c, holds);
        assert(all_hold(checks, holds) == (holds(c) && all_hold(rest, holds))) by {
            if holds(c) && all_hold(rest, holds) {
                assert forall|i: int| 0 <= i < checks.len() implies holds(#[trigger] checks[i]) by {
                    if i < k {
                        assert(checks[i] == rest[i]);
                    } else if i > k {
                        assert(checks[i] == rest[i - 1]);
                    }
                }
            }
            if all_hold(checks, holds) {
                assert(holds(checks[k]));
                assert forall|i: int| 0 <= i < rest.len() implies holds(#[trigger] rest[i]) by {
                    if i < k {
                        assert(rest[i] == checks[i]);
                    } else {
                        assert(rest[i] == checks[i + 1]);
                    }
                }
            }
        }
    }
}

/// Splitting an interface or-pattern arm into one arm per alternative keeps
/// its meaning: for every subject value and guard outcome (an or-check
/// meaning that one alternative passes), the arm is taken exactly when one
/// of the arms it splits into is taken; each of those still tests the
/// arm's guard.
pub proof fn law_expansion_keeps_arm_meaning(a: ArmModel, holds: spec_fn(CheckModel) -> bool, guard: spec_fn(nat) -> bool)
    requires
        a.root_assertion is None,
        is_interface_or_with_extras(a),
        forall|j: int|
            0 <= j < a.checks[0]->Or_alternatives.len() ==> #[trigger] root_assertion_liftable(
                a.checks[0]->Or_alternatives[j],
            ),
        or_means_some_alternative(holds),
    ensures
        arm_selected(a, holds, guard) == exists|j: int|
            0 <= j < expand_arm(a).len() && arm_selected(#[trigger] expand_arm(a)[j], holds, guard),
{
    let alts = a.checks[0]->Or_alternatives;
    let e = expand_arm(a);
    assert(e.len() == alts.len());
    assert(a.checks[0] == CheckModel::Or { alternatives: alts });
    assert(all_hold(a.checks, holds) == holds(a.checks[0]));
    assert forall|j: int| 0 <= j < alts.len() implies #[trigger] arm_selected(e[j], holds, guard) == (all_hold(
        alts[j],
        holds,
    ) && (a.has_guard ==> guard(a.arm_index))) by {
        assert(root_assertion_liftable(alts[j]));
        lemma_lift_root_meaning(alts[j], holds);
        assert(e[j].root_assertion == lift_root(alts[j]).0);
        assert(e[j].checks == lift_root(alts[j]).1);
    }
    if arm_selected(a, holds, guard) {
        let j = choose|j: int| 0 <= j < alts.len() && all_hold(#[trigger] alts[j], holds);
        assert(arm_selected(e[j], holds, guard));
    }
    if exists|j: int| 0 <= j < e.len() && arm_selected(#[trigger] e[j], holds, guard) {
        let j = choose|j: int| 0 <= j < e.len() && arm_selected(#[trigger] e[j], holds, guard);
        assert(all_hold(alts[j], holds));
        assert(holds(CheckModel::Or { alternatives: alts }));
    }
}

/// For arms without root type assertions, each with at most one check and
/// with a catch-all only in last position (guards allowed), the decision
/// tree selects, for every subject value and every guard outcome, the arm
/// that trying the arms in source order selects (given that a tag check
/// means the same with or without its prelude flag).
pub proof fn law_simple_arms_first_match(arms: Seq<ArmModel>, holds: spec_fn(CheckModel) -> bool, guard: spec_fn(nat) -> bool)
    requires
        simple_arms(arms),
        stdlib_flag_irrelevant(holds),
    ensures
        outcome(tree_of(arms), holds, guard) == first_match(arms, holds, guard),
    decreases arms.len(), 1nat,
{
    if arms.len() == 0 {
        assert(tree_of(arms) == DecisionModel::Unreachable);
    } else {
        assert(simple_arm(arms[0]));
        if is_catchall(arms[0]) {
            assert(arms.len() == 1);
            lemma_lone_catchall(arms, holds, guard);
        } else {
            match switch_of(arms) {
                Some(d) => {
                    lemma_switch_outcome(arms, holds, guard);
                    assert(tree_of(arms) == d);
                },
                None => {
                    lemma_chain_outcome(arms, holds, guard);
                    assert(tree_of(arms) == chain_of(arms));
                },
            }
        }
    }
}

} // verus!
