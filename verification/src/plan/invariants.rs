//! Structural checks on lowered bodies: every `if` has a condition and every
//! loop has a header.
use vstd::prelude::*;

use crate::plan::bodies::{arm_body, ElseArm, IfPlan, LoopPlan, LoweredBlock, LoweredStatement, SelectArmPlan, SwitchCasePlan};
use crate::text::{decimal, push_char, push_decimal, strings_view};

verus! {

pub open spec fn lit_statements() -> Seq<char> {
    seq!['.', 's', 't', 'a', 't', 'e', 'm', 'e', 'n', 't', 's', '[']
}

/// The issues found in a block at `path`, in walk order.
pub open spec fn block_issues(b: LoweredBlock, path: Seq<char>) -> Seq<Seq<char>>
    decreases b, 1nat,
{
    list_issues(b.statements@, path + lit_statements())
}

/// The issues of a list of statements; statement `i` sits at `prefix` + `i` + `]`.
pub open spec fn list_issues(s: Seq<LoweredStatement>, prefix: Seq<char>) -> Seq<Seq<char>>
    decreases s, 0nat,
{
    if s.len() == 0 {
        Seq::empty()
    } else {
        list_issues(s.drop_last(), prefix) + statement_issues(
            s.last(),
            prefix + decimal((s.len() - 1) as nat) + seq![']'],
        )
    }
}

/// The issues of `select` arm bodies; arm `i` sits at `prefix` + `i` + `]`.
pub open spec fn arms_issues(arms: Seq<SelectArmPlan>, prefix: Seq<char>) -> Seq<Seq<char>>
    decreases arms, 0nat,
{
    if arms.len() == 0 {
        Seq::empty()
    } else {
        arms_issues(arms.drop_last(), prefix) + match arms.last() {
            SelectArmPlan::Receive { body, .. } => block_issues(body, prefix + decimal((arms.len() - 1) as nat) + seq![']']),
            SelectArmPlan::Send { body, .. } => block_issues(body, prefix + decimal((arms.len() - 1) as nat) + seq![']']),
            SelectArmPlan::Default { body } => block_issues(body, prefix + decimal((arms.len() - 1) as nat) + seq![']']),
        }
    }
}

/// The issues of `switch` case bodies; case `i` sits at `prefix` + `i` + `]`.
pub open spec fn cases_issues(cases: Seq<SwitchCasePlan>, prefix: Seq<char>) -> Seq<Seq<char>>
    decreases cases, 0nat,
{
    if cases.len() == 0 {
        Seq::empty()
    } else {
        cases_issues(cases.drop_last(), prefix) + block_issues(
            cases.last().body,
            prefix + decimal((cases.len() - 1) as nat) + seq![']'],
        )
    }
}

pub open spec fn statement_issues(s: LoweredStatement, path: Seq<char>) -> Seq<Seq<char>>
    decreases s, 0nat,
{
    match s {
        LoweredStatement::If(plan) => if_issues(plan, path + seq!['/', 'I', 'f']),
        LoweredStatement::Loop(plan) => loop_issues(plan, path + seq!['/', 'L', 'o', 'o', 'p']),
        LoweredStatement::Block(body) => block_issues(body, path + seq!['/', 'B', 'l', 'o', 'c', 'k']),
        LoweredStatement::ClosureBind { body, .. } => block_issues(
            body,
            path + seq!['/', 'C', 'l', 'o', 's', 'u', 'r', 'e', 'B', 'i', 'n', 'd'],
        ),
        LoweredStatement::Match(plan) => block_issues(plan.body, path + seq!['/', 'M', 'a', 't', 'c', 'h']),
        LoweredStatement::Select(plan) => list_issues(
            plan.setup@,
            path + seq!['/', 'S', 'e', 'l', 'e', 'c', 't', '.', 's', 'e', 't', 'u', 'p', '['],
        ) + arms_issues(plan.arms@, path + seq!['/', 'S', 'e', 'l', 'e', 'c', 't', '.', 'a', 'r', 'm', 's', '['])
            + list_issues(
            plan.postlude@,
            path + seq!['/', 'S', 'e', 'l', 'e', 'c', 't', '.', 'p', 'o', 's', 't', 'l', 'u', 'd', 'e', '['],
        ),
        LoweredStatement::Switch(plan) => cases_issues(
            plan.cases@,
            path + seq!['/', 'S', 'w', 'i', 't', 'c', 'h', '.', 'c', 'a', 's', 'e', 's', '['],
        ) + match plan.default {
            Some(d) => block_issues(d, path + seq!['/', 'S', 'w', 'i', 't', 'c', 'h', '.', 'd', 'e', 'f', 'a', 'u', 'l', 't']),
            None => Seq::empty(),
        } + list_issues(
            plan.postlude@,
            path + seq!['/', 'S', 'w', 'i', 't', 'c', 'h', '.', 'p', 'o', 's', 't', 'l', 'u', 'd', 'e', '['],
        ),
        LoweredStatement::WhileLet(plan) => block_issues(
            plan.body,
            path + seq!['/', 'W', 'h', 'i', 'l', 'e', 'L', 'e', 't'],
        ),
        _ => Seq::empty(),
    }
}

pub open spec fn if_issues(p: IfPlan, path: Seq<char>) -> Seq<Seq<char>>
    decreases p, 0nat,
{
    (if p.condition@.len() == 0 {
        seq![path + seq![':', ' ', 'e', 'm', 'p', 't', 'y', ' ', 'c', 'o', 'n', 'd', 'i', 't', 'i', 'o', 'n']]
    } else {
        Seq::empty()
    }) + block_issues(p.then_body, path + seq!['.', 't', 'h', 'e', 'n']) + else_issues(
        p.else_arm,
        path + seq!['.', 'e', 'l', 's', 'e'],
    )
}

pub open spec fn else_issues(e: ElseArm, path: Seq<char>) -> Seq<Seq<char>>
    decreases e, 0nat,
{
    match e {
        ElseArm::NoElse => Seq::empty(),
        ElseArm::ElseIf(inner) => if_issues(*inner, path),
        ElseArm::Else { body, .. } => block_issues(body, path),
    }
}

pub open spec fn loop_issues(p: LoopPlan, path: Seq<char>) -> Seq<Seq<char>>
    decreases p, 0nat,
{
    (if p.header@.len() == 0 {
        seq![path + seq![':', ' ', 'e', 'm', 'p', 't', 'y', ' ', 'h', 'e', 'a', 'd', 'e', 'r']]
    } else {
        Seq::empty()
    }) + block_issues(p.body, path + seq!['.', 'b', 'o', 'd', 'y'])
}

/// A well-formed block: every `if` (at any depth the walk reaches) has a
/// non-empty condition and every loop a non-empty header.
pub open spec fn block_well_formed(b: LoweredBlock) -> bool
    decreases b, 1nat,
{
    list_well_formed(b.statements@)
}

pub open spec fn list_well_formed(s: Seq<LoweredStatement>) -> bool
    decreases s, 0nat,
{
    s.len() == 0 || (list_well_formed(s.drop_last()) && statement_well_formed(s.last()))
}

pub open spec fn arms_well_formed(arms: Seq<SelectArmPlan>) -> bool
    decreases arms, 0nat,
{
    arms.len() == 0 || (arms_well_formed(arms.drop_last()) && match arms.last() {
        SelectArmPlan::Receive { body, .. } => block_well_formed(body),
        SelectArmPlan::Send { body, .. } => block_well_formed(body),
        SelectArmPlan::Default { body } => block_well_formed(body),
    })
}

pub open spec fn cases_well_formed(cases: Seq<SwitchCasePlan>) -> bool
    decreases cases, 0nat,
{
    cases.len() == 0 || (cases_well_formed(cases.drop_last()) && block_well_formed(cases.last().body))
}

pub open spec fn statement_well_formed(s: LoweredStatement) -> bool
    decreases s, 0nat,
{
    match s {
        LoweredStatement::If(plan) => if_well_formed(plan),
        LoweredStatement::Loop(plan) => plan.header@.len() > 0 && block_well_formed(plan.body),
        LoweredStatement::Block(body) => block_well_formed(body),
        LoweredStatement::ClosureBind { body, .. } => block_well_formed(body),
        LoweredStatement::Match(plan) => block_well_formed(plan.body),
        LoweredStatement::Select(plan) => list_well_formed(plan.setup@) && arms_well_formed(plan.arms@)
            && list_well_formed(plan.postlude@),
        LoweredStatement::Switch(plan) => cases_well_formed(plan.cases@) && match plan.default {
            Some(d) => block_well_formed(d),
            None => true,
        } && list_well_formed(plan.postlude@),
        LoweredStatement::WhileLet(plan) => block_well_formed(plan.body),
        _ => true,
    }
}

pub open spec fn if_well_formed(p: IfPlan) -> bool
    decreases p, 0nat,
{
    p.condition@.len() > 0 && block_well_formed(p.then_body) && match p.else_arm {
        ElseArm::NoElse => true,
        ElseArm::ElseIf(inner) => if_well_formed(*inner),
        ElseArm::Else { body, .. } => block_well_formed(body),
    }
}

/// `validate` reports no issue exactly when the block is well formed.
pub proof fn law_block_issues_empty_iff_well_formed(b: LoweredBlock, path: Seq<char>)
    ensures
        (block_issues(b, path).len() == 0) == block_well_formed(b),
    decreases b, 1nat,
{
    lemma_list(b.statements@, path + lit_statements());
}

pub proof fn lemma_list(s: Seq<LoweredStatement>, prefix: Seq<char>)
    ensures
        (list_issues(s, prefix).len() == 0) == list_well_formed(s),
    decreases s, 0nat,
{
    if s.len() > 0 {
        lemma_list(s.drop_last(), prefix);
        lemma_statement(s.last(), prefix + decimal((s.len() - 1) as nat) + seq![']']);
    }
}

pub proof fn lemma_arms(arms: Seq<SelectArmPlan>, prefix: Seq<char>)
    ensures
        (arms_issues(arms, prefix).len() == 0) == arms_well_formed(arms),
    decreases arms, 0nat,
{
    if arms.len() > 0 {
        lemma_arms(arms.drop_last(), prefix);
        let p = prefix + decimal((arms.len() - 1) as nat) + seq![']'];
        match arms.last() {
            SelectArmPlan::Receive { body, .. } => law_block_issues_empty_iff_well_formed(body, p),
            SelectArmPlan::Send { body, .. } => law_block_issues_empty_iff_well_formed(body, p),
            SelectArmPlan::Default { body } => law_block_issues_empty_iff_well_formed(body, p),
        }
    }
}

pub proof fn lemma_cases(cases: Seq<SwitchCasePlan>, prefix: Seq<char>)
    ensures
        (cases_issues(cases, prefix).len() == 0) == cases_well_formed(cases),
    decreases cases, 0nat,
{
    if cases.len() > 0 {
        lemma_cases(cases.drop_last(), prefix);
        law_block_issues_empty_iff_well_formed(
            cases.last().body,
            prefix + decimal((cases.len() - 1) as nat) + seq![']'],
        );
    }
}

pub proof fn lemma_statement(s: LoweredStatement, path: Seq<char>)
    ensures
        (statement_issues(s, path).len() == 0) == statement_well_formed(s),
    decreases s, 0nat,
{
    match s {
        LoweredStatement::If(plan) => lemma_if(plan, path + seq!['/', 'I', 'f']),
        LoweredStatement::Loop(plan) => law_block_issues_empty_iff_well_formed(
            plan.body,
            path + seq!['/', 'L', 'o', 'o', 'p'] + seq!['.', 'b', 'o', 'd', 'y'],
        ),
        LoweredStatement::Block(body) => law_block_issues_empty_iff_well_formed(
            body,
            path + seq!['/', 'B', 'l', 'o', 'c', 'k'],
        ),
        LoweredStatement::ClosureBind { body, .. } => law_block_issues_empty_iff_well_formed(
            body,
            path + seq!['/', 'C', 'l', 'o', 's', 'u', 'r', 'e', 'B', 'i', 'n', 'd'],
        ),
        LoweredStatement::Match(plan) => law_block_issues_empty_iff_well_formed(
            plan.body,
            path + seq!['/', 'M', 'a', 't', 'c', 'h'],
        ),
        LoweredStatement::Select(plan) => {
            lemma_list(plan.setup@, path + seq!['/', 'S', 'e', 'l', 'e', 'c', 't', '.', 's', 'e', 't', 'u', 'p', '[']);
            lemma_arms(plan.arms@, path + seq!['/', 'S', 'e', 'l', 'e', 'c', 't', '.', 'a', 'r', 'm', 's', '[']);
            lemma_list(
                plan.postlude@,
                path + seq!['/', 'S', 'e', 'l', 'e', 'c', 't', '.', 'p', 'o', 's', 't', 'l', 'u', 'd', 'e', '['],
            );
        },
        LoweredStatement::Switch(plan) => {
            lemma_cases(plan.cases@, path + seq!['/', 'S', 'w', 'i', 't', 'c', 'h', '.', 'c', 'a', 's', 'e', 's', '[']);
            match plan.default {
                Some(d) => law_block_issues_empty_iff_well_formed(
                    d,
                    path + seq!['/', 'S', 'w', 'i', 't', 'c', 'h', '.', 'd', 'e', 'f', 'a', 'u', 'l', 't'],
                ),
                None => {},
            }
            lemma_list(
                plan.postlude@,
                path + seq!['/', 'S', 'w', 'i', 't', 'c', 'h', '.', 'p', 'o', 's', 't', 'l', 'u', 'd', 'e', '['],
            );
        },
        LoweredStatement::WhileLet(plan) => law_block_issues_empty_iff_well_formed(
            plan.body,
            path + seq!['/', 'W', 'h', 'i', 'l', 'e', 'L', 'e', 't'],
        ),
        _ => {},
    }
}

pub proof fn lemma_if(p: IfPlan, path: Seq<char>)
    ensures
        (if_issues(p, path).len() == 0) == if_well_formed(p),
    decreases p, 0nat,
{
    law_block_issues_empty_iff_well_formed(p.then_body, path + seq!['.', 't', 'h', 'e', 'n']);
    match p.else_arm {
        ElseArm::NoElse => {},
        ElseArm::ElseIf(inner) => lemma_if(*inner, path + seq!['.', 'e', 'l', 's', 'e']),
        ElseArm::Else { body, .. } => law_block_issues_empty_iff_well_formed(body, path + seq!['.', 'e', 'l', 's', 'e']),
    }
}

/// `path` followed by `suffix`.
fn with_suffix(path: &str, suffix: &str) -> (r: String)
    ensures
        r@ == path@ + suffix@,
{
    let mut s = String::new();
    s.append(path);
    s.append(suffix);
    s
}

/// `prefix` followed by `i` and `]`.
fn indexed(prefix: &str, i: usize) -> (r: String)
    ensures
        r@ == prefix@ + decimal(i as nat) + seq![']'],
{
    let mut s = String::new();
    s.append(prefix);
    push_decimal(&mut s, i);
    push_char(&mut s, ']');
    s
}

/// Walks the block and returns any structural problems found; an empty
/// result means the body is well formed by these rules.
pub fn validate(block: &LoweredBlock) -> (r: Vec<String>)
    ensures
        strings_view(r@) == block_issues(*block, "block"@),
        (r@.len() == 0) == block_well_formed(*block),
{
    let mut issues: Vec<String> = Vec::new();
    walk_block(block, &mut issues, "block");
    proof {
        assert(strings_view(Seq::<String>::empty()) =~= Seq::<Seq<char>>::empty());
        assert(strings_view(issues@) =~= block_issues(*block, "block"@));
        law_block_issues_empty_iff_well_formed(*block, "block"@);
    }
    issues
}

pub fn walk_block(block: &LoweredBlock, issues: &mut Vec<String>, path: &str)
    ensures
        strings_view(final(issues)@) =~= strings_view(old(issues)@) + block_issues(*block, path@),
    decreases block, 2nat,
{
    let prefix = with_suffix(path, ".statements[");
    proof {
        reveal_strlit(".statements[");
        assert(".statements["@ =~= lit_statements());
    }
    walk_list(&block.statements, issues, prefix.as_str());
}

fn walk_list(stmts: &Vec<LoweredStatement>, issues: &mut Vec<String>, prefix: &str)
    ensures
        strings_view(final(issues)@) =~= strings_view(old(issues)@) + list_issues(stmts@, prefix@),
    decreases stmts@, 1nat,
{
    let mut i: usize = 0;
    while i < stmts.len()
        invariant
            i <= stmts@.len(),
            strings_view(issues@) =~= strings_view(old(issues)@) + list_issues(stmts@.subrange(0, i as int), prefix@),
        decreases stmts.len() - i,
    {
        let sub = indexed(prefix, i);
        proof {
            assert(stmts@.subrange(0, i + 1).drop_last() =~= stmts@.subrange(0, i as int));
        }
        walk_statement(&stmts[i], issues, sub.as_str());
        i += 1;
    }
    proof {
        assert(stmts@.subrange(0, i as int) =~= stmts@);
    }
}

fn walk_arms(arms: &Vec<SelectArmPlan>, issues: &mut Vec<String>, prefix: &str)
    ensures
        strings_view(final(issues)@) =~= strings_view(old(issues)@) + arms_issues(arms@, prefix@),
    decreases arms@, 1nat,
{
    let mut i: usize = 0;
    while i < arms.len()
        invariant
            i <= arms@.len(),
            strings_view(issues@) =~= strings_view(old(issues)@) + arms_issues(arms@.subrange(0, i as int), prefix@),
        decreases arms.len() - i,
    {
        let sub = indexed(prefix, i);
        proof {
            assert(arms@.subrange(0, i + 1).drop_last() =~= arms@.subrange(0, i as int));
            assert(decreases_to!(arms@[i as int] => arm_body(arms@[i as int])));
        }
        walk_block(arms[i].body(), issues, sub.as_str());
        i += 1;
    }
    proof {
        assert(arms@.subrange(0, i as int) =~= arms@);
    }
}

fn walk_cases(cases: &Vec<SwitchCasePlan>, issues: &mut Vec<String>, prefix: &str)
    ensures
        strings_view(final(issues)@) =~= strings_view(old(issues)@) + cases_issues(cases@, prefix@),
    decreases cases@, 1nat,
{
    let mut i: usize = 0;
    while i < cases.len()
        invariant
            i <= cases@.len(),
            strings_view(issues@) =~= strings_view(old(issues)@) + cases_issues(cases@.subrange(0, i as int), prefix@),
        decreases cases.len() - i,
    {
        let sub = indexed(prefix, i);
        proof {
            assert(cases@.subrange(0, i + 1).drop_last() =~= cases@.subrange(0, i as int));
        }
        walk_block(&cases[i].body, issues, sub.as_str());
        i += 1;
    }
    proof {
        assert(cases@.subrange(0, i as int) =~= cases@);
    }
}

pub fn walk_statement(statement: &LoweredStatement, issues: &mut Vec<String>, path: &str)
    ensures
        strings_view(final(issues)@) =~= strings_view(old(issues)@) + statement_issues(*statement, path@),
    decreases statement, 0nat,
{
    match statement {
        LoweredStatement::If(plan) => {
            let p = with_suffix(path, "/If");
            proof { reveal_strlit("/If"); assert("/If"@ =~= seq!['/', 'I', 'f']); }
            walk_if(plan, issues, p.as_str());
        },
        LoweredStatement::Loop(plan) => {
            let p = with_suffix(path, "/Loop");
            proof { reveal_strlit("/Loop"); assert("/Loop"@ =~= seq!['/', 'L', 'o', 'o', 'p']); }
            walk_loop(plan, issues, p.as_str());
        },
        LoweredStatement::Block(body) => {
            let p = with_suffix(path, "/Block");
            proof { reveal_strlit("/Block"); assert("/Block"@ =~= seq!['/', 'B', 'l', 'o', 'c', 'k']); }
            walk_block(body, issues, p.as_str());
        },
        LoweredStatement::ClosureBind { body, .. } => {
            let p = with_suffix(path, "/ClosureBind");
            proof {
                reveal_strlit("/ClosureBind");
                assert("/ClosureBind"@ =~= seq!['/', 'C', 'l', 'o', 's', 'u', 'r', 'e', 'B', 'i', 'n', 'd']);
            }
            walk_block(body, issues, p.as_str());
        },
        LoweredStatement::Match(plan) => {
            let p = with_suffix(path, "/Match");
            proof { reveal_strlit("/Match"); assert("/Match"@ =~= seq!['/', 'M', 'a', 't', 'c', 'h']); }
            walk_block(&plan.body, issues, p.as_str());
        },
        LoweredStatement::Select(plan) => {
            let p1 = with_suffix(path, "/Select.setup[");
            let p2 = with_suffix(path, "/Select.arms[");
            let p3 = with_suffix(path, "/Select.postlude[");
            proof {
                reveal_strlit("/Select.setup[");
                reveal_strlit("/Select.arms[");
                reveal_strlit("/Select.postlude[");
                assert("/Select.setup["@ =~= seq!['/', 'S', 'e', 'l', 'e', 'c', 't', '.', 's', 'e', 't', 'u', 'p', '[']);
                assert("/Select.arms["@ =~= seq!['/', 'S', 'e', 'l', 'e', 'c', 't', '.', 'a', 'r', 'm', 's', '[']);
                assert("/Select.postlude["@ =~= seq!['/', 'S', 'e', 'l', 'e', 'c', 't', '.', 'p', 'o', 's', 't', 'l', 'u', 'd', 'e', '[']);
            }
            walk_list(&plan.setup, issues, p1.as_str());
            walk_arms(&plan.arms, issues, p2.as_str());
            walk_list(&plan.postlude, issues, p3.as_str());
        },
        LoweredStatement::Switch(plan) => {
            let p1 = with_suffix(path, "/Switch.cases[");
            let p2 = with_suffix(path, "/Switch.default");
            let p3 = with_suffix(path, "/Switch.postlude[");
            proof {
                reveal_strlit("/Switch.cases[");
                reveal_strlit("/Switch.default");
                reveal_strlit("/Switch.postlude[");
                assert("/Switch.cases["@ =~= seq!['/', 'S', 'w', 'i', 't', 'c', 'h', '.', 'c', 'a', 's', 'e', 's', '[']);
                assert("/Switch.default"@ =~= seq!['/', 'S', 'w', 'i', 't', 'c', 'h', '.', 'd', 'e', 'f', 'a', 'u', 'l', 't']);
                assert("/Switch.postlude["@ =~= seq!['/', 'S', 'w', 'i', 't', 'c', 'h', '.', 'p', 'o', 's', 't', 'l', 'u', 'd', 'e', '[']);
            }
            walk_cases(&plan.cases, issues, p1.as_str());
            if let Some(default_body) = &plan.default {
                walk_block(default_body, issues, p2.as_str());
            }
            walk_list(&plan.postlude, issues, p3.as_str());
        },
        LoweredStatement::WhileLet(plan) => {
            let p = with_suffix(path, "/WhileLet");
            proof {
                reveal_strlit("/WhileLet");
                assert("/WhileLet"@ =~= seq!['/', 'W', 'h', 'i', 'l', 'e', 'L', 'e', 't']);
            }
            walk_block(&plan.body, issues, p.as_str());
        },
        _ => {},
    }
}

pub fn walk_if(plan: &IfPlan, issues: &mut Vec<String>, path: &str)
    ensures
        strings_view(final(issues)@) =~= strings_view(old(issues)@) + if_issues(*plan, path@),
    decreases plan, 0nat,
{
    if plan.condition.as_str().unicode_len() == 0 {
        let issue = with_suffix(path, ": empty condition");
        proof {
            reveal_strlit(": empty condition");
            assert(": empty condition"@ =~= seq![':', ' ', 'e', 'm', 'p', 't', 'y', ' ', 'c', 'o', 'n', 'd', 'i', 't', 'i', 'o', 'n']);
        }
        let ghost before = issues@;
        issues.push(issue);
        proof {
            assert(strings_view(issues@) =~= strings_view(before).push(issue@));
        }
    }
    let p1 = with_suffix(path, ".then");
    let p2 = with_suffix(path, ".else");
    proof {
        reveal_strlit(".then");
        reveal_strlit(".else");
        assert(".then"@ =~= seq!['.', 't', 'h', 'e', 'n']);
        assert(".else"@ =~= seq!['.', 'e', 'l', 's', 'e']);
    }
    walk_block(&plan.then_body, issues, p1.as_str());
    walk_else(&plan.else_arm, issues, p2.as_str());
}

pub fn walk_else(arm: &ElseArm, issues: &mut Vec<String>, path: &str)
    ensures
        strings_view(final(issues)@) =~= strings_view(old(issues)@) + else_issues(*arm, path@),
    decreases arm, 0nat,
{
    match arm {
        ElseArm::NoElse => {},
        ElseArm::ElseIf(plan) => walk_if(plan, issues, path),
        ElseArm::Else { body, .. } => walk_block(body, issues, path),
    }
}

pub fn walk_loop(plan: &LoopPlan, issues: &mut Vec<String>, path: &str)
    ensures
        strings_view(final(issues)@) =~= strings_view(old(issues)@) + loop_issues(*plan, path@),
    decreases plan, 0nat,
{
    if plan.header.as_str().unicode_len() == 0 {
        let issue = with_suffix(path, ": empty header");
        proof {
            reveal_strlit(": empty header");
            assert(": empty header"@ =~= seq![':', ' ', 'e', 'm', 'p', 't', 'y', ' ', 'h', 'e', 'a', 'd', 'e', 'r']);
        }
        let ghost before = issues@;
        issues.push(issue);
        proof {
            assert(strings_view(issues@) =~= strings_view(before).push(issue@));
        }
    }
    let p = with_suffix(path, ".body");
    proof {
        reveal_strlit(".body");
        assert(".body"@ =~= seq!['.', 'b', 'o', 'd', 'y']);
    }
    walk_block(&plan.body, issues, p.as_str());
}

} // verus!
