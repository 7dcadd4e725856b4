//! Pattern sites outside `match`: the resolved subject of a pattern and
//! `if` / `else if` chains built from tested alternatives.
use vstd::prelude::*;

use crate::patterns::tree_emitter::{ChainBranch, build_chain_plan, is_chain_plan};
use crate::plan::bodies::{ElseArm, IfPlan, LoweredBlock, LoweredStatement};

verus! {

/// A pattern subject: an existing variable, or a composite expression bound
/// to a fresh variable whose declaration is emitted on demand.
pub enum ResolvedSubject {
    Existing { var: String },
    Composite { var: String, expression: String },
}

/// The text of the subject's declaration: `var := expression` when the body
/// reads the variable, `_ = expression` when it does not; none for an
/// existing variable.
pub open spec fn declaration_text(s: ResolvedSubject, references: bool) -> Seq<char> {
    match s {
        ResolvedSubject::Existing { .. } => Seq::empty(),
        ResolvedSubject::Composite { var, expression } => if references {
            var@ + seq![' ', ':', '=', ' '] + expression@ + seq!['\n']
        } else {
            seq!['_', ' ', '=', ' '] + expression@ + seq!['\n']
        },
    }
}

impl ResolvedSubject {
    /// The Go variable that names the subject.
    pub fn var(&self) -> (r: &str)
        ensures
            r@ == match *self {
                ResolvedSubject::Existing { var } => var@,
                ResolvedSubject::Composite { var, .. } => var@,
            },
    {
        match self {
            ResolvedSubject::Existing { var } => var.as_str(),
            ResolvedSubject::Composite { var, .. } => var.as_str(),
        }
    }

    /// Writes the deferred declaration line of a composite subject.
    pub fn emit_declaration(self, output: &mut String, references: bool)
        ensures
            final(output)@ == old(output)@ + declaration_text(self, references),
    {
        let ghost me = self;
        proof {
            reveal_strlit(" := ");
            reveal_strlit("_ = ");
            reveal_strlit("\n");
        }
        match self {
            ResolvedSubject::Composite { var, expression } => {
                if references {
                    output.append(var.as_str());
                    output.append(" := ");
                    output.append(expression.as_str());
                    output.append("\n");
                } else {
                    output.append("_ = ");
                    output.append(expression.as_str());
                    output.append("\n");
                }
            },
            ResolvedSubject::Existing { .. } => {
                proof {
                    assert(old(output)@ + declaration_text(me, references) =~= old(output)@);
                }
            },
        }
    }
}

/// The `(condition, body)` pieces as chain branches.
pub open spec fn pieces_as_branches(pieces: Seq<(String, LoweredBlock)>) -> Seq<ChainBranch> {
    pieces.map_values(|p: (String, LoweredBlock)| ChainBranch { condition: p.0, body: p.1 })
}

/// Folds the `(condition, body)` pieces and a final `else` block into one
/// `if` / `else if` / `else` statement.
pub fn assemble_if_else_chain(pieces: Vec<(String, LoweredBlock)>, terminal: LoweredBlock) -> (r:
    LoweredStatement)
    requires
        pieces@.len() > 0,
    ensures
        r matches LoweredStatement::If(p) && is_chain_plan(
            p,
            pieces_as_branches(pieces@),
            ElseArm::Else { body: terminal, inline: false },
        ),
{
    let ghost all = pieces@;
    let mut pieces = pieces;
    let mut reversed: Vec<ChainBranch> = Vec::new();
    while pieces.len() > 0
        invariant
            pieces@.len() <= all.len(),
            pieces@ == all.subrange(0, pieces@.len() as int),
            reversed@.len() == all.len() - pieces@.len(),
            forall|k: int|
                0 <= k < reversed@.len() ==> #[trigger] reversed@[k] == pieces_as_branches(all)[all.len() - 1 - k],
        decreases pieces@.len(),
    {
        let ghost n = pieces@.len();
        let (condition, body) = pieces.pop().unwrap();
        proof {
            assert(pieces@ =~= all.subrange(0, n - 1));
        }
        reversed.push(ChainBranch { condition, body });
    }
    let mut branches: Vec<ChainBranch> = Vec::new();
    while reversed.len() > 0
        invariant
            reversed@.len() + branches@.len() == all.len(),
            forall|k: int|
                0 <= k < reversed@.len() ==> #[trigger] reversed@[k] == pieces_as_branches(all)[all.len() - 1 - k],
            branches@ == pieces_as_branches(all).subrange(0, branches@.len() as int),
        decreases reversed@.len(),
    {
        let b = reversed.pop().unwrap();
        let ghost m = branches@.len() as int;
        branches.push(b);
        proof {
            assert(branches@ =~= pieces_as_branches(all).subrange(0, m + 1));
        }
    }
    proof {
        assert(branches@ =~= pieces_as_branches(all));
    }
    let plan = build_chain_plan(branches, ElseArm::Else { body: terminal, inline: false });
    LoweredStatement::If(plan)
}

} // verus!
