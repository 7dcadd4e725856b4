//! Pattern-match compilation: access paths into the scrutinee, the checks a
//! pattern performs on it, and the decision tree built from a list of arms.
use vstd::prelude::*;

use crate::effects::EmitEffects;
use crate::text::{decimal, join, join_strings, push_char, push_decimal, starts_with_char, str_eq, strings_view};

verus! {

/// One step of an access path from the match subject to a sub-value.
#[derive(Clone, Debug, PartialEq, Eq)]
pub enum PathSegment {
    /// `.FieldName` (Go name, already resolved).
    Field(String),
    Index(usize),
    /// `[offset:]`.
    SliceFrom(usize),
    ArraySliceFrom { offset: usize, go_type: String },
    /// `(*expression)`: auto-pointer deref for recursive enum fields.
    Deref,
    /// `GoType(expression)`: newtype cast to the underlying Go type.
    NewtypeCast(String),
    /// `expression.(GoType)`: Go interface type assertion at a non-root path.
    AssertedAs(String),
}

/// The mathematical content of a [`PathSegment`].
pub enum SegmentModel {
    Field(Seq<char>),
    Index(nat),
    SliceFrom(nat),
    ArraySliceFrom { offset: nat, go_type: Seq<char> },
    Deref,
    NewtypeCast(Seq<char>),
    AssertedAs(Seq<char>),
}

impl View for PathSegment {
    type V = SegmentModel;

    open spec fn view(&self) -> SegmentModel {
        match self {
            PathSegment::Field(n) => SegmentModel::Field(n@),
            PathSegment::Index(i) => SegmentModel::Index(*i as nat),
            PathSegment::SliceFrom(o) => SegmentModel::SliceFrom(*o as nat),
            PathSegment::ArraySliceFrom { offset, go_type } => SegmentModel::ArraySliceFrom {
                offset: *offset as nat,
                go_type: go_type@,
            },
            PathSegment::Deref => SegmentModel::Deref,
            PathSegment::NewtypeCast(t) => SegmentModel::NewtypeCast(t@),
            PathSegment::AssertedAs(t) => SegmentModel::AssertedAs(t@),
        }
    }
}

impl PathSegment {
    /// An independent copy of this segment.
    pub fn copy(&self) -> (r: PathSegment)
        ensures
            r@ == self@,
    {
        match self {
            PathSegment::Field(n) => PathSegment::Field(n.clone()),
            PathSegment::Index(i) => PathSegment::Index(*i),
            PathSegment::SliceFrom(o) => PathSegment::SliceFrom(*o),
            PathSegment::ArraySliceFrom { offset, go_type } => PathSegment::ArraySliceFrom {
                offset: *offset,
                go_type: go_type.clone(),
            },
            PathSegment::Deref => PathSegment::Deref,
            PathSegment::NewtypeCast(t) => PathSegment::NewtypeCast(t.clone()),
            PathSegment::AssertedAs(t) => PathSegment::AssertedAs(t.clone()),
        }
    }
}

/// A path from the match subject to the value a check or binding reads.
#[derive(Clone, Debug, PartialEq, Eq)]
pub struct AccessPath {
    pub segments: Vec<PathSegment>,
}

/// The models of a sequence of segments.
pub open spec fn segments_model(s: Seq<PathSegment>) -> Seq<SegmentModel>
    decreases s.len(),
{
    if s.len() == 0 {
        Seq::empty()
    } else {
        segments_model(s.drop_last()).push(s.last()@)
    }
}

impl View for AccessPath {
    type V = Seq<SegmentModel>;

    open spec fn view(&self) -> Seq<SegmentModel> {
        segments_model(self.segments@)
    }
}

/// Facts about the segment model of a sequence: same length, pointwise views.
pub proof fn lemma_segments_model(s: Seq<PathSegment>)
    ensures
        segments_model(s).len() == s.len(),
        forall|i: int| 0 <= i < s.len() ==> #[trigger] segments_model(s)[i] == s[i]@,
    decreases s.len(),
{
    if s.len() > 0 {
        lemma_segments_model(s.drop_last());
    }
}

/// Text of `acc` after applying one segment; `is_last` marks the final segment.
pub open spec fn apply_segment(seg: SegmentModel, acc: Seq<char>, is_last: bool) -> Seq<char> {
    match seg {
        SegmentModel::Field(name) => acc + seq!['.'] + name,
        SegmentModel::Index(i) => acc + seq!['['] + decimal(i) + seq![']'],
        SegmentModel::SliceFrom(o) => acc + seq!['['] + decimal(o) + seq![':', ']'],
        SegmentModel::ArraySliceFrom { offset, go_type } => go_type + seq!['('] + acc + seq!['[']
            + decimal(offset) + seq![':', ']', ')'],
        SegmentModel::Deref => if is_last {
            seq!['*'] + acc
        } else {
            seq!['(', '*'] + acc + seq![')']
        },
        SegmentModel::NewtypeCast(ty) => if ty.len() > 0 && ty[0] == '*' {
            seq!['('] + ty + seq![')', '('] + acc + seq![')']
        } else {
            ty + seq!['('] + acc + seq![')']
        },
        SegmentModel::AssertedAs(ty) => acc + seq!['.', '('] + ty + seq![')'],
    }
}

/// Text of `subject` after the first `k` segments of `segs`.
pub open spec fn render_steps(segs: Seq<SegmentModel>, k: nat, subject: Seq<char>) -> Seq<char>
    decreases k,
{
    if k == 0 {
        subject
    } else {
        apply_segment(
            segs[k - 1],
            render_steps(segs, (k - 1) as nat, subject),
            k - 1 == segs.len() - 1,
        )
    }
}

/// The Go expression that reads the value at `path` from `subject`.
pub open spec fn render_path(path: Seq<SegmentModel>, subject: Seq<char>) -> Seq<char> {
    render_steps(path, path.len(), subject)
}

/// The rendering of `path` usable as a receiver: a trailing dereference is
/// parenthesized.
pub open spec fn composable_text(path: Seq<SegmentModel>, subject: Seq<char>) -> Seq<char> {
    if path.len() > 0 && path.last() is Deref {
        seq!['('] + render_path(path, subject) + seq![')']
    } else {
        render_path(path, subject)
    }
}

proof fn lemma_render_steps_prefix(p: Seq<SegmentModel>, seg: SegmentModel, k: nat, subject: Seq<char>)
    requires
        k < p.len(),
    ensures
        render_steps(p.push(seg), k, subject) == render_steps(p, k, subject),
    decreases k,
{
    if k > 0 {
        lemma_render_steps_prefix(p, seg, (k - 1) as nat, subject);
        assert(p.push(seg)[k - 1] == p[k - 1]);
    }
}

/// Extending a path renders the new step on the composable rendering of the
/// old path: the composable form is a safe selector receiver, index target
/// or callee for whatever segment follows.
pub proof fn law_push_renders_on_composable(path: Seq<SegmentModel>, seg: SegmentModel, subject: Seq<char>)
    ensures
        render_path(path.push(seg), subject) == apply_segment(seg, composable_text(path, subject), true),
{
    let q = path.push(seg);
    let n = path.len();
    assert(q[n as int] == seg);
    if n > 0 {
        lemma_render_steps_prefix(path, seg, (n - 1) as nat, subject);
        assert(q[n - 1] == path[n - 1]);
        let before = render_steps(path, (n - 1) as nat, subject);
        assert(render_steps(q, n, subject) == apply_segment(path[n - 1], before, false));
        assert(render_path(path, subject) == apply_segment(path[n - 1], before, true));
        assert(render_steps(q, n, subject) == composable_text(path, subject));
    } else {
        assert(render_steps(q, 0, subject) == subject);
        assert(composable_text(path, subject) == subject);
    }
    assert(render_path(q, subject) == apply_segment(seg, render_steps(q, n, subject), true));
}

/// Whether reading the value at `path` evaluates something beyond plain
/// selectors and indexing (a conversion, a dereference, an assertion).
pub open spec fn path_defers(path: Seq<SegmentModel>) -> bool {
    exists|i: int|
        0 <= i < path.len() && match #[trigger] path[i] {
            SegmentModel::ArraySliceFrom { .. } | SegmentModel::Deref
            | SegmentModel::NewtypeCast(_) | SegmentModel::AssertedAs(_) => true,
            _ => false,
        }
}

impl AccessPath {
    pub fn root() -> (r: AccessPath)
        ensures
            r@ == Seq::<SegmentModel>::empty(),
    {
        AccessPath { segments: Vec::new() }
    }

    pub fn is_root(&self) -> (r: bool)
        ensures
            r == (self@.len() == 0),
    {
        proof { lemma_segments_model(self.segments@); }
        self.segments.len() == 0
    }

    /// An independent copy of this path.
    pub fn copy(&self) -> (r: AccessPath)
        ensures
            r@ == self@,
    {
        let mut segments: Vec<PathSegment> = Vec::new();
        let mut i: usize = 0;
        while i < self.segments.len()
            invariant
                i <= self.segments.len(),
                segments_model(segments@) == segments_model(self.segments@.subrange(0, i as int)),
            decreases self.segments.len() - i,
        {
            let ghost before = segments@;
            let seg = self.segments[i].copy();
            segments.push(seg);
            proof {
                assert(segments@.drop_last() =~= before);
                assert(self.segments@.subrange(0, i + 1).drop_last()
                    =~= self.segments@.subrange(0, i as int));
            }
            i += 1;
        }
        proof {
            assert(self.segments@.subrange(0, i as int) =~= self.segments@);
        }
        AccessPath { segments }
    }
}


impl AccessPath {
    /// This path extended by one more segment.
    pub fn push(&self, seg: PathSegment) -> (r: AccessPath)
        ensures
            r@ == self@.push(seg@),
    {
        let mut new = self.copy();
        let ghost before = new.segments@;
        new.segments.push(seg);
        proof {
            assert(new.segments@.drop_last() =~= before);
        }
        new
    }

    /// The Go expression reading this path from `subject`.
    pub fn render(&self, subject: &str) -> (r: String)
        ensures
            r@ == render_path(self@, subject@),
    {
        proof { lemma_segments_model(self.segments@); }
        let mut result = String::new();
        result.append(subject);
        let n = self.segments.len();
        let last = if n == 0 { 0 } else { n - 1 };
        let mut i: usize = 0;
        while i < n
            invariant
                n == self.segments@.len(),
                n == self@.len(),
                last == (if n == 0 { 0 } else { n - 1 }),
                i <= n,
                forall|k: int| 0 <= k < n ==> #[trigger] self@[k] == self.segments@[k]@,
                result@ == render_steps(self@, i as nat, subject@),
            decreases n - i,
        {
            let mut next = String::new();
            match &self.segments[i] {
                PathSegment::Field(name) => {
                    next.append(result.as_str());
                    push_char(&mut next, '.');
                    next.append(name.as_str());
                },
                PathSegment::Index(index) => {
                    next.append(result.as_str());
                    push_char(&mut next, '[');
                    push_decimal(&mut next, *index);
                    push_char(&mut next, ']');
                },
                PathSegment::SliceFrom(offset) => {
                    next.append(result.as_str());
                    push_char(&mut next, '[');
                    push_decimal(&mut next, *offset);
                    push_char(&mut next, ':');
                    push_char(&mut next, ']');
                },
                PathSegment::ArraySliceFrom { offset, go_type } => {
                    next.append(go_type.as_str());
                    push_char(&mut next, '(');
                    next.append(result.as_str());
                    push_char(&mut next, '[');
                    push_decimal(&mut next, *offset);
                    push_char(&mut next, ':');
                    push_char(&mut next, ']');
                    push_char(&mut next, ')');
                },
                PathSegment::Deref => {
                    if i == last {
                        push_char(&mut next, '*');
                        next.append(result.as_str());
                    } else {
                        push_char(&mut next, '(');
                        push_char(&mut next, '*');
                        next.append(result.as_str());
                        push_char(&mut next, ')');
                    }
                },
                PathSegment::NewtypeCast(ty) => {
                    if starts_with_char(ty.as_str(), '*') {
                        push_char(&mut next, '(');
                        next.append(ty.as_str());
                        push_char(&mut next, ')');
                        push_char(&mut next, '(');
                        next.append(result.as_str());
                        push_char(&mut next, ')');
                    } else {
                        next.append(ty.as_str());
                        push_char(&mut next, '(');
                        next.append(result.as_str());
                        push_char(&mut next, ')');
                    }
                },
                PathSegment::AssertedAs(ty) => {
                    next.append(result.as_str());
                    push_char(&mut next, '.');
                    push_char(&mut next, '(');
                    next.append(ty.as_str());
                    push_char(&mut next, ')');
                },
            }
            proof {
                assert(next@ =~= apply_segment(self@[i as int], result@, i == n - 1));
            }
            result = next;
            i += 1;
        }
        result
    }

    /// Like `render`, but a trailing dereference is parenthesized so the
    /// result can serve as a selector receiver, index target, or callee.
    pub fn render_composable(&self, subject: &str) -> (r: String)
        ensures
            r@ == composable_text(self@, subject@),
    {
        proof { lemma_segments_model(self.segments@); }
        let rendered = self.render(subject);
        let n = self.segments.len();
        if n > 0 && matches!(self.segments[n - 1], PathSegment::Deref) {
            let mut wrapped = String::new();
            push_char(&mut wrapped, '(');
            wrapped.append(rendered.as_str());
            push_char(&mut wrapped, ')');
            wrapped
        } else {
            rendered
        }
    }

    /// Whether reading this path evaluates more than selectors and indexes.
    pub fn contains_deferred_evaluation(&self) -> (r: bool)
        ensures
            r == path_defers(self@),
    {
        proof { lemma_segments_model(self.segments@); }
        let mut i: usize = 0;
        while i < self.segments.len()
            invariant
                i <= self.segments@.len(),
                self@.len() == self.segments@.len(),
                forall|k: int| 0 <= k < self@.len() ==> #[trigger] self@[k] == self.segments@[k]@,
                forall|k: int| 0 <= k < i ==> match #[trigger] self@[k] {
                    SegmentModel::ArraySliceFrom { .. } | SegmentModel::Deref
                    | SegmentModel::NewtypeCast(_) | SegmentModel::AssertedAs(_) => false,
                    _ => true,
                },
            decreases self.segments.len() - i,
        {
            match &self.segments[i] {
                PathSegment::ArraySliceFrom { .. } | PathSegment::Deref
                | PathSegment::NewtypeCast(_) | PathSegment::AssertedAs(_) => {
                    assert(match self@[i as int] {
                        SegmentModel::ArraySliceFrom { .. } | SegmentModel::Deref
                        | SegmentModel::NewtypeCast(_) | SegmentModel::AssertedAs(_) => true,
                        _ => false,
                    });
                    return true;
                },
                _ => {},
            }
            i += 1;
        }
        false
    }
}

/// A condition a pattern places on the value at some access path.
#[derive(Debug, PartialEq, Eq)]
pub enum Check {
    EnumTag { path: AccessPath, tag_constant: String, needs_stdlib: bool },
    Literal { path: AccessPath, go_literal: String },
    SliceLenEq { path: AccessPath, length: usize },
    SliceLenGe { path: AccessPath, min_length: usize },
    /// At least one alternative's inner checks must all pass.
    Or { alternatives: Vec<Vec<Check>> },
    /// Go interface type assertion; a case label in `switch x := x.(type)`.
    TypeAssert { path: AccessPath, go_type: String },
}

/// The mathematical content of a [`Check`].
pub enum CheckModel {
    EnumTag { path: Seq<SegmentModel>, tag_constant: Seq<char>, needs_stdlib: bool },
    Literal { path: Seq<SegmentModel>, go_literal: Seq<char> },
    SliceLenEq { path: Seq<SegmentModel>, length: nat },
    SliceLenGe { path: Seq<SegmentModel>, min_length: nat },
    Or { alternatives: Seq<Seq<CheckModel>> },
    TypeAssert { path: Seq<SegmentModel>, go_type: Seq<char> },
}

pub open spec fn check_model(c: Check) -> CheckModel
    decreases c,
{
    match c {
        Check::EnumTag { path, tag_constant, needs_stdlib } => CheckModel::EnumTag {
            path: path@,
            tag_constant: tag_constant@,
            needs_stdlib,
        },
        Check::Literal { path, go_literal } => CheckModel::Literal {
            path: path@,
            go_literal: go_literal@,
        },
        Check::SliceLenEq { path, length } => CheckModel::SliceLenEq {
            path: path@,
            length: length as nat,
        },
        Check::SliceLenGe { path, min_length } => CheckModel::SliceLenGe {
            path: path@,
            min_length: min_length as nat,
        },
        Check::Or { alternatives } => CheckModel::Or { alternatives: alternatives_model(alternatives@) },
        Check::TypeAssert { path, go_type } => CheckModel::TypeAssert {
            path: path@,
            go_type: go_type@,
        },
    }
}

/// The models of a sequence of checks.
pub open spec fn checks_model(s: Seq<Check>) -> Seq<CheckModel>
    decreases s,
{
    if s.len() == 0 {
        Seq::empty()
    } else {
        checks_model(s.drop_last()).push(check_model(s.last()))
    }
}

/// The models of the alternatives of an or-check.
pub open spec fn alternatives_model(s: Seq<Vec<Check>>) -> Seq<Seq<CheckModel>>
    decreases s,
{
    if s.len() == 0 {
        Seq::empty()
    } else {
        alternatives_model(s.drop_last()).push(checks_model(s.last()@))
    }
}

impl View for Check {
    type V = CheckModel;

    open spec fn view(&self) -> CheckModel {
        check_model(*self)
    }
}

pub proof fn lemma_checks_model(s: Seq<Check>)
    ensures
        checks_model(s).len() == s.len(),
        forall|i: int| 0 <= i < s.len() ==> #[trigger] checks_model(s)[i] == s[i]@,
    decreases s.len(),
{
    if s.len() > 0 {
        lemma_checks_model(s.drop_last());
    }
}

pub proof fn lemma_alternatives_model(s: Seq<Vec<Check>>)
    ensures
        alternatives_model(s).len() == s.len(),
        forall|i: int| 0 <= i < s.len() ==> #[trigger] alternatives_model(s)[i] == checks_model(s[i]@),
    decreases s.len(),
{
    if s.len() > 0 {
        lemma_alternatives_model(s.drop_last());
    }
}

/// `checks_model` distributes over concatenation.
pub proof fn lemma_checks_model_add(a: Seq<Check>, b: Seq<Check>)
    ensures
        checks_model(a + b) == checks_model(a) + checks_model(b),
    decreases b.len(),
{
    if b.len() == 0 {
        assert(a + b =~= a);
        assert(checks_model(b) =~= Seq::<CheckModel>::empty());
        assert(checks_model(a) + checks_model(b) =~= checks_model(a));
    } else {
        lemma_checks_model_add(a, b.drop_last());
        assert((a + b).drop_last() =~= a + b.drop_last());
        assert(checks_model(a) + checks_model(b) =~= (checks_model(a) + checks_model(b.drop_last())).push(
            check_model(b.last()),
        ));
    }
}

/// The path text of a check, for checks that carry a path.
pub open spec fn check_text(c: CheckModel, subject: Seq<char>) -> Seq<char>
    decreases c, 0nat,
{
    match c {
        CheckModel::EnumTag { path, tag_constant, .. } => render_path(path, subject) + seq![
            '.',
            'T',
            'a',
            'g',
            ' ',
            '=',
            '=',
            ' ',
        ] + tag_constant,
        CheckModel::Literal { path, go_literal } => if go_literal == seq!['t', 'r', 'u', 'e'] {
            render_path(path, subject)
        } else if go_literal == seq!['f', 'a', 'l', 's', 'e'] {
            seq!['!'] + render_path(path, subject)
        } else {
            render_path(path, subject) + seq![' ', '=', '=', ' '] + go_literal
        },
        CheckModel::SliceLenEq { path, length } => seq!['l', 'e', 'n', '('] + render_path(path, subject)
            + seq![')', ' ', '=', '=', ' '] + decimal(length),
        CheckModel::SliceLenGe { path, min_length } => seq!['l', 'e', 'n', '('] + render_path(
            path,
            subject,
        ) + seq![')', ' ', '>', '=', ' '] + decimal(min_length),
        CheckModel::Or { alternatives } => {
            let parts = alternatives_text(alternatives, subject);
            if parts.len() > 1 {
                seq!['('] + join(parts, or_sep()) + seq![')']
            } else {
                join(parts, or_sep())
            }
        },
        CheckModel::TypeAssert { path, go_type } => type_assert_open() + render_path(path, subject)
            + seq!['.', '('] + go_type + type_assert_close(),
    }
}

pub open spec fn or_sep() -> Seq<char> {
    seq![' ', '|', '|', ' ']
}

pub open spec fn and_sep() -> Seq<char> {
    seq![' ', '&', '&', ' ']
}

pub open spec fn type_assert_open() -> Seq<char> {
    seq![
    'f', 'u', 'n', 'c', '(', ')', ' ', 'b', 'o', 'o', 'l', ' ', '{', ' ', '_', ',', ' ', 'o', 'k', ' ', ':', '=', ' ',
    ]
}

pub open spec fn type_assert_close() -> Seq<char> {
    seq![
    ')', ';', ' ', 'r', 'e', 't', 'u', 'r', 'n', ' ', 'o', 'k', ' ', '}', '(', ')',
    ]
}

/// The text of each alternative of an or-check.
pub open spec fn alternatives_text(alts: Seq<Seq<CheckModel>>, subject: Seq<char>) -> Seq<Seq<char>>
    decreases alts, 0nat,
{
    if alts.len() == 0 {
        Seq::empty()
    } else {
        alternatives_text(alts.drop_last(), subject).push(alternative_text(alts.last(), subject))
    }
}

/// One alternative: a lone check as is, several checks parenthesized and
/// joined with `&&`.
pub open spec fn alternative_text(alt: Seq<CheckModel>, subject: Seq<char>) -> Seq<char>
    decreases alt, 1nat,
{
    if alt.len() == 1 {
        check_text(alt[0], subject)
    } else {
        seq!['('] + join(conjunction_text(alt, subject), and_sep()) + seq![')']
    }
}

/// The text of each check of a conjunction.
pub open spec fn conjunction_text(checks: Seq<CheckModel>, subject: Seq<char>) -> Seq<Seq<char>>
    decreases checks, 0nat,
{
    if checks.len() == 0 {
        Seq::empty()
    } else {
        conjunction_text(checks.drop_last(), subject).push(check_text(checks.last(), subject))
    }
}

pub proof fn lemma_alternatives_text(alts: Seq<Seq<CheckModel>>, subject: Seq<char>)
    ensures
        alternatives_text(alts, subject).len() == alts.len(),
        forall|i: int|
            0 <= i < alts.len() ==> #[trigger] alternatives_text(alts, subject)[i] == alternative_text(
                alts[i],
                subject,
            ),
    decreases alts.len(),
{
    if alts.len() > 0 {
        lemma_alternatives_text(alts.drop_last(), subject);
    }
}

pub proof fn lemma_conjunction_text(checks: Seq<CheckModel>, subject: Seq<char>)
    ensures
        conjunction_text(checks, subject).len() == checks.len(),
        forall|i: int|
            0 <= i < checks.len() ==> #[trigger] conjunction_text(checks, subject)[i] == check_text(
                checks[i],
                subject,
            ),
    decreases checks.len(),
{
    if checks.len() > 0 {
        lemma_conjunction_text(checks.drop_last(), subject);
    }
}

impl Check {
    /// The Go boolean expression that holds when this check passes on `subject`.
    pub fn render(&self, subject: &str) -> (r: String)
        ensures
            r@ == check_text(self@, subject@),
        decreases self,
    {
        match self {
            Check::EnumTag { path, tag_constant, .. } => {
                let mut s = path.render(subject);
                s.append(".Tag == ");
                s.append(tag_constant.as_str());
                proof {
                    reveal_strlit(".Tag == ");
                    assert(".Tag == "@ =~= seq!['.', 'T', 'a', 'g', ' ', '=', '=', ' ']);
                }
                s
            },
            Check::Literal { path, go_literal } => {
                let rp = path.render(subject);
                proof {
                    reveal_strlit("true");
                    reveal_strlit("false");
                    reveal_strlit(" == ");
                    assert("true"@ =~= seq!['t', 'r', 'u', 'e']);
                    assert("false"@ =~= seq!['f', 'a', 'l', 's', 'e']);
                    assert(" == "@ =~= seq![' ', '=', '=', ' ']);
                }
                if str_eq(go_literal.as_str(), "true") {
                    rp
                } else if str_eq(go_literal.as_str(), "false") {
                    let mut s = String::new();
                    push_char(&mut s, '!');
                    s.append(rp.as_str());
                    s
                } else {
                    let mut s = rp;
                    s.append(" == ");
                    s.append(go_literal.as_str());
                    proof { reveal_strlit(" == "); }
                    s
                }
            },
            Check::SliceLenEq { path, length } => {
                let mut s = String::new();
                s.append("len(");
                s.append(path.render(subject).as_str());
                s.append(") == ");
                push_decimal(&mut s, *length);
                proof {
                    reveal_strlit("len(");
                    reveal_strlit(") == ");
                    assert("len("@ =~= seq!['l', 'e', 'n', '(']);
                    assert(") == "@ =~= seq![')', ' ', '=', '=', ' ']);
                }
                s
            },
            Check::SliceLenGe { path, min_length } => {
                let mut s = String::new();
                s.append("len(");
                s.append(path.render(subject).as_str());
                s.append(") >= ");
                push_decimal(&mut s, *min_length);
                proof {
                    reveal_strlit("len(");
                    reveal_strlit(") >= ");
                    assert("len("@ =~= seq!['l', 'e', 'n', '(']);
                    assert(") >= "@ =~= seq![')', ' ', '>', '=', ' ']);
                }
                s
            },
            Check::Or { alternatives } => {
                let ghost alts = alternatives_model(alternatives@);
                proof { lemma_alternatives_model(alternatives@); }
                let mut alt_strs: Vec<String> = Vec::new();
                let mut i: usize = 0;
                while i < alternatives.len()
                    invariant
                        i <= alternatives.len(),
                        alts == alternatives_model(alternatives@),
                        *self is Or,
                        *alternatives == self->alternatives,
                        alts.len() == alternatives@.len(),
                        forall|k: int| 0 <= k < alternatives@.len() ==> #[trigger] alts[k] == checks_model(alternatives@[k]@),
                        strings_view(alt_strs@) =~= alternatives_text(alts.subrange(0, i as int), subject@),
                    decreases alternatives.len() - i,
                {
                    let checks = &alternatives[i];
                    proof { lemma_checks_model(checks@); }
                    let text = if checks.len() == 1 {
                        proof {
                            assert(decreases_to!(*self => self->alternatives));
                            vstd::std_specs::vec::axiom_vec_index_decreases(self->alternatives, i as int);
                            vstd::std_specs::vec::axiom_vec_index_decreases(*checks, 0);
                        }
                        checks[0].render(subject)
                    } else {
                        let mut parts: Vec<String> = Vec::new();
                        let mut j: usize = 0;
                        while j < checks.len()
                            invariant
                                i < alternatives.len(),
                                *self is Or,
                                *alternatives == self->alternatives,
                                checks == &alternatives@[i as int],
                                j <= checks.len(),
                                checks_model(checks@).len() == checks@.len(),
                                forall|k: int| 0 <= k < checks@.len() ==> #[trigger] checks_model(checks@)[k] == checks@[k]@,
                                strings_view(parts@) =~= conjunction_text(checks_model(checks@).subrange(0, j as int), subject@),
                            decreases checks.len() - j,
                        {
                            proof {
                                assert(decreases_to!(*self => self->alternatives));
                                vstd::std_specs::vec::axiom_vec_index_decreases(self->alternatives, i as int);
                                vstd::std_specs::vec::axiom_vec_index_decreases(*checks, j as int);
                            }
                            let t = checks[j].render(subject);
                            proof {
                                let cm = checks_model(checks@);
                                assert(cm.subrange(0, j + 1).drop_last() =~= cm.subrange(0, j as int));
                            }
                            parts.push(t);
                            j += 1;
                        }
                        proof {
                            assert(checks_model(checks@).subrange(0, j as int) =~= checks_model(checks@));
                        }
                        let mut t = String::new();
                        push_char(&mut t, '(');
                        t.append(join_strings(&parts, " && ").as_str());
                        push_char(&mut t, ')');
                        proof {
                            reveal_strlit(" && ");
                            assert(" && "@ =~= and_sep());
                        }
                        t
                    };
                    proof {
                        assert(alts.subrange(0, i + 1).drop_last() =~= alts.subrange(0, i as int));
                        assert(text@ == alternative_text(alts[i as int], subject@));
                    }
                    alt_strs.push(text);
                    i += 1;
                }
                proof {
                    assert(alts.subrange(0, i as int) =~= alts);
                    lemma_alternatives_text(alts, subject@);
                }
                let joined = join_strings(&alt_strs, " || ");
                proof {
                    reveal_strlit(" || ");
                    assert(" || "@ =~= or_sep());
                }
                if alt_strs.len() > 1 {
                    let mut s = String::new();
                    push_char(&mut s, '(');
                    s.append(joined.as_str());
                    push_char(&mut s, ')');
                    s
                } else {
                    joined
                }
            },
            Check::TypeAssert { path, go_type } => {
                let mut s = String::new();
                s.append("func() bool { _, ok := ");
                s.append(path.render(subject).as_str());
                push_char(&mut s, '.');
                push_char(&mut s, '(');
                s.append(go_type.as_str());
                s.append("); return ok }()");
                proof {
                    reveal_strlit("func() bool { _, ok := ");
                    reveal_strlit("); return ok }()");
                    assert("func() bool { _, ok := "@ =~= type_assert_open());
                    assert("); return ok }()"@ =~= type_assert_close());
                }
                s
            },
        }
    }
}


/// The text of a check that fails exactly when `c` passes: comparisons flip
/// their operator; or-checks and type assertions are wrapped in `!(...)`.
pub open spec fn negated_check_text(c: CheckModel, subject: Seq<char>) -> Seq<char> {
    match c {
        CheckModel::EnumTag { path, tag_constant, .. } => render_path(path, subject) + seq![
            '.',
            'T',
            'a',
            'g',
            ' ',
            '!',
            '=',
            ' ',
        ] + tag_constant,
        CheckModel::Literal { path, go_literal } => if go_literal == seq!['t', 'r', 'u', 'e'] {
            seq!['!'] + render_path(path, subject)
        } else if go_literal == seq!['f', 'a', 'l', 's', 'e'] {
            render_path(path, subject)
        } else {
            render_path(path, subject) + seq![' ', '!', '=', ' '] + go_literal
        },
        CheckModel::SliceLenEq { path, length } => seq!['l', 'e', 'n', '('] + render_path(path, subject)
            + seq![')', ' ', '!', '=', ' '] + decimal(length),
        CheckModel::SliceLenGe { path, min_length } => seq!['l', 'e', 'n', '('] + render_path(
            path,
            subject,
        ) + seq![')', ' ', '<', ' '] + decimal(min_length),
        CheckModel::Or { .. } | CheckModel::TypeAssert { .. } => seq!['!', '('] + check_text(c, subject)
            + seq![')'],
    }
}

/// The path a check reads, when it reads a single one.
pub open spec fn check_path(c: CheckModel) -> Option<Seq<SegmentModel>> {
    match c {
        CheckModel::EnumTag { path, .. } | CheckModel::Literal { path, .. } | CheckModel::SliceLenEq {
            path,
            ..
        } | CheckModel::SliceLenGe { path, .. } | CheckModel::TypeAssert { path, .. } => Some(path),
        CheckModel::Or { .. } => None,
    }
}

impl Check {
    /// The Go boolean expression that holds exactly when this check fails.
    pub fn render_negated(&self, subject: &str) -> (r: String)
        ensures
            r@ == negated_check_text(self@, subject@),
    {
        match self {
            Check::EnumTag { path, tag_constant, .. } => {
                let mut s = path.render(subject);
                s.append(".Tag != ");
                s.append(tag_constant.as_str());
                proof {
                    reveal_strlit(".Tag != ");
                    assert(".Tag != "@ =~= seq!['.', 'T', 'a', 'g', ' ', '!', '=', ' ']);
                }
                s
            },
            Check::Literal { path, go_literal } => {
                let rp = path.render(subject);
                proof {
                    reveal_strlit("true");
                    reveal_strlit("false");
                    reveal_strlit(" != ");
                    assert("true"@ =~= seq!['t', 'r', 'u', 'e']);
                    assert("false"@ =~= seq!['f', 'a', 'l', 's', 'e']);
                    assert(" != "@ =~= seq![' ', '!', '=', ' ']);
                }
                if str_eq(go_literal.as_str(), "true") {
                    let mut s = String::new();
                    push_char(&mut s, '!');
                    s.append(rp.as_str());
                    s
                } else if str_eq(go_literal.as_str(), "false") {
                    rp
                } else {
                    let mut s = rp;
                    s.append(" != ");
                    s.append(go_literal.as_str());
                    s
                }
            },
            Check::SliceLenEq { path, length } => {
                let mut s = String::new();
                s.append("len(");
                s.append(path.render(subject).as_str());
                s.append(") != ");
                push_decimal(&mut s, *length);
                proof {
                    reveal_strlit("len(");
                    reveal_strlit(") != ");
                    assert("len("@ =~= seq!['l', 'e', 'n', '(']);
                    assert(") != "@ =~= seq![')', ' ', '!', '=', ' ']);
                }
                s
            },
            Check::SliceLenGe { path, min_length } => {
                let mut s = String::new();
                s.append("len(");
                s.append(path.render(subject).as_str());
                s.append(") < ");
                push_decimal(&mut s, *min_length);
                proof {
                    reveal_strlit("len(");
                    reveal_strlit(") < ");
                    assert("len("@ =~= seq!['l', 'e', 'n', '(']);
                    assert(") < "@ =~= seq![')', ' ', '<', ' ']);
                }
                s
            },
            Check::Or { .. } | Check::TypeAssert { .. } => {
                let mut s = String::new();
                push_char(&mut s, '!');
                push_char(&mut s, '(');
                s.append(self.render(subject).as_str());
                push_char(&mut s, ')');
                s
            },
        }
    }

    /// The path this check reads; `None` for an or-check.
    pub fn path(&self) -> (r: Option<&AccessPath>)
        ensures
            match r {
                Some(p) => check_path(self@) == Some(p@),
                None => check_path(self@) is None,
            },
    {
        match self {
            Check::EnumTag { path, .. } | Check::Literal { path, .. } | Check::SliceLenEq {
                path,
                ..
            } | Check::SliceLenGe { path, .. } | Check::TypeAssert { path, .. } => Some(path),
            Check::Or { .. } => None,
        }
    }

    /// The tag constant and stdlib need of an enum-tag check.
    pub fn as_enum_tag(&self) -> (r: Option<(&str, bool)>)
        ensures
            match r {
                Some((tag, needs)) => self@ matches CheckModel::EnumTag { tag_constant, needs_stdlib, .. }
                    && tag@ == tag_constant && needs == needs_stdlib,
                None => !(self@ is EnumTag),
            },
    {
        match self {
            Check::EnumTag { tag_constant, needs_stdlib, .. } => Some((tag_constant.as_str(), *needs_stdlib)),
            _ => None,
        }
    }

    /// The Go literal a literal check compares against.
    pub fn as_literal(&self) -> (r: Option<&str>)
        ensures
            match r {
                Some(lit) => self@ matches CheckModel::Literal { go_literal, .. } && lit@ == go_literal,
                None => !(self@ is Literal),
            },
    {
        match self {
            Check::Literal { go_literal, .. } => Some(go_literal.as_str()),
            _ => None,
        }
    }

    /// An independent copy of this check.
    pub fn copy(&self) -> (r: Check)
        ensures
            r@ == self@,
        decreases self,
    {
        match self {
            Check::EnumTag { path, tag_constant, needs_stdlib } => Check::EnumTag {
                path: path.copy(),
                tag_constant: tag_constant.clone(),
                needs_stdlib: *needs_stdlib,
            },
            Check::Literal { path, go_literal } => Check::Literal {
                path: path.copy(),
                go_literal: go_literal.clone(),
            },
            Check::SliceLenEq { path, length } => Check::SliceLenEq { path: path.copy(), length: *length },
            Check::SliceLenGe { path, min_length } => Check::SliceLenGe {
                path: path.copy(),
                min_length: *min_length,
            },
            Check::Or { alternatives } => {
                let mut out: Vec<Vec<Check>> = Vec::new();
                let mut i: usize = 0;
                while i < alternatives.len()
                    invariant
                        i <= alternatives.len(),
                        *self is Or,
                        *alternatives == self->alternatives,
                        alternatives_model(out@) == alternatives_model(alternatives@.subrange(0, i as int)),
                    decreases alternatives.len() - i,
                {
                    let checks = &alternatives[i];
                    let mut inner: Vec<Check> = Vec::new();
                    let mut j: usize = 0;
                    while j < checks.len()
                        invariant
                            i < alternatives.len(),
                            *self is Or,
                            *alternatives == self->alternatives,
                            checks == &alternatives@[i as int],
                            j <= checks.len(),
                            checks_model(inner@) == checks_model(checks@.subrange(0, j as int)),
                        decreases checks.len() - j,
                    {
                        proof {
                            assert(decreases_to!(*self => self->alternatives));
                            vstd::std_specs::vec::axiom_vec_index_decreases(self->alternatives, i as int);
                            vstd::std_specs::vec::axiom_vec_index_decreases(*checks, j as int);
                        }
                        let c = checks[j].copy();
                        let ghost before = inner@;
                        inner.push(c);
                        proof {
                            assert(inner@.drop_last() =~= before);
                            assert(checks@.subrange(0, j + 1).drop_last() =~= checks@.subrange(0, j as int));
                        }
                        j += 1;
                    }
                    proof {
                        assert(checks@.subrange(0, j as int) =~= checks@);
                    }
                    let ghost before = out@;
                    out.push(inner);
                    proof {
                        assert(out@.drop_last() =~= before);
                        assert(alternatives@.subrange(0, i + 1).drop_last() =~= alternatives@.subrange(0, i as int));
                    }
                    i += 1;
                }
                proof {
                    assert(alternatives@.subrange(0, i as int) =~= alternatives@);
                }
                Check::Or { alternatives: out }
            },
            Check::TypeAssert { path, go_type } => Check::TypeAssert {
                path: path.copy(),
                go_type: go_type.clone(),
            },
        }
    }
}

/// Copies of every check in `checks[from..]`, in order.
pub fn copy_checks(checks: &Vec<Check>, from: usize) -> (r: Vec<Check>)
    requires
        from <= checks.len(),
    ensures
        checks_model(r@) == checks_model(checks@.subrange(from as int, checks@.len() as int)),
{
    let mut out: Vec<Check> = Vec::new();
    let mut j: usize = from;
    while j < checks.len()
        invariant
            from <= j <= checks.len(),
            checks_model(out@) == checks_model(checks@.subrange(from as int, j as int)),
        decreases checks.len() - j,
    {
        let c = checks[j].copy();
        let ghost before = out@;
        out.push(c);
        proof {
            assert(out@.drop_last() =~= before);
            assert(checks@.subrange(from as int, j + 1).drop_last() =~= checks@.subrange(from as int, j as int));
        }
        j += 1;
    }
    out
}

/// A pattern variable bound to the value at `path`.
#[derive(Clone, Debug, PartialEq, Eq)]
pub struct PatternBinding {
    pub lisette_name: String,
    /// `None` when the binding is unused.
    pub go_name: Option<String>,
    pub path: AccessPath,
}

pub struct BindingModel {
    pub lisette_name: Seq<char>,
    pub go_name: Option<Seq<char>>,
    pub path: Seq<SegmentModel>,
}

impl View for PatternBinding {
    type V = BindingModel;

    open spec fn view(&self) -> BindingModel {
        BindingModel {
            lisette_name: self.lisette_name@,
            go_name: match self.go_name {
                Some(n) => Some(n@),
                None => None,
            },
            path: self.path@,
        }
    }
}

/// The models of a sequence of bindings.
pub open spec fn bindings_model(s: Seq<PatternBinding>) -> Seq<BindingModel> {
    s.map_values(|b: PatternBinding| b@)
}

impl PatternBinding {
    pub fn copy(&self) -> (r: PatternBinding)
        ensures
            r@ == self@,
    {
        PatternBinding {
            lisette_name: self.lisette_name.clone(),
            go_name: match &self.go_name {
                Some(n) => Some(n.clone()),
                None => None,
            },
            path: self.path.copy(),
        }
    }
}

/// Copies of every binding, in order.
pub fn copy_bindings(bindings: &Vec<PatternBinding>) -> (r: Vec<PatternBinding>)
    ensures
        bindings_model(r@) == bindings_model(bindings@),
{
    let mut out: Vec<PatternBinding> = Vec::new();
    let mut j: usize = 0;
    while j < bindings.len()
        invariant
            j <= bindings.len(),
            bindings_model(out@) =~= bindings_model(bindings@.subrange(0, j as int)),
        decreases bindings.len() - j,
    {
        let b = bindings[j].copy();
        let ghost before = out@;
        out.push(b);
        proof {
            assert(bindings_model(out@) =~= bindings_model(before).push(b@));
            assert(bindings_model(bindings@.subrange(0, j + 1)) =~= bindings_model(
                bindings@.subrange(0, j as int),
            ).push(bindings@[j as int]@));
        }
        j += 1;
    }
    proof {
        assert(bindings@.subrange(0, j as int) =~= bindings@);
    }
    out
}

/// A root-path Go-interface type assertion lifted out of a pattern's checks.
#[derive(Clone, Debug, PartialEq, Eq)]
pub struct TypeAssertion {
    pub path: AccessPath,
    pub go_types: Vec<String>,
}

pub struct AssertionModel {
    pub path: Seq<SegmentModel>,
    pub go_types: Seq<Seq<char>>,
}

impl View for TypeAssertion {
    type V = AssertionModel;

    open spec fn view(&self) -> AssertionModel {
        AssertionModel { path: self.path@, go_types: strings_view(self.go_types@) }
    }
}

/// Copies of every string, in order.
pub fn copy_strings(v: &Vec<String>) -> (r: Vec<String>)
    ensures
        strings_view(r@) == strings_view(v@),
{
    let mut out: Vec<String> = Vec::new();
    let mut j: usize = 0;
    while j < v.len()
        invariant
            j <= v.len(),
            strings_view(out@) =~= strings_view(v@.subrange(0, j as int)),
        decreases v.len() - j,
    {
        let ghost before = out@;
        out.push(v[j].clone());
        proof {
            assert(strings_view(out@) =~= strings_view(before).push(v@[j as int]@));
            assert(strings_view(v@.subrange(0, j + 1)) =~= strings_view(v@.subrange(0, j as int)).push(
                v@[j as int]@,
            ));
        }
        j += 1;
    }
    proof {
        assert(v@.subrange(0, j as int) =~= v@);
    }
    out
}

impl TypeAssertion {
    pub fn copy(&self) -> (r: TypeAssertion)
        ensures
            r@ == self@,
    {
        TypeAssertion { path: self.path.copy(), go_types: copy_strings(&self.go_types) }
    }
}

/// The model of an optional type assertion.
pub open spec fn assertion_opt_model(a: Option<TypeAssertion>) -> Option<AssertionModel> {
    match a {
        Some(t) => Some(t@),
        None => None,
    }
}


/// What one match arm contributes to decision-tree construction.
#[derive(Debug)]
pub struct ArmInfo {
    pub arm_index: usize,
    pub root_assertion: Option<TypeAssertion>,
    pub checks: Vec<Check>,
    pub bindings: Vec<PatternBinding>,
    pub has_guard: bool,
}

pub struct ArmModel {
    pub arm_index: nat,
    pub root_assertion: Option<AssertionModel>,
    pub checks: Seq<CheckModel>,
    pub bindings: Seq<BindingModel>,
    pub has_guard: bool,
}

impl View for ArmInfo {
    type V = ArmModel;

    open spec fn view(&self) -> ArmModel {
        ArmModel {
            arm_index: self.arm_index as nat,
            root_assertion: assertion_opt_model(self.root_assertion),
            checks: checks_model(self.checks@),
            bindings: bindings_model(self.bindings@),
            has_guard: self.has_guard,
        }
    }
}

/// The models of a sequence of arms.
pub open spec fn arms_model(s: Seq<ArmInfo>) -> Seq<ArmModel> {
    s.map_values(|a: ArmInfo| a@)
}

/// An arm that places no condition on the subject.
pub open spec fn is_catchall(a: ArmModel) -> bool {
    a.checks.len() == 0 && a.root_assertion is None
}

/// How many conditions an arm still carries.
pub open spec fn arm_weight(a: ArmModel) -> nat {
    a.checks.len() + if a.root_assertion is Some { 1nat } else { 0nat }
}

/// Total number of conditions carried by a sequence of arms.
pub open spec fn weight(arms: Seq<ArmModel>) -> nat
    decreases arms.len(),
{
    if arms.len() == 0 {
        0
    } else {
        weight(arms.drop_last()) + arm_weight(arms.last())
    }
}

pub proof fn lemma_weight_add(a: Seq<ArmModel>, b: Seq<ArmModel>)
    ensures
        weight(a + b) == weight(a) + weight(b),
    decreases b.len(),
{
    if b.len() == 0 {
        assert(a + b =~= a);
    } else {
        lemma_weight_add(a, b.drop_last());
        assert((a + b).drop_last() =~= a + b.drop_last());
    }
}

/// A sequence of arms weighs at least as much as any of its arms, and a
/// contiguous piece of it weighs no more than the whole.
pub proof fn lemma_weight_subrange(arms: Seq<ArmModel>, i: int, j: int)
    requires
        0 <= i <= j <= arms.len(),
    ensures
        weight(arms.subrange(i, j)) <= weight(arms),
{
    lemma_weight_add(arms.subrange(0, i), arms.subrange(i, arms.len() as int));
    assert(arms.subrange(0, i) + arms.subrange(i, arms.len() as int) =~= arms);
    lemma_weight_add(arms.subrange(i, j), arms.subrange(j, arms.len() as int));
    assert(arms.subrange(i, j) + arms.subrange(j, arms.len() as int) =~= arms.subrange(
        i,
        arms.len() as int,
    ));
}

pub proof fn lemma_weight_positive(arms: Seq<ArmModel>, i: int)
    requires
        0 <= i < arms.len(),
        !is_catchall(arms[i]),
    ensures
        weight(arms) >= 1,
{
    lemma_weight_subrange(arms, i, i + 1);
    assert(arms.subrange(i, i + 1).drop_last() =~= Seq::<ArmModel>::empty());
}

/// What one pattern contributes: an optional root type assertion, the
/// checks on the (asserted) subject, the bindings, and the effects.
pub struct PatternInfo {
    pub root_assertion: Option<TypeAssertion>,
    pub checks: Vec<Check>,
    pub bindings: Vec<PatternBinding>,
    pub effects: EmitEffects,
}

impl PatternInfo {
    /// True when a later check or a used binding reads the asserted value.
    pub fn requires_asserted_subject(&self) -> (r: bool)
        ensures
            r == (self.checks@.len() > 0 || exists|k: int|
                0 <= k < self.bindings@.len() && (#[trigger] self.bindings@[k]).go_name is Some),
    {
        if self.checks.len() > 0 {
            return true;
        }
        let mut i: usize = 0;
        while i < self.bindings.len()
            invariant
                i <= self.bindings@.len(),
                forall|k: int| 0 <= k < i ==> (#[trigger] self.bindings@[k]).go_name is None,
            decreases self.bindings@.len() - i,
        {
            if self.bindings[i].go_name.is_some() {
                return true;
            }
            i += 1;
        }
        false
    }
}

/// Accumulates checks, bindings and effects while a pattern is walked.
pub struct PatternCollector {
    pub checks: Vec<Check>,
    pub bindings: Vec<PatternBinding>,
    pub effects: EmitEffects,
}

impl PatternCollector {
    /// An empty collector with no effects.
    pub fn new() -> (r: PatternCollector)
        ensures
            r.checks@.len() == 0,
            r.bindings@.len() == 0,
            !r.effects.needs_stdlib,
            r.effects.go_imports@.len() == 0,
    {
        PatternCollector { checks: Vec::new(), bindings: Vec::new(), effects: EmitEffects::default() }
    }
}

/// How a switch site selects its case.
#[derive(Debug, Clone, Copy, PartialEq, Eq)]
pub enum SwitchKind {
    EnumTag,
    Value,
    TypeSwitch,
}

/// Structural shape of a switch site, chosen at build time.
#[derive(Debug, Clone, Copy, PartialEq, Eq)]
pub enum SwitchShape {
    TypeSwitch,
    /// Two branches with `"true"`/`"false"` labels, no fallback.
    Bool,
    /// Two branches, no fallback, not `Bool`.
    Binary,
    SingleArm,
    Multi,
}

/// A pre-computed decision tree for pattern matching.
#[derive(Debug)]
pub enum Decision {
    Success { arm_index: usize, bindings: Vec<PatternBinding> },
    /// Guarded success: emit the body iff the guard holds, else `failure`.
    Guard {
        arm_index: usize,
        bindings: Vec<PatternBinding>,
        success: Box<Decision>,
        failure: Box<Decision>,
    },
    /// Emits as a Go `switch` when eligible.
    Switch {
        path: AccessPath,
        kind: SwitchKind,
        shape: SwitchShape,
        branches: Vec<SwitchBranch>,
        fallback: Option<Box<Decision>>,
    },
    /// Emits as `if`/`else if`/`else`.
    Chain { tests: Vec<ChainTest>, fallback: Box<Decision> },
    /// Emits `panic("unreachable")` in tail position.
    Unreachable,
}

#[derive(Debug)]
pub struct SwitchBranch {
    pub case_label: String,
    pub needs_stdlib: bool,
    pub decision: Decision,
}

#[derive(Debug)]
pub struct ChainTest {
    pub checks: Vec<Check>,
    pub decision: Decision,
}

pub enum DecisionModel {
    Success { arm_index: nat, bindings: Seq<BindingModel> },
    Guard {
        arm_index: nat,
        bindings: Seq<BindingModel>,
        success: Box<DecisionModel>,
        failure: Box<DecisionModel>,
    },
    Switch {
        path: Seq<SegmentModel>,
        kind: SwitchKind,
        shape: SwitchShape,
        branches: Seq<BranchModel>,
        fallback: Option<Box<DecisionModel>>,
    },
    Chain { tests: Seq<TestModel>, fallback: Box<DecisionModel> },
    Unreachable,
}

pub struct BranchModel {
    pub case_label: Seq<char>,
    pub needs_stdlib: bool,
    pub decision: DecisionModel,
}

pub struct TestModel {
    pub checks: Seq<CheckModel>,
    pub decision: DecisionModel,
}

pub open spec fn decision_model(d: Decision) -> DecisionModel
    decreases d,
{
    match d {
        Decision::Success { arm_index, bindings } => DecisionModel::Success {
            arm_index: arm_index as nat,
            bindings: bindings_model(bindings@),
        },
        Decision::Guard { arm_index, bindings, success, failure } => DecisionModel::Guard {
            arm_index: arm_index as nat,
            bindings: bindings_model(bindings@),
            success: Box::new(decision_model(*success)),
            failure: Box::new(decision_model(*failure)),
        },
        Decision::Switch { path, kind, shape, branches, fallback } => DecisionModel::Switch {
            path: path@,
            kind,
            shape,
            branches: branches_model(branches@),
            fallback: match fallback {
                Some(f) => Some(Box::new(decision_model(*f))),
                None => None,
            },
        },
        Decision::Chain { tests, fallback } => DecisionModel::Chain {
            tests: tests_model(tests@),
            fallback: Box::new(decision_model(*fallback)),
        },
        Decision::Unreachable => DecisionModel::Unreachable,
    }
}

pub open spec fn branches_model(s: Seq<SwitchBranch>) -> Seq<BranchModel>
    decreases s,
{
    if s.len() == 0 {
        Seq::empty()
    } else {
        branches_model(s.drop_last()).push(
            BranchModel {
                case_label: s.last().case_label@,
                needs_stdlib: s.last().needs_stdlib,
                decision: decision_model(s.last().decision),
            },
        )
    }
}

pub open spec fn tests_model(s: Seq<ChainTest>) -> Seq<TestModel>
    decreases s,
{
    if s.len() == 0 {
        Seq::empty()
    } else {
        tests_model(s.drop_last()).push(
            TestModel { checks: checks_model(s.last().checks@), decision: decision_model(s.last().decision) },
        )
    }
}

impl View for Decision {
    type V = DecisionModel;

    open spec fn view(&self) -> DecisionModel {
        decision_model(*self)
    }
}

pub proof fn lemma_branches_model(s: Seq<SwitchBranch>)
    ensures
        branches_model(s).len() == s.len(),
        forall|i: int|
            0 <= i < s.len() ==> #[trigger] branches_model(s)[i] == (BranchModel {
                case_label: s[i].case_label@,
                needs_stdlib: s[i].needs_stdlib,
                decision: s[i].decision@,
            }),
    decreases s.len(),
{
    if s.len() > 0 {
        lemma_branches_model(s.drop_last());
    }
}

pub proof fn lemma_tests_model(s: Seq<ChainTest>)
    ensures
        tests_model(s).len() == s.len(),
        forall|i: int|
            0 <= i < s.len() ==> #[trigger] tests_model(s)[i] == (TestModel {
                checks: checks_model(s[i].checks@),
                decision: s[i].decision@,
            }),
    decreases s.len(),
{
    if s.len() > 0 {
        lemma_tests_model(s.drop_last());
    }
}

/// The first arm that places some condition on the subject.
pub open spec fn first_relevant(arms: Seq<ArmModel>) -> Option<ArmModel>
    decreases arms.len(),
{
    if arms.len() == 0 {
        None
    } else if !is_catchall(arms[0]) {
        Some(arms[0])
    } else {
        first_relevant(arms.drop_first())
    }
}

/// The switch an arm suggests: a root type assertion gives a type switch, a
/// leading enum-tag or literal check gives a tag or value switch on its path.
pub open spec fn pick_kind(a: ArmModel) -> Option<(SwitchKind, Seq<SegmentModel>)> {
    match a.root_assertion {
        Some(t) => Some((SwitchKind::TypeSwitch, t.path)),
        None => if a.checks.len() == 0 {
            None
        } else {
            match check_path(a.checks[0]) {
                None => None,
                Some(p) => if a.checks[0] is EnumTag {
                    Some((SwitchKind::EnumTag, p))
                } else if a.checks[0] is Literal {
                    Some((SwitchKind::Value, p))
                } else {
                    None
                },
            }
        },
    }
}

/// Whether one arm can take part in a switch of `kind` on `path`.
pub open spec fn arm_fits(a: ArmModel, kind: SwitchKind, path: Seq<SegmentModel>) -> bool {
    if is_catchall(a) {
        true
    } else if a.has_guard && kind != SwitchKind::TypeSwitch {
        false
    } else {
        match kind {
            SwitchKind::EnumTag => a.root_assertion is None && a.checks.len() > 0 && a.checks[0] is EnumTag
                && check_path(a.checks[0]) == Some(path),
            SwitchKind::Value => a.root_assertion is None && a.checks.len() == 1 && a.checks[0] is Literal
                && check_path(a.checks[0]) == Some(path),
            SwitchKind::TypeSwitch => match a.root_assertion {
                Some(t) => t.path == path,
                None => false,
            },
        }
    }
}

/// Whether every arm can take part in a switch of `kind` on `path`.
pub open spec fn arms_fit(arms: Seq<ArmModel>, kind: SwitchKind, path: Seq<SegmentModel>) -> bool {
    forall|i: int| 0 <= i < arms.len() ==> #[trigger] arm_fits(arms[i], kind, path)
}

/// The case label of a (non-catchall) arm in a switch of `kind`.
pub open spec fn case_label(a: ArmModel, kind: SwitchKind) -> Seq<char> {
    match kind {
        SwitchKind::EnumTag => a.checks[0]->EnumTag_tag_constant,
        SwitchKind::Value => a.checks[0]->Literal_go_literal,
        SwitchKind::TypeSwitch => join(a.root_assertion->0.go_types, seq![',', ' ']),
    }
}

/// Whether the arm's case needs the Go standard-library prelude.
pub open spec fn case_needs_stdlib(a: ArmModel, kind: SwitchKind) -> bool {
    match kind {
        SwitchKind::EnumTag => a.checks[0]->EnumTag_needs_stdlib,
        _ => false,
    }
}

/// The arm as seen inside its case: the condition the case label settles is gone.
pub open spec fn inner_arm(a: ArmModel, kind: SwitchKind) -> ArmModel {
    ArmModel {
        arm_index: a.arm_index,
        root_assertion: None,
        checks: match kind {
            SwitchKind::TypeSwitch => a.checks,
            _ => a.checks.drop_first(),
        },
        bindings: a.bindings,
        has_guard: a.has_guard,
    }
}

pub struct GroupModel {
    pub label: Seq<char>,
    pub needs_stdlib: bool,
    pub arms: Seq<ArmModel>,
}

/// Whether a (non-catchall) arm has what its case label is read from.
pub open spec fn arm_labelled(a: ArmModel, kind: SwitchKind) -> bool {
    is_catchall(a) || match kind {
        SwitchKind::EnumTag => a.checks.len() > 0 && a.checks[0] is EnumTag,
        SwitchKind::Value => a.checks.len() > 0 && a.checks[0] is Literal,
        SwitchKind::TypeSwitch => a.root_assertion is Some,
    }
}

/// The distinct case labels of the non-catchall arms, in order of first occurrence.
pub open spec fn labels_of(arms: Seq<ArmModel>, kind: SwitchKind) -> Seq<Seq<char>>
    decreases arms.len(),
{
    if arms.len() == 0 {
        Seq::empty()
    } else {
        let earlier = labels_of(arms.drop_last(), kind);
        if is_catchall(arms.last()) || earlier.contains(case_label(arms.last(), kind)) {
            earlier
        } else {
            earlier.push(case_label(arms.last(), kind))
        }
    }
}

/// The stdlib need of the first arm labelled `label`.
pub open spec fn label_needs_stdlib(arms: Seq<ArmModel>, kind: SwitchKind, label: Seq<char>) -> bool
    decreases arms.len(),
{
    if arms.len() == 0 {
        false
    } else if !labels_of(arms.drop_last(), kind).contains(label) && !is_catchall(arms.last())
        && case_label(arms.last(), kind) == label {
        case_needs_stdlib(arms.last(), kind)
    } else {
        label_needs_stdlib(arms.drop_last(), kind, label)
    }
}

/// The inner arms of the arms labelled `label`, in order.
pub open spec fn arms_with_label(arms: Seq<ArmModel>, kind: SwitchKind, label: Seq<char>) -> Seq<ArmModel>
    decreases arms.len(),
{
    if arms.len() == 0 {
        Seq::empty()
    } else if !is_catchall(arms.last()) && case_label(arms.last(), kind) == label {
        arms_with_label(arms.drop_last(), kind, label).push(inner_arm(arms.last(), kind))
    } else {
        arms_with_label(arms.drop_last(), kind, label)
    }
}

/// The case groups of a switch of `kind` over `arms`, in label order.
pub open spec fn groups_of(arms: Seq<ArmModel>, kind: SwitchKind) -> Seq<GroupModel> {
    let labels = labels_of(arms, kind);
    Seq::new(
        labels.len(),
        |k: int|
            GroupModel {
                label: labels[k],
                needs_stdlib: label_needs_stdlib(arms, kind, labels[k]),
                arms: arms_with_label(arms, kind, labels[k]),
            },
    )
}

/// The catchall arms, in order.
pub open spec fn catchalls_of(arms: Seq<ArmModel>) -> Seq<ArmModel>
    decreases arms.len(),
{
    if arms.len() == 0 {
        Seq::empty()
    } else if is_catchall(arms.last()) {
        catchalls_of(arms.drop_last()).push(arms.last())
    } else {
        catchalls_of(arms.drop_last())
    }
}

/// Whether an arm can still fail once its case matched.
pub open spec fn can_fail(a: ArmModel) -> bool {
    a.has_guard || a.checks.len() > 0
}

/// Whether some arm of the group can fail after its case matched.
pub open spec fn some_inner_can_fail(arms: Seq<ArmModel>) -> bool {
    exists|i: int| 0 <= i < arms.len() && #[trigger] can_fail(arms[i])
}

/// The arms a case body is built from: a case that can fail gets the catchall
/// arms spliced in, since Go `switch` cases do not fall through to `default`.
pub open spec fn case_arms(g: GroupModel, fallback: Seq<ArmModel>) -> Seq<ArmModel> {
    if some_inner_can_fail(g.arms) {
        g.arms + fallback
    } else {
        g.arms
    }
}

/// The shape of a switch with these branches.
pub open spec fn shape_of(kind: SwitchKind, branches: Seq<BranchModel>, has_fallback: bool) -> SwitchShape {
    if kind == SwitchKind::TypeSwitch {
        SwitchShape::TypeSwitch
    } else if kind == SwitchKind::Value && branches.len() == 2 && !has_fallback && (exists|i: int|
        0 <= i < 2 && #[trigger] branches[i].case_label == seq!['t', 'r', 'u', 'e']) && (exists|i: int|
        0 <= i < 2 && #[trigger] branches[i].case_label == seq!['f', 'a', 'l', 's', 'e']) {
        SwitchShape::Bool
    } else if branches.len() == 2 && !has_fallback {
        SwitchShape::Binary
    } else if branches.len() == 1 {
        SwitchShape::SingleArm
    } else {
        SwitchShape::Multi
    }
}

/// The check a lifted type assertion stands for in an `if` chain.
pub open spec fn assertion_check(t: AssertionModel) -> CheckModel {
    if t.go_types.len() == 1 {
        CheckModel::TypeAssert { path: t.path, go_type: t.go_types[0] }
    } else {
        CheckModel::Or {
            alternatives: Seq::new(
                t.go_types.len(),
                |i: int| seq![CheckModel::TypeAssert { path: t.path, go_type: t.go_types[i] }],
            ),
        }
    }
}

/// The conditions an arm tests in an `if` chain.
pub open spec fn chain_checks(a: ArmModel) -> Seq<CheckModel> {
    match a.root_assertion {
        Some(t) => seq![assertion_check(t)] + a.checks,
        None => a.checks,
    }
}

/// Index of the first unguarded catchall arm at or after `i` (or `arms.len()`).
pub open spec fn stop_index(arms: Seq<ArmModel>, i: int) -> int
    decreases arms.len() - i,
{
    if i >= arms.len() {
        arms.len() as int
    } else if is_catchall(arms[i]) && !arms[i].has_guard {
        i
    } else {
        stop_index(arms, i + 1)
    }
}

/// The decision tree for a list of arms: a leading catch-all is taken (under
/// its guard, if any), else a Go `switch` where all conditional arms agree on
/// one, else an `if` chain.
pub open spec fn tree_of(arms: Seq<ArmModel>) -> DecisionModel
    decreases weight(arms), arms.len(), 2nat, 0nat,
{
    if arms.len() == 0 {
        DecisionModel::Unreachable
    } else if is_catchall(arms[0]) && !arms[0].has_guard {
        DecisionModel::Success { arm_index: arms[0].arm_index, bindings: arms[0].bindings }
    } else if is_catchall(arms[0]) {
        proof {
            lemma_weight_subrange(arms, 1, arms.len() as int);
        }
        DecisionModel::Guard {
            arm_index: arms[0].arm_index,
            bindings: arms[0].bindings,
            success: Box::new(DecisionModel::Success { arm_index: arms[0].arm_index, bindings: Seq::empty() }),
            failure: Box::new(tree_of(arms.drop_first())),
        }
    } else {
        match switch_of(arms) {
            Some(d) => d,
            None => chain_of(arms),
        }
    }
}

/// The switch for the arms, when all conditional arms agree on one.
pub open spec fn switch_of(arms: Seq<ArmModel>) -> Option<DecisionModel>
    decreases weight(arms), arms.len(), 1nat, 0nat,
{
    match first_relevant(arms) {
        None => None,
        Some(first) => match pick_kind(first) {
            None => None,
            Some((kind, path)) => if !arms_fit(arms, kind, path) {
                None
            } else {
                let groups = groups_of(arms, kind);
                let fallback_arms = catchalls_of(arms);
                let branches = branch_list(arms, kind, groups.len());
                let fallback = if fallback_arms.len() == 0 {
                    None
                } else if weight(fallback_arms) < weight(arms) {
                    Some(Box::new(tree_of(fallback_arms)))
                } else {
                    Some(Box::new(DecisionModel::Unreachable))
                };
                Some(
                    DecisionModel::Switch {
                        path,
                        kind,
                        shape: shape_of(kind, branches, fallback is Some),
                        branches,
                        fallback,
                    },
                )
            },
        },
    }
}

/// The first `n` switch branches.
pub open spec fn branch_list(arms: Seq<ArmModel>, kind: SwitchKind, n: nat) -> Seq<BranchModel>
    decreases weight(arms), arms.len(), 0nat, n,
{
    if n == 0 {
        Seq::empty()
    } else {
        let g = groups_of(arms, kind)[n - 1];
        let body = case_arms(g, catchalls_of(arms));
        branch_list(arms, kind, (n - 1) as nat).push(
            BranchModel {
                case_label: g.label,
                needs_stdlib: g.needs_stdlib,
                decision: if weight(body) < weight(arms) {
                    tree_of(body)
                } else {
                    DecisionModel::Unreachable
                },
            },
        )
    }
}

/// The `if` chain for the arms.
pub open spec fn chain_of(arms: Seq<ArmModel>) -> DecisionModel
    decreases weight(arms), arms.len(), 1nat, 0nat,
{
    let stop = stop_index(arms, 0);
    let tests = chain_tests(arms, stop as nat);
    if stop < arms.len() {
        let fallback = DecisionModel::Success {
            arm_index: arms[stop].arm_index,
            bindings: arms[stop].bindings,
        };
        if tests.len() == 0 {
            fallback
        } else {
            DecisionModel::Chain { tests, fallback: Box::new(fallback) }
        }
    } else {
        DecisionModel::Chain { tests, fallback: Box::new(DecisionModel::Unreachable) }
    }
}

/// The chain tests for the first `k` arms.
pub open spec fn chain_tests(arms: Seq<ArmModel>, k: nat) -> Seq<TestModel>
    decreases weight(arms), arms.len(), 0nat, k,
{
    if k == 0 || k > arms.len() {
        Seq::empty()
    } else {
        let a = arms[k - 1];
        proof {
            lemma_weight_subrange(arms, k as int, arms.len() as int);
        }
        let decision = if a.has_guard {
            DecisionModel::Guard {
                arm_index: a.arm_index,
                bindings: a.bindings,
                success: Box::new(DecisionModel::Success { arm_index: a.arm_index, bindings: Seq::empty() }),
                failure: Box::new(tree_of(arms.subrange(k as int, arms.len() as int))),
            }
        } else {
            DecisionModel::Success { arm_index: a.arm_index, bindings: a.bindings }
        };
        chain_tests(arms, (k - 1) as nat).push(TestModel { checks: chain_checks(a), decision })
    }
}


/// Whether two segments are the same step.
pub fn segments_equal(a: &PathSegment, b: &PathSegment) -> (r: bool)
    ensures
        r == (a@ == b@),
{
    match (a, b) {
        (PathSegment::Field(x), PathSegment::Field(y)) => str_eq(x.as_str(), y.as_str()),
        (PathSegment::Index(x), PathSegment::Index(y)) => *x == *y,
        (PathSegment::SliceFrom(x), PathSegment::SliceFrom(y)) => *x == *y,
        (
            PathSegment::ArraySliceFrom { offset: o1, go_type: t1 },
            PathSegment::ArraySliceFrom { offset: o2, go_type: t2 },
        ) => *o1 == *o2 && str_eq(t1.as_str(), t2.as_str()),
        (PathSegment::Deref, PathSegment::Deref) => true,
        (PathSegment::NewtypeCast(x), PathSegment::NewtypeCast(y)) => str_eq(x.as_str(), y.as_str()),
        (PathSegment::AssertedAs(x), PathSegment::AssertedAs(y)) => str_eq(x.as_str(), y.as_str()),
        _ => false,
    }
}

/// Whether two paths reach the same value.
pub fn paths_equal(a: &AccessPath, b: &AccessPath) -> (r: bool)
    ensures
        r == (a@ == b@),
{
    proof {
        lemma_segments_model(a.segments@);
        lemma_segments_model(b.segments@);
    }
    if a.segments.len() != b.segments.len() {
        return false;
    }
    let mut i: usize = 0;
    while i < a.segments.len()
        invariant
            i <= a.segments.len(),
            a.segments.len() == b.segments.len(),
            a@.len() == a.segments@.len(),
            b@.len() == b.segments@.len(),
            forall|k: int| 0 <= k < a@.len() ==> #[trigger] a@[k] == a.segments@[k]@,
            forall|k: int| 0 <= k < b@.len() ==> #[trigger] b@[k] == b.segments@[k]@,
            forall|k: int| 0 <= k < i ==> a@[k] == b@[k],
        decreases a.segments.len() - i,
    {
        if !segments_equal(&a.segments[i], &b.segments[i]) {
            proof {
                assert(a@[i as int] != b@[i as int]);
            }
            return false;
        }
        i += 1;
    }
    proof {
        assert(a@ =~= b@);
    }
    true
}

/// Copies of `arms[from..to]`, in order.
fn copy_arms(arms: &[ArmInfo], from: usize, to: usize) -> (r: Vec<ArmInfo>)
    requires
        from <= to <= arms@.len(),
    ensures
        arms_model(r@) == arms_model(arms@.subrange(from as int, to as int)),
{
    let mut out: Vec<ArmInfo> = Vec::new();
    let mut j: usize = from;
    while j < to
        invariant
            from <= j <= to <= arms@.len(),
            arms_model(out@) =~= arms_model(arms@.subrange(from as int, j as int)),
        decreases to - j,
    {
        let a = arms[j].copy();
        let ghost before = out@;
        out.push(a);
        proof {
            assert(arms_model(out@) =~= arms_model(before).push(a@));
            assert(arms_model(arms@.subrange(from as int, j + 1)) =~= arms_model(
                arms@.subrange(from as int, j as int),
            ).push(arms@[j as int]@));
        }
        j += 1;
    }
    out
}

impl ArmInfo {
    /// An arm that places no condition on the subject.
    pub fn is_catchall(&self) -> (r: bool)
        ensures
            r == is_catchall(self@),
    {
        proof { lemma_checks_model(self.checks@); }
        self.checks.len() == 0 && self.root_assertion.is_none()
    }

    pub fn copy(&self) -> (r: ArmInfo)
        ensures
            r@ == self@,
    {
        ArmInfo {
            arm_index: self.arm_index,
            root_assertion: match &self.root_assertion {
                Some(t) => Some(t.copy()),
                None => None,
            },
            checks: {
                let c = copy_checks(&self.checks, 0);
                proof {
                    assert(self.checks@.subrange(0, self.checks@.len() as int) =~= self.checks@);
                }
                c
            },
            bindings: copy_bindings(&self.bindings),
            has_guard: self.has_guard,
        }
    }
}

/// The switch an arm suggests, with the path it switches on.
pub fn pick_switch_kind(arm: &ArmInfo) -> (r: Option<(SwitchKind, AccessPath)>)
    ensures
        match r {
            Some((kind, path)) => pick_kind(arm@) == Some((kind, path@)),
            None => pick_kind(arm@) is None,
        },
{
    proof { lemma_checks_model(arm.checks@); }
    if let Some(assertion) = &arm.root_assertion {
        return Some((SwitchKind::TypeSwitch, assertion.path.copy()));
    }
    if arm.checks.len() == 0 {
        return None;
    }
    let first_check = &arm.checks[0];
    let path = match first_check.path() {
        Some(p) => p.copy(),
        None => return None,
    };
    if first_check.as_enum_tag().is_some() {
        Some((SwitchKind::EnumTag, path))
    } else if first_check.as_literal().is_some() {
        Some((SwitchKind::Value, path))
    } else {
        None
    }
}

/// Whether one arm can take part in a switch of `kind` on `switch_path`.
fn arm_fits_switch(arm: &ArmInfo, kind: &SwitchKind, switch_path: &AccessPath) -> (r: bool)
    ensures
        r == arm_fits(arm@, *kind, switch_path@),
{
    proof { lemma_checks_model(arm.checks@); }
    if arm.is_catchall() {
        return true;
    }
    if arm.has_guard && !matches!(kind, SwitchKind::TypeSwitch) {
        return false;
    }
    match kind {
        SwitchKind::EnumTag => {
            if arm.root_assertion.is_some() || arm.checks.len() == 0 {
                return false;
            }
            let first = &arm.checks[0];
            if first.as_enum_tag().is_none() {
                return false;
            }
            match first.path() {
                Some(p) => paths_equal(p, switch_path),
                None => false,
            }
        },
        SwitchKind::Value => {
            if arm.root_assertion.is_some() || arm.checks.len() == 0 {
                return false;
            }
            let first = &arm.checks[0];
            if first.as_literal().is_none() || arm.checks.len() != 1 {
                return false;
            }
            match first.path() {
                Some(p) => paths_equal(p, switch_path),
                None => false,
            }
        },
        SwitchKind::TypeSwitch => match &arm.root_assertion {
            Some(t) => paths_equal(&t.path, switch_path),
            None => false,
        },
    }
}

/// `Some(())` when every arm can take part in a switch of `kind` on `switch_path`.
pub fn validate_switch_arms(arms: &[ArmInfo], kind: &SwitchKind, switch_path: &AccessPath) -> (r: Option<()>)
    ensures
        r is Some == arms_fit(arms_model(arms@), *kind, switch_path@),
{
    let mut i: usize = 0;
    while i < arms.len()
        invariant
            i <= arms@.len(),
            forall|k: int| 0 <= k < i ==> #[trigger] arm_fits(arms_model(arms@)[k], *kind, switch_path@),
        decreases arms.len() - i,
    {
        proof {
            assert(arms_model(arms@)[i as int] == arms@[i as int]@);
        }
        if !arm_fits_switch(&arms[i], kind, switch_path) {
            return None;
        }
        i += 1;
    }
    Some(())
}

/// The case label and stdlib need of a (non-catchall) arm.
fn arm_label(arm: &ArmInfo, kind: &SwitchKind) -> (r: (String, bool))
    requires
        !is_catchall(arm@),
        arm_labelled(arm@, *kind),
    ensures
        r.0@ == case_label(arm@, *kind),
        r.1 == case_needs_stdlib(arm@, *kind),
{
    proof { lemma_checks_model(arm.checks@); }
    match kind {
        SwitchKind::EnumTag => match &arm.checks[0] {
            Check::EnumTag { tag_constant, needs_stdlib, .. } => (tag_constant.clone(), *needs_stdlib),
            _ => {
                assert(false);
                (String::new(), false)
            },
        },
        SwitchKind::Value => match &arm.checks[0] {
            Check::Literal { go_literal, .. } => (go_literal.clone(), false),
            _ => {
                assert(false);
                (String::new(), false)
            },
        },
        SwitchKind::TypeSwitch => match &arm.root_assertion {
            Some(assertion) => {
                let label = join_strings(&assertion.go_types, ", ");
                proof {
                    reveal_strlit(", ");
                    assert(", "@ =~= seq![',', ' ']);
                }
                (label, false)
            },
            None => {
                assert(false);
                (String::new(), false)
            },
        },
    }
}

/// The arm as seen inside its case.
fn inner_arm_of(arm: &ArmInfo, kind: &SwitchKind) -> (r: ArmInfo)
    requires
        !is_catchall(arm@),
        arm_labelled(arm@, *kind),
    ensures
        r@ == inner_arm(arm@, *kind),
{
    proof { lemma_checks_model(arm.checks@); }
    let checks = match kind {
        SwitchKind::TypeSwitch => {
            let c = copy_checks(&arm.checks, 0);
            proof {
                assert(arm.checks@.subrange(0, arm.checks@.len() as int) =~= arm.checks@);
            }
            c
        },
        _ => {
            let c = copy_checks(&arm.checks, 1);
            proof {
                lemma_checks_model(arm.checks@.subrange(1, arm.checks@.len() as int));
                lemma_checks_model(c@);
                assert(checks_model(c@) =~= checks_model(arm.checks@).drop_first());
            }
            c
        },
    };
    ArmInfo {
        arm_index: arm.arm_index,
        root_assertion: None,
        checks,
        bindings: copy_bindings(&arm.bindings),
        has_guard: arm.has_guard,
    }
}

/// The position of `label` among `order`, if present.
fn label_position(order: &Vec<String>, label: &str) -> (r: Option<usize>)
    ensures
        match r {
            Some(k) => k < order@.len() && order@[k as int]@ == label@,
            None => !strings_view(order@).contains(label@),
        },
{
    let mut j: usize = 0;
    while j < order.len()
        invariant
            j <= order@.len(),
            forall|k: int| 0 <= k < j ==> order@[k]@ != label@,
        decreases order.len() - j,
    {
        if str_eq(order[j].as_str(), label) {
            return Some(j);
        }
        j += 1;
    }
    proof {
        if strings_view(order@).contains(label@) {
            let k = choose|k: int| 0 <= k < strings_view(order@).len() && strings_view(order@)[k] == label@;
            assert(order@[k]@ == label@);
        }
    }
    None
}

/// The arms that share one case label.
pub struct BranchGroup {
    pub needs_stdlib: bool,
    pub arms: Vec<ArmInfo>,
}

/// Case groups of a switch: labels in first-occurrence order, the group of
/// each label at the same position, and the catchall arms.
pub struct GroupedBranches {
    pub order: Vec<String>,
    pub by_label: Vec<BranchGroup>,
    pub fallback: Vec<ArmInfo>,
}

/// Whether labels and groups match the case groups of `arms`, position by position.
pub open spec fn groups_match(order: Seq<String>, by_label: Seq<BranchGroup>, arms: Seq<ArmModel>, kind: SwitchKind) -> bool {
    &&& order.len() == by_label.len()
    &&& groups_of(arms, kind).len() == order.len()
    &&& forall|k: int|
        0 <= k < order.len() ==> #[trigger] groups_of(arms, kind)[k] == (GroupModel {
            label: order[k]@,
            needs_stdlib: by_label[k].needs_stdlib,
            arms: arms_model(by_label[k].arms@),
        })
}

/// Whether the grouping matches the case groups and catchalls of `arms`.
pub open spec fn grouping_matches(g: GroupedBranches, arms: Seq<ArmModel>, kind: SwitchKind) -> bool {
    groups_match(g.order@, g.by_label@, arms, kind) && arms_model(g.fallback@) == catchalls_of(arms)
}

/// Groups the arms by case label, in first-occurrence order.
fn group_switch_branches(arms: &[ArmInfo], kind: &SwitchKind) -> (r: GroupedBranches)
    requires
        forall|i: int| 0 <= i < arms@.len() ==> #[trigger] arm_labelled(arms_model(arms@)[i], *kind),
    ensures
        grouping_matches(r, arms_model(arms@), *kind),
{
    let ghost am = arms_model(arms@);
    let mut order: Vec<String> = Vec::new();
    let mut needs: Vec<bool> = Vec::new();
    let mut fallback: Vec<ArmInfo> = Vec::new();
    let mut i: usize = 0;
    while i < arms.len()
        invariant
            i <= arms@.len(),
            am == arms_model(arms@),
            forall|k: int| 0 <= k < arms@.len() ==> #[trigger] arm_labelled(am[k], *kind),
            strings_view(order@) == labels_of(am.subrange(0, i as int), *kind),
            needs@.len() == order@.len(),
            forall|k: int|
                0 <= k < needs@.len() ==> #[trigger] needs@[k] == label_needs_stdlib(
                    am.subrange(0, i as int),
                    *kind,
                    order@[k]@,
                ),
            arms_model(fallback@) == catchalls_of(am.subrange(0, i as int)),
        decreases arms.len() - i,
    {
        let ghost prefix = am.subrange(0, i + 1);
        proof {
            assert(prefix.drop_last() =~= am.subrange(0, i as int));
            assert(prefix.last() == arms@[i as int]@);
        }
        let arm = &arms[i];
        if arm.is_catchall() {
            let ghost before = fallback@;
            fallback.push(arm.copy());
            proof {
                assert(arms_model(fallback@) =~= arms_model(before).push(arm@));
            }
        } else {
            let (label, needs_stdlib) = arm_label(arm, kind);
            match label_position(&order, label.as_str()) {
                Some(pos) => {
                    proof {
                        assert(strings_view(order@)[pos as int] == label@);
                        assert(strings_view(order@).contains(label@));
                    }
                },
                None => {
                    let ghost before = order@;
                    order.push(label);
                    needs.push(needs_stdlib);
                    proof {
                        assert(strings_view(order@) =~= strings_view(before).push(case_label(arm@, *kind)));
                    }
                },
            }
        }
        proof {
            assert forall|k: int| 0 <= k < needs@.len() implies #[trigger] needs@[k] == label_needs_stdlib(
                prefix,
                *kind,
                order@[k]@,
            ) by {
                assert(strings_view(order@)[k] == order@[k]@);
            }
        }
        i += 1;
    }
    proof {
        assert(am.subrange(0, i as int) =~= am);
    }
    let mut by_label: Vec<BranchGroup> = Vec::new();
    let mut k: usize = 0;
    while k < order.len()
        invariant
            k <= order@.len(),
            am == arms_model(arms@),
            forall|x: int| 0 <= x < arms@.len() ==> #[trigger] arm_labelled(am[x], *kind),
            strings_view(order@) == labels_of(am, *kind),
            needs@.len() == order@.len(),
            forall|x: int| 0 <= x < needs@.len() ==> #[trigger] needs@[x] == label_needs_stdlib(am, *kind, order@[x]@),
            by_label@.len() == k,
            forall|x: int|
                0 <= x < k ==> #[trigger] groups_of(am, *kind)[x] == (GroupModel {
                    label: order@[x]@,
                    needs_stdlib: by_label@[x].needs_stdlib,
                    arms: arms_model(by_label@[x].arms@),
                }),
        decreases order.len() - k,
    {
        let mut group_arms: Vec<ArmInfo> = Vec::new();
        let mut j: usize = 0;
        while j < arms.len()
            invariant
                j <= arms@.len(),
                k < order@.len(),
                am == arms_model(arms@),
                forall|x: int| 0 <= x < arms@.len() ==> #[trigger] arm_labelled(am[x], *kind),
                arms_model(group_arms@) == arms_with_label(am.subrange(0, j as int), *kind, order@[k as int]@),
            decreases arms.len() - j,
        {
            let ghost prefix = am.subrange(0, j + 1);
            proof {
                assert(prefix.drop_last() =~= am.subrange(0, j as int));
                assert(prefix.last() == arms@[j as int]@);
            }
            let arm = &arms[j];
            if !arm.is_catchall() {
                let (label, _) = arm_label(arm, kind);
                if str_eq(label.as_str(), order[k].as_str()) {
                    let inner = inner_arm_of(arm, kind);
                    let ghost before = group_arms@;
                    group_arms.push(inner);
                    proof {
                        assert(arms_model(group_arms@) =~= arms_model(before).push(inner@));
                    }
                }
            }
            j += 1;
        }
        proof {
            assert(am.subrange(0, j as int) =~= am);
            assert(strings_view(order@)[k as int] == order@[k as int]@);
        }
        by_label.push(BranchGroup { needs_stdlib: needs[k], arms: group_arms });
        k += 1;
    }
    GroupedBranches { order, by_label, fallback }
}


pub proof fn lemma_inner_weight(a: ArmModel, kind: SwitchKind, path: Seq<SegmentModel>)
    requires
        arm_fits(a, kind, path),
        !is_catchall(a),
    ensures
        arm_weight(inner_arm(a, kind)) + 1 <= arm_weight(a),
{
}

pub proof fn lemma_label_weight(arms: Seq<ArmModel>, kind: SwitchKind, path: Seq<SegmentModel>, label: Seq<char>)
    requires
        arms_fit(arms, kind, path),
    ensures
        weight(arms_with_label(arms, kind, label)) + arms_with_label(arms, kind, label).len() <= weight(arms),
    decreases arms.len(),
{
    if arms.len() > 0 {
        let prev = arms.drop_last();
        assert(arms_fit(prev, kind, path)) by {
            assert forall|i: int| 0 <= i < prev.len() implies #[trigger] arm_fits(prev[i], kind, path) by {
                assert(prev[i] == arms[i]);
            }
        }
        lemma_label_weight(prev, kind, path, label);
        let g = arms_with_label(prev, kind, label);
        if !is_catchall(arms.last()) && case_label(arms.last(), kind) == label {
            assert(arm_fits(arms[arms.len() - 1], kind, path));
            lemma_inner_weight(arms.last(), kind, path);
            assert(g.push(inner_arm(arms.last(), kind)).drop_last() =~= g);
        }
    }
}

pub proof fn lemma_label_nonempty(arms: Seq<ArmModel>, kind: SwitchKind, label: Seq<char>)
    requires
        labels_of(arms, kind).contains(label),
    ensures
        arms_with_label(arms, kind, label).len() >= 1,
    decreases arms.len(),
{
    if arms.len() > 0 {
        let prev = arms.drop_last();
        if labels_of(prev, kind).contains(label) {
            lemma_label_nonempty(prev, kind, label);
        } else {
            let earlier = labels_of(prev, kind);
            if is_catchall(arms.last()) || earlier.contains(case_label(arms.last(), kind)) {
            } else {
                let l = earlier.push(case_label(arms.last(), kind));
                let k = choose|k: int| 0 <= k < l.len() && l[k] == label;
                if k < earlier.len() {
                    assert(earlier[k] == label);
                }
            }
        }
    }
}

pub proof fn lemma_catchalls(arms: Seq<ArmModel>)
    ensures
        weight(catchalls_of(arms)) == 0,
        forall|i: int| 0 <= i < catchalls_of(arms).len() ==> #[trigger] is_catchall(catchalls_of(arms)[i]),
    decreases arms.len(),
{
    if arms.len() > 0 {
        lemma_catchalls(arms.drop_last());
        let c = catchalls_of(arms.drop_last());
        if is_catchall(arms.last()) {
            assert(c.push(arms.last()).drop_last() =~= c);
        }
    }
}

/// Every case body of a valid switch carries fewer conditions than the arms it came from.
pub proof fn lemma_case_arms_weight(arms: Seq<ArmModel>, kind: SwitchKind, path: Seq<SegmentModel>, k: int)
    requires
        arms_fit(arms, kind, path),
        0 <= k < groups_of(arms, kind).len(),
    ensures
        weight(case_arms(groups_of(arms, kind)[k], catchalls_of(arms))) < weight(arms),
{
    let labels = labels_of(arms, kind);
    let label = labels[k];
    assert(labels.contains(label));
    lemma_label_nonempty(arms, kind, label);
    lemma_label_weight(arms, kind, path, label);
    lemma_catchalls(arms);
    lemma_weight_add(arms_with_label(arms, kind, label), catchalls_of(arms));
}

pub proof fn lemma_first_relevant(arms: Seq<ArmModel>, i: int)
    requires
        0 <= i <= arms.len(),
        forall|k: int| 0 <= k < i ==> #[trigger] is_catchall(arms[k]),
    ensures
        i < arms.len() && !is_catchall(arms[i]) ==> first_relevant(arms) == Some(arms[i]),
        i == arms.len() ==> first_relevant(arms) is None,
    decreases i,
{
    if i > 0 {
        let rest = arms.drop_first();
        assert forall|k: int| 0 <= k < i - 1 implies #[trigger] is_catchall(rest[k]) by {
            assert(rest[k] == arms[k + 1]);
        }
        lemma_first_relevant(rest, i - 1);
        if i < arms.len() {
            assert(rest[i - 1] == arms[i]);
        }
    } else if arms.len() == 0 {
    }
}

pub proof fn lemma_stop_index(arms: Seq<ArmModel>, i: int)
    requires
        0 <= i <= arms.len(),
        forall|k: int| 0 <= k < i ==> !(#[trigger] is_catchall(arms[k]) && !arms[k].has_guard),
    ensures
        stop_index(arms, 0) == stop_index(arms, i),
    decreases i,
{
    if i > 0 {
        lemma_stop_index(arms, i - 1);
    }
}

/// The shape of a switch with these branches.
pub fn classify_switch_shape(kind: &SwitchKind, branches: &[SwitchBranch], fallback: &Option<Box<Decision>>) -> (r: SwitchShape)
    ensures
        r == shape_of(*kind, branches_model(branches@), fallback is Some),
{
    proof { lemma_branches_model(branches@); }
    if matches!(kind, SwitchKind::TypeSwitch) {
        return SwitchShape::TypeSwitch;
    }
    let n = branches.len();
    let mut has_true = false;
    let mut has_false = false;
    if n == 2 {
        proof {
            reveal_strlit("true");
            reveal_strlit("false");
            assert("true"@ =~= seq!['t', 'r', 'u', 'e']);
            assert("false"@ =~= seq!['f', 'a', 'l', 's', 'e']);
        }
        has_true = str_eq(branches[0].case_label.as_str(), "true") || str_eq(branches[1].case_label.as_str(), "true");
        has_false = str_eq(branches[0].case_label.as_str(), "false") || str_eq(branches[1].case_label.as_str(), "false");
        proof {
            let bm = branches_model(branches@);
            if has_true {
                if bm[0].case_label == seq!['t', 'r', 'u', 'e'] {
                    assert(exists|i: int| 0 <= i < 2 && #[trigger] bm[i].case_label == seq!['t', 'r', 'u', 'e']);
                } else {
                    assert(bm[1].case_label == seq!['t', 'r', 'u', 'e']);
                }
            }
            if has_false {
                if bm[0].case_label == seq!['f', 'a', 'l', 's', 'e'] {
                    assert(exists|i: int| 0 <= i < 2 && #[trigger] bm[i].case_label == seq!['f', 'a', 'l', 's', 'e']);
                } else {
                    assert(bm[1].case_label == seq!['f', 'a', 'l', 's', 'e']);
                }
            }
        }
    }
    let is_bool = matches!(kind, SwitchKind::Value) && n == 2 && fallback.is_none() && has_true && has_false;
    if is_bool {
        return SwitchShape::Bool;
    }
    if n == 2 && fallback.is_none() {
        return SwitchShape::Binary;
    }
    if n == 1 {
        return SwitchShape::SingleArm;
    }
    SwitchShape::Multi
}

/// Re-encodes a lifted type assertion as a renderable check for chain emission.
pub fn type_assertion_to_check(assertion: TypeAssertion) -> (r: Check)
    ensures
        r@ == assertion_check(assertion@),
{
    let TypeAssertion { path, go_types } = assertion;
    let ghost types = strings_view(go_types@);
    if go_types.len() == 1 {
        let go_type = go_types[0].clone();
        return Check::TypeAssert { path, go_type };
    }
    let mut alternatives: Vec<Vec<Check>> = Vec::new();
    let mut i: usize = 0;
    while i < go_types.len()
        invariant
            i <= go_types@.len(),
            types == strings_view(go_types@),
            alternatives_model(alternatives@) =~= Seq::new(
                i as nat,
                |k: int| seq![CheckModel::TypeAssert { path: path@, go_type: types[k] }],
            ),
        decreases go_types.len() - i,
    {
        let mut alt: Vec<Check> = Vec::new();
        let c = Check::TypeAssert { path: path.copy(), go_type: go_types[i].clone() };
        proof {
            assert(types[i as int] == go_types@[i as int]@);
            assert(c@ == CheckModel::TypeAssert { path: path@, go_type: types[i as int] });
        }
        alt.push(c);
        proof {
            assert(alt@.drop_last() =~= Seq::<Check>::empty());
            assert(checks_model(Seq::<Check>::empty()) == Seq::<CheckModel>::empty());
            assert(checks_model(alt@) =~= seq![CheckModel::TypeAssert { path: path@, go_type: types[i as int] }]);
        }
        let ghost before = alternatives@;
        alternatives.push(alt);
        proof {
            assert(alternatives@.drop_last() =~= before);
        }
        i += 1;
    }
    Check::Or { alternatives }
}

/// The model of an optional decision.
pub open spec fn decision_opt_model(d: Option<Decision>) -> Option<DecisionModel> {
    match d {
        Some(x) => Some(x@),
        None => None,
    }
}

/// Builds the decision tree for a list of arms.
pub fn build_tree(arms: Vec<ArmInfo>) -> (r: Decision)
    ensures
        r@ == tree_of(arms_model(arms@)),
    decreases weight(arms_model(arms@)), arms@.len(), 2nat, 0nat,
{
    let ghost am = arms_model(arms@);
    if arms.len() == 0 {
        return Decision::Unreachable;
    }
    proof {
        assert(am[0] == arms@[0]@);
    }
    let first_is_catchall = arms[0].is_catchall();
    if first_is_catchall && !arms[0].has_guard {
        return Decision::Success { arm_index: arms[0].arm_index, bindings: copy_bindings(&arms[0].bindings) };
    }
    if first_is_catchall && arms[0].has_guard {
        let rest = copy_arms(arms.as_slice(), 1, arms.len());
        proof {
            assert(arms_model(arms@.subrange(1, arms@.len() as int)) =~= am.drop_first());
            lemma_weight_subrange(am, 1, am.len() as int);
        }
        let failure = build_tree(rest);
        let success = Decision::Success { arm_index: arms[0].arm_index, bindings: Vec::new() };
        proof {
            assert(bindings_model(Seq::<PatternBinding>::empty()) =~= Seq::<BindingModel>::empty());
            assert(success@ == DecisionModel::Success { arm_index: am[0].arm_index, bindings: Seq::empty() });
        }
        return Decision::Guard {
            arm_index: arms[0].arm_index,
            bindings: copy_bindings(&arms[0].bindings),
            success: Box::new(success),
            failure: Box::new(failure),
        };
    }
    if let Some(switch) = try_build_switch(arms.as_slice()) {
        return switch;
    }
    build_chain(arms)
}

/// Tries to build a switch node: succeeds when every conditional arm agrees
/// on one switchable shape (a root type assertion, or a leading same-path
/// enum-tag or literal check), with guards only in type switches.
pub fn try_build_switch(arms: &[ArmInfo]) -> (r: Option<Decision>)
    ensures
        decision_opt_model(r) == switch_of(arms_model(arms@)),
    decreases weight(arms_model(arms@)), arms@.len(), 1nat, 0nat,
{
    let ghost am = arms_model(arms@);
    let mut i: usize = 0;
    while i < arms.len()
        invariant
            i <= arms@.len(),
            am == arms_model(arms@),
            forall|k: int| 0 <= k < i ==> #[trigger] is_catchall(am[k]),
        ensures
            i <= arms@.len(),
            forall|k: int| 0 <= k < i ==> #[trigger] is_catchall(am[k]),
            i < arms@.len() ==> !is_catchall(am[i as int]),
        decreases arms.len() - i,
    {
        proof { assert(am[i as int] == arms@[i as int]@); }
        if !arms[i].is_catchall() {
            break;
        }
        i += 1;
    }
    proof { lemma_first_relevant(am, i as int); }
    if i == arms.len() {
        return None;
    }
    proof { assert(am[i as int] == arms@[i as int]@); }
    let (kind, switch_path) = match pick_switch_kind(&arms[i]) {
        Some(p) => p,
        None => {
            proof { assert(switch_of(am) is None); }
            return None;
        },
    };
    if validate_switch_arms(arms, &kind, &switch_path).is_none() {
        return None;
    }
    proof {
        assert forall|k: int| 0 <= k < arms@.len() implies #[trigger] arm_labelled(am[k], kind) by {
            assert(arm_fits(am[k], kind, switch_path@));
        }
        lemma_weight_positive(am, i as int);
        lemma_catchalls(am);
    }
    let grouped = group_switch_branches(arms, &kind);
    let GroupedBranches { order, by_label, fallback } = grouped;
    let branches = build_switch_branches(order, by_label, fallback.as_slice(), Ghost(am), Ghost(kind), Ghost(switch_path@));
    let fallback = if fallback.len() == 0 {
        None
    } else {
        Some(Box::new(build_tree(fallback)))
    };
    let shape = classify_switch_shape(&kind, branches.as_slice(), &fallback);
    Some(Decision::Switch { path: switch_path, kind, shape, branches, fallback })
}

/// Builds one branch per case group, splicing the catchall arms into any case
/// body that can fail: Go `switch` cases do not fall through to `default`.
fn build_switch_branches(
    order: Vec<String>,
    by_label: Vec<BranchGroup>,
    fallback_arms: &[ArmInfo],
    Ghost(arms): Ghost<Seq<ArmModel>>,
    Ghost(kind): Ghost<SwitchKind>,
    Ghost(path): Ghost<Seq<SegmentModel>>,
) -> (r: Vec<SwitchBranch>)
    requires
        arms_fit(arms, kind, path),
        groups_match(order@, by_label@, arms, kind),
        arms_model(fallback_arms@) == catchalls_of(arms),
    ensures
        branches_model(r@) == branch_list(arms, kind, order@.len()),
    decreases weight(arms), arms.len(), 0nat, 0nat,
{
    let mut branches: Vec<SwitchBranch> = Vec::new();
    let mut k: usize = 0;
    while k < order.len()
        invariant
            k <= order@.len(),
            arms_fit(arms, kind, path),
            groups_match(order@, by_label@, arms, kind),
            arms_model(fallback_arms@) == catchalls_of(arms),
            branches_model(branches@) == branch_list(arms, kind, k as nat),
        decreases order.len() - k,
    {
        let ghost g = groups_of(arms, kind)[k as int];
        let group = &by_label[k];
        let mut any_inner_can_fail = false;
        let mut j: usize = 0;
        while j < group.arms.len()
            invariant
                j <= group.arms@.len(),
                arms_model(group.arms@) == g.arms,
                any_inner_can_fail == exists|x: int| 0 <= x < j && #[trigger] can_fail(g.arms[x]),
            decreases group.arms.len() - j,
        {
            proof { lemma_checks_model(group.arms@[j as int].checks@); assert(g.arms[j as int] == group.arms@[j as int]@); }
            if group.arms[j].has_guard || group.arms[j].checks.len() > 0 {
                proof { assert(can_fail(g.arms[j as int])); }
                any_inner_can_fail = true;
            } else {
                proof { assert(!can_fail(g.arms[j as int])); }
            }
            j += 1;
        }
        proof {
            lemma_case_arms_weight(arms, kind, path, k as int);
            assert(any_inner_can_fail == some_inner_can_fail(g.arms));
        }
        let body = if any_inner_can_fail {
            let mut with_fallback = copy_arms(group.arms.as_slice(), 0, group.arms.len());
            let extra = copy_arms(fallback_arms, 0, fallback_arms.len());
            let ghost a1 = with_fallback@;
            let mut extra_mut = extra;
            with_fallback.append(&mut extra_mut);
            proof {
                assert(group.arms@.subrange(0, group.arms@.len() as int) =~= group.arms@);
                assert(fallback_arms@.subrange(0, fallback_arms@.len() as int) =~= fallback_arms@);
                assert(arms_model(with_fallback@) =~= arms_model(a1) + arms_model(extra@));
            }
            with_fallback
        } else {
            let c = copy_arms(group.arms.as_slice(), 0, group.arms.len());
            proof { assert(group.arms@.subrange(0, group.arms@.len() as int) =~= group.arms@); }
            c
        };
        let decision = build_tree(body);
        let branch = SwitchBranch {
            case_label: order[k].clone(),
            needs_stdlib: group.needs_stdlib,
            decision,
        };
        let ghost before = branches@;
        branches.push(branch);
        proof {
            assert(branches@.drop_last() =~= before);
        }
        k += 1;
    }
    branches
}

/// Builds an `if`/`else if` chain from the arms.
pub fn build_chain(arms: Vec<ArmInfo>) -> (r: Decision)
    ensures
        r@ == chain_of(arms_model(arms@)),
    decreases weight(arms_model(arms@)), arms@.len(), 1nat, 0nat,
{
    let ghost am = arms_model(arms@);
    let mut tests: Vec<ChainTest> = Vec::new();
    let mut i: usize = 0;
    while i < arms.len()
        invariant
            i <= arms@.len(),
            am == arms_model(arms@),
            forall|k: int| 0 <= k < i ==> !(#[trigger] is_catchall(am[k]) && !am[k].has_guard),
            tests_model(tests@) == chain_tests(am, i as nat),
        decreases arms.len() - i,
    {
        let arm = &arms[i];
        proof { assert(am[i as int] == arm@); }
        if arm.is_catchall() && !arm.has_guard {
            proof {
                lemma_stop_index(am, i as int);
                lemma_tests_model(tests@);
            }
            let fallback = Decision::Success { arm_index: arm.arm_index, bindings: copy_bindings(&arm.bindings) };
            proof {
                assert(fallback@ == DecisionModel::Success { arm_index: am[i as int].arm_index, bindings: am[i as int].bindings });
            }
            return if tests.len() == 0 {
                fallback
            } else {
                Decision::Chain { tests, fallback: Box::new(fallback) }
            };
        }
        let decision = if arm.has_guard {
            let remaining = copy_arms(arms.as_slice(), i + 1, arms.len());
            proof {
                assert(arms_model(arms@.subrange(i + 1, arms@.len() as int)) =~= am.subrange(i + 1, am.len() as int));
                lemma_weight_subrange(am, i + 1, am.len() as int);
            }
            let failure = build_tree(remaining);
            let success = Decision::Success { arm_index: arm.arm_index, bindings: Vec::new() };
            proof {
                assert(bindings_model(Seq::<PatternBinding>::empty()) =~= Seq::<BindingModel>::empty());
                assert(success@ == DecisionModel::Success { arm_index: am[i as int].arm_index, bindings: Seq::empty() });
            }
            Decision::Guard {
                arm_index: arm.arm_index,
                bindings: copy_bindings(&arm.bindings),
                success: Box::new(success),
                failure: Box::new(failure),
            }
        } else {
            Decision::Success { arm_index: arm.arm_index, bindings: copy_bindings(&arm.bindings) }
        };
        let mut checks: Vec<Check> = Vec::new();
        if let Some(assertion) = &arm.root_assertion {
            checks.push(type_assertion_to_check(assertion.copy()));
        }
        let rest = copy_checks(&arm.checks, 0);
        let ghost c1 = checks@;
        let mut rest_mut = rest;
        checks.append(&mut rest_mut);
        proof {
            assert(arm.checks@.subrange(0, arm.checks@.len() as int) =~= arm.checks@);
            lemma_checks_model_add(c1, rest@);
            assert(checks@ =~= c1 + rest@);
            if arm.root_assertion is Some {
                assert(c1.drop_last() =~= Seq::<Check>::empty());
                assert(checks_model(Seq::<Check>::empty()) == Seq::<CheckModel>::empty());
            } else {
                assert(checks_model(c1) =~= Seq::<CheckModel>::empty());
            }
            assert(checks_model(checks@) =~= chain_checks(am[i as int]));
        }
        let ghost before = tests@;
        let ghost dm = decision@;
        let test = ChainTest { checks, decision };
        tests.push(test);
        proof {
            assert(tests@.drop_last() =~= before);
            assert(tests_model(tests@) == tests_model(before).push(TestModel { checks: chain_checks(am[i as int]), decision: dm }));
        }
        i += 1;
    }
    proof { lemma_stop_index(am, i as int); }
    let unreachable = Decision::Unreachable;
    proof { assert(unreachable@ == DecisionModel::Unreachable); }
    Decision::Chain { tests, fallback: Box::new(unreachable) }
}


/// Whether a decision tree has an unconditional success path.
pub open spec fn is_exhaustive(d: DecisionModel) -> bool
    decreases d,
{
    match d {
        DecisionModel::Success { .. } => true,
        DecisionModel::Chain { tests, fallback } => (*fallback is Unreachable && tests.len() > 1)
            || is_exhaustive(*fallback),
        DecisionModel::Switch { fallback, branches, .. } => fallback is Some || branches.len() > 0,
        _ => false,
    }
}

/// Whether a terminal success is reachable without passing a guard.
pub open spec fn has_unguarded_terminal(d: DecisionModel) -> bool
    decreases d,
{
    match d {
        DecisionModel::Success { .. } => true,
        DecisionModel::Guard { failure, .. } => has_unguarded_terminal(*failure),
        DecisionModel::Chain { tests, fallback } => has_unguarded_terminal(*fallback) || (
        *fallback is Unreachable && tests.len() > 0 && has_unguarded_terminal(tests.last().decision)),
        DecisionModel::Switch { fallback, branches, .. } => match fallback {
            Some(fb) => has_unguarded_terminal(*fb),
            None => branches.len() > 0,
        },
        DecisionModel::Unreachable => false,
    }
}

/// True when the tree has an unconditional success path.
pub fn decision_is_exhaustive(tree: &Decision) -> (r: bool)
    ensures
        r == is_exhaustive(tree@),
    decreases tree,
{
    match tree {
        Decision::Success { .. } => true,
        Decision::Chain { tests, fallback } => {
            proof { lemma_tests_model(tests@); }
            (matches!(**fallback, Decision::Unreachable) && tests.len() > 1) || decision_is_exhaustive(fallback)
        },
        Decision::Switch { fallback, branches, .. } => {
            proof { lemma_branches_model(branches@); }
            fallback.is_some() || branches.len() > 0
        },
        _ => false,
    }
}

/// True when the tree has a terminal success reachable without passing a guard.
pub fn tree_has_unguarded_terminal(tree: &Decision) -> (r: bool)
    ensures
        r == has_unguarded_terminal(tree@),
    decreases tree,
{
    match tree {
        Decision::Success { .. } => true,
        Decision::Guard { failure, .. } => tree_has_unguarded_terminal(failure),
        Decision::Chain { tests, fallback } => {
            proof { lemma_tests_model(tests@); }
            if tree_has_unguarded_terminal(fallback) {
                return true;
            }
            if !matches!(**fallback, Decision::Unreachable) || tests.len() == 0 {
                return false;
            }
            let n = tests.len();
            proof {
                assert(decreases_to!(*tree => tree->Chain_tests));
                vstd::std_specs::vec::axiom_vec_index_decreases(tree->Chain_tests, n - 1);
            }
            tree_has_unguarded_terminal(&tests[n - 1].decision)
        },
        Decision::Switch { fallback, branches, .. } => {
            proof { lemma_branches_model(branches@); }
            match fallback {
                Some(fb) => tree_has_unguarded_terminal(fb),
                None => branches.len() > 0,
            }
        },
        Decision::Unreachable => false,
    }
}

/// The checks joined into one Go condition; `"true"` when there are none.
pub open spec fn condition_text(checks: Seq<CheckModel>, subject: Seq<char>) -> Seq<char> {
    if checks.len() == 0 {
        seq!['t', 'r', 'u', 'e']
    } else {
        join(conjunction_text(checks, subject), and_sep())
    }
}

/// Renders the checks as one `&&`-joined condition on `subject_var`.
pub fn render_condition(checks: &[Check], subject_var: &str) -> (r: String)
    ensures
        r@ == condition_text(checks_model(checks@), subject_var@),
{
    proof { lemma_checks_model(checks@); }
    if checks.len() == 0 {
        proof {
            reveal_strlit("true");
            assert("true"@ =~= seq!['t', 'r', 'u', 'e']);
        }
        return String::from_str("true");
    }
    let ghost cm = checks_model(checks@);
    let mut conditions: Vec<String> = Vec::new();
    let mut i: usize = 0;
    while i < checks.len()
        invariant
            i <= checks@.len(),
            cm == checks_model(checks@),
            cm.len() == checks@.len(),
            forall|k: int| 0 <= k < checks@.len() ==> #[trigger] cm[k] == checks@[k]@,
            strings_view(conditions@) =~= conjunction_text(cm.subrange(0, i as int), subject_var@),
        decreases checks.len() - i,
    {
        let t = checks[i].render(subject_var);
        proof {
            assert(cm.subrange(0, i + 1).drop_last() =~= cm.subrange(0, i as int));
        }
        conditions.push(t);
        i += 1;
    }
    proof {
        assert(cm.subrange(0, i as int) =~= cm);
        reveal_strlit(" && ");
        assert(" && "@ =~= and_sep());
    }
    join_strings(&conditions, " && ")
}

/// A check that is a root-path type assertion, or an or-check whose every
/// alternative is a single root-path type assertion.
pub open spec fn is_root_assertion_shape(c: CheckModel) -> bool {
    match c {
        CheckModel::TypeAssert { path, .. } => path.len() == 0,
        CheckModel::Or { alternatives } => forall|i: int|
            0 <= i < alternatives.len() ==> #[trigger] alternatives[i].len() == 1 && alternatives[i][0] is TypeAssert
                && alternatives[i][0]->TypeAssert_path.len() == 0,
        _ => false,
    }
}

/// Whether `k` is the first root-assertion-shaped check.
pub open spec fn is_first_root_assertion(checks: Seq<CheckModel>, k: int) -> bool {
    0 <= k < checks.len() && is_root_assertion_shape(checks[k]) && forall|j: int|
        0 <= j < k ==> !#[trigger] is_root_assertion_shape(checks[j])
}

/// Whether lifting the root assertion out of `checks` is defined: the first
/// root-assertion-shaped check, if any, is not an or-check with no alternatives.
pub open spec fn root_assertion_liftable(checks: Seq<CheckModel>) -> bool {
    forall|k: int| #[trigger] is_first_root_assertion(checks, k) ==> !(checks[k] matches CheckModel::Or {
        alternatives,
    } && alternatives.len() == 0)
}

/// The type assertion a root-assertion-shaped check stands for.
pub open spec fn lifted_assertion(c: CheckModel) -> AssertionModel {
    match c {
        CheckModel::TypeAssert { path, go_type } => AssertionModel { path, go_types: seq![go_type] },
        CheckModel::Or { alternatives } => AssertionModel {
            path: alternatives[0][0]->TypeAssert_path,
            go_types: Seq::new(alternatives.len(), |i: int| alternatives[i][0]->TypeAssert_go_type),
        },
        _ => AssertionModel { path: Seq::empty(), go_types: Seq::empty() },
    }
}

/// Whether `c` is a root type assertion, or an or-check of single root
/// type assertions.
fn is_root_assertion_check(c: &Check) -> (r: bool)
    ensures
        r == is_root_assertion_shape(c@),
{
    match c {
        Check::TypeAssert { path, .. } => path.is_root(),
        Check::Or { alternatives } => {
            proof { lemma_alternatives_model(alternatives@); }
            let mut all = true;
            let mut a: usize = 0;
            while a < alternatives.len()
                invariant
                    a <= alternatives@.len(),
                    alternatives_model(alternatives@).len() == alternatives@.len(),
                    forall|x: int| 0 <= x < alternatives@.len() ==> #[trigger] alternatives_model(alternatives@)[x] == checks_model(alternatives@[x]@),
                    all == forall|x: int| 0 <= x < a ==> #[trigger] alternatives_model(alternatives@)[x].len() == 1
                        && alternatives_model(alternatives@)[x][0] is TypeAssert
                        && alternatives_model(alternatives@)[x][0]->TypeAssert_path.len() == 0,
                decreases alternatives.len() - a,
            {
                let alt = &alternatives[a];
                proof { lemma_checks_model(alt@); }
                let ok = if alt.len() == 1 {
                    match &alt[0] {
                        Check::TypeAssert { path, .. } => path.is_root(),
                        _ => false,
                    }
                } else {
                    false
                };
                proof {
                    let am = alternatives_model(alternatives@)[a as int];
                    assert(ok == (am.len() == 1 && am[0] is TypeAssert && am[0]->TypeAssert_path.len() == 0));
                    if !ok {
                        assert(!(alternatives_model(alternatives@)[a as int].len() == 1
                            && alternatives_model(alternatives@)[a as int][0] is TypeAssert
                            && alternatives_model(alternatives@)[a as int][0]->TypeAssert_path.len() == 0));
                    }
                }
                all = all && ok;
                a += 1;
            }
            all
        },
        _ => false,
    }
}

/// Moves a root-path type assertion out of `checks`: a single root
/// `TypeAssert`, or an or-check whose alternatives are each one root
/// `TypeAssert`; the first such check is removed and returned.
pub fn extract_root_assertion(checks: &mut Vec<Check>) -> (r: Option<TypeAssertion>)
    requires
        root_assertion_liftable(checks_model(old(checks)@)),
    ensures
        match r {
            Some(t) => exists|k: int|
                is_first_root_assertion(checks_model(old(checks)@), k) && t@ == lifted_assertion(
                    checks_model(old(checks)@)[k],
                ) && checks_model(final(checks)@) == checks_model(old(checks)@).remove(k),
            None => (forall|k: int|
                0 <= k < old(checks)@.len() ==> !#[trigger] is_root_assertion_shape(checks_model(old(checks)@)[k]))
                && final(checks)@ == old(checks)@,
        },
{
    let ghost cm = checks_model(checks@);
    proof { lemma_checks_model(checks@); }
    let mut position: usize = 0;
    let mut found = false;
    while position < checks.len()
        invariant_except_break
            !found,
        invariant
            position <= checks@.len(),
            cm == checks_model(checks@),
            cm.len() == checks@.len(),
            forall|k: int| 0 <= k < checks@.len() ==> #[trigger] cm[k] == checks@[k]@,
            forall|j: int| 0 <= j < position ==> !#[trigger] is_root_assertion_shape(cm[j]),
        ensures
            position <= checks@.len(),
            forall|j: int| 0 <= j < position ==> !#[trigger] is_root_assertion_shape(cm[j]),
            found ==> position < checks@.len() && is_root_assertion_shape(cm[position as int]),
            !found ==> position == checks@.len(),
        decreases checks.len() - position,
    {
        let shaped = is_root_assertion_check(&checks[position]);
        proof {
            assert(shaped == is_root_assertion_shape(cm[position as int]));
        }
        if shaped {
            found = true;
            break;
        }
        position += 1;
    }
    if !found {
        return None;
    }
    proof {
        assert(is_first_root_assertion(cm, position as int));
    }
    let removed = checks.remove(position);
    proof {
        assert(removed@ == cm[position as int]);
        assert(checks@ =~= old(checks)@.remove(position as int));
        lemma_checks_model(checks@);
        assert(checks_model(checks@) =~= cm.remove(position as int));
    }
    match removed {
        Check::TypeAssert { path, go_type } => {
            let mut go_types: Vec<String> = Vec::new();
            go_types.push(go_type);
            let t = TypeAssertion { path, go_types };
            proof {
                assert(strings_view(t.go_types@) =~= seq![cm[position as int]->TypeAssert_go_type]);
            }
            Some(t)
        },
        Check::Or { alternatives } => {
            let ghost alts = alternatives_model(alternatives@);
            proof { lemma_alternatives_model(alternatives@); }
            let mut go_types: Vec<String> = Vec::with_capacity(alternatives.len());
            let mut shared_path: Option<AccessPath> = None;
            let mut a: usize = 0;
            while a < alternatives.len()
                invariant
                    a <= alternatives@.len(),
                    alts == alternatives_model(alternatives@),
                    alts.len() == alternatives@.len(),
                    forall|x: int| 0 <= x < alternatives@.len() ==> #[trigger] alts[x] == checks_model(alternatives@[x]@),
                    forall|x: int|
                        0 <= x < alts.len() ==> #[trigger] alts[x].len() == 1 && alts[x][0] is TypeAssert
                            && alts[x][0]->TypeAssert_path.len() == 0,
                    strings_view(go_types@) =~= Seq::new(a as nat, |i: int| alts[i][0]->TypeAssert_go_type),
                    a == 0 <==> shared_path is None,
                    a > 0 ==> shared_path->0@ == alts[0][0]->TypeAssert_path,
                decreases alternatives.len() - a,
            {
                let alt = &alternatives[a];
                proof {
                    lemma_checks_model(alt@);
                    assert(alts[a as int] == checks_model(alt@));
                    assert(alts[a as int].len() == 1 && alts[a as int][0] is TypeAssert);
                    assert(alts[a as int][0] == alt@[0]@);
                }
                match &alt[0] {
                    Check::TypeAssert { path, go_type } => {
                        if shared_path.is_none() {
                            shared_path = Some(path.copy());
                        }
                        let ghost before = go_types@;
                        go_types.push(go_type.clone());
                        proof {
                            assert(strings_view(go_types@) =~= strings_view(before).push(go_type@));
                            assert(go_type@ == alts[a as int][0]->TypeAssert_go_type);
                        }
                    },
                    _ => {
                        assert(false);
                    },
                }
                a += 1;
            }
            let path = match shared_path {
                Some(p) => p,
                None => {
                    assert(false);
                    AccessPath::root()
                },
            };
            Some(TypeAssertion { path, go_types })
        },
        _ => {
            assert(false);
            None
        },
    }
}


pub proof fn lemma_first_root_assertion_unique(checks: Seq<CheckModel>, k1: int, k2: int)
    requires
        is_first_root_assertion(checks, k1),
        is_first_root_assertion(checks, k2),
    ensures
        k1 == k2,
{
    if k1 < k2 {
        assert(!is_root_assertion_shape(checks[k1]));
    } else if k2 < k1 {
        assert(!is_root_assertion_shape(checks[k2]));
    }
}

/// The lifted root assertion of `checks` and the checks that remain.
pub open spec fn lift_root(checks: Seq<CheckModel>) -> (Option<AssertionModel>, Seq<CheckModel>) {
    if exists|k: int| is_first_root_assertion(checks, k) {
        let k = choose|k: int| is_first_root_assertion(checks, k);
        (Some(lifted_assertion(checks[k])), checks.remove(k))
    } else {
        (None, checks)
    }
}

/// An arm whose single check is an or-check of interface type assertions
/// where some alternative carries further checks.
pub open spec fn is_interface_or_with_extras(a: ArmModel) -> bool {
    a.checks.len() == 1 && a.checks[0] is Or && (forall|i: int|
        0 <= i < a.checks[0]->Or_alternatives.len() ==> #[trigger] a.checks[0]->Or_alternatives[i].len() > 0
            && a.checks[0]->Or_alternatives[i][0] is TypeAssert) && (exists|i: int|
        0 <= i < a.checks[0]->Or_alternatives.len() && #[trigger] a.checks[0]->Or_alternatives[i].len() > 1)
}

/// The arms an arm splits into: one per alternative for an interface or-check
/// with extras, each with its root assertion lifted; otherwise the arm itself.
pub open spec fn expand_arm(a: ArmModel) -> Seq<ArmModel> {
    if is_interface_or_with_extras(a) {
        let alts = a.checks[0]->Or_alternatives;
        Seq::new(
            alts.len(),
            |j: int|
                ArmModel {
                    arm_index: a.arm_index,
                    root_assertion: lift_root(alts[j]).0,
                    checks: lift_root(alts[j]).1,
                    bindings: a.bindings,
                    has_guard: a.has_guard,
                },
        )
    } else {
        seq![a]
    }
}

/// All arms after splitting interface or-checks with extras.
pub open spec fn expanded_arms(arms: Seq<ArmModel>) -> Seq<ArmModel>
    decreases arms.len(),
{
    if arms.len() == 0 {
        Seq::empty()
    } else {
        expanded_arms(arms.drop_last()) + expand_arm(arms.last())
    }
}

/// Whether every interface or-check with extras can have its root lifted.
pub open spec fn expansion_defined(arms: Seq<ArmModel>) -> bool {
    forall|i: int, j: int|
        0 <= i < arms.len() && is_interface_or_with_extras(arms[i]) && 0 <= j
            < arms[i].checks[0]->Or_alternatives.len() ==> #[trigger] root_assertion_liftable(
            arms[i].checks[0]->Or_alternatives[j],
        )
}

/// Whether `e` carries the index, bindings and guard flag of `a`.
pub open spec fn same_arm_identity(e: ArmModel, a: ArmModel) -> bool {
    e.arm_index == a.arm_index && e.bindings == a.bindings && e.has_guard == a.has_guard
}

/// Splitting arms keeps who each arm is: every arm that an arm splits into
/// carries that arm's index, bindings and guard flag; an arm that is not
/// split is kept unchanged; every arm yields at least one arm; and every
/// arm of the whole expansion comes from a source arm with the same index,
/// bindings and guard flag.
pub proof fn law_expansion_keeps_arm_identity(a: ArmModel, arms: Seq<ArmModel>)
    ensures
        expand_arm(a).len() >= 1,
        forall|j: int| 0 <= j < expand_arm(a).len() ==> same_arm_identity(#[trigger] expand_arm(a)[j], a),
        !is_interface_or_with_extras(a) ==> expand_arm(a) == seq![a],
        expanded_arms(arms).len() >= arms.len(),
        forall|k: int|
            0 <= k < expanded_arms(arms).len() ==> exists|i: int|
                0 <= i < arms.len() && same_arm_identity(#[trigger] expanded_arms(arms)[k], #[trigger] arms[i]),
    decreases arms.len(),
{
    if is_interface_or_with_extras(a) {
        let alts = a.checks[0]->Or_alternatives;
        let j0 = choose|i: int| 0 <= i < alts.len() && #[trigger] alts[i].len() > 1;
        assert(expand_arm(a).len() == alts.len());
    }
    if arms.len() > 0 {
        let prev = arms.drop_last();
        let last = arms.last();
        law_expansion_keeps_arm_identity(last, prev);
        let ep = expanded_arms(prev);
        let el = expand_arm(last);
        assert(expanded_arms(arms) == ep + el);
        assert forall|k: int| 0 <= k < expanded_arms(arms).len() implies exists|i: int|
            0 <= i < arms.len() && same_arm_identity(#[trigger] expanded_arms(arms)[k], #[trigger] arms[i]) by {
            if k < ep.len() {
                assert(expanded_arms(arms)[k] == ep[k]);
                let i = choose|i: int| 0 <= i < prev.len() && same_arm_identity(#[trigger] ep[k], #[trigger] prev[i]);
                assert(prev[i] == arms[i]);
                assert(same_arm_identity(expanded_arms(arms)[k], arms[i]));
            } else {
                assert(expanded_arms(arms)[k] == el[k - ep.len()]);
                assert(same_arm_identity(el[k - ep.len()], last));
                assert(arms[arms.len() - 1] == last);
                assert(same_arm_identity(expanded_arms(arms)[k], arms[arms.len() - 1]));
            }
        }
    }
}

pub proof fn lemma_expanded_identity(arms: Seq<ArmModel>)
    requires
        forall|i: int| 0 <= i < arms.len() ==> !#[trigger] is_interface_or_with_extras(arms[i]),
    ensures
        expanded_arms(arms) == arms,
    decreases arms.len(),
{
    if arms.len() > 0 {
        lemma_expanded_identity(arms.drop_last());
        assert(arms.drop_last().push(arms.last()) =~= arms);
    }
}

/// Whether an arm's single check is an or-check of interface type assertions
/// with extra checks in some alternative.
pub fn arm_is_interface_or_with_extras(arm: &ArmInfo) -> (r: bool)
    ensures
        r == is_interface_or_with_extras(arm@),
{
    proof { lemma_checks_model(arm.checks@); }
    if arm.checks.len() != 1 {
        return false;
    }
    let alternatives = match &arm.checks[0] {
        Check::Or { alternatives } => alternatives,
        _ => return false,
    };
    let ghost alts = alternatives_model(alternatives@);
    proof {
        lemma_alternatives_model(alternatives@);
        assert(alts == arm@.checks[0]->Or_alternatives);
    }
    let mut all_asserts = true;
    let mut any_extra = false;
    let mut i: usize = 0;
    while i < alternatives.len()
        invariant
            i <= alternatives@.len(),
            alts == alternatives_model(alternatives@),
            alts.len() == alternatives@.len(),
            forall|x: int| 0 <= x < alternatives@.len() ==> #[trigger] alts[x] == checks_model(alternatives@[x]@),
            all_asserts == forall|x: int| 0 <= x < i ==> #[trigger] alts[x].len() > 0 && alts[x][0] is TypeAssert,
            any_extra == exists|x: int| 0 <= x < i && #[trigger] alts[x].len() > 1,
        decreases alternatives.len() - i,
    {
        let alt = &alternatives[i];
        proof {
            lemma_checks_model(alt@);
            assert(alts[i as int] == checks_model(alt@));
        }
        let starts_with_assert = alt.len() > 0 && matches!(alt[0], Check::TypeAssert { .. });
        proof {
            if alt.len() > 0 {
                assert(alts[i as int][0] == alt@[0]@);
            }
            if !starts_with_assert {
                assert(!(alts[i as int].len() > 0 && alts[i as int][0] is TypeAssert));
            }
            if alt.len() > 1 {
                assert(alts[i as int].len() > 1);
            }
        }
        all_asserts = all_asserts && starts_with_assert;
        any_extra = any_extra || alt.len() > 1;
        i += 1;
    }
    all_asserts && any_extra
}

/// Splits each interface or-check with extras into one arm per alternative,
/// lifting each alternative's root type assertion.
pub fn expand_interface_or_checks(arm_infos: Vec<ArmInfo>) -> (r: Vec<ArmInfo>)
    requires
        expansion_defined(arms_model(arm_infos@)),
    ensures
        arms_model(r@) == expanded_arms(arms_model(arm_infos@)),
{
    let ghost am = arms_model(arm_infos@);
    let mut any = false;
    let mut i: usize = 0;
    while i < arm_infos.len()
        invariant
            i <= arm_infos@.len(),
            am == arms_model(arm_infos@),
            any == exists|x: int| 0 <= x < i && #[trigger] is_interface_or_with_extras(am[x]),
        decreases arm_infos.len() - i,
    {
        proof { assert(am[i as int] == arm_infos@[i as int]@); }
        if arm_is_interface_or_with_extras(&arm_infos[i]) {
            any = true;
        }
        i += 1;
    }
    if !any {
        proof { lemma_expanded_identity(am); }
        return arm_infos;
    }
    let mut result: Vec<ArmInfo> = Vec::with_capacity(arm_infos.len());
    let mut i: usize = 0;
    while i < arm_infos.len()
        invariant
            i <= arm_infos@.len(),
            am == arms_model(arm_infos@),
            expansion_defined(am),
            arms_model(result@) == expanded_arms(am.subrange(0, i as int)),
        decreases arm_infos.len() - i,
    {
        let arm = &arm_infos[i];
        let ghost prefix = am.subrange(0, i + 1);
        proof {
            assert(prefix.drop_last() =~= am.subrange(0, i as int));
            assert(prefix.last() == arm@);
            lemma_checks_model(arm.checks@);
        }
        if arm_is_interface_or_with_extras(arm) {
            let alternatives = match &arm.checks[0] {
                Check::Or { alternatives } => alternatives,
                _ => {
                    assert(false);
                    return Vec::new();
                },
            };
            let ghost alts = alternatives_model(alternatives@);
            proof {
                lemma_alternatives_model(alternatives@);
                assert(alts == arm@.checks[0]->Or_alternatives);
            }
            let ghost start = result@;
            let mut j: usize = 0;
            while j < alternatives.len()
                invariant
                    j <= alternatives@.len(),
                    alts == alternatives_model(alternatives@),
                    alts.len() == alternatives@.len(),
                    forall|x: int| 0 <= x < alternatives@.len() ==> #[trigger] alts[x] == checks_model(alternatives@[x]@),
                    forall|x: int| 0 <= x < alts.len() ==> #[trigger] root_assertion_liftable(alts[x]),
                    is_interface_or_with_extras(arm@),
                    alts == arm@.checks[0]->Or_alternatives,
                    arms_model(result@) =~= arms_model(start) + expand_arm(arm@).subrange(0, j as int),
                decreases alternatives.len() - j,
            {
                let mut checks = copy_checks(&alternatives[j], 0);
                proof {
                    assert(alternatives@[j as int]@.subrange(0, alternatives@[j as int]@.len() as int) =~= alternatives@[j as int]@);
                    assert(root_assertion_liftable(alts[j as int]));
                }
                let ghost before_checks = checks_model(checks@);
                let ghost before_vec = checks@;
                proof { lemma_checks_model(checks@); }
                let root_assertion = extract_root_assertion(&mut checks);
                proof {
                    if root_assertion is Some {
                        let k = choose|k: int|
                            is_first_root_assertion(before_checks, k) && root_assertion->0@ == lifted_assertion(before_checks[k])
                                && checks_model(checks@) == before_checks.remove(k);
                        let k2 = choose|k: int| is_first_root_assertion(before_checks, k);
                        lemma_first_root_assertion_unique(before_checks, k, k2);
                    } else {
                        assert forall|k: int| !is_first_root_assertion(before_checks, k) by {
                            if 0 <= k < before_checks.len() {
                                assert(!is_root_assertion_shape(checks_model(before_vec)[k]));
                            }
                        }
                    }
                }
                let new_arm = ArmInfo {
                    arm_index: arm.arm_index,
                    root_assertion,
                    checks,
                    bindings: copy_bindings(&arm.bindings),
                    has_guard: arm.has_guard,
                };
                proof {
                    assert(new_arm@ == expand_arm(arm@)[j as int]);
                }
                let ghost before = result@;
                result.push(new_arm);
                proof {
                    assert(arms_model(result@) =~= arms_model(before).push(new_arm@));
                    assert(expand_arm(arm@).subrange(0, j + 1) =~= expand_arm(arm@).subrange(0, j as int).push(
                        expand_arm(arm@)[j as int],
                    ));
                }
                j += 1;
            }
            proof {
                assert(expand_arm(arm@).subrange(0, j as int) =~= expand_arm(arm@));
            }
        } else {
            let ghost before = result@;
            result.push(arm.copy());
            proof {
                assert(arms_model(result@) =~= arms_model(before) + expand_arm(arm@));
            }
        }
        i += 1;
    }
    proof {
        assert(am.subrange(0, i as int) =~= am);
    }
    result
}

} // verus!
