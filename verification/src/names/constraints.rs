//! Constraints on generic type parameters: the bounds written on each
//! parameter, and whether it must be `comparable` in Go.
use vstd::prelude::*;

use rustc_hash::FxBuildHasher;
use std::collections::HashMap;

use crate::text::str_eq;

verus! {

/// Declares `rustc_hash::FxBuildHasher`, the hasher of `FxHashMap`.
#[verifier::external_type_specification]
#[verifier::external_body]
pub struct ExFxBuildHasher(FxBuildHasher);

/// A type annotation as the constraint logic reads it: a named type
/// constructor with its parameters, or any other annotation, kept as written.
#[derive(Debug, PartialEq)]
pub enum Annotation {
    Constructor { name: String, params: Vec<Annotation> },
    Other { text: String },
}

pub enum AnnotationModel {
    Constructor { name: Seq<char>, params: Seq<AnnotationModel> },
    Other { text: Seq<char> },
}

pub open spec fn annotation_model(a: Annotation) -> AnnotationModel
    decreases a, 1nat,
{
    match a {
        Annotation::Constructor { name, params } => AnnotationModel::Constructor {
            name: name@,
            params: annotations_model(params@),
        },
        Annotation::Other { text } => AnnotationModel::Other { text: text@ },
    }
}

pub open spec fn annotations_model(s: Seq<Annotation>) -> Seq<AnnotationModel>
    decreases s, 0nat,
{
    if s.len() == 0 {
        Seq::empty()
    } else {
        annotations_model(s.drop_last()).push(annotation_model(s.last()))
    }
}

impl View for Annotation {
    type V = AnnotationModel;

    open spec fn view(&self) -> AnnotationModel {
        annotation_model(*self)
    }
}

pub proof fn lemma_annotations_model(s: Seq<Annotation>)
    ensures
        annotations_model(s).len() == s.len(),
        forall|i: int| 0 <= i < s.len() ==> #[trigger] annotations_model(s)[i] == s[i]@,
    decreases s.len(),
{
    if s.len() > 0 {
        lemma_annotations_model(s.drop_last());
    }
}

impl Annotation {
    /// A deep copy.
    pub fn copy(&self) -> (r: Annotation)
        ensures
            r@ == self@,
        decreases self,
    {
        match self {
            Annotation::Constructor { name, params } => {
                let mut out: Vec<Annotation> = Vec::new();
                let mut i: usize = 0;
                while i < params.len()
                    invariant
                        i <= params@.len(),
                        self is Constructor,
                        params == self->Constructor_params,
                        annotations_model(out@) == annotations_model(params@.take(i as int)),
                    decreases params@.len() - i,
                {
                    proof {
                        assert(decreases_to!(*self => self->Constructor_params));
                        vstd::std_specs::vec::axiom_vec_index_decreases(self->Constructor_params, i as int);
                    }
                    let c = params[i].copy();
                    let ghost before = out@;
                    out.push(c);
                    proof {
                        assert(out@.drop_last() =~= before);
                        assert(params@.take(i + 1).drop_last() =~= params@.take(i as int));
                    }
                    i += 1;
                }
                proof {
                    assert(params@.take(i as int) =~= params@);
                }
                Annotation::Constructor { name: name.clone(), params: out }
            },
            Annotation::Other { text } => Annotation::Other { text: text.clone() },
        }
    }
}

/// Whether two annotations are the same.
pub(crate) fn annotation_equal(a: &Annotation, b: &Annotation) -> (r: bool)
    ensures
        r == (a@ == b@),
    decreases a,
{
    match (a, b) {
        (Annotation::Constructor { name: n1, params: p1 }, Annotation::Constructor { name: n2, params: p2 }) => {
            proof {
                lemma_annotations_model(p1@);
                lemma_annotations_model(p2@);
            }
            if !str_eq(n1.as_str(), n2.as_str()) {
                return false;
            }
            if p1.len() != p2.len() {
                proof {
                    assert(annotations_model(p1@).len() != annotations_model(p2@).len());
                }
                return false;
            }
            let mut i: usize = 0;
            while i < p1.len()
                invariant
                    i <= p1@.len(),
                    p1@.len() == p2@.len(),
                    a is Constructor,
                    p1 == a->Constructor_params,
                    b is Constructor,
                    p2 == b->Constructor_params,
                    annotations_model(p1@).len() == p1@.len(),
                    annotations_model(p2@).len() == p2@.len(),
                    forall|k: int| 0 <= k < p1@.len() ==> #[trigger] annotations_model(p1@)[k] == p1@[k]@,
                    forall|k: int| 0 <= k < p2@.len() ==> #[trigger] annotations_model(p2@)[k] == p2@[k]@,
                    forall|k: int| 0 <= k < i ==> p1@[k]@ == p2@[k]@,
                decreases p1@.len() - i,
            {
                proof {
                    assert(decreases_to!(*a => a->Constructor_params));
                    vstd::std_specs::vec::axiom_vec_index_decreases(a->Constructor_params, i as int);
                }
                if !annotation_equal(&p1[i], &p2[i]) {
                    proof {
                        assert(annotations_model(p1@)[i as int] != annotations_model(p2@)[i as int]);
                        assert(a@->Constructor_params != b@->Constructor_params);
                    }
                    return false;
                }
                i += 1;
            }
            proof {
                assert(annotations_model(p1@) =~= annotations_model(p2@));
            }
            true
        },
        (Annotation::Other { text: t1 }, Annotation::Other { text: t2 }) => str_eq(t1.as_str(), t2.as_str()),
        _ => false,
    }
}

/// A generic parameter with its declared bounds.
pub struct Generic {
    pub name: String,
    pub bounds: Vec<Annotation>,
}

pub struct GenericModel {
    pub name: Seq<char>,
    pub bounds: Seq<AnnotationModel>,
}

impl View for Generic {
    type V = GenericModel;

    open spec fn view(&self) -> GenericModel {
        GenericModel { name: self.name@, bounds: annotations_model(self.bounds@) }
    }
}

/// One constraint on a type parameter.
#[derive(Debug, PartialEq)]
pub enum ConstraintAtom {
    Comparable,
    /// Implies `Comparable`; renders as `cmp.Ordered`.
    Ordered,
    Named(Annotation),
}

pub enum AtomModel {
    Comparable,
    Ordered,
    Named(AnnotationModel),
}

impl View for ConstraintAtom {
    type V = AtomModel;

    open spec fn view(&self) -> AtomModel {
        match *self {
            ConstraintAtom::Comparable => AtomModel::Comparable,
            ConstraintAtom::Ordered => AtomModel::Ordered,
            ConstraintAtom::Named(a) => AtomModel::Named(a@),
        }
    }
}

pub open spec fn atom_implies_comparable(a: AtomModel) -> bool {
    a is Comparable || a is Ordered
}

impl ConstraintAtom {
    /// `Comparable` and `Ordered` both require a comparable type.
    pub fn implies_comparable(&self) -> (r: bool)
        ensures
            r == atom_implies_comparable(self@),
    {
        match self {
            ConstraintAtom::Comparable => true,
            ConstraintAtom::Ordered => true,
            ConstraintAtom::Named(_) => false,
        }
    }
}

fn atom_equal(a: &ConstraintAtom, b: &ConstraintAtom) -> (r: bool)
    ensures
        r == (a@ == b@),
{
    match (a, b) {
        (ConstraintAtom::Comparable, ConstraintAtom::Comparable) => true,
        (ConstraintAtom::Ordered, ConstraintAtom::Ordered) => true,
        (ConstraintAtom::Named(x), ConstraintAtom::Named(y)) => annotation_equal(x, y),
        _ => false,
    }
}

/// The constraints collected for one type parameter.
#[derive(Debug)]
pub struct ParamConstraintSet {
    pub name: String,
    pub explicit: Vec<ConstraintAtom>,
    pub inferred_comparable: bool,
}

pub struct ParamModel {
    pub name: Seq<char>,
    pub explicit: Seq<AtomModel>,
    pub inferred_comparable: bool,
}

pub open spec fn atoms_model(s: Seq<ConstraintAtom>) -> Seq<AtomModel> {
    s.map_values(|a: ConstraintAtom| a@)
}

impl View for ParamConstraintSet {
    type V = ParamModel;

    open spec fn view(&self) -> ParamModel {
        ParamModel {
            name: self.name@,
            explicit: atoms_model(self.explicit@),
            inferred_comparable: self.inferred_comparable,
        }
    }
}

impl Default for ParamConstraintSet {
    fn default() -> (r: Self)
        ensures
            r@.name.len() == 0,
            r@.explicit.len() == 0,
            !r@.inferred_comparable,
    {
        ParamConstraintSet { name: String::new(), explicit: Vec::new(), inferred_comparable: false }
    }
}

/// Adding an explicit constraint: the set with `atom` appended unless it is
/// already there, and whether it was added.
pub open spec fn add_explicit_model(s: ParamModel, atom: AtomModel) -> (ParamModel, bool) {
    if s.explicit.contains(atom) {
        (s, false)
    } else {
        (ParamModel { explicit: s.explicit.push(atom), ..s }, true)
    }
}

/// Marking a parameter as inferred comparable, and whether that changed it.
pub open spec fn mark_model(s: ParamModel) -> (ParamModel, bool) {
    if s.inferred_comparable {
        (s, false)
    } else {
        (ParamModel { inferred_comparable: true, ..s }, true)
    }
}

/// Whether the parameter must be comparable in Go.
pub open spec fn requires_comparable_model(s: ParamModel) -> bool {
    s.inferred_comparable || exists|k: int|
        0 <= k < s.explicit.len() && atom_implies_comparable(#[trigger] s.explicit[k])
}

impl ParamConstraintSet {
    /// Records an explicit constraint; false when it was already recorded.
    pub fn add_explicit(&mut self, atom: ConstraintAtom) -> (r: bool)
        ensures
            (final(self)@, r) == add_explicit_model(old(self)@, atom@),
    {
        let mut i: usize = 0;
        while i < self.explicit.len()
            invariant
                i <= self.explicit@.len(),
                forall|k: int| 0 <= k < i ==> self.explicit@[k]@ != atom@,
            decreases self.explicit@.len() - i,
        {
            if atom_equal(&self.explicit[i], &atom) {
                proof {
                    assert(atoms_model(self.explicit@)[i as int] == atom@);
                }
                return false;
            }
            i += 1;
        }
        proof {
            assert(!atoms_model(self.explicit@).contains(atom@)) by {
                if atoms_model(self.explicit@).contains(atom@) {
                    let k = choose|k: int|
                        0 <= k < atoms_model(self.explicit@).len() && atoms_model(self.explicit@)[k]
                            == atom@;
                    assert(self.explicit@[k]@ == atom@);
                }
            }
        }
        let ghost before = self.explicit@;
        self.explicit.push(atom);
        proof {
            assert(atoms_model(self.explicit@) =~= atoms_model(before).push(atom@));
        }
        true
    }

    /// Marks the parameter as needing `comparable`; false when it already was.
    pub fn mark_inferred_comparable(&mut self) -> (r: bool)
        ensures
            (final(self)@, r) == mark_model(old(self)@),
    {
        if self.inferred_comparable {
            return false;
        }
        self.inferred_comparable = true;
        true
    }

    /// Whether the parameter must be comparable: inferred so, or bounded by
    /// `Comparable` or `Ordered`.
    pub fn requires_comparable(&self) -> (r: bool)
        ensures
            r == requires_comparable_model(self@),
    {
        if self.inferred_comparable {
            return true;
        }
        let mut i: usize = 0;
        while i < self.explicit.len()
            invariant
                i <= self.explicit@.len(),
                forall|k: int| 0 <= k < i ==> !atom_implies_comparable(#[trigger] self.explicit@[k]@),
            decreases self.explicit@.len() - i,
        {
            if self.explicit[i].implies_comparable() {
                proof {
                    assert(atom_implies_comparable(self@.explicit[i as int]));
                }
                return true;
            }
            i += 1;
        }
        proof {
            assert forall|k: int| 0 <= k < self@.explicit.len() implies !atom_implies_comparable(
                #[trigger] self@.explicit[k],
            ) by {
                assert(self@.explicit[k] == self.explicit@[k]@);
            }
        }
        false
    }
}

/// The constraint atom for a builtin constraint name.
pub open spec fn builtin_atom(name: Seq<char>) -> Option<AtomModel> {
    if name == "Comparable"@ || name == "prelude.Comparable"@ {
        Some(AtomModel::Comparable)
    } else if name == "Ordered"@ || name == "prelude.Ordered"@ || name == "go:cmp.Ordered"@ || name
        == "cmp.Ordered"@ {
        Some(AtomModel::Ordered)
    } else {
        None
    }
}

/// Recognises the builtin `Comparable` and `Ordered` constraints by name.
pub fn classify_builtin_name(name: &str) -> (r: Option<ConstraintAtom>)
    ensures
        match r {
            Some(a) => builtin_atom(name@) == Some(a@),
            None => builtin_atom(name@) is None,
        },
{
    if str_eq(name, "Comparable") || str_eq(name, "prelude.Comparable") {
        Some(ConstraintAtom::Comparable)
    } else if str_eq(name, "Ordered") || str_eq(name, "prelude.Ordered") || str_eq(name, "go:cmp.Ordered")
        || str_eq(name, "cmp.Ordered") {
        Some(ConstraintAtom::Ordered)
    } else {
        None
    }
}

/// The constraint a bound stands for: a builtin for a constructor named as
/// one, otherwise the bound itself.
pub open spec fn bound_atom(a: AnnotationModel) -> AtomModel {
    match a {
        AnnotationModel::Constructor { name, .. } => match builtin_atom(name) {
            Some(b) => b,
            None => AtomModel::Named(a),
        },
        _ => AtomModel::Named(a),
    }
}

/// Classifies a bound annotation as a constraint atom.
pub fn classify_bound_annotation(annotation: &Annotation) -> (r: ConstraintAtom)
    ensures
        r@ == bound_atom(annotation@),
{
    if let Annotation::Constructor { name, .. } = annotation {
        if let Some(builtin) = classify_builtin_name(name.as_str()) {
            return builtin;
        }
    }
    ConstraintAtom::Named(annotation.copy())
}

/// Adding an explicit constraint a second time changes nothing and
/// reports false; after the first call the constraint is recorded.
pub proof fn law_add_explicit_dedups(s: ParamModel, a: AtomModel)
    ensures
        add_explicit_model(s, a).0.explicit.contains(a),
        add_explicit_model(add_explicit_model(s, a).0, a) == (add_explicit_model(s, a).0, false),
{
    let s1 = add_explicit_model(s, a).0;
    if !s.explicit.contains(a) {
        assert(s1.explicit[s1.explicit.len() - 1] == a);
    }
}

/// Adding explicit constraints keeps the name and the inferred mark, keeps
/// earlier constraints in place, and never records one twice.
pub proof fn law_add_explicit_keeps_distinct(s: ParamModel, a: AtomModel)
    ensures
        add_explicit_model(s, a).0.name == s.name,
        add_explicit_model(s, a).0.inferred_comparable == s.inferred_comparable,
        s.explicit.is_prefix_of(add_explicit_model(s, a).0.explicit),
        s.explicit.no_duplicates() ==> add_explicit_model(s, a).0.explicit.no_duplicates(),
{
    let e = add_explicit_model(s, a).0.explicit;
    assert(s.explicit =~= e.subrange(0, s.explicit.len() as int));
}

/// A parameter bounded by `Comparable` or `Ordered` must be comparable.
pub proof fn law_comparable_bound_requires_comparable(s: ParamModel, a: AtomModel)
    requires
        atom_implies_comparable(a),
    ensures
        requires_comparable_model(add_explicit_model(s, a).0),
{
    let s1 = add_explicit_model(s, a).0;
    if s.explicit.contains(a) {
        let k = choose|k: int| 0 <= k < s.explicit.len() && s.explicit[k] == a;
        assert(atom_implies_comparable(s1.explicit[k]));
    } else {
        assert(atom_implies_comparable(s1.explicit[s1.explicit.len() - 1]));
    }
}

/// Marking a parameter makes it require `comparable`; marking it again
/// changes nothing and reports false.
pub proof fn law_mark_once(s: ParamModel)
    ensures
        requires_comparable_model(mark_model(s).0),
        mark_model(mark_model(s).0) == (mark_model(s).0, false),
{
}

/// Seeded explicit constraints hold each atom once.
pub proof fn law_seed_explicit_distinct(bounds: Seq<AnnotationModel>)
    ensures
        seed_explicit(bounds).no_duplicates(),
    decreases bounds.len(),
{
    if bounds.len() > 0 {
        law_seed_explicit_distinct(bounds.drop_last());
    }
}

/// Seeding is idempotent: once a symbol is seeded, seeding it again (with
/// any generics) leaves the table as it is; seeding adds the symbol and
/// leaves every other symbol alone.
pub proof fn law_seed_idempotent(
    t: Map<Seq<char>, Seq<ParamModel>>,
    symbol: Seq<char>,
    generics: Seq<GenericModel>,
    again: Seq<GenericModel>,
)
    ensures
        seeded(seeded(t, symbol, generics), symbol, again) == seeded(t, symbol, generics),
        seeded(t, symbol, generics).dom().contains(symbol),
        forall|k: Seq<char>|
            k != symbol && t.dom().contains(k) ==> #[trigger] seeded(t, symbol, generics).dom().contains(k)
                && seeded(t, symbol, generics)[k] == t[k],
        forall|k: Seq<char>| k != symbol ==> (#[trigger] seeded(t, symbol, generics).dom().contains(k)
            <==> t.dom().contains(k)),
{
}

/// Updating one parameter of one symbol touches nothing else: every other
/// symbol, and every other parameter of that symbol, keeps its constraints.
pub proof fn law_table_update_local(
    t: Map<Seq<char>, Seq<ParamModel>>,
    symbol: Seq<char>,
    param: Seq<char>,
    f: spec_fn(ParamModel) -> (ParamModel, bool),
)
    ensures
        table_update(t, symbol, param, f).0.dom() == t.dom(),
        forall|k: Seq<char>|
            k != symbol && t.dom().contains(k) ==> #[trigger] table_update(t, symbol, param, f).0[k]
                == t[k],
        t.dom().contains(symbol) ==> table_update(t, symbol, param, f).0[symbol].len()
            == t[symbol].len(),
        t.dom().contains(symbol) ==> forall|i: int|
            0 <= i < t[symbol].len() && Some(i) != first_param(t[symbol], param) ==> #[trigger] table_update(
                t,
                symbol,
                param,
                f,
            ).0[symbol][i] == t[symbol][i],
{
    if t.dom().contains(symbol) {
        match first_param(t[symbol], param) {
            Some(i) => {
                lemma_first_param_range(t[symbol], param);
                assert(table_update(t, symbol, param, f).0.dom() =~= t.dom());
            },
            None => {},
        }
    }
}

proof fn lemma_first_param_range(sets: Seq<ParamModel>, param: Seq<char>)
    ensures
        first_param(sets, param) matches Some(i) ==> 0 <= i < sets.len() && sets[i].name == param,
    decreases sets.len(),
{
    if sets.len() > 0 {
        lemma_first_param_range(sets.drop_first(), param);
    }
}

/// The models of a list of parameter constraint sets.
pub open spec fn sets_model(s: Seq<ParamConstraintSet>) -> Seq<ParamModel> {
    s.map_values(|p: ParamConstraintSet| p@)
}

/// `FxHashMap<String, Vec<ParamConstraintSet>>`.
pub type ConstraintMap = HashMap<String, Vec<ParamConstraintSet>, FxBuildHasher>;

/// The entries of a constraint map: symbol to its parameters' constraints.
pub uninterp spec fn fx_entries(m: ConstraintMap) -> Map<
    Seq<char>,
    Seq<ParamModel>,
>;

/// A table with no symbol.
pub open spec fn no_entries() -> Map<Seq<char>, Seq<ParamModel>> {
    Map::empty()
}

/// `FxHashMap::default()`: an empty map.
#[verifier::external_body]
fn fx_new() -> (r: ConstraintMap)
    ensures
        fx_entries(r) == no_entries(),
{
    HashMap::default()
}

/// `HashMap::contains_key` on an `FxHashMap` keyed by `String`.
#[verifier::external_body]
fn fx_contains(m: &ConstraintMap, k: &str) -> (r: bool)
    ensures
        r == fx_entries(*m).dom().contains(k@),
{
    m.contains_key(k)
}

/// `HashMap::get`: the entry stored under `k`, if any.
#[verifier::external_body]
fn fx_get<'a>(m: &'a ConstraintMap, k: &str) -> (r: Option<
    &'a Vec<ParamConstraintSet>,
>)
    ensures
        match r {
            Some(v) => fx_entries(*m).dom().contains(k@) && sets_model(v@) == fx_entries(*m)[k@],
            None => !fx_entries(*m).dom().contains(k@),
        },
{
    m.get(k)
}

/// `HashMap::insert`: stores `v` under `k`, replacing any earlier entry.
#[verifier::external_body]
fn fx_insert(m: &mut ConstraintMap, k: String, v: Vec<ParamConstraintSet>)
    ensures
        fx_entries(*final(m)) == fx_entries(*old(m)).insert(k@, sets_model(v@)),
{
    m.insert(k, v);
}

/// `HashMap::remove`: takes out the entry stored under `k`, if any.
#[verifier::external_body]
fn fx_remove(m: &mut ConstraintMap, k: &str) -> (r: Option<
    Vec<ParamConstraintSet>,
>)
    ensures
        fx_entries(*final(m)) == fx_entries(*old(m)).remove(k@),
        match r {
            Some(v) => fx_entries(*old(m)).dom().contains(k@) && sets_model(v@) == fx_entries(
                *old(m),
            )[k@],
            None => !fx_entries(*old(m)).dom().contains(k@),
        },
{
    m.remove(k)
}

/// Constraints of every generic parameter, per generic definition.
#[derive(Debug)]
pub struct GenericConstraintTable {
    by_symbol: ConstraintMap,
}

impl View for GenericConstraintTable {
    type V = Map<Seq<char>, Seq<ParamModel>>;

    closed spec fn view(&self) -> Map<Seq<char>, Seq<ParamModel>> {
        fx_entries(self.by_symbol)
    }
}

impl Default for GenericConstraintTable {
    fn default() -> (r: Self)
        ensures
            r@ == no_entries(),
    {
        GenericConstraintTable { by_symbol: fx_new() }
    }
}

/// The explicit constraints of a parameter seeded from its bounds, in
/// order, each once.
pub open spec fn seed_explicit(bounds: Seq<AnnotationModel>) -> Seq<AtomModel>
    decreases bounds.len(),
{
    if bounds.len() == 0 {
        Seq::empty()
    } else {
        let before = seed_explicit(bounds.drop_last());
        let atom = bound_atom(bounds.last());
        if before.contains(atom) {
            before
        } else {
            before.push(atom)
        }
    }
}

/// The constraint set a generic parameter starts with.
pub open spec fn seed_set(g: GenericModel) -> ParamModel {
    ParamModel { name: g.name, explicit: seed_explicit(g.bounds), inferred_comparable: false }
}

/// The table after seeding `symbol`: unchanged when it is already there.
pub open spec fn seeded(t: Map<Seq<char>, Seq<ParamModel>>, symbol: Seq<char>, generics: Seq<GenericModel>) -> Map<
    Seq<char>,
    Seq<ParamModel>,
> {
    if t.dom().contains(symbol) {
        t
    } else {
        t.insert(symbol, generics.map_values(|g: GenericModel| seed_set(g)))
    }
}

/// The position of the first parameter named `param`.
pub open spec fn first_param(sets: Seq<ParamModel>, param: Seq<char>) -> Option<int>
    decreases sets.len(),
{
    if sets.len() == 0 {
        None
    } else if sets[0].name == param {
        Some(0)
    } else {
        match first_param(sets.drop_first(), param) {
            Some(i) => Some(i + 1),
            None => None,
        }
    }
}

/// Changes the first parameter named `param` of `symbol` with `f`, which
/// also says whether it changed; the table is unchanged (and the answer is
/// false) when there is no such symbol or parameter.
pub open spec fn table_update(
    t: Map<Seq<char>, Seq<ParamModel>>,
    symbol: Seq<char>,
    param: Seq<char>,
    f: spec_fn(ParamModel) -> (ParamModel, bool),
) -> (Map<Seq<char>, Seq<ParamModel>>, bool) {
    if !t.dom().contains(symbol) {
        (t, false)
    } else {
        match first_param(t[symbol], param) {
            None => (t, false),
            Some(i) => (t.insert(symbol, t[symbol].update(i, f(t[symbol][i]).0)), f(t[symbol][i]).1),
        }
    }
}

proof fn lemma_first_param(sets: Seq<ParamModel>, param: Seq<char>, k: int)
    requires
        0 <= k <= sets.len(),
        forall|i: int| 0 <= i < k ==> sets[i].name != param,
        k == sets.len() || sets[k].name == param,
    ensures
        first_param(sets, param) == if k == sets.len() {
            None::<int>
        } else {
            Some(k)
        },
    decreases k,
{
    if k > 0 {
        lemma_first_param(sets.drop_first(), param, k - 1);
    }
}

/// Index of the first set named `param`, or the length when none is.
fn find_param(sets: &Vec<ParamConstraintSet>, param: &str) -> (i: usize)
    ensures
        i <= sets@.len(),
        first_param(sets_model(sets@), param@) == if i == sets@.len() {
            None::<int>
        } else {
            Some(i as int)
        },
{
    let mut i: usize = 0;
    while i < sets.len() && !str_eq(sets[i].name.as_str(), param)
        invariant
            i <= sets@.len(),
            forall|k: int| 0 <= k < i ==> sets@[k].name@ != param@,
        decreases sets@.len() - i,
    {
        i += 1;
    }
    proof {
        lemma_first_param(sets_model(sets@), param@, i as int);
    }
    i
}

impl GenericConstraintTable {
    /// Seeds the constraints of `symbol` from its generics' bounds; does
    /// nothing when the symbol is already seeded.
    pub fn ensure_seeded(&mut self, symbol: &str, generics: &[Generic])
        ensures
            final(self)@ == seeded(old(self)@, symbol@, generics@.map_values(|g: Generic| g@)),
    {
        if fx_contains(&self.by_symbol, symbol) {
            return;
        }
        let ghost gm = generics@.map_values(|g: Generic| g@);
        let mut sets: Vec<ParamConstraintSet> = Vec::new();
        let mut i: usize = 0;
        while i < generics.len()
            invariant
                i <= generics@.len(),
                gm == generics@.map_values(|g: Generic| g@),
                sets_model(sets@) == gm.take(i as int).map_values(|g: GenericModel| seed_set(g)),
            decreases generics@.len() - i,
        {
            let generic = &generics[i];
            proof {
                lemma_annotations_model(generic.bounds@);
            }
            let mut set = ParamConstraintSet {
                name: generic.name.clone(),
                explicit: Vec::new(),
                inferred_comparable: false,
            };
            let mut j: usize = 0;
            proof {
                assert(annotations_model(generic.bounds@).take(0) =~= Seq::<AnnotationModel>::empty());
                assert(atoms_model(set.explicit@) =~= Seq::<AtomModel>::empty());
            }
            while j < generic.bounds.len()
                invariant
                    j <= generic.bounds@.len(),
                    annotations_model(generic.bounds@).len() == generic.bounds@.len(),
                    forall|k: int|
                        0 <= k < generic.bounds@.len() ==> #[trigger] annotations_model(generic.bounds@)[k]
                            == generic.bounds@[k]@,
                    set@ == (ParamModel {
                        name: generic.name@,
                        explicit: seed_explicit(annotations_model(generic.bounds@).take(j as int)),
                        inferred_comparable: false,
                    }),
                decreases generic.bounds@.len() - j,
            {
                let atom = classify_bound_annotation(&generic.bounds[j]);
                set.add_explicit(atom);
                proof {
                    let bm = annotations_model(generic.bounds@);
                    assert(bm.take(j + 1).drop_last() =~= bm.take(j as int));
                    assert(bm.take(j + 1).last() == generic.bounds@[j as int]@);
                }
                j += 1;
            }
            proof {
                assert(annotations_model(generic.bounds@).take(j as int) =~= annotations_model(
                    generic.bounds@,
                ));
                assert(set@ == seed_set(gm[i as int]));
            }
            let ghost before = sets@;
            sets.push(set);
            proof {
                assert(sets_model(sets@) =~= sets_model(before).push(seed_set(gm[i as int])));
                assert(gm.take(i + 1).map_values(|g: GenericModel| seed_set(g)) =~= gm.take(
                    i as int,
                ).map_values(|g: GenericModel| seed_set(g)).push(seed_set(gm[i as int])));
            }
            i += 1;
        }
        proof {
            assert(gm.take(i as int) =~= gm);
        }
        fx_insert(&mut self.by_symbol, String::from_str(symbol), sets);
    }

    /// The constraint sets of `symbol`, if it is seeded.
    pub fn get(&self, symbol: &str) -> (r: Option<&[ParamConstraintSet]>)
        ensures
            match r {
                Some(s) => self@.dom().contains(symbol@) && sets_model(s@) == self@[symbol@],
                None => !self@.dom().contains(symbol@),
            },
    {
        match fx_get(&self.by_symbol, symbol) {
            Some(v) => Some(v.as_slice()),
            None => None,
        }
    }

    /// Records an explicit constraint on parameter `param` of `symbol`;
    /// false when the symbol or parameter is unknown or the constraint was
    /// already there.
    pub fn add_explicit(&mut self, symbol: &str, param: &str, atom: ConstraintAtom) -> (r: bool)
        ensures
            (final(self)@, r) == table_update(
                old(self)@,
                symbol@,
                param@,
                |s: ParamModel| add_explicit_model(s, atom@),
            ),
    {
        let ghost t = self@;
        let ghost f = |s: ParamModel| add_explicit_model(s, atom@);
        let sets = fx_remove(&mut self.by_symbol, symbol);
        let mut sets = match sets {
            None => {
                proof {
                    assert(t.remove(symbol@) =~= t);
                }
                return false;
            },
            Some(v) => v,
        };
        let i = find_param(&sets, param);
        if i == sets.len() {
            let ghost restored = sets_model(sets@);
            fx_insert(&mut self.by_symbol, String::from_str(symbol), sets);
            proof {
                assert(t.remove(symbol@).insert(symbol@, restored) =~= t);
            }
            return false;
        }
        let ghost before = sets@;
        let mut set = sets.remove(i);
        let added = set.add_explicit(atom);
        sets.insert(i, set);
        proof {
            assert(sets_model(sets@) =~= sets_model(before).update(i as int, f(sets_model(before)[i as int]).0));
        }
        let ghost updated = sets_model(sets@);
        fx_insert(&mut self.by_symbol, String::from_str(symbol), sets);
        proof {
            assert(t.remove(symbol@).insert(symbol@, updated) =~= t.insert(symbol@, updated));
        }
        added
    }

    /// Marks parameter `param` of `symbol` as needing `comparable`; false
    /// when the symbol or parameter is unknown or it was already marked.
    pub fn mark_inferred_comparable(&mut self, symbol: &str, param: &str) -> (r: bool)
        ensures
            (final(self)@, r) == table_update(old(self)@, symbol@, param@, |s: ParamModel| mark_model(s)),
    {
        let ghost t = self@;
        let ghost f = |s: ParamModel| mark_model(s);
        let sets = fx_remove(&mut self.by_symbol, symbol);
        let mut sets = match sets {
            None => {
                proof {
                    assert(t.remove(symbol@) =~= t);
                }
                return false;
            },
            Some(v) => v,
        };
        let i = find_param(&sets, param);
        if i == sets.len() {
            let ghost restored = sets_model(sets@);
            fx_insert(&mut self.by_symbol, String::from_str(symbol), sets);
            proof {
                assert(t.remove(symbol@).insert(symbol@, restored) =~= t);
            }
            return false;
        }
        let ghost before = sets@;
        let mut set = sets.remove(i);
        let marked = set.mark_inferred_comparable();
        sets.insert(i, set);
        proof {
            assert(sets_model(sets@) =~= sets_model(before).update(i as int, f(sets_model(before)[i as int]).0));
        }
        let ghost updated = sets_model(sets@);
        fx_insert(&mut self.by_symbol, String::from_str(symbol), sets);
        proof {
            assert(t.remove(symbol@).insert(symbol@, updated) =~= t.insert(symbol@, updated));
        }
        marked
    }
}

} // verus!
