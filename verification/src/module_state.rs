//! What the emitter remembers about the module it is emitting: exported
//! names, impl bounds per receiver, module aliases and renamed identifiers.
use vstd::prelude::*;

use rustc_hash::FxBuildHasher;
use std::collections::{HashMap, HashSet};

use crate::names::constraints::{Annotation, AnnotationModel, Generic, GenericModel, annotations_model};

verus! {

/// `FxHashMap<String, String>`.
pub type NameMap = HashMap<String, String, FxBuildHasher>;

/// `FxHashSet<String>`.
pub type NameSet = HashSet<String, FxBuildHasher>;

/// `FxHashMap<String, Vec<Generic>>`.
pub type BoundsMap = HashMap<String, Vec<Generic>, FxBuildHasher>;

/// The entries of a name map.
pub uninterp spec fn name_entries(m: NameMap) -> Map<Seq<char>, Seq<char>>;

/// The members of a name set.
pub uninterp spec fn name_members(s: NameSet) -> Set<Seq<char>>;

/// The entries of a bounds map.
pub uninterp spec fn bound_entries(m: BoundsMap) -> Map<Seq<char>, Seq<GenericModel>>;

/// The models of a list of generics.
pub open spec fn generics_model(s: Seq<Generic>) -> Seq<GenericModel> {
    s.map_values(|g: Generic| g@)
}

pub open spec fn no_names() -> Map<Seq<char>, Seq<char>> {
    Map::empty()
}

pub open spec fn no_members() -> Set<Seq<char>> {
    Set::empty()
}

pub open spec fn no_bounds() -> Map<Seq<char>, Seq<GenericModel>> {
    Map::empty()
}

/// `FxHashMap::default()` for a name map.
#[verifier::external_body]
fn names_new() -> (r: NameMap)
    ensures
        name_entries(r) == no_names(),
{
    HashMap::default()
}

/// `HashMap::insert` on a name map.
#[verifier::external_body]
fn names_insert(m: &mut NameMap, k: String, v: String)
    ensures
        name_entries(*final(m)) == name_entries(*old(m)).insert(k@, v@),
{
    m.insert(k, v);
}

/// `HashMap::get` on a name map.
#[verifier::external_body]
fn names_get<'a>(m: &'a NameMap, k: &str) -> (r: Option<&'a String>)
    ensures
        match r {
            Some(v) => name_entries(*m).dom().contains(k@) && v@ == name_entries(*m)[k@],
            None => !name_entries(*m).dom().contains(k@),
        },
{
    m.get(k)
}

/// `FxHashSet::default()`.
#[verifier::external_body]
fn set_new() -> (r: NameSet)
    ensures
        name_members(r) == no_members(),
{
    HashSet::default()
}

/// `HashSet::insert`.
#[verifier::external_body]
fn set_insert(s: &mut NameSet, k: String)
    ensures
        name_members(*final(s)) == name_members(*old(s)).insert(k@),
{
    s.insert(k);
}

/// `HashSet::contains`.
#[verifier::external_body]
fn set_contains(s: &NameSet, k: &str) -> (r: bool)
    ensures
        r == name_members(*s).contains(k@),
{
    s.contains(k)
}

/// `FxHashMap::default()` for a bounds map.
#[verifier::external_body]
fn bounds_new() -> (r: BoundsMap)
    ensures
        bound_entries(r) == no_bounds(),
{
    HashMap::default()
}

/// `HashMap::insert` on a bounds map.
#[verifier::external_body]
fn bounds_insert(m: &mut BoundsMap, k: String, v: Vec<Generic>)
    ensures
        bound_entries(*final(m)) == bound_entries(*old(m)).insert(k@, generics_model(v@)),
{
    m.insert(k, v);
}

/// `HashMap::get` on a bounds map.
#[verifier::external_body]
fn bounds_get<'a>(m: &'a BoundsMap, k: &str) -> (r: Option<&'a Vec<Generic>>)
    ensures
        match r {
            Some(v) => bound_entries(*m).dom().contains(k@) && generics_model(v@) == bound_entries(
                *m,
            )[k@],
            None => !bound_entries(*m).dom().contains(k@),
        },
{
    m.get(k)
}

/// `HashMap::remove` on a bounds map.
#[verifier::external_body]
fn bounds_remove(m: &mut BoundsMap, k: &str) -> (r: Option<Vec<Generic>>)
    ensures
        bound_entries(*final(m)) == bound_entries(*old(m)).remove(k@),
        match r {
            Some(v) => bound_entries(*old(m)).dom().contains(k@) && generics_model(v@) == bound_entries(
                *old(m),
            )[k@],
            None => !bound_entries(*old(m)).dom().contains(k@),
        },
{
    m.remove(k)
}

/// `bounds` with `b` appended unless it is already there.
pub open spec fn add_bound(bounds: Seq<AnnotationModel>, b: AnnotationModel) -> Seq<AnnotationModel> {
    if bounds.contains(b) {
        bounds
    } else {
        bounds.push(b)
    }
}

/// `bounds` with each of `more` added in order.
pub open spec fn add_bounds(bounds: Seq<AnnotationModel>, more: Seq<AnnotationModel>) -> Seq<AnnotationModel>
    decreases more.len(),
{
    if more.len() == 0 {
        bounds
    } else {
        add_bound(add_bounds(bounds, more.drop_last()), more.last())
    }
}

/// The position of the first generic named `name`.
pub open spec fn first_generic(gens: Seq<GenericModel>, name: Seq<char>) -> Option<int>
    decreases gens.len(),
{
    if gens.len() == 0 {
        None
    } else if gens[0].name == name {
        Some(0)
    } else {
        match first_generic(gens.drop_first(), name) {
            Some(i) => Some(i + 1),
            None => None,
        }
    }
}

/// The bounds of `g` merged into the first existing generic of the same
/// name; a generic with no namesake is ignored.
pub open spec fn merge_generic(existing: Seq<GenericModel>, g: GenericModel) -> Seq<GenericModel> {
    match first_generic(existing, g.name) {
        None => existing,
        Some(i) => existing.update(
            i,
            GenericModel { name: existing[i].name, bounds: add_bounds(existing[i].bounds, g.bounds) },
        ),
    }
}

/// Every generic of `more` merged in order.
pub open spec fn merge_generics(existing: Seq<GenericModel>, more: Seq<GenericModel>) -> Seq<GenericModel>
    decreases more.len(),
{
    if more.len() == 0 {
        existing
    } else {
        merge_generic(merge_generics(existing, more.drop_last()), more.last())
    }
}

/// The impl bounds after recording `generics` for `receiver`: a new entry,
/// or the bounds merged into the existing one.
pub open spec fn recorded_bounds(
    t: Map<Seq<char>, Seq<GenericModel>>,
    receiver: Seq<char>,
    generics: Seq<GenericModel>,
) -> Map<Seq<char>, Seq<GenericModel>> {
    if t.dom().contains(receiver) {
        t.insert(receiver, merge_generics(t[receiver], generics))
    } else {
        t.insert(receiver, generics)
    }
}

impl Generic {
    /// A deep copy.
    pub fn copy(&self) -> (r: Generic)
        ensures
            r@ == self@,
    {
        let mut bounds: Vec<Annotation> = Vec::new();
        let mut i: usize = 0;
        while i < self.bounds.len()
            invariant
                i <= self.bounds@.len(),
                annotations_model(bounds@) == annotations_model(self.bounds@.take(i as int)),
            decreases self.bounds@.len() - i,
        {
            let b = self.bounds[i].copy();
            let ghost before = bounds@;
            bounds.push(b);
            proof {
                assert(bounds@.drop_last() =~= before);
                assert(self.bounds@.take(i + 1).drop_last() =~= self.bounds@.take(i as int));
            }
            i += 1;
        }
        proof {
            assert(self.bounds@.take(i as int) =~= self.bounds@);
        }
        Generic { name: self.name.clone(), bounds }
    }
}

fn copy_generics(gens: &[Generic]) -> (r: Vec<Generic>)
    ensures
        generics_model(r@) == generics_model(gens@),
{
    let mut out: Vec<Generic> = Vec::new();
    let mut i: usize = 0;
    while i < gens.len()
        invariant
            i <= gens@.len(),
            generics_model(out@) == generics_model(gens@.take(i as int)),
        decreases gens@.len() - i,
    {
        let g = gens[i].copy();
        let ghost before = out@;
        out.push(g);
        proof {
            assert(generics_model(out@) =~= generics_model(before).push(gens@[i as int]@));
            assert(generics_model(gens@.take(i + 1)) =~= generics_model(gens@.take(i as int)).push(
                gens@[i as int]@,
            ));
        }
        i += 1;
    }
    proof {
        assert(gens@.take(i as int) =~= gens@);
    }
    out
}

/// Whether some bound in `bounds` equals `b`.
fn contains_bound(bounds: &Vec<Annotation>, b: &Annotation) -> (r: bool)
    ensures
        r == annotations_model(bounds@).contains(b@),
{
    proof {
        crate::names::constraints::lemma_annotations_model(bounds@);
    }
    let mut i: usize = 0;
    while i < bounds.len()
        invariant
            i <= bounds@.len(),
            annotations_model(bounds@).len() == bounds@.len(),
            forall|k: int| 0 <= k < bounds@.len() ==> #[trigger] annotations_model(bounds@)[k] == bounds@[k]@,
            forall|k: int| 0 <= k < i ==> bounds@[k]@ != b@,
        decreases bounds@.len() - i,
    {
        if crate::names::constraints::annotation_equal(&bounds[i], b) {
            proof {
                assert(annotations_model(bounds@)[i as int] == b@);
            }
            return true;
        }
        i += 1;
    }
    false
}

/// Adds each bound of `more` to `target` unless already there.
fn merge_bounds_into(target: &mut Generic, more: &Generic)
    ensures
        final(target)@ == (GenericModel {
            name: old(target)@.name,
            bounds: add_bounds(old(target)@.bounds, more@.bounds),
        }),
{
    proof {
        crate::names::constraints::lemma_annotations_model(more.bounds@);
    }
    let ghost start = target@;
    let mut j: usize = 0;
    while j < more.bounds.len()
        invariant
            j <= more.bounds@.len(),
            annotations_model(more.bounds@).len() == more.bounds@.len(),
            forall|k: int|
                0 <= k < more.bounds@.len() ==> #[trigger] annotations_model(more.bounds@)[k]
                    == more.bounds@[k]@,
            target@ == (GenericModel {
                name: start.name,
                bounds: add_bounds(start.bounds, annotations_model(more.bounds@).take(j as int)),
            }),
        decreases more.bounds@.len() - j,
    {
        let bound = &more.bounds[j];
        if !contains_bound(&target.bounds, bound) {
            let c = bound.copy();
            let ghost before = target.bounds@;
            target.bounds.push(c);
            proof {
                assert(target.bounds@.drop_last() =~= before);
                assert(annotations_model(target.bounds@) == annotations_model(before).push(bound@));
            }
        }
        proof {
            let mm = annotations_model(more.bounds@);
            assert(mm.take(j + 1).drop_last() =~= mm.take(j as int));
            assert(mm.take(j + 1).last() == bound@);
        }
        j += 1;
    }
    proof {
        assert(annotations_model(more.bounds@).take(j as int) =~= annotations_model(more.bounds@));
    }
}

proof fn lemma_first_generic(gens: Seq<GenericModel>, name: Seq<char>, k: int)
    requires
        0 <= k <= gens.len(),
        forall|i: int| 0 <= i < k ==> gens[i].name != name,
        k == gens.len() || gens[k].name == name,
    ensures
        first_generic(gens, name) == if k == gens.len() {
            None::<int>
        } else {
            Some(k)
        },
    decreases k,
{
    if k > 0 {
        lemma_first_generic(gens.drop_first(), name, k - 1);
    }
}

proof fn lemma_add_bounds(b: Seq<AnnotationModel>, m: Seq<AnnotationModel>)
    ensures
        b.is_prefix_of(add_bounds(b, m)),
        forall|x: AnnotationModel| m.contains(x) ==> add_bounds(b, m).contains(x),
        b.no_duplicates() ==> add_bounds(b, m).no_duplicates(),
        (forall|x: AnnotationModel| m.contains(x) ==> b.contains(x)) ==> add_bounds(b, m) == b,
    decreases m.len(),
{
    if m.len() == 0 {
        assert(b =~= b.subrange(0, b.len() as int));
    } else {
        lemma_add_bounds(b, m.drop_last());
        let mid = add_bounds(b, m.drop_last());
        let r = add_bounds(b, m);
        assert(mid =~= r.subrange(0, mid.len() as int));
        assert(b =~= r.subrange(0, b.len() as int)) by {
            assert forall|i: int| 0 <= i < b.len() implies b[i] == r[i] by {
                assert(b[i] == mid[i]);
            }
        }
        assert forall|x: AnnotationModel| m.contains(x) implies r.contains(x) by {
            let k = choose|k: int| 0 <= k < m.len() && m[k] == x;
            if k < m.len() - 1 {
                assert(m.drop_last()[k] == x);
                assert(m.drop_last().contains(x));
                assert(mid.contains(x));
                let j = choose|j: int| 0 <= j < mid.len() && mid[j] == x;
                assert(r.subrange(0, mid.len() as int)[j] == r[j]);
                assert(r[j] == x);
            } else if !mid.contains(x) {
                assert(r[r.len() - 1] == x);
            } else {
                let j = choose|j: int| 0 <= j < mid.len() && mid[j] == x;
                assert(r.subrange(0, mid.len() as int)[j] == r[j]);
                assert(r[j] == x);
            }
        }
        if forall|x: AnnotationModel| m.contains(x) ==> b.contains(x) {
            assert forall|x: AnnotationModel| m.drop_last().contains(x) implies b.contains(x) by {
                let k = choose|k: int| 0 <= k < m.drop_last().len() && m.drop_last()[k] == x;
                assert(m[k] == x);
            }
            assert(m.contains(m.last()));
        }
    }
}

proof fn lemma_first_generic_same_names(a: Seq<GenericModel>, b: Seq<GenericModel>, name: Seq<char>)
    requires
        a.len() == b.len(),
        forall|i: int| 0 <= i < a.len() ==> a[i].name == b[i].name,
    ensures
        first_generic(a, name) == first_generic(b, name),
    decreases a.len(),
{
    if a.len() > 0 {
        lemma_first_generic_same_names(a.drop_first(), b.drop_first(), name);
        assert(a[0].name == b[0].name);
    }
}

proof fn lemma_first_generic_range(gens: Seq<GenericModel>, name: Seq<char>)
    ensures
        first_generic(gens, name) matches Some(i) ==> 0 <= i < gens.len() && gens[i].name == name,
    decreases gens.len(),
{
    if gens.len() > 0 {
        lemma_first_generic_range(gens.drop_first(), name);
    }
}

/// Merging keeps the generics, their names and order, and only adds bounds.
proof fn lemma_merge_keeps_shape(e: Seq<GenericModel>, gs: Seq<GenericModel>)
    ensures
        merge_generics(e, gs).len() == e.len(),
        forall|i: int| 0 <= i < e.len() ==> #[trigger] merge_generics(e, gs)[i].name == e[i].name,
        forall|i: int| 0 <= i < e.len() ==> e[i].bounds.is_prefix_of(#[trigger] merge_generics(e, gs)[i].bounds),
    decreases gs.len(),
{
    if gs.len() > 0 {
        lemma_merge_keeps_shape(e, gs.drop_last());
        let mid = merge_generics(e, gs.drop_last());
        let g = gs.last();
        lemma_first_generic_range(mid, g.name);
        match first_generic(mid, g.name) {
            Some(i) => {
                lemma_add_bounds(mid[i].bounds, g.bounds);
                assert forall|j: int| 0 <= j < e.len() implies e[j].bounds.is_prefix_of(
                    #[trigger] merge_generics(e, gs)[j].bounds,
                ) by {
                    if j == i {
                        let a = e[j].bounds;
                        let b = mid[j].bounds;
                        let c = merge_generics(e, gs)[j].bounds;
                        assert(a =~= c.subrange(0, a.len() as int)) by {
                            assert forall|k: int| 0 <= k < a.len() implies a[k] == c[k] by {
                                assert(a[k] == b[k]);
                                assert(b[k] == c[k]);
                            }
                        }
                    }
                }
            },
            None => {},
        }
    }
}

/// After merging, the entry each merged generic landed on holds all its bounds.
proof fn lemma_merge_covers(e: Seq<GenericModel>, gs: Seq<GenericModel>, j: int)
    requires
        0 <= j < gs.len(),
    ensures
        first_generic(e, gs[j].name) matches Some(i) ==> forall|x: AnnotationModel|
            gs[j].bounds.contains(x) ==> #[trigger] merge_generics(e, gs)[i].bounds.contains(x),
    decreases gs.len(),
{
    lemma_merge_keeps_shape(e, gs.drop_last());
    let mid = merge_generics(e, gs.drop_last());
    let g = gs.last();
    lemma_first_generic_same_names(e, mid, gs[j].name);
    lemma_first_generic_same_names(e, mid, g.name);
    lemma_first_generic_range(e, gs[j].name);
    lemma_first_generic_range(e, g.name);
    if let Some(i) = first_generic(e, gs[j].name) {
        let r = merge_generics(e, gs);
        if j < gs.len() - 1 {
            lemma_merge_covers(e, gs.drop_last(), j);
            assert(gs.drop_last()[j] == gs[j]);
            assert forall|x: AnnotationModel| gs[j].bounds.contains(x) implies #[trigger] r[i].bounds.contains(x) by {
                assert(mid[i].bounds.contains(x));
                match first_generic(mid, g.name) {
                    Some(i2) => {
                        if i2 == i {
                            lemma_add_bounds(mid[i].bounds, g.bounds);
                            let k = choose|k: int| 0 <= k < mid[i].bounds.len() && mid[i].bounds[k] == x;
                            assert(r[i].bounds[k] == x);
                        }
                    },
                    None => {},
                }
            }
        } else {
            assert(first_generic(mid, g.name) == Some(i));
            lemma_add_bounds(mid[i].bounds, g.bounds);
        }
    }
}

/// Merging generics whose bounds are all present already changes nothing.
proof fn lemma_merge_noop(m: Seq<GenericModel>, gs: Seq<GenericModel>)
    requires
        forall|j: int|
            0 <= j < gs.len() ==> (first_generic(m, #[trigger] gs[j].name) matches Some(i) ==> forall|x: AnnotationModel|
                gs[j].bounds.contains(x) ==> m[i].bounds.contains(x)),
    ensures
        merge_generics(m, gs) == m,
    decreases gs.len(),
{
    if gs.len() > 0 {
        assert forall|j: int| 0 <= j < gs.drop_last().len() implies (first_generic(
            m,
            #[trigger] gs.drop_last()[j].name,
        ) matches Some(i) ==> forall|x: AnnotationModel|
            gs.drop_last()[j].bounds.contains(x) ==> m[i].bounds.contains(x)) by {
            assert(gs.drop_last()[j] == gs[j]);
        }
        lemma_merge_noop(m, gs.drop_last());
        let g = gs.last();
        assert(g == gs[gs.len() - 1]);
        lemma_first_generic_range(m, g.name);
        match first_generic(m, g.name) {
            Some(i) => {
                lemma_add_bounds(m[i].bounds, g.bounds);
                assert(m.update(i, GenericModel { name: m[i].name, bounds: m[i].bounds }) =~= m);
            },
            None => {},
        }
    }
}

/// The first generic with a given name, when names are distinct, is the
/// one at that position.
proof fn lemma_first_generic_distinct(gs: Seq<GenericModel>, j: int)
    requires
        0 <= j < gs.len(),
        forall|a: int, b: int| 0 <= a < b < gs.len() ==> gs[a].name != gs[b].name,
    ensures
        first_generic(gs, gs[j].name) == Some(j),
{
    lemma_first_generic(gs, gs[j].name, j);
}

/// Recording the same impl generics twice leaves the bounds as after the
/// first time (the generics of one impl have distinct names).
pub proof fn law_record_impl_bounds_idempotent(
    t: Map<Seq<char>, Seq<GenericModel>>,
    receiver: Seq<char>,
    generics: Seq<GenericModel>,
)
    requires
        forall|a: int, b: int| 0 <= a < b < generics.len() ==> generics[a].name != generics[b].name,
    ensures
        recorded_bounds(recorded_bounds(t, receiver, generics), receiver, generics) == recorded_bounds(
            t,
            receiver,
            generics,
        ),
{
    let once = recorded_bounds(t, receiver, generics);
    let base = if t.dom().contains(receiver) {
        t[receiver]
    } else {
        generics
    };
    let merged = once[receiver];
    if t.dom().contains(receiver) {
        lemma_merge_keeps_shape(base, generics);
        assert forall|j: int| 0 <= j < generics.len() implies (first_generic(
            merged,
            #[trigger] generics[j].name,
        ) matches Some(i) ==> forall|x: AnnotationModel|
            generics[j].bounds.contains(x) ==> merged[i].bounds.contains(x)) by {
            lemma_first_generic_same_names(base, merged, generics[j].name);
            lemma_merge_covers(base, generics, j);
        }
    } else {
        assert forall|j: int| 0 <= j < generics.len() implies (first_generic(
            merged,
            #[trigger] generics[j].name,
        ) matches Some(i) ==> forall|x: AnnotationModel|
            generics[j].bounds.contains(x) ==> merged[i].bounds.contains(x)) by {
            lemma_first_generic_distinct(generics, j);
        }
    }
    lemma_merge_noop(merged, generics);
    assert(once.insert(receiver, merged) =~= once);
}

/// Recording a module alias is read back both ways: the module's alias is
/// the alias, and the alias leads back to the module.
pub proof fn law_alias_round_trip(s: ModuleStateModel, module: Seq<char>, alias: Seq<char>)
    ensures
        s.module_aliases.insert(module, alias)[module] == alias,
        s.reverse_module_aliases.insert(alias, module)[alias] == module,
        s.module_aliases.insert(module, alias).dom().contains(module),
        s.reverse_module_aliases.insert(alias, module).dom().contains(alias),
{
}

/// Per-module emission state.
pub struct ModuleState {
    /// Keys are `TypeId.field_name`, cased as in the struct definition.
    tag_exported_fields: NameSet,
    exported_method_names: NameSet,
    /// Bounds of every impl block per receiver: Go wants the constraints on
    /// the type definition itself.
    impl_bounds: BoundsMap,
    /// Receivers with both constrained and unconstrained impl blocks.
    unconstrained_impl_receivers: NameSet,
    module_aliases: NameMap,
    reverse_module_aliases: NameMap,
    escape_remap: NameMap,
}

/// The abstract content of a [`ModuleState`].
pub struct ModuleStateModel {
    pub tag_exported_fields: Set<Seq<char>>,
    pub exported_method_names: Set<Seq<char>>,
    pub impl_bounds: Map<Seq<char>, Seq<GenericModel>>,
    pub unconstrained_impl_receivers: Set<Seq<char>>,
    pub module_aliases: Map<Seq<char>, Seq<char>>,
    pub reverse_module_aliases: Map<Seq<char>, Seq<char>>,
    pub escape_remap: Map<Seq<char>, Seq<char>>,
}

impl View for ModuleState {
    type V = ModuleStateModel;

    closed spec fn view(&self) -> ModuleStateModel {
        ModuleStateModel {
            tag_exported_fields: name_members(self.tag_exported_fields),
            exported_method_names: name_members(self.exported_method_names),
            impl_bounds: bound_entries(self.impl_bounds),
            unconstrained_impl_receivers: name_members(self.unconstrained_impl_receivers),
            module_aliases: name_entries(self.module_aliases),
            reverse_module_aliases: name_entries(self.reverse_module_aliases),
            escape_remap: name_entries(self.escape_remap),
        }
    }
}

impl Default for ModuleState {
    fn default() -> (r: Self)
        ensures
            r@ == (ModuleStateModel {
                tag_exported_fields: no_members(),
                exported_method_names: no_members(),
                impl_bounds: no_bounds(),
                unconstrained_impl_receivers: no_members(),
                module_aliases: no_names(),
                reverse_module_aliases: no_names(),
                escape_remap: no_names(),
            }),
    {
        ModuleState {
            tag_exported_fields: set_new(),
            exported_method_names: set_new(),
            impl_bounds: bounds_new(),
            unconstrained_impl_receivers: set_new(),
            module_aliases: names_new(),
            reverse_module_aliases: names_new(),
            escape_remap: names_new(),
        }
    }
}

impl ModuleState {
    pub fn record_tag_exported_field(&mut self, key: String)
        ensures
            final(self)@ == (ModuleStateModel {
                tag_exported_fields: old(self)@.tag_exported_fields.insert(key@),
                ..old(self)@
            }),
    {
        set_insert(&mut self.tag_exported_fields, key);
    }

    pub fn is_tag_exported_field(&self, key: &str) -> (r: bool)
        ensures
            r == self@.tag_exported_fields.contains(key@),
    {
        set_contains(&self.tag_exported_fields, key)
    }

    pub fn record_exported_method_name(&mut self, name: String)
        ensures
            final(self)@ == (ModuleStateModel {
                exported_method_names: old(self)@.exported_method_names.insert(name@),
                ..old(self)@
            }),
    {
        set_insert(&mut self.exported_method_names, name);
    }

    pub fn has_local_exported_method_name(&self, name: &str) -> (r: bool)
        ensures
            r == self@.exported_method_names.contains(name@),
    {
        set_contains(&self.exported_method_names, name)
    }

    /// Records the generics of an impl block for `receiver_name`: a first
    /// block's generics are kept as they are; a later block's bounds are
    /// merged into the generics of the same name, each bound once.
    pub fn record_impl_bounds(&mut self, receiver_name: &str, generics: &[Generic])
        ensures
            final(self)@ == (ModuleStateModel {
                impl_bounds: recorded_bounds(old(self)@.impl_bounds, receiver_name@, generics_model(generics@)),
                ..old(self)@
            }),
    {
        let ghost t = bound_entries(self.impl_bounds);
        let taken = bounds_remove(&mut self.impl_bounds, receiver_name);
        let mut existing = match taken {
            None => {
                let fresh = copy_generics(generics);
                bounds_insert(&mut self.impl_bounds, String::from_str(receiver_name), fresh);
                proof {
                    assert(t.remove(receiver_name@).insert(receiver_name@, generics_model(generics@))
                        =~= t.insert(receiver_name@, generics_model(generics@)));
                }
                return;
            },
            Some(v) => v,
        };
        let ghost gm = generics_model(generics@);
        let mut i: usize = 0;
        while i < generics.len()
            invariant
                i <= generics@.len(),
                gm == generics_model(generics@),
                t.dom().contains(receiver_name@),
                generics_model(existing@) == merge_generics(t[receiver_name@], gm.take(i as int)),
            decreases generics@.len() - i,
        {
            let new_gen = &generics[i];
            let ghost before = existing@;
            let mut k: usize = 0;
            while k < existing.len() && !crate::text::str_eq(existing[k].name.as_str(), new_gen.name.as_str())
                invariant
                    k <= existing@.len(),
                    forall|x: int| 0 <= x < k ==> existing@[x].name@ != new_gen.name@,
                decreases existing@.len() - k,
            {
                k += 1;
            }
            proof {
                lemma_first_generic(generics_model(existing@), new_gen.name@, k as int);
                assert(gm.take(i + 1).drop_last() =~= gm.take(i as int));
                assert(gm.take(i + 1).last() == new_gen@);
            }
            if k < existing.len() {
                let mut target = existing.remove(k);
                merge_bounds_into(&mut target, new_gen);
                existing.insert(k, target);
                proof {
                    let m0 = generics_model(before);
                    assert(generics_model(existing@) =~= m0.update(
                        k as int,
                        GenericModel { name: m0[k as int].name, bounds: add_bounds(m0[k as int].bounds, new_gen@.bounds) },
                    ));
                }
            }
            i += 1;
        }
        proof {
            assert(gm.take(i as int) =~= gm);
        }
        let ghost merged = generics_model(existing@);
        bounds_insert(&mut self.impl_bounds, String::from_str(receiver_name), existing);
        proof {
            assert(t.remove(receiver_name@).insert(receiver_name@, merged) =~= t.insert(receiver_name@, merged));
        }
    }

    /// The merged impl bounds recorded for `type_key`.
    pub fn impl_bounds(&self, type_key: &str) -> (r: Option<&[Generic]>)
        ensures
            match r {
                Some(g) => self@.impl_bounds.dom().contains(type_key@) && generics_model(g@)
                    == self@.impl_bounds[type_key@],
                None => !self@.impl_bounds.dom().contains(type_key@),
            },
    {
        match bounds_get(&self.impl_bounds, type_key) {
            Some(v) => Some(v.as_slice()),
            None => None,
        }
    }

    pub fn record_unconstrained_impl_receiver(&mut self, receiver_name: String)
        ensures
            final(self)@ == (ModuleStateModel {
                unconstrained_impl_receivers: old(self)@.unconstrained_impl_receivers.insert(receiver_name@),
                ..old(self)@
            }),
    {
        set_insert(&mut self.unconstrained_impl_receivers, receiver_name);
    }

    pub fn has_unconstrained_impl_receiver(&self, type_key: &str) -> (r: bool)
        ensures
            r == self@.unconstrained_impl_receivers.contains(type_key@),
    {
        set_contains(&self.unconstrained_impl_receivers, type_key)
    }

    /// Records that `module` is imported as `alias`, in both directions.
    pub fn record_module_alias(&mut self, module: String, alias: String)
        ensures
            final(self)@ == (ModuleStateModel {
                module_aliases: old(self)@.module_aliases.insert(module@, alias@),
                reverse_module_aliases: old(self)@.reverse_module_aliases.insert(alias@, module@),
                ..old(self)@
            }),
    {
        let module_copy = module.clone();
        let alias_copy = alias.clone();
        names_insert(&mut self.module_aliases, module_copy, alias_copy);
        names_insert(&mut self.reverse_module_aliases, alias, module);
    }

    pub fn module_alias(&self, module: &str) -> (r: Option<&str>)
        ensures
            match r {
                Some(a) => self@.module_aliases.dom().contains(module@) && a@ == self@.module_aliases[module@],
                None => !self@.module_aliases.dom().contains(module@),
            },
    {
        match names_get(&self.module_aliases, module) {
            Some(a) => Some(a.as_str()),
            None => None,
        }
    }

    pub fn module_for_alias(&self, alias: &str) -> (r: Option<&str>)
        ensures
            match r {
                Some(m) => self@.reverse_module_aliases.dom().contains(alias@) && m@
                    == self@.reverse_module_aliases[alias@],
                None => !self@.reverse_module_aliases.dom().contains(alias@),
            },
    {
        match names_get(&self.reverse_module_aliases, alias) {
            Some(m) => Some(m.as_str()),
            None => None,
        }
    }

    /// Records that Lisette name `lisette_name` is emitted as `go_name`.
    pub fn record_escape_remap(&mut self, lisette_name: String, go_name: String)
        ensures
            final(self)@ == (ModuleStateModel {
                escape_remap: old(self)@.escape_remap.insert(lisette_name@, go_name@),
                ..old(self)@
            }),
    {
        names_insert(&mut self.escape_remap, lisette_name, go_name);
    }

    pub fn escape_remap(&self, lisette_name: &str) -> (r: Option<&str>)
        ensures
            match r {
                Some(g) => self@.escape_remap.dom().contains(lisette_name@) && g@ == self@.escape_remap[lisette_name@],
                None => !self@.escape_remap.dom().contains(lisette_name@),
            },
    {
        match names_get(&self.escape_remap, lisette_name) {
            Some(g) => Some(g.as_str()),
            None => None,
        }
    }
}

/// Per-function emission state: the generics whose references were absorbed.
pub struct FunctionEmissionState {
    absorbed_ref_generics: NameSet,
}

impl View for FunctionEmissionState {
    type V = Set<Seq<char>>;

    closed spec fn view(&self) -> Set<Seq<char>> {
        name_members(self.absorbed_ref_generics)
    }
}

impl Default for FunctionEmissionState {
    fn default() -> (r: Self)
        ensures
            r@ == no_members(),
    {
        FunctionEmissionState { absorbed_ref_generics: set_new() }
    }
}

impl FunctionEmissionState {
    pub fn is_absorbed_ref_generic(&self, name: &str) -> (r: bool)
        ensures
            r == self@.contains(name@),
    {
        set_contains(&self.absorbed_ref_generics, name)
    }

    pub fn record_absorbed_ref_generic(&mut self, name: String)
        ensures
            final(self)@ == old(self)@.insert(name@),
    {
        set_insert(&mut self.absorbed_ref_generics, name);
    }
}

} // verus!
