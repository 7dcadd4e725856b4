use emit::names::constraints::{
    classify_bound_annotation, classify_builtin_name, Annotation, ConstraintAtom, Generic,
    GenericConstraintTable, ParamConstraintSet,
};

fn ctor(name: &str) -> Annotation {
    Annotation::Constructor { name: name.to_string(), params: vec![] }
}

fn set(name: &str) -> ParamConstraintSet {
    ParamConstraintSet { name: name.to_string(), ..Default::default() }
}

#[test]
fn classify_recognizes_prelude_comparable() {
    assert_eq!(classify_bound_annotation(&ctor("Comparable")), ConstraintAtom::Comparable);
    assert_eq!(classify_bound_annotation(&ctor("prelude.Comparable")), ConstraintAtom::Comparable);
}

#[test]
fn classify_recognizes_prelude_ordered() {
    assert_eq!(classify_bound_annotation(&ctor("Ordered")), ConstraintAtom::Ordered);
    assert_eq!(classify_bound_annotation(&ctor("prelude.Ordered")), ConstraintAtom::Ordered);
    assert_eq!(classify_bound_annotation(&ctor("go:cmp.Ordered")), ConstraintAtom::Ordered);
}

#[test]
fn classify_passes_named_bounds_through() {
    let ann = ctor("Named");
    assert_eq!(classify_bound_annotation(&ann), ConstraintAtom::Named(ann));
}

#[test]
fn add_explicit_dedups() {
    let mut s = set("T");
    assert!(s.add_explicit(ConstraintAtom::Comparable));
    assert!(!s.add_explicit(ConstraintAtom::Comparable));
}

#[test]
fn ordered_implies_comparable() {
    let mut s = set("T");
    s.add_explicit(ConstraintAtom::Ordered);
    assert!(s.requires_comparable());
}

#[test]
fn cmp_ordered_and_unknown_builtin_names() {
    assert_eq!(classify_builtin_name("cmp.Ordered"), Some(ConstraintAtom::Ordered));
    assert_eq!(classify_builtin_name("Hashable"), None);
    let other = Annotation::Other { text: "fn(int) -> int".to_string() };
    assert_eq!(classify_bound_annotation(&other), ConstraintAtom::Named(Annotation::Other {
        text: "fn(int) -> int".to_string()
    }));
}

#[test]
fn named_bounds_compare_by_parameters() {
    let mut s = set("T");
    let with_int = Annotation::Constructor { name: "Box".to_string(), params: vec![ctor("int")] };
    let with_str = Annotation::Constructor { name: "Box".to_string(), params: vec![ctor("string")] };
    assert!(s.add_explicit(ConstraintAtom::Named(with_int)));
    assert!(s.add_explicit(ConstraintAtom::Named(with_str)));
    assert!(!s.add_explicit(ConstraintAtom::Named(Annotation::Constructor {
        name: "Box".to_string(),
        params: vec![ctor("int")],
    })));
    assert_eq!(s.explicit.len(), 2);
    assert!(!s.requires_comparable());
}

#[test]
fn mark_inferred_comparable_once() {
    let mut s = set("K");
    assert!(!s.requires_comparable());
    assert!(s.mark_inferred_comparable());
    assert!(!s.mark_inferred_comparable());
    assert!(s.requires_comparable());
}

fn generic(name: &str, bounds: Vec<Annotation>) -> Generic {
    Generic { name: name.to_string(), bounds }
}

#[test]
fn table_seeds_once_and_dedups_bounds() {
    let mut table = GenericConstraintTable::default();
    assert!(table.get("m.Pair").is_none());
    let generics = vec![
        generic("K", vec![ctor("Comparable"), ctor("prelude.Comparable"), ctor("Show")]),
        generic("V", vec![]),
    ];
    table.ensure_seeded("m.Pair", &generics);
    let sets = table.get("m.Pair").unwrap();
    assert_eq!(sets.len(), 2);
    assert_eq!(sets[0].name, "K");
    assert_eq!(sets[0].explicit, vec![ConstraintAtom::Comparable, ConstraintAtom::Named(ctor("Show"))]);
    assert!(sets[0].requires_comparable());
    assert_eq!(sets[1].name, "V");
    assert!(sets[1].explicit.is_empty());
    assert!(!sets[1].requires_comparable());

    table.ensure_seeded("m.Pair", &[generic("X", vec![ctor("Ordered")])]);
    let sets = table.get("m.Pair").unwrap();
    assert_eq!(sets.len(), 2);
    assert_eq!(sets[0].name, "K");
}

#[test]
fn table_updates_only_the_named_parameter() {
    let mut table = GenericConstraintTable::default();
    table.ensure_seeded("m.f", &[generic("A", vec![]), generic("B", vec![])]);
    assert!(!table.add_explicit("m.g", "A", ConstraintAtom::Ordered));
    assert!(!table.add_explicit("m.f", "C", ConstraintAtom::Ordered));
    assert!(table.add_explicit("m.f", "B", ConstraintAtom::Ordered));
    assert!(!table.add_explicit("m.f", "B", ConstraintAtom::Ordered));
    assert!(table.mark_inferred_comparable("m.f", "A"));
    assert!(!table.mark_inferred_comparable("m.f", "A"));
    assert!(!table.mark_inferred_comparable("m.h", "A"));
    let sets = table.get("m.f").unwrap();
    assert!(sets[0].inferred_comparable);
    assert!(sets[0].explicit.is_empty());
    assert!(!sets[1].inferred_comparable);
    assert_eq!(sets[1].explicit, vec![ConstraintAtom::Ordered]);
    assert!(table.get("m.g").is_none());
}
