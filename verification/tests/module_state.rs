use emit::module_state::{FunctionEmissionState, ModuleState};
use emit::names::constraints::{Annotation, Generic};

fn ctor(name: &str) -> Annotation {
    Annotation::Constructor { name: name.to_string(), params: vec![] }
}

fn generic(name: &str, bounds: &[&str]) -> Generic {
    Generic { name: name.to_string(), bounds: bounds.iter().map(|b| ctor(b)).collect() }
}

fn bound_names(g: &Generic) -> Vec<String> {
    g.bounds
        .iter()
        .map(|b| match b {
            Annotation::Constructor { name, .. } => name.clone(),
            Annotation::Other { text } => text.clone(),
        })
        .collect()
}

#[test]
fn names_and_sets_are_recorded() {
    let mut state = ModuleState::default();
    assert!(!state.is_tag_exported_field("m.T.value"));
    state.record_tag_exported_field("m.T.value".to_string());
    assert!(state.is_tag_exported_field("m.T.value"));
    assert!(!state.has_local_exported_method_name("Len"));
    state.record_exported_method_name("Len".to_string());
    assert!(state.has_local_exported_method_name("Len"));
    state.record_unconstrained_impl_receiver("Box".to_string());
    assert!(state.has_unconstrained_impl_receiver("Box"));
    assert!(!state.has_unconstrained_impl_receiver("List"));
}

#[test]
fn module_aliases_read_back_both_ways() {
    let mut state = ModuleState::default();
    assert_eq!(state.module_alias("go:net/http"), None);
    state.record_module_alias("go:net/http".to_string(), "http2".to_string());
    assert_eq!(state.module_alias("go:net/http"), Some("http2"));
    assert_eq!(state.module_for_alias("http2"), Some("go:net/http"));
    assert_eq!(state.module_for_alias("http"), None);
    state.record_escape_remap("type".to_string(), "type_".to_string());
    assert_eq!(state.escape_remap("type"), Some("type_"));
    assert_eq!(state.escape_remap("func"), None);
}

#[test]
fn impl_bounds_merge_by_generic_name() {
    let mut state = ModuleState::default();
    assert!(state.impl_bounds("Box").is_none());
    state.record_impl_bounds("Box", &[generic("T", &["Show"]), generic("U", &[])]);
    state.record_impl_bounds("Box", &[generic("T", &["Show", "Eq"]), generic("V", &["Ord"]), generic("U", &["Eq"])]);
    let bounds = state.impl_bounds("Box").unwrap();
    assert_eq!(bounds.len(), 2);
    assert_eq!(bounds[0].name, "T");
    assert_eq!(bound_names(&bounds[0]), vec!["Show".to_string(), "Eq".to_string()]);
    assert_eq!(bounds[1].name, "U");
    assert_eq!(bound_names(&bounds[1]), vec!["Eq".to_string()]);
    assert!(state.impl_bounds("Other").is_none());
}

#[test]
fn recording_impl_bounds_twice_changes_nothing() {
    let mut state = ModuleState::default();
    let gens = [generic("K", &["Hash", "Eq"]), generic("V", &[])];
    state.record_impl_bounds("Map", &gens);
    state.record_impl_bounds("Map", &gens);
    let bounds = state.impl_bounds("Map").unwrap();
    assert_eq!(bound_names(&bounds[0]), vec!["Hash".to_string(), "Eq".to_string()]);
    assert!(bounds[1].bounds.is_empty());
}

#[test]
fn absorbed_generics_are_remembered() {
    let mut fs = FunctionEmissionState::default();
    assert!(!fs.is_absorbed_ref_generic("T"));
    fs.record_absorbed_ref_generic("T".to_string());
    assert!(fs.is_absorbed_ref_generic("T"));
    assert!(!fs.is_absorbed_ref_generic("U"));
}
