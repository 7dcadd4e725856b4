use emit::effects::EmitEffects;
use emit::{sentinel_hint, EmitOptions};

#[test]
fn default_options_are_not_debug() {
    assert!(!EmitOptions::default().debug);
    let opts = EmitOptions { debug: true };
    assert!(opts.clone().debug);
}

#[test]
fn sentinel_hint_reads_the_minus_one_hint() {
    assert_eq!(sentinel_hint(&["other".to_string(), "sentinel_minus_one".to_string()]), Some(-1));
    assert_eq!(sentinel_hint(&["sentinel_minus_two".to_string()]), None);
    assert_eq!(sentinel_hint(&[]), None);
}

#[test]
fn effects_record_each_import_once() {
    let mut fx = EmitEffects::default();
    assert!(!fx.needs_stdlib);
    fx.require_go_import("fmt".to_string());
    fx.require_go_import("strings".to_string());
    fx.require_go_import("fmt".to_string());
    assert_eq!(fx.go_imports, vec!["fmt".to_string(), "strings".to_string()]);
    fx.require_stdlib();
    assert!(fx.needs_stdlib);
    assert_eq!(fx.go_imports.len(), 2);
}
