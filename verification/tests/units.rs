use bundle_core::bitset::BitSet;
use bundle_core::numeral::usize_to_string;
use bundle_core::template::{render_template, template_is_valid};
use bundle_core::{Entry, Graph, ImportKind, ImportRecord, Module, Symbol};

fn bare_module(symbols: Vec<usize>) -> Module {
    Module {
        exec_order: 0,
        import_records: vec![],
        symbols,
        exports: vec![],
        content: "x".to_string(),
    }
}

#[test]
fn bitset_set_and_test() {
    let mut b = BitSet::new(3);
    assert_eq!(b.len(), 3);
    assert!(!b.has_bit(0));
    assert!(!b.has_bit(1));
    assert!(!b.has_bit(2));
    b.set_bit(1);
    assert!(!b.has_bit(0));
    assert!(b.has_bit(1));
    assert!(!b.has_bit(2));
}

#[test]
fn bitset_equality_is_bit_for_bit() {
    let mut a = BitSet::new(2);
    let mut b = BitSet::new(2);
    assert!(a.same_bits(&b));
    a.set_bit(0);
    assert!(!a.same_bits(&b));
    b.set_bit(0);
    assert!(a.same_bits(&b));
    let c = BitSet::new(3);
    assert!(!a.same_bits(&c));
    let d = a.clone();
    assert!(a.same_bits(&d));
}

#[test]
fn counters_render_in_decimal() {
    assert_eq!(usize_to_string(0), "0");
    assert_eq!(usize_to_string(7), "7");
    assert_eq!(usize_to_string(10), "10");
    assert_eq!(usize_to_string(402), "402");
}

#[test]
fn template_validation_requires_the_placeholder() {
    assert!(template_is_valid("[name].js"));
    assert!(template_is_valid("assets/[name]-v1.js"));
    assert!(!template_is_valid("bundle.js"));
    assert!(!template_is_valid("[nam].js"));
}

#[test]
fn template_rendering_replaces_the_first_placeholder() {
    assert_eq!(render_template("[name].js", "app"), "app.js");
    assert_eq!(render_template("assets/[name]-v1.js", "main"), "assets/main-v1.js");
    assert_eq!(render_template("[name]-[name].js", "a"), "a-[name].js");
}

#[test]
fn wf_accepts_a_sound_graph() {
    let g = Graph {
        modules: vec![
            bare_module(vec![0]),
            Module {
                exec_order: 1,
                import_records: vec![ImportRecord {
                    kind: ImportKind::Static,
                    resolved_module: 0,
                }],
                symbols: vec![1],
                exports: vec![],
                content: "y".to_string(),
            },
        ],
        entries: vec![Entry { name: "main".to_string(), module: 1 }],
        runtime: 0,
        symbols: vec![Symbol { name: "a".to_string() }, Symbol { name: "b".to_string() }],
    };
    assert!(g.check_wf());
}

#[test]
fn wf_rejects_a_runtime_entry() {
    let g = Graph {
        modules: vec![bare_module(vec![]), bare_module(vec![])],
        entries: vec![Entry { name: "main".to_string(), module: 0 }],
        runtime: 0,
        symbols: vec![],
    };
    assert!(!g.check_wf());
}

#[test]
fn wf_rejects_duplicate_entries() {
    let g = Graph {
        modules: vec![bare_module(vec![]), bare_module(vec![])],
        entries: vec![
            Entry { name: "a".to_string(), module: 1 },
            Entry { name: "b".to_string(), module: 1 },
        ],
        runtime: 0,
        symbols: vec![],
    };
    assert!(!g.check_wf());
}

#[test]
fn wf_rejects_a_dangling_import() {
    let g = Graph {
        modules: vec![
            bare_module(vec![]),
            Module {
                exec_order: 0,
                import_records: vec![ImportRecord {
                    kind: ImportKind::Static,
                    resolved_module: 9,
                }],
                symbols: vec![],
                exports: vec![],
                content: "y".to_string(),
            },
        ],
        entries: vec![Entry { name: "main".to_string(), module: 1 }],
        runtime: 0,
        symbols: vec![],
    };
    assert!(!g.check_wf());
}

#[test]
fn wf_rejects_a_symbol_with_two_owners() {
    let g = Graph {
        modules: vec![bare_module(vec![0]), bare_module(vec![0])],
        entries: vec![Entry { name: "main".to_string(), module: 1 }],
        runtime: 0,
        symbols: vec![Symbol { name: "a".to_string() }],
    };
    assert!(!g.check_wf());
}
