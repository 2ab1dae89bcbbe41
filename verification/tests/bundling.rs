use bundle_core::{
    Asset, BitSet, Bundle, BundleError, Entry, Graph, ImportKind, ImportRecord, Module,
    OutputOptions, Symbol,
};

fn module(exec_order: u64, imports: Vec<(usize, bool)>, content: &str) -> Module {
    Module {
        exec_order,
        import_records: imports
            .into_iter()
            .map(|(target, dynamic)| ImportRecord {
                kind: if dynamic { ImportKind::Dynamic } else { ImportKind::Static },
                resolved_module: target,
            })
            .collect(),
        symbols: vec![],
        exports: vec![],
        content: content.to_string(),
    }
}

fn options(template: &str) -> OutputOptions {
    OutputOptions { entry_file_names: template.to_string() }
}

fn entry(name: &str, module: usize) -> Entry {
    Entry { name: name.to_string(), module }
}

fn expect_ok(r: Result<Vec<Asset>, BundleError>) -> Vec<Asset> {
    match r {
        Ok(assets) => assets,
        Err(_) => panic!("expected a successful bundling pass"),
    }
}

#[test]
fn single_entry_single_chunk() {
    let graph = Graph {
        modules: vec![module(0, vec![], "boot"), module(1, vec![], "entry code")],
        entries: vec![entry("main", 1)],
        runtime: 0,
        symbols: vec![],
    };
    let mut b = Bundle::new(graph, options("[name].js"));
    let (chunks, map) = b.generate_chunks();
    assert_eq!(chunks.len(), 1);
    assert_eq!(chunks[0].modules, vec![1]);
    assert_eq!(chunks[0].entry_module, Some(1));
    assert_eq!(map, vec![None, Some(0)]);
    let assets = expect_ok(b.generate());
    assert_eq!(assets.len(), 1);
    assert_eq!(assets[0].file_name, "main.js");
    assert_eq!(assets[0].content, "entry code\n");
}

#[test]
fn shared_module_gets_its_own_chunk() {
    // e1 -> m1 -> m2 and e2 -> m2: m2 is reachable from both entries.
    let graph = Graph {
        modules: vec![
            module(0, vec![], "boot"),
            module(1, vec![(2, false)], "e1"),
            module(2, vec![(3, false)], "m1"),
            module(3, vec![], "m2"),
            module(4, vec![(3, false)], "e2"),
        ],
        entries: vec![entry("e1", 1), entry("e2", 4)],
        runtime: 0,
        symbols: vec![],
    };
    let mut b = Bundle::new(graph, options("[name].js"));
    let (chunks, map) = b.generate_chunks();
    assert_eq!(chunks.len(), 3);
    assert_eq!(chunks[0].entry_module, Some(1));
    assert_eq!(chunks[0].modules, vec![1, 2]);
    assert_eq!(chunks[1].entry_module, Some(4));
    assert_eq!(chunks[1].modules, vec![4]);
    assert_eq!(chunks[2].entry_module, None);
    assert_eq!(chunks[2].modules, vec![3]);
    assert_eq!(chunks[2].name, Some("2".to_string()));
    assert_eq!(map, vec![None, Some(0), Some(0), Some(2), Some(1)]);
    let assets = expect_ok(b.generate());
    assert_eq!(assets.len(), 3);
    assert_eq!(assets[0].file_name, "e1.js");
    assert_eq!(assets[1].file_name, "e2.js");
    assert_eq!(assets[2].file_name, "2.js");
    assert_eq!(assets[0].content, "e1\nm1\n");
    assert_eq!(assets[2].content, "m2\n");
}

#[test]
fn cyclic_imports_terminate_and_share_a_chunk() {
    // m1 and m2 import each other; both are reachable only from e1.
    let graph = Graph {
        modules: vec![
            module(0, vec![], "boot"),
            module(1, vec![(2, false)], "e1"),
            module(2, vec![(3, false)], "m1"),
            module(3, vec![(2, false)], "m2"),
        ],
        entries: vec![entry("app", 1)],
        runtime: 0,
        symbols: vec![],
    };
    let b = Bundle::new(graph, options("[name].js"));
    let (chunks, map) = b.generate_chunks();
    assert_eq!(chunks.len(), 1);
    assert_eq!(chunks[0].modules, vec![1, 2, 3]);
    assert_eq!(map, vec![None, Some(0), Some(0), Some(0)]);
}

#[test]
fn members_follow_execution_order() {
    // execution order differs from module-id order inside the chunk
    let graph = Graph {
        modules: vec![
            module(0, vec![], "boot"),
            module(0, vec![(2, false)], "e1"),
            module(2, vec![(3, false)], "m1"),
            module(1, vec![(2, false)], "m2"),
        ],
        entries: vec![entry("app", 1)],
        runtime: 0,
        symbols: vec![],
    };
    let b = Bundle::new(graph, options("[name].js"));
    let (chunks, _) = b.generate_chunks();
    assert_eq!(chunks[0].modules, vec![1, 3, 2]);
}

#[test]
fn dynamic_import_does_not_propagate_reachability() {
    // e1 statically imports m1; m1 dynamically imports m2; m2 is its own entry.
    let graph = Graph {
        modules: vec![
            module(0, vec![], "boot"),
            module(1, vec![(2, false)], "e1"),
            module(2, vec![(3, true)], "m1"),
            module(3, vec![], "m2"),
        ],
        entries: vec![entry("e1", 1), entry("e2", 3)],
        runtime: 0,
        symbols: vec![],
    };
    let b = Bundle::new(graph, options("[name].js"));
    let (chunks, map) = b.generate_chunks();
    assert_eq!(chunks.len(), 2);
    assert_eq!(chunks[0].modules, vec![1, 2]);
    assert_eq!(chunks[1].modules, vec![3]);
    assert_eq!(map[2], Some(0));
    assert_eq!(map[3], Some(1));
    // m2's signature holds its own entry bit only
    assert!(!chunks[1].bits.has_bit(0));
    assert!(chunks[1].bits.has_bit(1));
    // m1's signature holds e1's bit only
    assert!(chunks[0].bits.has_bit(0));
    assert!(!chunks[0].bits.has_bit(1));
}

#[test]
fn unreachable_module_still_receives_a_chunk() {
    let graph = Graph {
        modules: vec![
            module(0, vec![], "boot"),
            module(1, vec![], "e1"),
            module(2, vec![], "orphan"),
        ],
        entries: vec![entry("main", 1)],
        runtime: 0,
        symbols: vec![],
    };
    let b = Bundle::new(graph, options("[name].js"));
    let (chunks, map) = b.generate_chunks();
    assert_eq!(chunks.len(), 2);
    assert_eq!(chunks[1].entry_module, None);
    assert_eq!(chunks[1].modules, vec![2]);
    assert_eq!(chunks[1].name, Some("1".to_string()));
    assert_eq!(map[2], Some(1));
}

#[test]
fn no_entries_no_chunks() {
    let graph = Graph {
        modules: vec![module(0, vec![], "boot")],
        entries: vec![],
        runtime: 0,
        symbols: vec![],
    };
    let mut b = Bundle::new(graph, options("[name].js"));
    let (chunks, map) = b.generate_chunks();
    assert_eq!(chunks.len(), 0);
    assert_eq!(map, vec![None]);
    let assets = expect_ok(b.generate());
    assert_eq!(assets.len(), 0);
}

#[test]
fn colliding_symbols_are_renamed_within_a_chunk() {
    let mut e = module(1, vec![], "entry");
    e.symbols = vec![0, 1, 2];
    let graph = Graph {
        modules: vec![module(0, vec![], "boot"), e],
        entries: vec![entry("main", 1)],
        runtime: 0,
        symbols: vec![
            Symbol { name: "a".to_string() },
            Symbol { name: "a".to_string() },
            Symbol { name: "a".to_string() },
        ],
    };
    let mut b = Bundle::new(graph, options("[name].js"));
    expect_ok(b.generate());
    let names: Vec<String> = b.graph.symbols.iter().map(|s| s.name.clone()).collect();
    assert_eq!(names, vec!["a".to_string(), "a_".to_string(), "a__".to_string()]);
}

#[test]
fn exports_resolve_through_deconflicted_names() {
    let mut e = module(1, vec![], "entry");
    e.symbols = vec![0];
    e.exports = vec![bundle_core::ExportRecord { exported_name: "run".to_string(), symbol: 0 }];
    let graph = Graph {
        modules: vec![module(0, vec![], "boot"), e],
        entries: vec![entry("main", 1)],
        runtime: 0,
        symbols: vec![Symbol { name: "fn0".to_string() }],
    };
    let b = Bundle::new(graph, options("[name].js"));
    let (mut chunks, _) = b.generate_chunks();
    let r = chunks[0].initialize_exports(&b.graph.modules, &b.graph.symbols);
    assert!(r.is_ok());
    assert_eq!(chunks[0].exports.len(), 1);
    assert_eq!(chunks[0].exports[0].exported_name, "run");
    assert_eq!(chunks[0].exports[0].local_name, "fn0");
}

#[test]
fn invalid_template_is_a_configuration_error() {
    let graph = Graph {
        modules: vec![module(0, vec![], "boot"), module(1, vec![], "e")],
        entries: vec![entry("main", 1)],
        runtime: 0,
        symbols: vec![],
    };
    let mut b = Bundle::new(graph, options("bundle.js"));
    assert!(matches!(b.generate(), Err(BundleError::Configuration)));
}

#[test]
fn dangling_symbol_is_a_deconfliction_error() {
    let mut e = module(1, vec![], "e");
    e.symbols = vec![5];
    let graph = Graph {
        modules: vec![module(0, vec![], "boot"), e],
        entries: vec![entry("main", 1)],
        runtime: 0,
        symbols: vec![],
    };
    let mut b = Bundle::new(graph, options("[name].js"));
    assert!(matches!(b.generate(), Err(BundleError::Deconfliction { symbol: 5 })));
}

#[test]
fn dangling_export_is_an_export_resolution_error() {
    let mut e = module(1, vec![], "e");
    e.exports = vec![bundle_core::ExportRecord { exported_name: "x".to_string(), symbol: 7 }];
    let graph = Graph {
        modules: vec![module(0, vec![], "boot"), e],
        entries: vec![entry("main", 1)],
        runtime: 0,
        symbols: vec![],
    };
    let mut b = Bundle::new(graph, options("[name].js"));
    assert!(matches!(
        b.generate(),
        Err(BundleError::ExportResolution { module: 1, export: 0 })
    ));
}

#[test]
fn empty_content_is_a_render_error() {
    let graph = Graph {
        modules: vec![module(0, vec![], "boot"), module(1, vec![], "")],
        entries: vec![entry("main", 1)],
        runtime: 0,
        symbols: vec![],
    };
    let mut b = Bundle::new(graph, options("[name].js"));
    assert!(matches!(b.generate(), Err(BundleError::Render { module: 1 })));
}

#[test]
fn diamond_marking_sets_each_bit_once() {
    // e -> a, e -> b, a -> c, b -> c: c is visited via two paths
    let graph = Graph {
        modules: vec![
            module(0, vec![], "boot"),
            module(1, vec![(2, false), (3, false)], "e"),
            module(2, vec![(4, false)], "a"),
            module(3, vec![(4, false)], "b"),
            module(4, vec![], "c"),
        ],
        entries: vec![entry("main", 1)],
        runtime: 0,
        symbols: vec![],
    };
    let b = Bundle::new(graph, options("[name].js"));
    let mut bits = vec![
        BitSet::new(1),
        BitSet::new(1),
        BitSet::new(1),
        BitSet::new(1),
        BitSet::new(1),
    ];
    b.mark_modules_entry_bit(1, 0, &mut bits);
    assert!(!bits[0].has_bit(0));
    assert!(bits[1].has_bit(0));
    assert!(bits[2].has_bit(0));
    assert!(bits[3].has_bit(0));
    assert!(bits[4].has_bit(0));
}
