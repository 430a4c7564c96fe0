use runnables::delta::{AppendItem, Changes, ItemMutator, Patch, RefNode};
use runnables::runnables::{workspace_runnables, CrateSource};
use runnables::source::{Attr, Definition, SemanticModel, SourceFunction, SourceItem, SourceModule};
use runnables::store::{Link, MirrorStore};
use runnables::view::{DefKey, DeclRef, DoctestLocation, RunnableFuncKind};
use std::collections::HashSet;

fn attr(path: &str) -> Attr {
    Attr { path: path.to_string(), has_input: false }
}

fn func(name: &str, attrs: Vec<Attr>, docs: Option<&str>) -> Definition {
    Definition::Function(SourceFunction {
        name: name.to_string(),
        attrs,
        docs: docs.map(|d| d.to_string()),
        canonical_path: format!("krate::{}", name),
    })
}

fn module(name: &str, inline: bool, crate_root: bool, declarations: Vec<Definition>) -> SourceModule {
    SourceModule {
        name: Some(name.to_string()),
        is_inline: inline,
        is_crate_root: crate_root,
        docs: None,
        declarations,
        impls: Vec::new(),
    }
}

fn one_crate(files: Vec<usize>) -> Vec<CrateSource> {
    vec![CrateSource { name: Some("krate".to_string()), files, is_library: false }]
}

fn build(model: &SemanticModel, files: Vec<usize>) -> (MirrorStore, Patch) {
    workspace_runnables(model, &one_crate(files))
}

fn function_kinds(store: &MirrorStore, parent: usize) -> Vec<RunnableFuncKind> {
    store
        .children(Link::Under(parent))
        .into_iter()
        .filter_map(|h| match &store.slots[h].item {
            AppendItem::Function(f) => Some(f.kind),
            _ => None,
        })
        .collect()
}

fn module_location(store: &MirrorStore, h: usize) -> Option<usize> {
    match &store.slots[h].item {
        AppendItem::Module { location, .. } => Some(*location),
        _ => None,
    }
}

/// The crate node and the node of the file root.
fn roots(store: &MirrorStore) -> (usize, usize) {
    let crates = store.children(Link::Root);
    assert_eq!(crates.len(), 1);
    let files = store.children(Link::Under(crates[0]));
    assert_eq!(files.len(), 1);
    (crates[0], files[0])
}

#[test]
fn main_only_yields_one_bin() {
    let model = SemanticModel {
        modules: vec![module("krate", false, true, vec![func("main", vec![], None)])],
        file_roots: vec![Some(0)],
    };
    let (store, _) = build(&model, vec![0]);
    let (_, root) = roots(&store);
    assert_eq!(function_kinds(&store, root), vec![RunnableFuncKind::Bin]);
    let functions = store.slots.iter().filter(|s| matches!(s.item, AppendItem::Function(_))).count();
    assert_eq!(functions, 1);
}

#[test]
fn main_outside_crate_root_is_not_bin() {
    let model = SemanticModel {
        modules: vec![module("m", false, false, vec![func("main", vec![], None)])],
        file_roots: vec![Some(0)],
    };
    let (store, _) = build(&model, vec![0]);
    assert_eq!(store.len(), 0);
}

#[test]
fn test_module_beside_empty_module() {
    let model = SemanticModel {
        modules: vec![
            module("krate", false, true, vec![Definition::Module(1), Definition::Module(2)]),
            module("m", true, false, vec![func("t", vec![attr("test")], None)]),
            module("empty", true, false, vec![]),
        ],
        file_roots: vec![Some(0)],
    };
    let (store, _) = build(&model, vec![0]);
    let (_, root) = roots(&store);
    let below_root = store.children(Link::Under(root));
    assert_eq!(below_root.len(), 1);
    let m = below_root[0];
    assert_eq!(module_location(&store, m), Some(1));
    match &store.slots[m].item {
        AppendItem::Module { name, .. } => assert_eq!(name, "m"),
        _ => panic!("not a module"),
    }
    assert_eq!(function_kinds(&store, m), vec![RunnableFuncKind::Test]);
    assert_eq!(store.find_by_def(DefKey::Module(2)), None);
    assert_eq!(store.find_by_def(DefKey::Module(1)), Some(m));
}

#[test]
fn nested_modules_are_materialized() {
    let model = SemanticModel {
        modules: vec![
            module("krate", false, true, vec![Definition::Module(1)]),
            module("a", true, false, vec![Definition::Module(2)]),
            module("b", true, false, vec![Definition::Module(3)]),
            module("c", true, false, vec![func("t", vec![attr("test")], None)]),
        ],
        file_roots: vec![Some(0)],
    };
    let (store, _) = build(&model, vec![0]);
    let (_, root) = roots(&store);
    let mut node = root;
    for loc in [1usize, 2, 3] {
        let children = store.children(Link::Under(node));
        assert_eq!(children.len(), 1);
        node = children[0];
        assert_eq!(module_location(&store, node), Some(loc));
    }
    assert_eq!(function_kinds(&store, node), vec![RunnableFuncKind::Test]);
    assert_eq!(store.flatten_content(root).len(), 4);
}

#[test]
fn test_with_doc_example_yields_two_leaves() {
    let model = SemanticModel {
        modules: vec![
            module("krate", false, true, vec![Definition::Module(1)]),
            module(
                "m",
                true,
                false,
                vec![func("t", vec![attr("test")], Some("Example:\n```\nassert!(true);\n```\n"))],
            ),
        ],
        file_roots: vec![Some(0)],
    };
    let (store, _) = build(&model, vec![0]);
    let m = store.find_by_def(DefKey::Module(1)).unwrap();
    let leaves = store.children(Link::Under(m));
    assert_eq!(leaves.len(), 2);
    let loc = DeclRef { module: 1, decl: 0 };
    match &store.slots[leaves[0]].item {
        AppendItem::Doctest(d) => assert_eq!(d.location, DoctestLocation::Decl(loc)),
        _ => panic!("expected a doctest"),
    }
    match &store.slots[leaves[1]].item {
        AppendItem::Function(f) => {
            assert_eq!(f.kind, RunnableFuncKind::Test);
            assert_eq!(f.location, loc);
            assert_eq!(f.name, "t");
        }
        _ => panic!("expected a function"),
    }
}

#[test]
fn content_follows_declaration_order() {
    let model = SemanticModel {
        modules: vec![
            module(
                "krate",
                false,
                true,
                vec![func("a", vec![attr("test")], None), Definition::Module(1), func("c", vec![attr("test")], None)],
            ),
            module("b", true, false, vec![func("t", vec![attr("test")], None)]),
        ],
        file_roots: vec![Some(0)],
    };
    let (store, _) = build(&model, vec![0]);
    let (_, root) = roots(&store);
    let children = store.children(Link::Under(root));
    assert_eq!(children.len(), 3);
    match &store.slots[children[0]].item {
        AppendItem::Function(f) => assert_eq!(f.name, "a"),
        _ => panic!("first child is not `a`"),
    }
    assert_eq!(module_location(&store, children[1]), Some(1));
    match &store.slots[children[2]].item {
        AppendItem::Function(f) => assert_eq!(f.name, "c"),
        _ => panic!("last child is not `c`"),
    }
}

#[test]
fn ids_are_unique_and_follow_handles() {
    let model = SemanticModel {
        modules: vec![
            module(
                "krate",
                false,
                true,
                vec![func("main", vec![], None), Definition::Module(1), func("x", vec![attr("test")], None)],
            ),
            module("b", true, false, vec![func("t", vec![attr("tokio::test")], None)]),
        ],
        file_roots: vec![Some(0)],
    };
    let (store, _) = build(&model, vec![0]);
    let ids: HashSet<u128> = store.slots.iter().map(|s| s.item.id()).collect();
    assert_eq!(ids.len(), store.len());
    assert!(!ids.contains(&0));
    for (h, s) in store.slots.iter().enumerate() {
        assert_eq!(s.item.id(), h as u128 + 1);
        assert_eq!(store.get_by_id(h as u128 + 1).map(|x| x.item.id()), Some(h as u128 + 1));
    }
    assert!(store.get_by_id(0).is_none());
    assert!(store.get_by_id(store.len() as u128 + 1).is_none());
}

#[test]
fn rebuilding_twice_gives_the_same_structure() {
    let model = SemanticModel {
        modules: vec![
            module("krate", false, true, vec![Definition::Module(1), func("main", vec![], None)]),
            module("m", true, false, vec![func("t", vec![attr("test")], Some("```rust\nx\n```"))]),
        ],
        file_roots: vec![Some(0)],
    };
    let (a, _) = build(&model, vec![0]);
    let (b, _) = build(&model, vec![0]);
    assert_eq!(format!("{:?}", a.slots), format!("{:?}", b.slots));
    assert_eq!(a.len(), 6);
}

#[test]
fn replaying_the_changelog_rebuilds_the_tree() {
    let model = SemanticModel {
        modules: vec![
            module("krate", false, true, vec![Definition::Module(1), func("main", vec![], None)]),
            module("m", true, false, vec![func("t", vec![attr("test")], None)]),
        ],
        file_roots: vec![Some(0)],
    };
    let (store, patch) = build(&model, vec![0]);
    assert_eq!(patch.append.len(), store.len());
    let mut copy = MirrorStore::new();
    copy.apply_patch(&patch);
    assert_eq!(format!("{:?}", copy.slots), format!("{:?}", store.slots));
}

#[test]
fn mutator_edits_are_recorded_and_replayed() {
    let model = SemanticModel {
        modules: vec![
            module("krate", false, true, vec![Definition::Module(1)]),
            module("m", true, false, vec![func("t", vec![attr("test")], None)]),
        ],
        file_roots: vec![Some(0)],
    };
    let (mut store, mut patch) = build(&model, vec![0]);
    let before_batch = format!("{:?}", store.slots);
    let mut pre = MirrorStore::new();
    pre.apply_patch(&patch);
    patch.was_consumed();
    assert_eq!(patch.id, 1);
    assert!(patch.is_empty());
    let m = store.find_by_def(DefKey::Module(1)).unwrap();
    let leaf = store.children(Link::Under(m))[0];
    let mutator = ItemMutator::new(RefNode::Module(m));
    mutator.update(&mut store, &mut patch, Changes::Module { name: Some("renamed".to_string()), location: None });
    mutator.delete(&mut store, &mut patch, leaf as u128 + 1);
    assert!(!patch.is_empty());
    assert_eq!(patch.update.len(), 1);
    assert_eq!(patch.delete.len(), 1);
    assert_eq!(patch.delete[0].target_id, m as u128 + 1);
    assert!(store.children(Link::Under(m)).is_empty());
    match &store.slots[m].item {
        AppendItem::Module { name, location, .. } => {
            assert_eq!(name, "renamed");
            assert_eq!(*location, 1);
        }
        _ => panic!("not a module"),
    }
    assert_eq!(format!("{:?}", pre.slots), before_batch);
    pre.apply_patch(&patch);
    assert_eq!(format!("{:?}", pre.slots), format!("{:?}", store.slots));
}

#[test]
fn outline_submodules_are_not_entered() {
    let model = SemanticModel {
        modules: vec![
            module("krate", false, true, vec![Definition::Module(1)]),
            module("m", false, false, vec![Definition::Module(2)]),
            module("tests", true, false, vec![func("t", vec![attr("test")], None)]),
        ],
        file_roots: vec![Some(0), Some(1)],
    };
    let (alone, _) = build(&model, vec![0]);
    assert_eq!(alone.len(), 0);
    let (both, _) = build(&model, vec![0, 1]);
    let (_, root) = roots(&both);
    assert_eq!(module_location(&both, root), Some(1));
    let inner = both.children(Link::Under(root));
    assert_eq!(inner.len(), 1);
    assert_eq!(module_location(&both, inner[0]), Some(2));
}

#[test]
fn no_tests_no_nodes() {
    let model = SemanticModel {
        modules: vec![
            module("krate", false, true, vec![Definition::Module(1), func("foo", vec![], None)]),
            module("test_mod", true, false, vec![func("foo1", vec![], None)]),
        ],
        file_roots: vec![Some(0), None],
    };
    let (store, patch) = build(&model, vec![0, 1, 7]);
    assert_eq!(store.len(), 0);
    assert!(patch.is_empty());
}

#[test]
fn library_crates_are_skipped() {
    let model = SemanticModel {
        modules: vec![module("dep", false, true, vec![func("t", vec![attr("test")], None)])],
        file_roots: vec![Some(0)],
    };
    let crates = vec![CrateSource { name: Some("dep".to_string()), files: vec![0], is_library: true }];
    let (store, _) = workspace_runnables(&model, &crates);
    assert_eq!(store.len(), 0);
}

#[test]
fn bench_needs_bare_attribute() {
    let model = SemanticModel {
        modules: vec![module(
            "krate",
            false,
            true,
            vec![
                func("b1", vec![attr("bench")], None),
                func("b2", vec![Attr { path: "bench".to_string(), has_input: true }], None),
                func("t", vec![attr("inline"), attr("test_case")], None),
            ],
        )],
        file_roots: vec![Some(0)],
    };
    let (store, _) = build(&model, vec![0]);
    let (_, root) = roots(&store);
    assert_eq!(function_kinds(&store, root), vec![RunnableFuncKind::Bench, RunnableFuncKind::Test]);
}

#[test]
fn doctests_of_items_modules_and_impls() {
    let mut sub = module("m", true, false, vec![func("plain", vec![], None)]);
    sub.docs = Some("```rust\nlet x = 1;\n```".to_string());
    sub.impls = vec![SourceItem { docs: Some("```\nfoo();\n```".to_string()) }, SourceItem { docs: None }];
    let model = SemanticModel {
        modules: vec![
            module(
                "krate",
                false,
                true,
                vec![
                    Definition::Item(SourceItem { docs: Some("```ignore\nx\n```".to_string()) }),
                    Definition::Module(1),
                    Definition::Item(SourceItem { docs: Some("```should_panic\nx\n```".to_string()) }),
                ],
            ),
            sub,
        ],
        file_roots: vec![Some(0)],
    };
    let (store, _) = build(&model, vec![0]);
    let (_, root) = roots(&store);
    let locations: Vec<DoctestLocation> = store
        .children(Link::Under(root))
        .into_iter()
        .filter_map(|h| match &store.slots[h].item {
            AppendItem::Doctest(d) => Some(d.location),
            _ => None,
        })
        .collect();
    assert_eq!(
        locations,
        vec![
            DoctestLocation::Module(1),
            DoctestLocation::Impl(1, 0),
            DoctestLocation::Decl(DeclRef { module: 0, decl: 2 }),
        ]
    );
}

#[test]
fn unnamed_module_gets_placeholder() {
    let mut m = module("m", true, false, vec![func("t", vec![attr("test")], None)]);
    m.name = None;
    let model = SemanticModel {
        modules: vec![module("krate", false, true, vec![Definition::Module(1)]), m],
        file_roots: vec![Some(0)],
    };
    let (store, _) = build(&model, vec![0]);
    let h = store.find_by_def(DefKey::Module(1)).unwrap();
    match &store.slots[h].item {
        AppendItem::Module { name, .. } => assert_eq!(name, "UNKNOW_MOD_NAME"),
        _ => panic!("not a module"),
    }
}

#[test]
fn consuming_hands_over_the_batch() {
    let model = SemanticModel {
        modules: vec![
            module("krate", false, true, vec![Definition::Module(1)]),
            module("m", true, false, vec![func("t", vec![attr("test")], None)]),
        ],
        file_roots: vec![Some(0)],
    };
    let (store, mut patch) = build(&model, vec![0]);
    let batch = patch.consume();
    assert_eq!(batch.id, 0);
    assert_eq!(batch.append.len(), store.len());
    assert!(batch.delete.is_empty() && batch.update.is_empty());
    assert_eq!(patch.id, 1);
    assert!(patch.is_empty());
    let mut copy = MirrorStore::new();
    copy.apply_patch(&batch);
    assert_eq!(format!("{:?}", copy.slots), format!("{:?}", store.slots));
}

#[test]
fn impls_of_outline_modules_are_not_classified() {
    let mut outline = module("m", false, false, vec![]);
    outline.impls = vec![SourceItem { docs: Some("```\nfoo();\n```".to_string()) }];
    let model = SemanticModel {
        modules: vec![module("krate", false, true, vec![Definition::Module(1)]), outline],
        file_roots: vec![Some(0)],
    };
    let (store, patch) = build(&model, vec![0]);
    assert_eq!(store.len(), 0);
    assert!(patch.is_empty());
}

#[test]
fn nodes_under_a_deleted_module_are_not_found() {
    let model = SemanticModel {
        modules: vec![
            module("krate", false, true, vec![Definition::Module(1)]),
            module("a", true, false, vec![Definition::Module(2)]),
            module("b", true, false, vec![func("t", vec![attr("test")], None)]),
        ],
        file_roots: vec![Some(0)],
    };
    let (mut store, mut patch) = build(&model, vec![0]);
    let (_, root) = roots(&store);
    let a = store.find_by_def(DefKey::Module(1)).unwrap();
    let b = store.find_by_def(DefKey::Module(2)).unwrap();
    assert!(store.is_attached(b));
    ItemMutator::new(RefNode::Module(root)).delete(&mut store, &mut patch, a as u128 + 1);
    assert!(!store.is_attached(a));
    assert!(!store.is_attached(b));
    assert_eq!(store.find_by_def(DefKey::Module(2)), None);
    assert_eq!(store.find_by_def(DefKey::Function(DeclRef { module: 2, decl: 0 })), None);
    assert!(store.get_by_id(b as u128 + 1).is_some());
}

#[test]
fn unnamed_crate_gets_placeholder() {
    let model = SemanticModel {
        modules: vec![module("krate", false, true, vec![func("main", vec![], None)])],
        file_roots: vec![Some(0)],
    };
    let crates = vec![CrateSource { name: None, files: vec![0], is_library: false }];
    let (store, _) = workspace_runnables(&model, &crates);
    let (c, _) = roots(&store);
    match &store.slots[c].item {
        AppendItem::Crate { name, .. } => assert_eq!(name, "UNKNOW_CRATE_NAME"),
        _ => panic!("not a crate"),
    }
}

#[test]
fn find_by_id_skips_deleted_nodes() {
    let model = SemanticModel {
        modules: vec![
            module("krate", false, true, vec![Definition::Module(1)]),
            module("a", true, false, vec![func("t", vec![attr("test")], None)]),
        ],
        file_roots: vec![Some(0)],
    };
    let (mut store, mut patch) = build(&model, vec![0]);
    let (_, root) = roots(&store);
    let a = store.find_by_def(DefKey::Module(1)).unwrap();
    let leaf = store.children(Link::Under(a))[0];
    let leaf_id = leaf as u128 + 1;
    assert_eq!(store.find_by_id(leaf_id).map(|s| s.item.id()), Some(leaf_id));
    assert!(store.find_by_id(0).is_none());
    ItemMutator::new(RefNode::Module(root)).delete(&mut store, &mut patch, a as u128 + 1);
    assert!(store.find_by_id(leaf_id).is_none());
    assert!(store.find_by_id(a as u128 + 1).is_none());
    assert!(store.get_by_id(leaf_id).is_some());
}
