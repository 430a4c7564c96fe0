use runnables::publish::file_runnables;
use runnables::runnables::{workspace_runnables, CrateSource};
use runnables::source::{Attr, Definition, SemanticModel, SourceFunction, SourceModule};
use runnables::store::{Link, MirrorStore};
use runnables::view::{Content, Node, Runnable, RunnableFuncKind};

fn model() -> SemanticModel {
    let test = |name: &str| {
        Definition::Function(SourceFunction {
            name: name.to_string(),
            attrs: vec![Attr { path: "test".to_string(), has_input: false }],
            docs: None,
            canonical_path: name.to_string(),
        })
    };
    SemanticModel {
        modules: vec![
            SourceModule {
                name: Some("krate".to_string()),
                is_inline: false,
                is_crate_root: true,
                docs: None,
                declarations: vec![test("a"), Definition::Module(1)],
                impls: vec![],
            },
            SourceModule {
                name: Some("m".to_string()),
                is_inline: true,
                is_crate_root: false,
                docs: None,
                declarations: vec![test("t")],
                impls: vec![],
            },
            SourceModule {
                name: Some("other".to_string()),
                is_inline: false,
                is_crate_root: false,
                docs: None,
                declarations: vec![],
                impls: vec![],
            },
        ],
        file_roots: vec![Some(0), Some(2)],
    }
}

#[test]
fn session_is_published_as_nested_tree() {
    let model = model();
    let crates = vec![CrateSource { name: Some("krate".to_string()), files: vec![0, 1], is_library: false }];
    let (store, _) = workspace_runnables(&model, &crates);
    let session = store.to_session();
    assert_eq!(session.crates.len(), 1);
    let krate = &session.crates[0];
    assert_eq!(krate.name, "krate");
    assert_eq!(krate.id, 1);
    assert_eq!(krate.modules.len(), 1);
    let root = &krate.modules[0];
    assert_eq!(root.name, "krate");
    assert_eq!(root.content.len(), 2);
    match &root.content[0] {
        Content::Leaf(Runnable::Function(f)) => {
            assert_eq!(f.name, "a");
            assert_eq!(f.kind, RunnableFuncKind::Test);
        }
        other => panic!("unexpected {:?}", other),
    }
    match &root.content[1] {
        Content::Node(Node::Module(m)) => {
            assert_eq!(m.name, "m");
            assert_eq!(m.location, 1);
            assert_eq!(m.content.len(), 1);
            assert!(matches!(&m.content[0], Content::Leaf(Runnable::Function(f)) if f.name == "t"));
        }
        other => panic!("unexpected {:?}", other),
    }
}

#[test]
fn file_runnables_of_one_file() {
    let model = model();
    let (m, batch) = file_runnables(&model, 0);
    let m = m.unwrap();
    assert_eq!(m.location, 0);
    assert_eq!(m.content.len(), 2);
    assert_eq!(batch.append.len(), 5);
    let mut replayed = MirrorStore::new();
    replayed.apply_patch(&batch);
    let crate_node = replayed.children(Link::Root)[0];
    let root = replayed.children(Link::Under(crate_node))[0];
    assert_eq!(format!("{:?}", replayed.to_module(root)), format!("{:?}", m));
    assert!(file_runnables(&model, 1).0.is_none());
    assert!(file_runnables(&model, 9).0.is_none());
}
