use runnables::delta::{AppendItem, ItemMutator, Patch, RefNode};
use runnables::executor::{AbortAction, ExectuinState, Executor, LookupError, ProcessEvent, RunAction};
use runnables::runnables::{workspace_runnables, CrateSource};
use runnables::source::{Attr, Definition, SemanticModel, SourceFunction, SourceModule};
use runnables::store::{Link, MirrorStore};

fn setup() -> (SemanticModel, MirrorStore) {
    let model = SemanticModel {
        modules: vec![
            SourceModule {
                name: Some("krate".to_string()),
                is_inline: false,
                is_crate_root: true,
                docs: None,
                declarations: vec![Definition::Module(1)],
                impls: vec![],
            },
            SourceModule {
                name: Some("m".to_string()),
                is_inline: true,
                is_crate_root: false,
                docs: None,
                declarations: vec![Definition::Function(SourceFunction {
                    name: "t".to_string(),
                    attrs: vec![Attr { path: "test".to_string(), has_input: false }],
                    docs: Some("```\n1;\n```".to_string()),
                    canonical_path: "krate::m::t".to_string(),
                })],
                impls: vec![],
            },
        ],
        file_roots: vec![Some(0)],
    };
    let crates = vec![CrateSource { name: Some("krate".to_string()), files: vec![0], is_library: false }];
    let (store, _) = workspace_runnables(&model, &crates);
    (model, store)
}

fn id_of(store: &MirrorStore, pick: fn(&AppendItem) -> bool) -> u128 {
    store.slots.iter().find(|s| pick(&s.item)).unwrap().item.id()
}

#[test]
fn run_twice_poll_then_abort() {
    let (model, store) = setup();
    let id = id_of(&store, |i| matches!(i, AppendItem::Function(_)));
    let mut ex = Executor::new();
    assert!(ex.results().is_none());

    let first = ex.run_tests(&store, &model, &vec![id]);
    assert_eq!(first.len(), 1);
    match &first[0] {
        RunAction::Spawn { id: i, path } => {
            assert_eq!(*i, id);
            assert_eq!(path, "krate::m::t");
        }
        other => panic!("unexpected {:?}", other),
    }
    assert!(ex.executing.contains(&id));

    let second = ex.run_tests(&store, &model, &vec![id]);
    assert!(matches!(second[0], RunAction::AlreadyRunning(i) if i == id));
    assert_eq!(ex.executing.len(), 1);

    ex.process(id, ProcessEvent::Exited(Some(0)), "test t ... ok".to_string(), 12);
    assert!(!ex.executing.contains(&id));
    let status = &ex.results().unwrap()[&id];
    assert_eq!(status.state, ExectuinState::Passed);
    assert_eq!(status.message, "test t ... ok");
    assert_eq!(status.duration_ms, 12);

    ex.run_tests(&store, &model, &vec![id]);
    let aborted = ex.abort_tests(&vec![id, id]);
    assert_eq!(aborted, vec![AbortAction::Kill(id), AbortAction::NotRunning(id)]);
    assert!(ex.executing.is_empty());
    assert_eq!(ex.results().unwrap()[&id].state, ExectuinState::Passed);
}

#[test]
fn duplicate_ids_in_one_request_spawn_once() {
    let (model, store) = setup();
    let id = id_of(&store, |i| matches!(i, AppendItem::Function(_)));
    let mut ex = Executor::new();
    let actions = ex.run_tests(&store, &model, &vec![id, id]);
    assert!(matches!(actions[0], RunAction::Spawn { .. }));
    assert!(matches!(actions[1], RunAction::AlreadyRunning(_)));
}

#[test]
fn exit_codes_and_failures_map_to_states() {
    let (model, store) = setup();
    let id = id_of(&store, |i| matches!(i, AppendItem::Function(_)));
    let cases = [
        (ProcessEvent::Exited(Some(0)), ExectuinState::Passed),
        (ProcessEvent::Exited(Some(101)), ExectuinState::Failed),
        (ProcessEvent::Exited(None), ExectuinState::Failed),
        (ProcessEvent::PollFailed, ExectuinState::Errored),
        (ProcessEvent::SpawnFailed, ExectuinState::Errored),
    ];
    let mut ex = Executor::new();
    for (event, state) in cases {
        ex.run_tests(&store, &model, &vec![id]);
        ex.process(id, event, String::new(), 0);
        assert_eq!(ex.results().unwrap()[&id].state, state);
        assert!(ex.executing.is_empty());
    }
}

#[test]
fn event_for_idle_id_is_ignored() {
    let mut ex = Executor::new();
    ex.process(5, ProcessEvent::Exited(Some(0)), String::new(), 3);
    assert!(ex.results().is_none());
}

#[test]
fn unresolvable_ids_are_errored() {
    let (model, store) = setup();
    let module_id = id_of(&store, |i| matches!(i, AppendItem::Module { .. }));
    let doctest_id = id_of(&store, |i| matches!(i, AppendItem::Doctest(_)));
    let mut ex = Executor::new();
    let actions = ex.run_tests(&store, &model, &vec![999, module_id, doctest_id]);
    let errors: Vec<LookupError> = actions
        .iter()
        .map(|a| match a {
            RunAction::Unresolved { error, .. } => *error,
            other => panic!("unexpected {:?}", other),
        })
        .collect();
    assert_eq!(errors, vec![LookupError::Absent, LookupError::NotALeaf, LookupError::Doctest]);
    let results = ex.results().unwrap();
    assert_eq!(results.len(), 3);
    assert!(results.values().all(|s| s.state == ExectuinState::Errored));
    assert!(ex.executing.is_empty());
}

#[test]
fn runnable_under_deleted_module_is_absent() {
    let (model, mut store) = setup();
    let id = id_of(&store, |i| matches!(i, AppendItem::Function(_)));
    let mut patch = Patch::new(&store);
    let krate = store.children(Link::Root)[0];
    let root = store.children(Link::Under(krate))[0];
    let m = store.children(Link::Under(root))[0];
    ItemMutator::new(RefNode::Module(root)).delete(&mut store, &mut patch, m as u128 + 1);
    let mut ex = Executor::new();
    let actions = ex.run_tests(&store, &model, &vec![id]);
    assert!(matches!(actions[0], RunAction::Unresolved { error: LookupError::Absent, .. }));
    let status = &ex.results().unwrap()[&id];
    assert_eq!(status.state, ExectuinState::Errored);
    assert_eq!(status.message, "no runnable with this identifier");
}
