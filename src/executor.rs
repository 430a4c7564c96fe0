//! The execution engine: which runs to start, stop and record, per mirror
//! node identifier.
//!
//! This is the deciding half of a polling loop. The caller spawns, polls and
//! kills the processes; it hands each outcome back as an event and performs
//! the actions it is given.
use vstd::prelude::*;
use std::collections::{HashMap, HashSet};

use crate::delta::AppendItem;
use crate::source::{Definition, SemanticModel};
use crate::store::{attached, MirrorStore, Slot};
use crate::Id;

verus! {

broadcast use vstd::std_specs::hash::group_hash_axioms;

/// How a run ended.
#[derive(PartialEq, Eq, Structural, Debug, Clone, Copy)]
pub enum ExectuinState {
    /// The test ran and did not succeed: a non-zero exit or a signal.
    Failed,
    /// The test could not be run, or its process could not be observed.
    Errored,
    /// The test ran and succeeded.
    Passed,
}

/// The recorded outcome of the latest run of an identifier.
#[derive(Debug, Clone)]
pub struct RunStatus {
    pub state: ExectuinState,
    pub message: String,
    pub duration_ms: u64,
}

/// Why an identifier could not be run.
#[derive(PartialEq, Eq, Structural, Debug, Clone, Copy)]
pub enum LookupError {
    /// No node of the tree has this identifier.
    Absent,
    /// The identifier names a crate, module or macro call, not a runnable.
    NotALeaf,
    /// The identifier names a documentation example, which is not run
    /// directly.
    Doctest,
}

/// What the caller is to do for one requested identifier.
#[derive(Debug, Clone)]
pub enum RunAction {
    /// Start the test runner on the fully qualified path of the function.
    Spawn { id: Id, path: String },
    /// The identifier is running already: nothing is started.
    AlreadyRunning(Id),
    /// The identifier does not name a runnable function; it is recorded as
    /// errored.
    Unresolved { id: Id, error: LookupError },
}

/// What the caller is to do for one identifier to abort.
#[derive(PartialEq, Eq, Structural, Debug, Clone, Copy)]
pub enum AbortAction {
    /// Ask the operating system to terminate the identifier's process.
    Kill(Id),
    /// The identifier was not running: nothing to do.
    NotRunning(Id),
}

/// What became of a started process.
#[derive(PartialEq, Eq, Structural, Debug, Clone, Copy)]
pub enum ProcessEvent {
    /// The process ended with this exit code, or by a signal (`None`).
    Exited(Option<i32>),
    /// Checking on the process failed.
    PollFailed,
    /// The process could not be started.
    SpawnFailed,
}

/// The per-identifier state of the engine.
#[derive(Debug)]
pub struct Executor {
    pub current_status: HashMap<Id, RunStatus>,
    pub executing: HashSet<Id>,
}

/// The state a finished process leaves its identifier in.
pub open spec fn final_state(e: ProcessEvent) -> ExectuinState {
    match e {
        ProcessEvent::Exited(Some(code)) => if code == 0 {
            ExectuinState::Passed
        } else {
            ExectuinState::Failed
        },
        ProcessEvent::Exited(None) => ExectuinState::Failed,
        ProcessEvent::PollFailed | ProcessEvent::SpawnFailed => ExectuinState::Errored,
    }
}

/// What an identifier resolves to in a store: the fully qualified path of a
/// runnable function that is part of the tree, or why it cannot run. A
/// deleted node, or one under a deleted node, is absent.
pub open spec fn resolve(slots: Seq<Slot>, model: SemanticModel, id: Id) -> Result<String, LookupError> {
    if id < 1 || id - 1 >= slots.len() || !attached(slots, id - 1) {
        Err(LookupError::Absent)
    } else {
        match slots[id - 1].item {
            AppendItem::Function(f) => if f.location.module < model.modules@.len()
                && f.location.decl < model.modules@[f.location.module as int].declarations@.len() {
                match model.modules@[f.location.module as int].declarations@[f.location.decl as int] {
                    Definition::Function(sf) => Ok(sf.canonical_path),
                    _ => Err(LookupError::Absent),
                }
            } else {
                Err(LookupError::Absent)
            },
            AppendItem::Doctest(_) => Err(LookupError::Doctest),
            _ => Err(LookupError::NotALeaf),
        }
    }
}

/// An identifier that could not be run has its diagnostic recorded.
pub open spec fn unresolved_recorded(status: Map<Id, RunStatus>, id: Id, error: LookupError) -> bool {
    &&& status.contains_key(id)
    &&& status[id].state == ExectuinState::Errored
    &&& status[id].message@ == lookup_text(error)
    &&& status[id].duration_ms == 0
}

/// Some action answers identifier `x` with `Unresolved`.
pub open spec fn answered_unresolved(actions: Seq<RunAction>, x: Id) -> bool {
    exists|k: int| 0 <= k < actions.len() && (#[trigger] actions[k] matches RunAction::Unresolved { id, .. } && id == x)
}

/// Identifier `x` has the same recorded status, or none, in both maps.
pub open spec fn same_status(a: Map<Id, RunStatus>, b: Map<Id, RunStatus>, x: Id) -> bool {
    &&& a.contains_key(x) == b.contains_key(x)
    &&& a.contains_key(x) ==> a[x] == b[x]
}

/// The engine's state as values: the recorded state per identifier and the
/// running identifiers.
pub struct EngineView {
    pub status: Map<Id, ExectuinState>,
    pub running: Set<Id>,
}

/// One run request.
pub open spec fn run_step(e: EngineView, slots: Seq<Slot>, model: SemanticModel, id: Id) -> (EngineView, RunAction) {
    if e.running.contains(id) {
        (e, RunAction::AlreadyRunning(id))
    } else {
        match resolve(slots, model, id) {
            Ok(path) => (
                EngineView { status: e.status, running: e.running.insert(id) },
                RunAction::Spawn { id, path },
            ),
            Err(error) => (
                EngineView { status: e.status.insert(id, ExectuinState::Errored), running: e.running },
                RunAction::Unresolved { id, error },
            ),
        }
    }
}

/// Run requests for `ids`, in order.
pub open spec fn run_fold(e: EngineView, slots: Seq<Slot>, model: SemanticModel, ids: Seq<Id>) -> (EngineView, Seq<RunAction>)
    decreases ids.len(),
{
    if ids.len() == 0 {
        (e, Seq::empty())
    } else {
        let (e1, a1) = run_fold(e, slots, model, ids.drop_last());
        let (e2, a) = run_step(e1, slots, model, ids.last());
        (e2, a1.push(a))
    }
}

/// Abort requests for `ids`, in order.
pub open spec fn abort_fold(running: Set<Id>, ids: Seq<Id>) -> (Set<Id>, Seq<AbortAction>)
    decreases ids.len(),
{
    if ids.len() == 0 {
        (running, Seq::empty())
    } else {
        let (r1, a1) = abort_fold(running, ids.drop_last());
        let id = ids.last();
        if r1.contains(id) {
            (r1.remove(id), a1.push(AbortAction::Kill(id)))
        } else {
            (r1, a1.push(AbortAction::NotRunning(id)))
        }
    }
}

impl Executor {
    pub open spec fn view(&self) -> EngineView {
        EngineView {
            status: self.current_status@.map_values(|r: RunStatus| r.state),
            running: self.executing@,
        }
    }

    /// An engine with nothing recorded and nothing running.
    pub fn new() -> (r: Executor)
        ensures
            r.current_status@ == Map::<Id, RunStatus>::empty(),
            r.executing@ == Set::<Id>::empty(),
    {
        Executor { current_status: HashMap::new(), executing: HashSet::new() }
    }

    /// The recorded statuses, or `None` if none was recorded yet.
    pub fn results(&self) -> (r: Option<&HashMap<Id, RunStatus>>)
        ensures
            r is None <==> self.current_status@.len() == 0,
            r matches Some(m) ==> m == &self.current_status,
    {
        if self.current_status.is_empty() {
            None
        } else {
            Some(&self.current_status)
        }
    }

    /// What an identifier resolves to in a store.
    pub fn resolve(store: &MirrorStore, model: &SemanticModel, id: Id) -> (r: Result<String, LookupError>)
        ensures
            r == resolve(store.slots@, *model, id),
    {
        match store.get_by_id(id) {
            None => Err(LookupError::Absent),
            Some(slot) => {
                let _n = store.len();
                let h = (id - 1) as usize;
                assert(h as int == id - 1);
                if !store.is_attached(h) {
                    return Err(LookupError::Absent);
                }
                match &slot.item {
                    AppendItem::Function(f) => {
                        let m = f.location.module;
                        let d = f.location.decl;
                        if m < model.modules.len() && d < model.modules[m].declarations.len() {
                            match &model.modules[m].declarations[d] {
                                Definition::Function(sf) => Ok(sf.canonical_path.clone()),
                                _ => Err(LookupError::Absent),
                            }
                        } else {
                            Err(LookupError::Absent)
                        }
                    },
                    AppendItem::Doctest(_) => Err(LookupError::Doctest),
                    _ => Err(LookupError::NotALeaf),
                }
            },
        }
    }

    /// Handles run requests in order: a running identifier is skipped; an
    /// identifier that names a runnable function is marked running and its
    /// process is to be spawned; any other is recorded as errored. Only the
    /// identifiers answered with `Unresolved` get a new recorded status.
    pub fn run_tests(&mut self, store: &MirrorStore, model: &SemanticModel, ids: &Vec<Id>) -> (r: Vec<RunAction>)
        ensures
            (final(self).view(), r@) == run_fold(old(self).view(), store.slots@, *model, ids@),
            forall|k: int|
                0 <= k < r@.len() ==> (#[trigger] r@[k] matches RunAction::Unresolved { id, error } ==> unresolved_recorded(
                    final(self).current_status@,
                    id,
                    error,
                )),
            forall|x: Id| !answered_unresolved(r@, x) ==> same_status(old(self).current_status@, final(self).current_status@, x),
    {
        let mut actions: Vec<RunAction> = Vec::new();
        let mut i: usize = 0;
        while i < ids.len()
            invariant
                i <= ids@.len(),
                (self.view(), actions@) == run_fold(
                    old(self).view(),
                    store.slots@,
                    *model,
                    ids@.subrange(0, i as int),
                ),
                actions@.len() == i,
                forall|k: int|
                    0 <= k < actions@.len() ==> (#[trigger] actions@[k] matches RunAction::Unresolved { id, error } ==> {
                        &&& unresolved_recorded(self.current_status@, id, error)
                        &&& resolve(store.slots@, *model, id) == Err::<String, LookupError>(error)
                        &&& !self.executing@.contains(id)
                    }),
                forall|x: Id| !answered_unresolved(actions@, x) ==> same_status(old(self).current_status@, self.current_status@, x),
            decreases ids@.len() - i,
        {
            let id = ids[i];
            let ghost before = self.view();
            let ghost st0 = self.current_status@;
            let ghost ex0 = self.executing@;
            let ghost acts0 = actions@;
            if self.executing.contains(&id) {
                actions.push(RunAction::AlreadyRunning(id));
            } else {
                match Executor::resolve(store, model, id) {
                    Ok(path) => {
                        self.executing.insert(id);
                        actions.push(RunAction::Spawn { id, path });
                    },
                    Err(error) => {
                        let status = RunStatus {
                            state: ExectuinState::Errored,
                            message: lookup_message(error),
                            duration_ms: 0,
                        };
                        self.current_status.insert(id, status);
                        proof {
                            assert(self.view().status =~= before.status.insert(id, ExectuinState::Errored));
                        }
                        actions.push(RunAction::Unresolved { id, error });
                    },
                }
            }
            proof {
                assert(ids@.subrange(0, i + 1).drop_last() =~= ids@.subrange(0, i as int));
                assert forall|k: int|
                    0 <= k < actions@.len() implies (#[trigger] actions@[k] matches RunAction::Unresolved { id, error } ==> {
                        &&& unresolved_recorded(self.current_status@, id, error)
                        &&& resolve(store.slots@, *model, id) == Err::<String, LookupError>(error)
                        &&& !self.executing@.contains(id)
                    }) by {
                    if k < acts0.len() {
                        assert(actions@[k] == acts0[k]);
                    }
                }
                assert forall|x: Id|
                    !answered_unresolved(actions@, x) implies same_status(old(self).current_status@, self.current_status@, x) by {
                    if answered_unresolved(acts0, x) {
                        let k = choose|k: int| 0 <= k < acts0.len() && (#[trigger] acts0[k] matches RunAction::Unresolved { id, .. } && id == x);
                        assert(actions@[k] == acts0[k]);
                    }
                    match actions@[acts0.len() as int] {
                        RunAction::Unresolved { id: y, .. } => {
                            assert(y != x);
                        },
                        _ => {
                            assert(self.current_status@ == st0);
                        },
                    }
                }
            }
            i = i + 1;
        }
        assert(ids@.subrange(0, ids@.len() as int) =~= ids@);
        actions
    }

    /// Records what became of a running identifier's process, with the
    /// runner's human-readable output and the run's duration: it stops
    /// running and its status is overwritten. An identifier that is not
    /// running is left alone.
    pub fn process(&mut self, id: Id, event: ProcessEvent, message: String, duration_ms: u64)
        ensures
            old(self).view().running.contains(id) ==> final(self).view() == (EngineView {
                status: old(self).view().status.insert(id, final_state(event)),
                running: old(self).view().running.remove(id),
            }),
            old(self).view().running.contains(id) ==> final(self).current_status@[id] == (RunStatus {
                state: final_state(event),
                message,
                duration_ms,
            }),
            !old(self).view().running.contains(id) ==> final(self).view() == old(self).view(),
            !old(self).view().running.contains(id) ==> final(self).current_status@ == old(self).current_status@,
            forall|x: Id| x != id ==> same_status(old(self).current_status@, final(self).current_status@, x),
    {
        if self.executing.contains(&id) {
            let state = match event {
                ProcessEvent::Exited(Some(code)) => if code == 0 {
                    ExectuinState::Passed
                } else {
                    ExectuinState::Failed
                },
                ProcessEvent::Exited(None) => ExectuinState::Failed,
                ProcessEvent::PollFailed | ProcessEvent::SpawnFailed => ExectuinState::Errored,
            };
            let ghost before = self.view();
            self.executing.remove(&id);
            self.current_status.insert(id, RunStatus { state, message, duration_ms });
            proof {
                assert(self.view().status =~= before.status.insert(id, final_state(event)));
            }
        }
    }

    /// Handles abort requests in order: a running identifier stops running
    /// and its process is to be killed; any other is reported as not running.
    pub fn abort_tests(&mut self, ids: &Vec<Id>) -> (r: Vec<AbortAction>)
        ensures
            final(self).current_status@ == old(self).current_status@,
            (final(self).view().running, r@) == abort_fold(old(self).view().running, ids@),
    {
        let mut actions: Vec<AbortAction> = Vec::new();
        let mut i: usize = 0;
        while i < ids.len()
            invariant
                i <= ids@.len(),
                self.current_status@ == old(self).current_status@,
                (self.view().running, actions@) == abort_fold(
                    old(self).view().running,
                    ids@.subrange(0, i as int),
                ),
            decreases ids@.len() - i,
        {
            let id = ids[i];
            if self.executing.remove(&id) {
                actions.push(AbortAction::Kill(id));
            } else {
                actions.push(AbortAction::NotRunning(id));
            }
            proof {
                assert(ids@.subrange(0, i + 1).drop_last() =~= ids@.subrange(0, i as int));
            }
            i = i + 1;
        }
        assert(ids@.subrange(0, ids@.len() as int) =~= ids@);
        actions
    }
}

/// The diagnostic recorded for an identifier that cannot be run.
pub open spec fn lookup_text(e: LookupError) -> Seq<char> {
    match e {
        LookupError::Absent => "no runnable with this identifier"@,
        LookupError::NotALeaf => "the identifier names a node, not a runnable"@,
        LookupError::Doctest => "documentation examples are not run directly"@,
    }
}

/// The diagnostic recorded for an identifier that cannot be run.
fn lookup_message(e: LookupError) -> (r: String)
    ensures
        r@ == lookup_text(e),
{
    match e {
        LookupError::Absent => "no runnable with this identifier".to_owned(),
        LookupError::NotALeaf => "the identifier names a node, not a runnable".to_owned(),
        LookupError::Doctest => "documentation examples are not run directly".to_owned(),
    }
}

} // verus!
