//! Growing the mirror tree along walked module paths.
//!
//! While one file is walked, a path tracker pairs each module of the path
//! from the file root to the current module with the node that mirrors it,
//! if that node exists yet. Mirrored entries always form a prefix of the
//! path, so the first unmirrored position is found by one scan, and only the
//! suffix after it is created when a runnable has to be placed.
use vstd::prelude::*;

use crate::classify::Candidate;
use crate::delta::{lemma_records_chain, lemma_records_none, records_appends, AppendItem, ItemMutator, Patch, RefNode};
use crate::classify::decl_candidates;
use crate::order::{
    crate_kids_at, cursors_ok, in_declaration_order, keyed, lemma_visit_crate_kids, lemma_visit_fresh, lemma_visit_order,
    lemma_wf_backward, some_runnable, sorted,
};
use crate::shape::{
    found, increasing, lemma_resync_stops, lemma_visit_tracker, mirrors, origins_start_with, seq_prefix,
    tracker_inv,
};
use crate::source::{Definition, SemanticModel};
use crate::store::{id_of_handle, Link, MirrorStore, Slot};
use crate::view::{Doctest, DeclRef, DoctestLocation, ModuleRef, RunnableFunc, RunnableFuncKind};
use crate::Id;

verus! {

/// One entry of the path tracker: a module of the walked path and the
/// handle of the node mirroring it, once there is one.
#[derive(PartialEq, Eq, Structural, Debug, Clone, Copy)]
pub struct Bijection {
    pub origin: ModuleRef,
    pub mirror: Option<usize>,
}

/// The first position of a path tracker whose entry is not mirrored.
#[derive(PartialEq, Eq, Structural, Debug, Clone, Copy)]
pub struct DifferencePoint(pub usize);

/// The crate a file is reconciled into: its name, and its node once the
/// crate holds anything.
#[derive(Debug)]
pub struct CrateCursor {
    pub name: String,
    pub node: Option<usize>,
}

/// What a node is, with names as character sequences.
pub enum NodeView {
    Crate { id: Id, name: Seq<char> },
    Module { id: Id, name: Seq<char>, location: ModuleRef },
    MacroCall { id: Id },
    Function { id: Id, name: Seq<char>, kind: RunnableFuncKind, location: DeclRef },
    Doctest { id: Id, location: DoctestLocation },
}

/// A node of the store and where it hangs.
pub struct SlotView {
    pub link: Link,
    pub node: NodeView,
}

pub open spec fn item_view(item: AppendItem) -> NodeView {
    match item {
        AppendItem::Crate { id, name } => NodeView::Crate { id, name: name@ },
        AppendItem::Module { id, name, location } => NodeView::Module { id, name: name@, location },
        AppendItem::MacroCall { id } => NodeView::MacroCall { id },
        AppendItem::Function(f) => NodeView::Function {
            id: f.id,
            name: f.name@,
            kind: f.kind,
            location: f.location,
        },
        AppendItem::Doctest(d) => NodeView::Doctest { id: d.id, location: d.location },
    }
}

pub open spec fn slot_view(s: Slot) -> SlotView {
    SlotView { link: s.link, node: item_view(s.item) }
}

/// The structure of a store: every node, as a view, in handle order.
pub open spec fn store_view(slots: Seq<Slot>) -> Seq<SlotView> {
    slots.map_values(|s: Slot| slot_view(s))
}

/// The name a module's node gets; an unresolved name becomes a placeholder.
pub open spec fn module_name(model: SemanticModel, m: ModuleRef) -> Seq<char> {
    match model.modules@[m as int].name {
        Some(n) => n@,
        None => "UNKNOW_MOD_NAME"@,
    }
}

/// The position of the first unmirrored entry at or after `i`, or the
/// length of the path if there is none.
pub open spec fn first_unmirrored(t: Seq<Bijection>, i: int) -> int
    decreases t.len() - i,
{
    if i < 0 || i >= t.len() {
        t.len() as int
    } else if t[i].mirror is None {
        i
    } else {
        first_unmirrored(t, i + 1)
    }
}

/// Mirrored entries form a prefix of the tracker.
pub open spec fn monotone(t: Seq<Bijection>) -> bool {
    forall|i: int, j: int| 0 <= i < j < t.len() && #[trigger] t[i].mirror is None ==> #[trigger] t[j].mirror is None
}

/// Every mirror of the tracker is a module node of the store, and the crate
/// node, if any, is a crate node.
pub open spec fn tracker_ok(slots: Seq<Slot>, t: Seq<Bijection>, krate: Option<usize>) -> bool {
    &&& monotone(t)
    &&& forall|k: int|
        0 <= k < t.len() && #[trigger] t[k].mirror is Some ==> t[k].mirror->0 < slots.len()
            && slots[t[k].mirror->0 as int].item is Module
    &&& krate matches Some(c) ==> c < slots.len() && slots[c as int].item is Crate
}

/// Creating nodes for the entries `k..` of a tracker, each under the node
/// of the entry before it.
pub open spec fn synth_from(model: SemanticModel, s: Seq<SlotView>, t: Seq<Bijection>, k: int) -> (
    Seq<SlotView>,
    Seq<Bijection>,
)
    decreases t.len() - k,
{
    if k <= 0 || k >= t.len() {
        (s, t)
    } else {
        let h = s.len();
        let node = SlotView {
            link: Link::Under(t[k - 1].mirror->0),
            node: NodeView::Module {
                id: id_of_handle(h as int),
                name: module_name(model, t[k].origin),
                location: t[k].origin,
            },
        };
        synth_from(
            model,
            s.push(node),
            t.update(k, Bijection { origin: t[k].origin, mirror: Some(h as usize) }),
            k + 1,
        )
    }
}

/// The leaf a candidate becomes, with handle `h`, under node `parent`.
pub open spec fn leaf_view(c: Candidate, parent: usize, h: int) -> SlotView {
    SlotView {
        link: Link::Under(parent),
        node: match c {
            Candidate::Function { name, kind, location } => NodeView::Function {
                id: id_of_handle(h),
                name: name@,
                kind,
                location,
            },
            Candidate::Doctest(location) => NodeView::Doctest { id: id_of_handle(h), location },
        },
    }
}

/// Appending the leaves of `cs` under `parent`, in order.
pub open spec fn leaves(s: Seq<SlotView>, cs: Seq<Candidate>, parent: usize) -> Seq<SlotView>
    decreases cs.len(),
{
    if cs.len() == 0 {
        s
    } else {
        let s1 = leaves(s, cs.drop_last(), parent);
        s1.push(leaf_view(cs.last(), parent, s1.len() as int))
    }
}

/// Creating the crate node if there is none yet, then the node of the file
/// root under it.
pub open spec fn root_spec(
    model: SemanticModel,
    s: Seq<SlotView>,
    t: Seq<Bijection>,
    krate: Option<usize>,
    crate_name: Seq<char>,
) -> (Seq<SlotView>, Seq<Bijection>, Option<usize>) {
    let (s1, c) = match krate {
        Some(c) => (s, c),
        None => (
            s.push(
                SlotView {
                    link: Link::Root,
                    node: NodeView::Crate { id: id_of_handle(s.len() as int), name: crate_name },
                },
            ),
            s.len() as usize,
        ),
    };
    let h = s1.len();
    let s2 = s1.push(
        SlotView {
            link: Link::Under(c),
            node: NodeView::Module {
                id: id_of_handle(h as int),
                name: module_name(model, t[0].origin),
                location: t[0].origin,
            },
        },
    );
    (s2, t.update(0, Bijection { origin: t[0].origin, mirror: Some(h as usize) }), Some(c))
}

/// Placing the runnables `cs` at the end of the tracked path: the missing
/// suffix of the path is created first, then the leaves are appended under
/// the node of the last module, in order.
pub open spec fn store_spec(
    model: SemanticModel,
    s: Seq<SlotView>,
    t: Seq<Bijection>,
    krate: Option<usize>,
    crate_name: Seq<char>,
    cs: Seq<Candidate>,
) -> (Seq<SlotView>, Seq<Bijection>, Option<usize>) {
    if t.len() == 0 || cs.len() == 0 {
        (s, t, krate)
    } else {
        let d = first_unmirrored(t, 0);
        let (s1, t1, k1) = if d == 0 {
            root_spec(model, s, t, krate, crate_name)
        } else {
            (s, t, krate)
        };
        let (s2, t2) = synth_from(model, s1, t1, if d == 0 { 1 } else { d });
        (leaves(s2, cs, t2.last().mirror->0), t2, k1)
    }
}

} // verus!

verus! {

proof fn lemma_view_push(s: Seq<Slot>, x: Slot)
    ensures
        store_view(s.push(x)) == store_view(s).push(slot_view(x)),
{
    assert(store_view(s.push(x)) =~= store_view(s).push(slot_view(x)));
}

/// Finds the first unmirrored position of the tracker, if any. One scan from
/// the front: mirrored entries form a prefix.
pub fn find_diff_point(path: &Vec<Bijection>) -> (r: Option<DifferencePoint>)
    ensures
        r == if first_unmirrored(path@, 0) == path@.len() {
            None::<DifferencePoint>
        } else {
            Some(DifferencePoint(first_unmirrored(path@, 0) as usize))
        },
        r matches Some(d) ==> d.0 < path@.len() && path@[d.0 as int].mirror is None,
        r matches Some(d) ==> forall|j: int| 0 <= j < d.0 ==> #[trigger] path@[j].mirror is Some,
        r is None ==> forall|j: int| 0 <= j < path@.len() ==> #[trigger] path@[j].mirror is Some,
{
    proof {
        lemma_first_unmirrored_bounds(path@, 0);
    }
    let mut i: usize = 0;
    while i < path.len()
        invariant
            i <= path@.len(),
            first_unmirrored(path@, 0) == first_unmirrored(path@, i as int),
            forall|j: int| 0 <= j < i ==> #[trigger] path@[j].mirror is Some,
        decreases path@.len() - i,
    {
        if path[i].mirror.is_none() {
            return Some(DifferencePoint(i));
        }
        i = i + 1;
    }
    None
}

/// The name of a module's node.
fn module_name_of(model: &SemanticModel, m: ModuleRef) -> (r: String)
    requires
        m < model.modules@.len(),
    ensures
        r@ == module_name(*model, m),
{
    match &model.modules[m].name {
        Some(n) => n.clone(),
        None => "UNKNOW_MOD_NAME".to_owned(),
    }
}

/// Every origin of the tracker is a module of the model.
pub open spec fn origins_ok(model: SemanticModel, t: Seq<Bijection>) -> bool {
    forall|k: int| 0 <= k < t.len() ==> #[trigger] t[k].origin < model.modules@.len()
}

/// Creates the nodes of the tracker entries `dvg_point..`, each under the
/// node of the entry before it, and records them.
pub fn syn_branches(
    model: &SemanticModel,
    store: &mut MirrorStore,
    patch: &mut Patch,
    path: &mut Vec<Bijection>,
    dvg_point: &DifferencePoint,
)
    requires
        old(store).wf(),
        old(patch).tracks(old(store)),
        tracker_ok(old(store).slots@, old(path)@, None),
        origins_ok(*model, old(path)@),
        1 <= dvg_point.0 <= old(path)@.len(),
        old(path)@[dvg_point.0 - 1].mirror is Some,
    ensures
        final(store).wf(),
        final(patch).tracks(final(store)),
        final(patch).base == old(patch).base,
        final(patch).id == old(patch).id,
        final(patch).delete@ == old(patch).delete@,
        final(patch).update@ == old(patch).update@,
        records_appends(old(patch).append@, final(patch).append@, old(store).slots@.len() as int, final(store).slots@),
        final(path)@.len() == old(path)@.len(),
        (store_view(final(store).slots@), final(path)@) == synth_from(
            *model,
            store_view(old(store).slots@),
            old(path)@,
            dvg_point.0 as int,
        ),
        final(store).slots@.len() >= old(store).slots@.len(),
        final(store).slots@.subrange(0, old(store).slots@.len() as int) == old(store).slots@,
        tracker_ok(final(store).slots@, final(path)@, None),
        origins_ok(*model, final(path)@),
        forall|k: int| 0 <= k < final(path)@.len() ==> #[trigger] final(path)@[k].mirror is Some,
{
    proof {
        lemma_records_none(old(patch).append@, old(store).slots@);
    }
    let ghost s0 = store.slots@;
    let ghost t0 = path@;
    let mut k = dvg_point.0;
    while k < path.len()
        invariant
            1 <= k <= path@.len(),
            path@.len() == t0.len(),
            store.wf(),
            patch.tracks(store),
            patch.base == old(patch).base,
            patch.id == old(patch).id,
            patch.delete@ == old(patch).delete@,
            patch.update@ == old(patch).update@,
            records_appends(old(patch).append@, patch.append@, old(store).slots@.len() as int, store.slots@),
            synth_from(*model, store_view(store.slots@), path@, k as int) == synth_from(
                *model,
                store_view(s0),
                t0,
                dvg_point.0 as int,
            ),
            store.slots@.len() >= s0.len(),
            store.slots@.subrange(0, s0.len() as int) == s0,
            forall|j: int| 0 <= j < k ==> #[trigger] path@[j].mirror is Some,
            forall|j: int|
                0 <= j < path@.len() && #[trigger] path@[j].mirror is Some ==> path@[j].mirror->0
                    < store.slots@.len() && store.slots@[path@[j].mirror->0 as int].item is Module,
            forall|j: int| 0 <= j < path@.len() ==> #[trigger] path@[j].origin == t0[j].origin,
            origins_ok(*model, path@),
        decreases path@.len() - k,
    {
        let parent = match path[k - 1].mirror {
            Some(p) => p,
            None => 0,
        };
        let origin = path[k].origin;
        let h = store.len();
        let item = AppendItem::Module { id: store.next_id(), name: module_name_of(model, origin), location: origin };
        let ghost sv = store_view(store.slots@);
        let ghost before = store.slots@;
        let ghost slot = Slot { link: Link::Under(parent), item };
        let ghost ra = patch.append@;
        let ghost rs = store.slots@;
        ItemMutator::new(RefNode::Module(parent)).append(store, patch, item);
        proof {
            assert(store.slots@.subrange(0, rs.len() as int) =~= rs);
            lemma_records_chain(old(patch).append@, ra, patch.append@, old(store).slots@.len() as int, rs, store.slots@);
        }
        proof {
            lemma_view_push(before, slot);
            assert(slot_view(slot) == SlotView {
                link: Link::Under(path@[k - 1].mirror->0),
                node: NodeView::Module {
                    id: id_of_handle(sv.len() as int),
                    name: module_name(*model, path@[k as int].origin),
                    location: path@[k as int].origin,
                },
            });
            assert(store.slots@.subrange(0, s0.len() as int) =~= s0) by {
                assert forall|j: int| 0 <= j < s0.len() implies store.slots@[j] == s0[j] by {
                    assert(before.subrange(0, s0.len() as int)[j] == s0[j]);
                }
            }
        }
        path.set(k, Bijection { origin, mirror: Some(h) });
        proof {
            assert forall|j: int|
                0 <= j < path@.len() && #[trigger] path@[j].mirror is Some implies path@[j].mirror->0
                    < store.slots@.len() && store.slots@[path@[j].mirror->0 as int].item
                    is Module by {
                if j != k {
                    assert(store.slots@[path@[j].mirror->0 as int] == before[path@[j].mirror->0 as int]);
                }
            }
        }
        k = k + 1;
    }
}

} // verus!

verus! {

/// Creates the crate node if there is none yet, then the node of the file
/// root (the first tracker entry) under it.
fn create_root(
    model: &SemanticModel,
    store: &mut MirrorStore,
    patch: &mut Patch,
    path: &mut Vec<Bijection>,
    cursor: &mut CrateCursor,
)
    requires
        old(store).wf(),
        old(patch).tracks(old(store)),
        tracker_ok(old(store).slots@, old(path)@, old(cursor).node),
        origins_ok(*model, old(path)@),
        old(path)@.len() > 0,
    ensures
        final(store).wf(),
        final(patch).tracks(final(store)),
        final(patch).base == old(patch).base,
        final(patch).id == old(patch).id,
        final(patch).delete@ == old(patch).delete@,
        final(patch).update@ == old(patch).update@,
        records_appends(old(patch).append@, final(patch).append@, old(store).slots@.len() as int, final(store).slots@),
        final(cursor).name == old(cursor).name,
        (store_view(final(store).slots@), final(path)@, final(cursor).node) == root_spec(
            *model,
            store_view(old(store).slots@),
            old(path)@,
            old(cursor).node,
            old(cursor).name@,
        ),
        final(store).slots@.len() >= old(store).slots@.len(),
        final(store).slots@.subrange(0, old(store).slots@.len() as int) == old(store).slots@,
        final(path)@.len() == old(path)@.len(),
        final(path)@[0].mirror is Some,
        forall|j: int| 0 < j < final(path)@.len() ==> #[trigger] final(path)@[j] == old(path)@[j],
        forall|j: int|
            0 <= j < final(path)@.len() && #[trigger] final(path)@[j].mirror is Some
                ==> final(path)@[j].mirror->0 < final(store).slots@.len()
                && final(store).slots@[final(path)@[j].mirror->0 as int].item is Module,
        final(cursor).node matches Some(c) && c < final(store).slots@.len()
            && final(store).slots@[c as int].item is Crate,
        origins_ok(*model, final(path)@),
{
    proof {
        lemma_records_none(old(patch).append@, old(store).slots@);
    }
    let ghost s0 = store.slots@;
    let c = match cursor.node {
        Some(c) => c,
        None => {
            let h = store.len();
            let item = AppendItem::Crate { id: store.next_id(), name: cursor.name.clone() };
            let ghost slot = Slot { link: Link::Root, item };
            let ghost ra = patch.append@;
            let ghost rs = store.slots@;
            ItemMutator::new(RefNode::Session).append(store, patch, item);
            proof {
                assert(store.slots@.subrange(0, rs.len() as int) =~= rs);
                lemma_records_chain(old(patch).append@, ra, patch.append@, old(store).slots@.len() as int, rs, store.slots@);
            }
            proof {
                lemma_view_push(s0, slot);
            }
            cursor.node = Some(h);
            h
        },
    };
    let ghost s1 = store.slots@;
    let origin = path[0].origin;
    let h = store.len();
    let item = AppendItem::Module { id: store.next_id(), name: module_name_of(model, origin), location: origin };
    let ghost slot = Slot { link: Link::Under(c), item };
    let ghost ra = patch.append@;
    let ghost rs = store.slots@;
    ItemMutator::new(RefNode::Crate(c)).append(store, patch, item);
    proof {
        assert(store.slots@.subrange(0, rs.len() as int) =~= rs);
        lemma_records_chain(old(patch).append@, ra, patch.append@, old(store).slots@.len() as int, rs, store.slots@);
    }
    path.set(0, Bijection { origin, mirror: Some(h) });
    proof {
        lemma_view_push(s1, slot);
        assert(store.slots@.subrange(0, s0.len() as int) =~= s0) by {
            assert forall|j: int| 0 <= j < s0.len() implies store.slots@[j] == s0[j] by {
                assert(s1[j] == store.slots@[j]);
            }
        }
        assert forall|j: int|
            0 <= j < path@.len() && #[trigger] path@[j].mirror is Some implies path@[j].mirror->0
                < store.slots@.len() && store.slots@[path@[j].mirror->0 as int].item is Module by {
            if j != 0 {
                assert(store.slots@[path@[j].mirror->0 as int] == s0[path@[j].mirror->0 as int]);
            }
        }
    }
}

/// The node a candidate becomes, with identifier `id`.
fn leaf_item(c: &Candidate, id: Id) -> (r: AppendItem)
    ensures
        !(r is Crate),
        r.spec_id() == id,
        forall|p: usize, h: int|
            id == id_of_handle(h) ==> #[trigger] leaf_view(*c, p, h) == slot_view(
                Slot { link: Link::Under(p), item: r },
            ),
{
    match c {
        Candidate::Function { name, kind, location } => AppendItem::Function(
            RunnableFunc { id, name: name.clone(), kind: *kind, location: *location },
        ),
        Candidate::Doctest(location) => AppendItem::Doctest(Doctest { id, location: *location }),
    }
}

/// Places runnables at the end of the tracked path: creates the missing
/// suffix of the path (and the file root and crate nodes, if they are
/// missing), then appends the runnables under the node of the last module.
#[verifier::spinoff_prover]
#[verifier::rlimit(100)]
pub fn store_runnables(
    model: &SemanticModel,
    store: &mut MirrorStore,
    patch: &mut Patch,
    path: &mut Vec<Bijection>,
    runnables: &Vec<Candidate>,
    cursor: &mut CrateCursor,
)
    requires
        old(store).wf(),
        old(patch).tracks(old(store)),
        tracker_ok(old(store).slots@, old(path)@, old(cursor).node),
        origins_ok(*model, old(path)@),
    ensures
        final(store).wf(),
        final(patch).tracks(final(store)),
        final(patch).base == old(patch).base,
        final(patch).id == old(patch).id,
        final(patch).delete@ == old(patch).delete@,
        final(patch).update@ == old(patch).update@,
        records_appends(old(patch).append@, final(patch).append@, old(store).slots@.len() as int, final(store).slots@),
        final(cursor).name == old(cursor).name,
        (store_view(final(store).slots@), final(path)@, final(cursor).node) == store_spec(
            *model,
            store_view(old(store).slots@),
            old(path)@,
            old(cursor).node,
            old(cursor).name@,
            runnables@,
        ),
        final(store).slots@.len() >= old(store).slots@.len(),
        final(store).slots@.subrange(0, old(store).slots@.len() as int) == old(store).slots@,
        tracker_ok(final(store).slots@, final(path)@, final(cursor).node),
        origins_ok(*model, final(path)@),
{
    proof {
        lemma_records_none(old(patch).append@, old(store).slots@);
    }
    if path.len() == 0 || runnables.len() == 0 {
        return;
    }
    let ghost s0 = store.slots@;
    let ghost t0 = path@;
    let d = find_diff_point(path);
    let start: usize = match d {
        Some(DifferencePoint(k)) => {
            if k == 0 {
                let ghost ra = patch.append@;
                let ghost rs = store.slots@;
                create_root(model, store, patch, path, cursor);
                proof {
                    lemma_records_chain(old(patch).append@, ra, patch.append@, old(store).slots@.len() as int, rs, store.slots@);
                }
                1
            } else {
                k
            }
        },
        None => {
            path.len()
        },
    };
    let ghost s1 = store.slots@;
    let ghost t1 = path@;
    assert(forall|j: int| 0 <= j < start ==> #[trigger] path@[j].mirror is Some);
    proof {
        lemma_first_unmirrored_bounds(t0, 0);
        let dd = first_unmirrored(t0, 0);
        assert(start as int == if dd == 0 { 1 } else { dd });
        let (rs, rt, rk) = if dd == 0 {
            root_spec(*model, store_view(s0), t0, old(cursor).node, old(cursor).name@)
        } else {
            (store_view(s0), t0, old(cursor).node)
        };
        assert(rs == store_view(s1) && rt == t1 && rk == cursor.node);
    }
    if start < path.len() {
        let ghost ra = patch.append@;
        let ghost rs = store.slots@;
        syn_branches(model, store, patch, path, &DifferencePoint(start));
        proof {
            lemma_records_chain(old(patch).append@, ra, patch.append@, old(store).slots@.len() as int, rs, store.slots@);
        }
    }
    let ghost s2 = store.slots@;
    assert((store_view(s2), path@) == synth_from(*model, store_view(s1), t1, start as int));
    let last = path.len() - 1;
    let parent = match path[last].mirror {
        Some(p) => p,
        None => 0,
    };
    let mut i: usize = 0;
    while i < runnables.len()
        invariant
            i <= runnables@.len(),
            path@.len() > 0,
            path@[path@.len() - 1].mirror == Some(parent),
            parent < s2.len(),
            s2[parent as int].item is Module,
            store.wf(),
            patch.tracks(store),
            patch.base == old(patch).base,
            patch.id == old(patch).id,
            patch.delete@ == old(patch).delete@,
            patch.update@ == old(patch).update@,
            records_appends(old(patch).append@, patch.append@, old(store).slots@.len() as int, store.slots@),
            store_view(store.slots@) == leaves(store_view(s2), runnables@.subrange(0, i as int), parent),
            store.slots@.len() >= s2.len(),
            store.slots@.subrange(0, s2.len() as int) == s2,
        decreases runnables@.len() - i,
    {
        let id = store.next_id();
        let ghost before = store.slots@;
        let item = leaf_item(&runnables[i], id);
        let ghost slot = Slot { link: Link::Under(parent), item };
        proof {
            assert(before[parent as int] == s2[parent as int]) by {
                assert(before.subrange(0, s2.len() as int)[parent as int] == s2[parent as int]);
            }
        }
        let ghost ra = patch.append@;
        let ghost rs = store.slots@;
        ItemMutator::new(RefNode::Module(parent)).append(store, patch, item);
        proof {
            assert(store.slots@.subrange(0, rs.len() as int) =~= rs);
            lemma_records_chain(old(patch).append@, ra, patch.append@, old(store).slots@.len() as int, rs, store.slots@);
        }
        proof {
            lemma_view_push(before, slot);
            let cs = runnables@.subrange(0, i + 1);
            assert(cs.drop_last() =~= runnables@.subrange(0, i as int));
            assert(leaf_view(runnables@[i as int], parent, before.len() as int) == slot_view(slot));
            assert(store.slots@.subrange(0, s2.len() as int) =~= s2) by {
                assert forall|j: int| 0 <= j < s2.len() implies store.slots@[j] == s2[j] by {
                    assert(before.subrange(0, s2.len() as int)[j] == s2[j]);
                }
            }
        }
        i = i + 1;
    }
    proof {
        assert(runnables@.subrange(0, runnables@.len() as int) =~= runnables@);
        assert(store.slots@.subrange(0, s0.len() as int) =~= s0) by {
            assert forall|j: int| 0 <= j < s0.len() implies store.slots@[j] == s0[j] by {
                assert(s1.subrange(0, s0.len() as int)[j] == s0[j]);
                assert(s2.subrange(0, s1.len() as int)[j] == s1[j]);
                assert(store.slots@.subrange(0, s2.len() as int)[j] == s2[j]);
            }
        }
        assert forall|j: int|
            0 <= j < path@.len() && #[trigger] path@[j].mirror is Some implies path@[j].mirror->0
                < store.slots@.len() && store.slots@[path@[j].mirror->0 as int].item is Module by {
            assert(store.slots@.subrange(0, s2.len() as int)[path@[j].mirror->0 as int]
                == s2[path@[j].mirror->0 as int]);
        }
        match cursor.node {
            Some(c) => {
                assert(store.slots@.subrange(0, s2.len() as int)[c as int] == s2[c as int]);
                assert(s2.subrange(0, s1.len() as int)[c as int] == s1[c as int]);
            },
            None => {},
        }
    }
}

pub(crate) proof fn lemma_first_unmirrored_bounds(t: Seq<Bijection>, i: int)
    requires
        0 <= i,
    ensures
        0 <= first_unmirrored(t, i) <= t.len(),
        i <= t.len() ==> i <= first_unmirrored(t, i),
    decreases t.len() - i,
{
    if i < t.len() && t[i].mirror is Some {
        lemma_first_unmirrored_bounds(t, i + 1);
    }
}

} // verus!

verus! {

/// One visit of a file walk: declaration `decl` of module `module`, reached
/// along `path` (the file root first, `module` last).
pub struct Visit {
    pub path: Seq<ModuleRef>,
    pub module: ModuleRef,
    pub decl: int,
}

/// The submodule a walk enters after visiting declaration `i` of module
/// `m`: an inline module with at least one declaration. Modules defined in
/// files of their own are reconciled with those files.
pub open spec fn entered(model: SemanticModel, m: int, i: int) -> Option<ModuleRef> {
    match model.modules@[m].declarations@[i] {
        Definition::Module(c) => if m < c < model.modules@.len() && model.modules@[c as int].is_inline
            && model.modules@[c as int].declarations@.len() > 0 {
            Some(c)
        } else {
            None
        },
        _ => None,
    }
}

/// The visits of the declarations `i..` of module `m` and of everything the
/// walk enters from them, depth first, in source order.
pub open spec fn visits_from(model: SemanticModel, m: int, path: Seq<ModuleRef>, i: int) -> Seq<Visit>
    decreases model.modules@.len() - m, model.modules@[m].declarations@.len() - i,
{
    if m < 0 || m >= model.modules@.len() || i < 0 || i >= model.modules@[m].declarations@.len() {
        Seq::empty()
    } else {
        let v = Visit { path, module: m as usize, decl: i };
        let sub = match entered(model, m, i) {
            Some(c) => visits_from(model, c as int, path.push(c), 0),
            None => Seq::empty(),
        };
        seq![v] + sub + visits_from(model, m, path, i + 1)
    }
}

/// The visits of a walk from module `root`.
pub open spec fn file_visits(model: SemanticModel, root: ModuleRef) -> Seq<Visit> {
    visits_from(model, root as int, seq![root], 0)
}

/// The tracker cut back to end at `owner`: entries of a deeper branch that
/// the walk has left are dropped.
pub open spec fn resync(t: Seq<Bijection>, owner: ModuleRef) -> Seq<Bijection>
    decreases t.len(),
{
    if t.len() == 0 || t.last().origin == owner {
        t
    } else {
        resync(t.drop_last(), owner)
    }
}

/// The state of a walk: the store, the tracker and the crate node.
pub struct WalkState {
    pub slots: Seq<SlotView>,
    pub path: Seq<Bijection>,
    pub krate: Option<usize>,
}

/// One visit: the tracker is cut back to the visited declaration's module,
/// what the declaration yields is placed, and an entered submodule is
/// pushed, unmirrored.
pub open spec fn visit_step(model: SemanticModel, name: Seq<char>, st: WalkState, v: Visit) -> WalkState {
    let t1 = resync(st.path, v.module);
    let cs = decl_candidates(model, v.module as int, v.decl);
    let (s2, t2, k2) = store_spec(model, st.slots, t1, st.krate, name, cs);
    let t3 = match entered(model, v.module as int, v.decl) {
        Some(c) => t2.push(Bijection { origin: c, mirror: None }),
        None => t2,
    };
    WalkState { slots: s2, path: t3, krate: k2 }
}

/// The state after the visits `vs`, in order.
pub open spec fn walk(model: SemanticModel, name: Seq<char>, st: WalkState, vs: Seq<Visit>) -> WalkState
    decreases vs.len(),
{
    if vs.len() == 0 {
        st
    } else {
        visit_step(model, name, walk(model, name, st, vs.drop_last()), vs.last())
    }
}

/// What reconciling file `file` makes of a store and a crate node: nothing
/// if the file resolves to no module or its module declares nothing;
/// otherwise the state after walking it.
pub open spec fn reconciled(
    model: SemanticModel,
    file: usize,
    s: Seq<SlotView>,
    krate: Option<usize>,
    name: Seq<char>,
) -> (Seq<SlotView>, Option<usize>) {
    match model.spec_module_for_file(file) {
        Some(root) => if model.modules@[root as int].declarations@.len() == 0 {
            (s, krate)
        } else {
            let st = walk(
                model,
                name,
                WalkState { slots: s, path: seq![Bijection { origin: root, mirror: None }], krate },
                file_visits(model, root),
            );
            (st.slots, st.krate)
        },
        None => (s, krate),
    }
}

/// The visits still to come for a stack of frames, top frame first.
pub open spec fn pending(model: SemanticModel, frames: Seq<(usize, usize)>, paths: Seq<Seq<ModuleRef>>) -> Seq<Visit>
    decreases frames.len(),
{
    if frames.len() == 0 {
        Seq::empty()
    } else {
        visits_from(model, frames.last().0 as int, paths.last(), frames.last().1 as int) + pending(
            model,
            frames.drop_last(),
            paths.drop_last(),
        )
    }
}

proof fn lemma_tracker_prefix(slots: Seq<Slot>, t: Seq<Bijection>, krate: Option<usize>, n: int)
    requires
        tracker_ok(slots, t, krate),
        0 <= n <= t.len(),
    ensures
        tracker_ok(slots, t.subrange(0, n), krate),
{
    let u = t.subrange(0, n);
    assert forall|i: int, j: int| 0 <= i < j < u.len() && #[trigger] u[i].mirror is None implies #[trigger] u[j].mirror is None by {
        assert(u[i] == t[i] && u[j] == t[j]);
    }
    assert forall|k: int| 0 <= k < u.len() && #[trigger] u[k].mirror is Some implies u[k].mirror->0 < slots.len()
        && slots[u[k].mirror->0 as int].item is Module by {
        assert(u[k] == t[k]);
    }
}

/// Which submodule the walk enters after visiting declaration `i` of `m`.
fn enter(model: &SemanticModel, m: ModuleRef, i: usize) -> (r: Option<ModuleRef>)
    requires
        m < model.modules@.len(),
        i < model.modules@[m as int].declarations@.len(),
    ensures
        r == entered(*model, m as int, i as int),
{
    match &model.modules[m].declarations[i] {
        Definition::Module(c) => {
            let c = *c;
            if m < c && c < model.modules.len() && model.modules[c].is_inline
                && model.modules[c].declarations.len() > 0 {
                Some(c)
            } else {
                None
            }
        },
        _ => None,
    }
}

/// Walks the declarations of a file depth first, in source order, with an
/// explicit stack, and places what each declaration yields in the store.
/// Does nothing for a file that resolves to no module.
#[verifier::spinoff_prover]
#[verifier::rlimit(100)]
pub fn visit_file_defs_with_path(
    model: &SemanticModel,
    store: &mut MirrorStore,
    patch: &mut Patch,
    file: usize,
    cursor: &mut CrateCursor,
)
    requires
        model.wf(),
        old(store).wf(),
        old(patch).tracks(old(store)),
        old(cursor).node matches Some(c) ==> c < old(store).slots@.len()
            && old(store).slots@[c as int].item is Crate,
    ensures
        final(store).wf(),
        final(patch).tracks(final(store)),
        final(patch).base == old(patch).base,
        final(patch).id == old(patch).id,
        final(patch).delete@ == old(patch).delete@,
        final(patch).update@ == old(patch).update@,
        records_appends(old(patch).append@, final(patch).append@, old(store).slots@.len() as int, final(store).slots@),
        final(cursor).name == old(cursor).name,
        (store_view(final(store).slots@), final(cursor).node) == reconciled(
            *model,
            file,
            store_view(old(store).slots@),
            old(cursor).node,
            old(cursor).name@,
        ),
        final(store).slots@.len() >= old(store).slots@.len(),
        final(store).slots@.subrange(0, old(store).slots@.len() as int) == old(store).slots@,
        final(cursor).node matches Some(c) ==> c < final(store).slots@.len()
            && final(store).slots@[c as int].item is Crate,
        model.spec_module_for_file(file) matches Some(root) ==> found(
            *model,
            file_visits(*model, root),
            store_view(final(store).slots@),
        ),
        in_declaration_order(*model, store_view(old(store).slots@)) ==> in_declaration_order(
            *model,
            store_view(final(store).slots@),
        ),
        old(cursor).node is None ==> (model.spec_module_for_file(file) matches Some(root) ==> (final(cursor).node matches Some(
            c,
        ) ==> crate_kids_at(store_view(final(store).slots@), c, root))),
        old(cursor).node is None ==> (model.spec_module_for_file(file) matches Some(root) ==> (final(cursor).node is Some
            <==> some_runnable(*model, file_visits(*model, root)))),
{
    proof {
        lemma_records_none(old(patch).append@, old(store).slots@);
    }
    let root = match model.module_for_file(file) {
        Some(m) => m,
        None => {
            assert(old(store).slots@.subrange(0, old(store).slots@.len() as int) =~= old(store).slots@);
            return;
        },
    };
    if model.modules[root].declarations.len() == 0 {
        assert(file_visits(*model, root) =~= Seq::<Visit>::empty());
        assert(old(store).slots@.subrange(0, old(store).slots@.len() as int) =~= old(store).slots@);
        return;
    }
    let ghost s0 = store.slots@;
    let ghost name = cursor.name@;
    let ghost init = WalkState {
        slots: store_view(s0),
        path: seq![Bijection { origin: root, mirror: None }],
        krate: cursor.node,
    };
    let ghost all = file_visits(*model, root);
    let mut path: Vec<Bijection> = Vec::new();
    path.push(Bijection { origin: root, mirror: None });
    // Each frame is a module and the next of its declarations to visit; the
    // top frame is visited next. `paths` holds each frame's module path and
    // `done` the visits made so far, so that `done` followed by what the
    // frames still hold is the whole walk.
    let mut frames: Vec<(usize, usize)> = Vec::new();
    frames.push((root, 0));
    let ghost mut paths: Seq<Seq<ModuleRef>> = seq![seq![root]];
    let ghost mut done: Seq<Visit> = Seq::empty();
    // When the store starts in declaration order, `keys` names the
    // declaration each node comes from and `cur` the declaration the walk is
    // in for each tracker entry.
    let ghost ord = in_declaration_order(*model, store_view(s0));
    let ghost mut keys: Seq<int> = if ord {
        choose|k: Seq<int>| keyed(*model, store_view(s0), k) && sorted(store_view(s0), k)
    } else {
        Seq::empty()
    };
    let ghost mut cur: Seq<int> = seq![-1int];
    let _len = model.modules.len();
    proof {
        assert(frames@.drop_last() =~= Seq::<(usize, usize)>::empty());
        assert(paths.drop_last() =~= Seq::<Seq<ModuleRef>>::empty());
        assert(frames@.last() == (root, 0usize));
        assert(paths.last() == seq![root]);
        assert(pending(*model, frames@.drop_last(), paths.drop_last()) == Seq::<Visit>::empty());
        assert(pending(*model, frames@, paths) =~= all + Seq::<Visit>::empty());
        assert(all + Seq::<Visit>::empty() =~= all);
        assert(done + all =~= all);
        assert(store.slots@.subrange(0, s0.len() as int) =~= s0);
        assert(tracker_inv(*model, walk(*model, name, init, done)));
    }
    while frames.len() > 0
        invariant
            model.wf(),
            store.wf(),
            patch.tracks(store),
            patch.base == old(patch).base,
            patch.id == old(patch).id,
            patch.delete@ == old(patch).delete@,
            patch.update@ == old(patch).update@,
            records_appends(old(patch).append@, patch.append@, old(store).slots@.len() as int, store.slots@),
            cursor.name == old(cursor).name,
            name == cursor.name@,
            paths.len() == frames@.len(),
            forall|j: int|
                0 <= j < frames@.len() ==> #[trigger] frames@[j].0 < model.modules@.len()
                    && frames@[j].1 < model.modules@[frames@[j].0 as int].declarations@.len(),
            done + pending(*model, frames@, paths) == all,
            walk(*model, name, init, done) == (WalkState {
                slots: store_view(store.slots@),
                path: path@,
                krate: cursor.node,
            }),
            tracker_ok(store.slots@, path@, cursor.node),
            origins_ok(*model, path@),
            store.slots@.len() >= s0.len(),
            store.slots@.subrange(0, s0.len() as int) == s0,
            tracker_inv(*model, walk(*model, name, init, done)),
            forall|j: int| 0 <= j < frames@.len() ==> (#[trigger] paths[j]).len() >= 1 && paths[j].last() == frames@[j].0,
            forall|j: int| 0 <= j < frames@.len() ==> origins_start_with(path@, #[trigger] paths[j]),
            forall|j: int, k: int| 0 <= j < k < frames@.len() ==> seq_prefix(#[trigger] paths[j], #[trigger] paths[k]),
            increasing(path@),
            found(*model, done, store_view(store.slots@)),
            model.modules@.len() <= usize::MAX,
            forall|j: int, k: int| 0 <= j < k < frames@.len() ==> (#[trigger] paths[j]).len() < (#[trigger] paths[k]).len(),
            ord ==> keyed(*model, store_view(store.slots@), keys) && sorted(store_view(store.slots@), keys)
                && cursors_ok(*model, store_view(store.slots@), path@, keys, cur),
            ord ==> forall|j: int| 0 <= j < frames@.len() ==> cur[(#[trigger] paths[j]).len() - 1] < frames@[j].1,
            forall|j: int| 0 <= j < frames@.len() ==> (#[trigger] paths[j]).len() >= 1 && paths[j][0] == root,
            path@.len() > 0 && path@[0].origin == root,
            old(cursor).node is None ==> (cursor.node matches Some(c) ==> crate_kids_at(store_view(store.slots@), c, root)),
            root == model.spec_module_for_file(file)->0,
            old(cursor).node is None ==> (cursor.node is None ==> store_view(store.slots@) == store_view(s0) && forall|j: int|
                0 <= j < path@.len() ==> (#[trigger] path@[j]).mirror is None),
            old(cursor).node is None ==> (cursor.node is Some <==> some_runnable(*model, done)),
        decreases all.len() - done.len(),
    {
        let top = frames.len() - 1;
        let (m, i) = frames[top];
        let ghost p = paths.last();
        let ghost v = Visit { path: p, module: m, decl: i as int };
        let ghost sub = match entered(*model, m as int, i as int) {
            Some(c) => visits_from(*model, c as int, p.push(c), 0),
            None => Seq::empty(),
        };
        let ghost rest = pending(*model, frames@.drop_last(), paths.drop_last());
        let ghost vf = visits_from(*model, m as int, p, i + 1);
        let ghost frames0 = frames@;
        let ghost paths0 = paths;
        proof {
            assert(visits_from(*model, m as int, p, i as int) == seq![v] + sub + visits_from(
                *model,
                m as int,
                p,
                i + 1,
            ));
        }
        if i == model.modules[m].declarations.len() - 1 {
            frames.pop();
            proof {
                paths = paths.drop_last();
                assert(frames@ =~= frames0.drop_last());
                assert(vf =~= Seq::<Visit>::empty());
                assert(pending(*model, frames@, paths) =~= vf + rest);
            }
        } else {
            frames.set(top, (m, i + 1));
            proof {
                assert(frames@.drop_last() =~= frames0.drop_last());
                assert(frames@.last() == (m, (i + 1) as usize));
            }
        }
        let ghost frames1 = frames@;
        let ghost paths1 = paths;
        assert(pending(*model, frames1, paths1) == vf + rest);
        let ghost before = walk(*model, name, init, done);
        let ghost t_before = path@;
        let ghost done0 = done;
        let ghost slots_prev = store.slots@;
        proof {
            let q = p.len() - 1;
            assert(origins_start_with(t_before, paths0[paths0.len() - 1]));
            assert(t_before[q].origin == m);
            assert forall|a: int| q < a < t_before.len() implies (#[trigger] t_before[a]).origin != m by {
                assert(t_before[q].origin < t_before[a].origin);
            }
            lemma_resync_stops(t_before, m, q);
        }
        // cut the tracker back to the visited declaration's module
        while path.len() > 0 && path[path.len() - 1].origin != m
            invariant
                resync(path@, m) == resync(t_before, m),
                path@.len() <= t_before.len(),
                path@ == t_before.subrange(0, path@.len() as int),
            decreases path@.len(),
        {
            path.pop();
            assert(path@ =~= t_before.subrange(0, path@.len() as int));
        }
        proof {
            lemma_tracker_prefix(store.slots@, t_before, cursor.node, path@.len() as int);
            assert(origins_ok(*model, path@)) by {
                assert forall|k: int| 0 <= k < path@.len() implies #[trigger] path@[k].origin < model.modules@.len() by {
                    assert(path@[k] == t_before[k]);
                }
            }
        }
        let runnables = crate::classify::classify_decl(model, m, i);
        let ghost ra = patch.append@;
        let ghost rs = store.slots@;
        store_runnables(model, store, patch, &mut path, &runnables, cursor);
        proof {
            lemma_records_chain(old(patch).append@, ra, patch.append@, old(store).slots@.len() as int, rs, store.slots@);
        }
        match enter(model, m, i) {
            Some(c) => {
                path.push(Bijection { origin: c, mirror: None });
                frames.push((c, 0));
                proof {
                    paths = paths.push(p.push(c));
                    assert(frames@.drop_last() =~= frames1);
                    assert(paths.drop_last() =~= paths1);
                    assert(frames@.last() == (c, 0usize));
                }
            },
            None => {},
        }
        proof {
            assert(pending(*model, frames@, paths) == sub + vf + rest) by {
                match entered(*model, m as int, i as int) {
                    Some(c) => {},
                    None => {
                        assert(sub + vf + rest =~= vf + rest);
                    },
                }
            }
            let done2 = done.push(v);
            assert(done2.drop_last() =~= done);
            assert(done2 + (sub + vf + rest) =~= done + (seq![v] + sub + vf + rest));
            done = done2;
            // the walk state
            assert(walk(*model, name, init, done) == (WalkState {
                slots: store_view(store.slots@),
                path: path@,
                krate: cursor.node,
            }));
        }
        let _n = store.slots.len();
        proof {
            lemma_visit_tracker(*model, name, before, v);
            let r = resync(t_before, m);
            assert(r == t_before.subrange(0, p.len() as int));
            // the tracker now spells the top frame's path, then the entered module
            assert forall|k: int| 0 <= k < p.len() implies #[trigger] path@[k].origin == p[k] by {
                assert(r[k] == t_before[k]);
            }
            assert(increasing(path@)) by {
                assert forall|a: int, b: int| 0 <= a < b < path@.len() implies #[trigger] path@[a].origin < #[trigger] path@[b].origin by {
                    if b < p.len() {
                        assert(r[a] == t_before[a] && r[b] == t_before[b]);
                    } else {
                        assert(r[a] == t_before[a]);
                        assert(t_before[p.len() - 1].origin == m);
                        if a < p.len() - 1 {
                            assert(t_before[a].origin < t_before[p.len() - 1].origin);
                        }
                    }
                }
            }
            assert forall|j: int| 0 <= j < frames@.len() implies origins_start_with(path@, #[trigger] paths[j]) by {
                if j < frames0.len() - 1 {
                    assert(paths[j] == paths0[j]);
                    assert(seq_prefix(paths0[j], paths0[frames0.len() - 1]));
                } else if j == frames0.len() - 1 && j < frames1.len() {
                    assert(paths[j] == p);
                }
            }
            assert forall|j: int, k: int| 0 <= j < k < frames@.len() implies seq_prefix(#[trigger] paths[j], #[trigger] paths[k]) by {
                if k < frames1.len() {
                    assert(paths[j] == paths0[j] && paths[k] == paths0[k]);
                } else {
                    // the entered module's frame, whose path extends the visited module's path
                    if j < frames0.len() - 1 {
                        assert(seq_prefix(paths0[j], paths0[frames0.len() - 1]));
                    }
                    assert(paths[j] == paths0[j]);
                }
            }
            assert forall|j: int| 0 <= j < frames@.len() implies (#[trigger] paths[j]).len() >= 1 && paths[j].last() == frames@[j].0 by {
                if j < frames1.len() {
                    assert(paths[j] == paths1[j]);
                    if j < frames0.len() - 1 || frames1.len() < frames0.len() {
                        assert(paths1[j] == paths0[j]);
                        assert(frames1[j] == frames0[j]);
                    }
                }
            }
            if old(cursor).node is None {
                lemma_wf_backward(slots_prev);
                lemma_visit_crate_kids(*model, name, before, v, root);
                crate::order::lemma_fresh_step(*model, name, before, v, done0, store_view(s0));
                assert(done =~= done0.push(v));
            }
            assert(path@[0].origin == p[0]);
            assert forall|j: int| 0 <= j < frames@.len() implies (#[trigger] paths[j]).len() >= 1 && paths[j][0] == root by {
                if j < frames1.len() {
                    assert(paths[j] == paths1[j]);
                    if j < frames0.len() - 1 || frames1.len() < frames0.len() {
                        assert(paths1[j] == paths0[j]);
                    }
                }
            }
            if ord {
                lemma_wf_backward(slots_prev);
                let q = p.len() - 1;
                assert(cur[q] < i);
                let (nk, nc) = lemma_visit_order(*model, name, before, v, keys, cur);
                assert forall|j: int| 0 <= j < frames@.len() implies nc[(#[trigger] paths[j]).len() - 1] < frames@[j].1 by {
                    if j < frames0.len() - 1 {
                        assert(paths[j] == paths0[j]);
                        assert(paths0[j].len() < paths0[frames0.len() - 1].len());
                        assert(frames@[j] == frames0[j]);
                    } else if j == frames0.len() - 1 && j < frames1.len() {
                        assert(paths[j] == p);
                    }
                }
                keys = nk;
                cur = nc;
            }
            assert(found(*model, done, store_view(store.slots@))) by {
                let sv0 = before.slots;
                let sv1 = store_view(store.slots@);
                assert forall|k: int|
                    0 <= k < done.len() && #[trigger] decl_candidates(*model, done[k].module as int, done[k].decl).len() > 0
                        implies exists|h: int| #[trigger] mirrors(sv1, h, done[k].module) by {
                    if k < done0.len() {
                        assert(done[k] == done0[k]);
                        let h = choose|h: int| #[trigger] mirrors(sv0, h, done0[k].module);
                        assert(sv1[h] == sv0[h]);
                        assert(mirrors(sv1, h, done[k].module));
                    } else {
                        assert(done[k] == v);
                    }
                }
            }
        }
    }
    proof {
        assert(done =~= all) by {
            assert(pending(*model, frames@, paths) =~= Seq::<Visit>::empty());
        }
    }
}

} // verus!
