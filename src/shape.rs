//! Structural facts of reconciled mirror trees, stated over the structure
//! of the store.
use vstd::prelude::*;

use crate::algo::{
    entered, file_visits, first_unmirrored, leaf_view, leaves, module_name, reconciled, resync,
    root_spec, store_spec, synth_from, visit_step, visits_from, walk, Bijection, NodeView, SlotView,
    Visit, WalkState,
};
use crate::classify::decl_candidates;
use crate::runnables::{crates_reconciled, files_reconciled, CrateSource};
use crate::classify::Candidate;
use crate::source::SemanticModel;
use crate::store::{id_of_handle, Link};
use crate::view::ModuleRef;

verus! {

/// Whether node `h` mirrors module `m`.
pub open spec fn mirrors(sv: Seq<SlotView>, h: int, m: ModuleRef) -> bool {
    0 <= h < sv.len() && (sv[h].node matches NodeView::Module { location, .. } && location == m)
}

/// Whether module `c` is a submodule that a walk of module `m` enters.
pub open spec fn declares(model: SemanticModel, m: ModuleRef, c: ModuleRef) -> bool {
    exists|d: int| 0 <= d < model.modules@[m as int].declarations@.len() && #[trigger] entered(model, m as int, d) == Some(c)
}

/// Every module node that hangs under a module node mirrors a submodule of
/// the module that node mirrors: the ancestors of a mirrored module are
/// mirrored along its semantic path.
pub open spec fn links_semantic(model: SemanticModel, sv: Seq<SlotView>) -> bool {
    forall|h: int|
        0 <= h < sv.len() && #[trigger] sv[h].link is Under && sv[h].node is Module ==> {
            let p = sv[h].link->0;
            p < sv.len() && sv[p as int].node is Module ==> declares(
                model,
                module_loc(sv[p as int].node),
                module_loc(sv[h].node),
            )
        }
}

/// The module a module node mirrors.
pub open spec fn module_loc(n: NodeView) -> ModuleRef {
    match n {
        NodeView::Module { location, .. } => location,
        _ => 0,
    }
}

/// Every crate and module node has at least one child: empty branches are
/// never materialized.
pub open spec fn containers_nonempty(sv: Seq<SlotView>) -> bool {
    forall|h: int|
        0 <= h < sv.len() && (#[trigger] sv[h].node is Crate || sv[h].node is Module) ==> exists|j: int|
            0 <= j < sv.len() && #[trigger] sv[j].link == Link::Under(h as usize)
}

/// Every mirror of the tracker is a node that mirrors the entry's module.
pub open spec fn tracker_located(sv: Seq<SlotView>, t: Seq<Bijection>) -> bool {
    forall|k: int| 0 <= k < t.len() && #[trigger] t[k].mirror is Some ==> mirrors(sv, t[k].mirror->0 as int, t[k].origin)
}

/// Each entry of the tracker after the first is a submodule that the walk
/// enters from the entry before it.
pub open spec fn chain_ok(model: SemanticModel, t: Seq<Bijection>) -> bool {
    forall|k: int| 0 < k < t.len() ==> declares(model, #[trigger] t[k - 1].origin, t[k].origin)
}

pub open spec fn monotone_views(t: Seq<Bijection>) -> bool {
    forall|i: int, j: int| 0 <= i < j < t.len() && #[trigger] t[i].mirror is None ==> #[trigger] t[j].mirror is None
}

/// Every node hangs under an earlier node.
pub open spec fn links_backward(sv: Seq<SlotView>) -> bool {
    forall|h: int| 0 <= h < sv.len() && #[trigger] sv[h].link is Under ==> sv[h].link->0 < h
}

/// What holds of a store's structure between two reconciliations.
pub open spec fn tree_inv(model: SemanticModel, sv: Seq<SlotView>) -> bool {
    &&& links_semantic(model, sv)
    &&& containers_nonempty(sv)
    &&& links_backward(sv)
}

/// What holds of a walk state between two visits.
pub open spec fn walk_inv(model: SemanticModel, st: WalkState) -> bool {
    &&& links_backward(st.slots)
    &&& links_semantic(model, st.slots)
    &&& containers_nonempty(st.slots)
    &&& tracker_located(st.slots, st.path)
    &&& chain_ok(model, st.path)
    &&& monotone_views(st.path)
    &&& forall|k: int| 0 <= k < st.path.len() ==> (#[trigger] st.path[k]).origin < model.modules@.len()
    &&& (st.krate matches Some(c) ==> c < st.slots.len() && st.slots[c as int].node is Crate)
    &&& forall|k: int| 0 <= k < st.path.len() && #[trigger] st.path[k].mirror is Some ==> st.path[k].mirror->0 < st.slots.len()
}

proof fn lemma_synth_shape(model: SemanticModel, s: Seq<SlotView>, t: Seq<Bijection>, k: int)
    requires
        1 <= k <= t.len(),
        t[k - 1].mirror is Some,
    ensures
        ({
            let (s2, t2) = synth_from(model, s, t, k);
            &&& s2.len() == s.len() + t.len() - k
            &&& s2.subrange(0, s.len() as int) == s
            &&& t2.len() == t.len()
            &&& forall|j: int| 0 <= j < k ==> #[trigger] t2[j] == t[j]
            &&& forall|j: int| 0 <= j < t.len() ==> (#[trigger] t2[j]).origin == t[j].origin
            &&& forall|j: int| k <= j < t.len() ==> (#[trigger] t2[j]).mirror == Some((s.len() + j - k) as usize)
            &&& forall|j: int|
                k <= j < t.len() ==> #[trigger] s2[s.len() + j - k] == SlotView {
                    link: Link::Under(t2[j - 1].mirror->0),
                    node: NodeView::Module {
                        id: id_of_handle(s.len() + j - k),
                        name: module_name(model, t[j].origin),
                        location: t[j].origin,
                    },
                }
        }),
    decreases t.len() - k,
{
    if k < t.len() {
        let h = s.len();
        let node = SlotView {
            link: Link::Under(t[k - 1].mirror->0),
            node: NodeView::Module {
                id: id_of_handle(h as int),
                name: module_name(model, t[k].origin),
                location: t[k].origin,
            },
        };
        let s1 = s.push(node);
        let t1 = t.update(k, Bijection { origin: t[k].origin, mirror: Some(h as usize) });
        lemma_synth_shape(model, s1, t1, k + 1);
        let (s2, t2) = synth_from(model, s1, t1, k + 1);
        assert(synth_from(model, s, t, k) == (s2, t2));
        assert(s2.subrange(0, s.len() as int) =~= s) by {
            assert forall|j: int| 0 <= j < s.len() implies s2[j] == s[j] by {
                assert(s2.subrange(0, s1.len() as int)[j] == s1[j]);
            }
        }
        assert(s2[s.len() as int] == node) by {
            assert(s2.subrange(0, s1.len() as int)[s.len() as int] == s1[s.len() as int]);
        }
        assert forall|j: int| k <= j < t.len() implies #[trigger] s2[s.len() + j - k] == SlotView {
            link: Link::Under(t2[j - 1].mirror->0),
            node: NodeView::Module {
                id: id_of_handle(s.len() + j - k),
                name: module_name(model, t[j].origin),
                location: t[j].origin,
            },
        } by {
            if j == k {
                assert(t2[k - 1] == t1[k - 1]);
            } else {
                assert(s1.len() + j - (k + 1) == s.len() + j - k);
            }
        }
    }
}

proof fn lemma_leaves_shape(s: Seq<SlotView>, cs: Seq<Candidate>, parent: usize)
    ensures
        leaves(s, cs, parent).len() == s.len() + cs.len(),
        leaves(s, cs, parent).subrange(0, s.len() as int) == s,
        forall|j: int|
            s.len() <= j < s.len() + cs.len() ==> #[trigger] leaves(s, cs, parent)[j] == leaf_view(
                cs[j - s.len()],
                parent,
                j,
            ),
    decreases cs.len(),
{
    if cs.len() > 0 {
        lemma_leaves_shape(s, cs.drop_last(), parent);
        let s1 = leaves(s, cs.drop_last(), parent);
        assert(leaves(s, cs, parent) == s1.push(leaf_view(cs.last(), parent, s1.len() as int)));
        assert(leaves(s, cs, parent).subrange(0, s.len() as int) =~= s) by {
            assert forall|j: int| 0 <= j < s.len() implies leaves(s, cs, parent)[j] == s[j] by {
                assert(s1.subrange(0, s.len() as int)[j] == s[j]);
            }
        }
        assert forall|j: int| s.len() <= j < s.len() + cs.len() implies #[trigger] leaves(s, cs, parent)[j]
            == leaf_view(cs[j - s.len()], parent, j) by {
            if j < s1.len() {
                assert(cs.drop_last()[j - s.len()] == cs[j - s.len()]);
            }
        }
    }
}


proof fn lemma_first_unmirrored_facts(t: Seq<Bijection>, i: int)
    requires
        0 <= i <= t.len(),
        forall|a: int, b: int| 0 <= a < b < t.len() && #[trigger] t[a].mirror is None ==> #[trigger] t[b].mirror is None,
    ensures
        i <= first_unmirrored(t, i) <= t.len(),
        forall|j: int| i <= j < first_unmirrored(t, i) ==> #[trigger] t[j].mirror is Some,
        forall|j: int| first_unmirrored(t, i) <= j < t.len() ==> #[trigger] t[j].mirror is None,
    decreases t.len() - i,
{
    if i < t.len() && t[i].mirror is Some {
        lemma_first_unmirrored_facts(t, i + 1);
    }
}

pub open spec fn start_of(t: Seq<Bijection>) -> int {
    if first_unmirrored(t, 0) == 0 {
        1
    } else {
        first_unmirrored(t, 0)
    }
}

/// The crate node a placement hangs the file root under.
pub open spec fn crate_of(s: Seq<SlotView>, krate: Option<usize>) -> int {
    match krate {
        Some(c) => c as int,
        None => s.len() as int,
    }
}

pub(crate) proof fn lemma_root_explicit(
    model: SemanticModel,
    s: Seq<SlotView>,
    t: Seq<Bijection>,
    krate: Option<usize>,
    name: Seq<char>,
)
    requires
        t.len() > 0,
    ensures
        ({
            let (s1, t1, k1) = root_spec(model, s, t, krate, name);
            let c = crate_of(s, krate);
            let r = s1.len() - 1;
            &&& k1 == Some(c as usize)
            &&& krate is None ==> s1.len() == s.len() + 2 && s1[s.len() as int] == SlotView {
                link: Link::Root,
                node: NodeView::Crate { id: id_of_handle(s.len() as int), name },
            }
            &&& krate is Some ==> s1.len() == s.len() + 1
            &&& s1[r] == SlotView {
                link: Link::Under(c as usize),
                node: NodeView::Module {
                    id: id_of_handle(r),
                    name: module_name(model, t[0].origin),
                    location: t[0].origin,
                },
            }
            &&& forall|j: int| 0 <= j < s.len() ==> #[trigger] s1[j] == s[j]
            &&& t1 == t.update(0, Bijection { origin: t[0].origin, mirror: Some(r as usize) })
        }),
{
}

/// The nodes before the tracker's first unmirrored entry: the file root's
/// (and the crate's) if they had to be created.
pub open spec fn rooted(
    model: SemanticModel,
    s: Seq<SlotView>,
    t: Seq<Bijection>,
    krate: Option<usize>,
    name: Seq<char>,
) -> (Seq<SlotView>, Seq<Bijection>, Option<usize>) {
    if first_unmirrored(t, 0) == 0 {
        root_spec(model, s, t, krate, name)
    } else {
        (s, t, krate)
    }
}

pub(crate) proof fn lemma_place_explicit(
    model: SemanticModel,
    s: Seq<SlotView>,
    t: Seq<Bijection>,
    krate: Option<usize>,
    name: Seq<char>,
    cs: Seq<Candidate>,
)
    requires
        t.len() > 0,
        cs.len() > 0,
        monotone_views(t),
    ensures
        ({
            let (s1, t1, k1) = rooted(model, s, t, krate, name);
            let start = start_of(t);
            let (s2, t2) = synth_from(model, s1, t1, start);
            let parent = t2.last().mirror->0;
            let s3 = leaves(s2, cs, parent);
            &&& store_spec(model, s, t, krate, name, cs) == (s3, t2, k1)
            &&& 1 <= start <= t.len()
            &&& s1.len() >= s.len()
            &&& s2.len() == s1.len() + t.len() - start
            &&& s3.len() == s2.len() + cs.len()
            &&& forall|j: int| 0 <= j < s.len() ==> #[trigger] s1[j] == s[j]
            &&& forall|j: int| 0 <= j < s1.len() ==> #[trigger] s3[j] == s1[j]
            &&& forall|j: int| 0 <= j < s2.len() ==> #[trigger] s3[j] == s2[j]
            &&& t2.len() == t.len()
            &&& forall|j: int| 0 <= j < t.len() ==> (#[trigger] t2[j]).origin == t[j].origin
            &&& forall|j: int| 0 <= j < start ==> #[trigger] t2[j] == t1[j]
            &&& forall|j: int| 0 <= j < start ==> #[trigger] t1[j].mirror is Some
            &&& forall|j: int| start <= j < t.len() ==> #[trigger] t[j].mirror is None
            &&& forall|j: int| start <= j < t.len() ==> (#[trigger] t2[j]).mirror == Some(
                (s1.len() + j - start) as usize,
            )
            &&& forall|j: int|
                start <= j < t.len() ==> #[trigger] s3[s1.len() + j - start] == SlotView {
                    link: Link::Under(t2[j - 1].mirror->0),
                    node: NodeView::Module {
                        id: id_of_handle(s1.len() + j - start),
                        name: module_name(model, t[j].origin),
                        location: t[j].origin,
                    },
                }
            &&& forall|x: int| s2.len() <= x < s3.len() ==> #[trigger] s3[x] == leaf_view(cs[x - s2.len()], parent, x)
            &&& first_unmirrored(t, 0) != 0 ==> s1 == s && t1 == t && k1 == krate
        }),
{
    let d = first_unmirrored(t, 0);
    lemma_first_unmirrored_facts(t, 0);
    if d == 0 {
        lemma_root_explicit(model, s, t, krate, name);
    }
    let (s1, t1, k1) = rooted(model, s, t, krate, name);
    let start = start_of(t);
    assert(t1[start - 1].mirror is Some);
    lemma_synth_shape(model, s1, t1, start);
    let (s2, t2) = synth_from(model, s1, t1, start);
    let parent = t2.last().mirror->0;
    lemma_leaves_shape(s2, cs, parent);
    let s3 = leaves(s2, cs, parent);
    assert forall|j: int| 0 <= j < s2.len() implies #[trigger] s3[j] == s2[j] by {
        assert(s3.subrange(0, s2.len() as int)[j] == s2[j]);
    }
    assert forall|j: int| 0 <= j < s1.len() implies #[trigger] s3[j] == s1[j] by {
        assert(s2.subrange(0, s1.len() as int)[j] == s1[j]);
        assert(s3[j] == s2[j]);
    }
    assert forall|j: int| start <= j < t.len() implies #[trigger] s3[s1.len() + j - start] == SlotView {
        link: Link::Under(t2[j - 1].mirror->0),
        node: NodeView::Module {
            id: id_of_handle(s1.len() + j - start),
            name: module_name(model, t[j].origin),
            location: t[j].origin,
        },
    } by {
        assert(s3[s1.len() + j - start] == s2[s1.len() + j - start]);
    }
    assert forall|j: int| 0 <= j < t.len() implies (#[trigger] t2[j]).origin == t[j].origin by {
        assert(t2[j].origin == t1[j].origin);
    }
    assert forall|j: int| 0 <= j < start implies #[trigger] t1[j].mirror is Some by {
        if d != 0 {
            assert(t[j].mirror is Some);
        }
    }
}

/// What a walk state's tracker and crate node satisfy.
pub open spec fn tracker_inv(model: SemanticModel, st: WalkState) -> bool {
    &&& tracker_located(st.slots, st.path)
    &&& chain_ok(model, st.path)
    &&& monotone_views(st.path)
    &&& forall|k: int| 0 <= k < st.path.len() ==> (#[trigger] st.path[k]).origin < model.modules@.len()
    &&& (st.krate matches Some(c) ==> c < st.slots.len() && st.slots[c as int].node is Crate)
    &&& forall|k: int| 0 <= k < st.path.len() && #[trigger] st.path[k].mirror is Some ==> st.path[k].mirror->0 < st.slots.len()
}

pub proof fn lemma_place_tracker(
    model: SemanticModel,
    s: Seq<SlotView>,
    t: Seq<Bijection>,
    krate: Option<usize>,
    name: Seq<char>,
    cs: Seq<Candidate>,
)
    requires
        tracker_inv(model, WalkState { slots: s, path: t, krate }),
        t.len() > 0,
        cs.len() > 0,
        store_spec(model, s, t, krate, name, cs).0.len() <= usize::MAX,
    ensures
        ({
            let (s3, t3, k3) = store_spec(model, s, t, krate, name, cs);
            &&& tracker_inv(model, WalkState { slots: s3, path: t3, krate: k3 })
            &&& t3.len() == t.len()
            &&& forall|j: int| 0 <= j < t.len() ==> (#[trigger] t3[j]).origin == t[j].origin
            &&& s3.len() >= s.len()
            &&& forall|j: int| 0 <= j < s.len() ==> #[trigger] s3[j] == s[j]
        }),
{
    lemma_place_explicit(model, s, t, krate, name, cs);
    let d = first_unmirrored(t, 0);
    if d == 0 {
        lemma_root_explicit(model, s, t, krate, name);
    }
    let (s1, t1, k1) = rooted(model, s, t, krate, name);
    let start = start_of(t);
    let (s2, t2) = synth_from(model, s1, t1, start);
    let s3 = leaves(s2, cs, t2.last().mirror->0);
    assert forall|j: int| 0 <= j < s.len() implies #[trigger] s3[j] == s[j] by {
        assert(s3[j] == s1[j]);
    }
    assert forall|k: int| 0 <= k < t2.len() && #[trigger] t2[k].mirror is Some implies mirrors(
        s3,
        t2[k].mirror->0 as int,
        t2[k].origin,
    ) && t2[k].mirror->0 < s3.len() by {
        if k < start {
            assert(t2[k] == t1[k]);
            if d == 0 {
                assert(s3[t1[k].mirror->0 as int] == s1[t1[k].mirror->0 as int]);
            } else {
                assert(t1[k] == t[k]);
                assert(s3[t[k].mirror->0 as int] == s[t[k].mirror->0 as int]);
            }
        }
    }
    assert forall|k: int| 0 < k < t2.len() implies declares(model, #[trigger] t2[k - 1].origin, t2[k].origin) by {
        assert(t2[k - 1].origin == t[k - 1].origin);
    }
    assert forall|i: int, j: int| 0 <= i < j < t2.len() && #[trigger] t2[i].mirror is None implies #[trigger] t2[j].mirror
        is None by {
        if i < start {
            assert(t2[i] == t1[i]);
        }
    }
    match k1 {
        Some(c) => {
            if d != 0 {
                assert(s3[c as int] == s[c as int]);
            } else {
                match krate {
                    Some(c0) => assert(s3[c as int] == s[c as int]),
                    None => assert(s3[c as int] == s1[c as int]),
                }
            }
        },
        None => {},
    }
}

pub(crate) proof fn lemma_place_backward(
    model: SemanticModel,
    s: Seq<SlotView>,
    t: Seq<Bijection>,
    krate: Option<usize>,
    name: Seq<char>,
    cs: Seq<Candidate>,
)
    requires
        tracker_inv(model, WalkState { slots: s, path: t, krate }),
        links_backward(s),
        t.len() > 0,
        cs.len() > 0,
    ensures
        links_backward(store_spec(model, s, t, krate, name, cs).0),
{
    lemma_place_explicit(model, s, t, krate, name, cs);
    let d = first_unmirrored(t, 0);
    if d == 0 {
        lemma_root_explicit(model, s, t, krate, name);
    }
    let (s1, t1, k1) = rooted(model, s, t, krate, name);
    let start = start_of(t);
    let (s2, t2) = synth_from(model, s1, t1, start);
    let parent = t2.last().mirror->0;
    let s3 = leaves(s2, cs, parent);
    assert forall|j: int| 0 <= j < start implies #[trigger] t1[j].mirror->0 < s1.len() by {
        if d != 0 {
            assert(t1[j] == t[j]);
        }
    }
    assert(parent < s2.len()) by {
        let l = t.len() - 1;
        if l < start {
            assert(t2[l] == t1[l]);
        }
    }
    assert forall|x: int| 0 <= x < s3.len() && #[trigger] s3[x].link is Under implies s3[x].link->0 < x by {
        if x < s.len() {
            assert(s3[x] == s1[x]);
            assert(s1[x] == s[x]);
        } else if x < s1.len() {
            assert(s3[x] == s1[x]);
            match krate {
                Some(c) => {},
                None => {},
            }
        } else if x < s2.len() {
            let j = x - s1.len() + start;
            assert(s3[s1.len() + j - start] == s3[x]);
            if j - 1 < start {
                assert(t2[j - 1] == t1[j - 1]);
            }
        } else {
            assert(s3[x] == leaf_view(cs[x - s2.len()], parent, x));
        }
    }
}

proof fn lemma_place_semantic(
    model: SemanticModel,
    s: Seq<SlotView>,
    t: Seq<Bijection>,
    krate: Option<usize>,
    name: Seq<char>,
    cs: Seq<Candidate>,
)
    requires
        walk_inv(model, WalkState { slots: s, path: t, krate }),
        t.len() > 0,
        cs.len() > 0,
        store_spec(model, s, t, krate, name, cs).0.len() <= usize::MAX,
    ensures
        links_semantic(model, store_spec(model, s, t, krate, name, cs).0),
{
    lemma_place_explicit(model, s, t, krate, name, cs);
    lemma_place_tracker(model, s, t, krate, name, cs);
    let d = first_unmirrored(t, 0);
    if d == 0 {
        lemma_root_explicit(model, s, t, krate, name);
    }
    let (s1, t1, k1) = rooted(model, s, t, krate, name);
    let start = start_of(t);
    let (s2, t2) = synth_from(model, s1, t1, start);
    let parent = t2.last().mirror->0;
    let s3 = leaves(s2, cs, parent);
    assert forall|x: int| 0 <= x < s3.len() && #[trigger] s3[x].link is Under && s3[x].node is Module implies {
        let p = s3[x].link->0;
        p < s3.len() && s3[p as int].node is Module ==> declares(
            model,
            module_loc(s3[p as int].node),
            module_loc(s3[x].node),
        )
    } by {
        let p = s3[x].link->0;
        if x < s.len() {
            assert(s3[x] == s1[x]);
            assert(s1[x] == s[x]);
            assert(s3[p as int] == s1[p as int]);
            assert(s1[p as int] == s[p as int]);
        } else if x < s1.len() {
            assert(s3[x] == s1[x]);
            let c = crate_of(s, krate);
            assert(p == c);
            assert(s3[c] == s1[c]);
            match krate {
                Some(c0) => assert(s1[c] == s[c]),
                None => {},
            }
        } else if x < s2.len() {
            let j = x - s1.len() + start;
            assert(s3[s1.len() + j - start] == s3[x]);
            assert(t2[j - 1].mirror is Some);
            assert(mirrors(s3, t2[j - 1].mirror->0 as int, t2[j - 1].origin));
            assert(t2[j - 1].origin == t[j - 1].origin);
            assert(declares(model, t[j - 1].origin, t[j].origin));
        } else {
            assert(s3[x] == leaf_view(cs[x - s2.len()], parent, x));
        }
    }
}

proof fn lemma_place_nonempty(
    model: SemanticModel,
    s: Seq<SlotView>,
    t: Seq<Bijection>,
    krate: Option<usize>,
    name: Seq<char>,
    cs: Seq<Candidate>,
)
    requires
        walk_inv(model, WalkState { slots: s, path: t, krate }),
        t.len() > 0,
        cs.len() > 0,
        store_spec(model, s, t, krate, name, cs).0.len() <= usize::MAX,
    ensures
        containers_nonempty(store_spec(model, s, t, krate, name, cs).0),
{
    lemma_place_explicit(model, s, t, krate, name, cs);
    let d = first_unmirrored(t, 0);
    if d == 0 {
        lemma_root_explicit(model, s, t, krate, name);
    }
    let (s1, t1, k1) = rooted(model, s, t, krate, name);
    let start = start_of(t);
    let (s2, t2) = synth_from(model, s1, t1, start);
    let parent = t2.last().mirror->0;
    let s3 = leaves(s2, cs, parent);
    let l = t.len() - 1;
    assert(s3[s2.len() as int] == leaf_view(cs[0], parent, s2.len() as int));
    assert(s3[s2.len() as int].link == Link::Under(parent));
    assert forall|x: int| 0 <= x < s3.len() && (#[trigger] s3[x].node is Crate || s3[x].node is Module) implies exists|j: int|
        0 <= j < s3.len() && #[trigger] s3[j].link == Link::Under(x as usize) by {
        if x < s.len() {
            assert(s3[x] == s1[x]);
            assert(s1[x] == s[x]);
            let j = choose|j: int| 0 <= j < s.len() && #[trigger] s[j].link == Link::Under(x as usize);
            assert(s3[j] == s1[j]);
            assert(s1[j] == s[j]);
        } else if x < s1.len() {
            assert(s3[x] == s1[x]);
            let r = s1.len() - 1;
            if x == r {
                assert(t2[0] == t1[0]);
                if 1 < t.len() {
                    assert(s3[s1.len() + 1 - start].link == Link::Under(t2[0].mirror->0));
                } else {
                    assert(parent == t2[0].mirror->0);
                }
            } else {
                assert(s3[r] == s1[r]);
                assert(s3[r].link == Link::Under(x as usize));
            }
        } else if x < s2.len() {
            let j = x - s1.len() + start;
            assert(t2[j].mirror == Some(x as usize));
            if j + 1 < t.len() {
                assert(s3[s1.len() + (j + 1) - start].link == Link::Under(t2[j].mirror->0));
            } else {
                assert(parent == x);
            }
        } else {
            assert(s3[x] == leaf_view(cs[x - s2.len()], parent, x));
        }
    }
}

proof fn lemma_synth_grows(model: SemanticModel, s: Seq<SlotView>, t: Seq<Bijection>, k: int)
    ensures
        synth_from(model, s, t, k).0.len() >= s.len(),
    decreases t.len() - k,
{
    if 0 < k < t.len() {
        let h = s.len();
        let node = SlotView {
            link: Link::Under(t[k - 1].mirror->0),
            node: NodeView::Module {
                id: id_of_handle(h as int),
                name: module_name(model, t[k].origin),
                location: t[k].origin,
            },
        };
        lemma_synth_grows(
            model,
            s.push(node),
            t.update(k, Bijection { origin: t[k].origin, mirror: Some(h as usize) }),
            k + 1,
        );
    }
}

proof fn lemma_visit_grows(model: SemanticModel, name: Seq<char>, st: WalkState, v: Visit)
    ensures
        visit_step(model, name, st, v).slots.len() >= st.slots.len(),
{
    let t1 = resync(st.path, v.module);
    let cs = decl_candidates(model, v.module as int, v.decl);
    if t1.len() > 0 && cs.len() > 0 {
        let d = first_unmirrored(t1, 0);
        let (s1, u1, k1) = if d == 0 {
            root_spec(model, st.slots, t1, st.krate, name)
        } else {
            (st.slots, t1, st.krate)
        };
        let start = if d == 0 { 1 } else { d };
        lemma_synth_grows(model, s1, u1, start);
        let (s2, t2) = synth_from(model, s1, u1, start);
        lemma_leaves_shape(s2, cs, t2.last().mirror->0);
    }
}

proof fn lemma_walk_grows(model: SemanticModel, name: Seq<char>, st: WalkState, vs: Seq<Visit>)
    ensures
        walk(model, name, st, vs).slots.len() >= st.slots.len(),
    decreases vs.len(),
{
    if vs.len() > 0 {
        lemma_walk_grows(model, name, st, vs.drop_last());
        lemma_visit_grows(model, name, walk(model, name, st, vs.drop_last()), vs.last());
    }
}

pub(crate) proof fn lemma_resync(t: Seq<Bijection>, owner: ModuleRef)
    ensures
        resync(t, owner).len() <= t.len(),
        resync(t, owner) == t.subrange(0, resync(t, owner).len() as int),
        resync(t, owner).len() > 0 ==> resync(t, owner).last().origin == owner,
    decreases t.len(),
{
    if t.len() == 0 || t.last().origin == owner {
        assert(t.subrange(0, t.len() as int) =~= t);
    } else {
        lemma_resync(t.drop_last(), owner);
        let r = resync(t.drop_last(), owner);
        assert(r =~= t.subrange(0, r.len() as int));
    }
}

/// A visit of a declaration that exists.
pub open spec fn visit_valid(model: SemanticModel, v: Visit) -> bool {
    &&& v.module < model.modules@.len()
    &&& 0 <= v.decl < model.modules@[v.module as int].declarations@.len()
}

proof fn lemma_visits_valid(model: SemanticModel, m: int, path: Seq<ModuleRef>, i: int)
    requires
        model.modules@.len() <= usize::MAX,
    ensures
        forall|k: int|
            0 <= k < visits_from(model, m, path, i).len() ==> visit_valid(model, #[trigger] visits_from(model, m, path, i)[k]),
    decreases model.modules@.len() - m, model.modules@[m].declarations@.len() - i,
{
    if !(m < 0 || m >= model.modules@.len() || i < 0 || i >= model.modules@[m].declarations@.len()) {
        let v = Visit { path, module: m as usize, decl: i };
        let sub = match entered(model, m, i) {
            Some(c) => visits_from(model, c as int, path.push(c), 0),
            None => Seq::empty(),
        };
        match entered(model, m, i) {
            Some(c) => lemma_visits_valid(model, c as int, path.push(c), 0),
            None => {},
        }
        lemma_visits_valid(model, m, path, i + 1);
        let rest = visits_from(model, m, path, i + 1);
        let all = visits_from(model, m, path, i);
        assert(all == seq![v] + sub + rest);
        assert forall|k: int| 0 <= k < all.len() implies visit_valid(model, #[trigger] all[k]) by {
            if k == 0 {
            } else if k < 1 + sub.len() {
                assert(all[k] == sub[k - 1]);
            } else {
                assert(all[k] == rest[k - 1 - sub.len()]);
            }
        }
    }
}

proof fn lemma_visit_inv(model: SemanticModel, name: Seq<char>, st: WalkState, v: Visit)
    requires
        walk_inv(model, st),
        visit_valid(model, v),
        visit_step(model, name, st, v).slots.len() <= usize::MAX,
    ensures
        walk_inv(model, visit_step(model, name, st, v)),
{
    let t = st.path;
    lemma_resync(t, v.module);
    let t1 = resync(t, v.module);
    let n = t1.len();
    assert forall|k: int| 0 <= k < n implies #[trigger] t1[k] == t[k] by {
        assert(t.subrange(0, n as int)[k] == t[k]);
    }
    let st1 = WalkState { slots: st.slots, path: t1, krate: st.krate };
    assert(walk_inv(model, st1)) by {
        assert forall|i: int, j: int| 0 <= i < j < t1.len() && #[trigger] t1[i].mirror is None implies #[trigger] t1[j].mirror
            is None by {
            assert(t1[i] == t[i] && t1[j] == t[j]);
        }
        assert forall|k: int| 0 < k < t1.len() implies declares(model, #[trigger] t1[k - 1].origin, t1[k].origin) by {
            assert(t1[k - 1] == t[k - 1] && t1[k] == t[k]);
        }
    }
    let cs = decl_candidates(model, v.module as int, v.decl);
    let (s2, t2, k2) = store_spec(model, st.slots, t1, st.krate, name, cs);
    let st2 = WalkState { slots: s2, path: t2, krate: k2 };
    if t1.len() > 0 && cs.len() > 0 {
        lemma_place_tracker(model, st.slots, t1, st.krate, name, cs);
        lemma_place_backward(model, st.slots, t1, st.krate, name, cs);
        lemma_place_semantic(model, st.slots, t1, st.krate, name, cs);
        lemma_place_nonempty(model, st.slots, t1, st.krate, name, cs);
    }
    assert(walk_inv(model, st2));
    assert(t2.len() == t1.len());
    assert(forall|j: int| 0 <= j < t1.len() ==> (#[trigger] t2[j]).origin == t1[j].origin);
    match entered(model, v.module as int, v.decl) {
        Some(c) => {
            let t3 = t2.push(Bijection { origin: c, mirror: None });
            if t2.len() > 0 {
                assert(t2[t2.len() - 1].origin == v.module);
                assert(declares(model, v.module, c));
            }
            assert forall|k: int| 0 < k < t3.len() implies declares(model, #[trigger] t3[k - 1].origin, t3[k].origin) by {
                if k < t2.len() {
                    assert(t3[k - 1] == t2[k - 1] && t3[k] == t2[k]);
                } else {
                    assert(t3[k - 1] == t2[t2.len() - 1]);
                }
            }
            assert forall|i: int, j: int| 0 <= i < j < t3.len() && #[trigger] t3[i].mirror is None implies #[trigger] t3[j].mirror
                is None by {
                if j < t2.len() {
                    assert(t3[i] == t2[i] && t3[j] == t2[j]);
                }
            }
            assert forall|k: int| 0 <= k < t3.len() && #[trigger] t3[k].mirror is Some implies mirrors(
                s2,
                t3[k].mirror->0 as int,
                t3[k].origin,
            ) by {
                assert(t3[k] == t2[k]);
            }
            assert forall|k: int| 0 <= k < t3.len() implies (#[trigger] t3[k]).origin < model.modules@.len() by {
                if k < t2.len() {
                    assert(t3[k] == t2[k]);
                }
            }
            assert forall|k: int| 0 <= k < t3.len() && #[trigger] t3[k].mirror is Some implies t3[k].mirror->0 < s2.len() by {
                assert(t3[k] == t2[k]);
            }
        },
        None => {},
    }
}

proof fn lemma_walk_inv(model: SemanticModel, name: Seq<char>, st: WalkState, vs: Seq<Visit>)
    requires
        walk_inv(model, st),
        forall|k: int| 0 <= k < vs.len() ==> visit_valid(model, #[trigger] vs[k]),
        walk(model, name, st, vs).slots.len() <= usize::MAX,
    ensures
        walk_inv(model, walk(model, name, st, vs)),
    decreases vs.len(),
{
    if vs.len() > 0 {
        let prev = vs.drop_last();
        let mid = walk(model, name, st, prev);
        lemma_visit_grows(model, name, mid, vs.last());
        assert forall|k: int| 0 <= k < prev.len() implies visit_valid(model, #[trigger] prev[k]) by {
            assert(prev[k] == vs[k]);
        }
        lemma_walk_inv(model, name, st, prev);
        assert(vs.last() == vs[vs.len() - 1]);
        lemma_visit_inv(model, name, mid, vs.last());
    }
}

/// Reconciling one file keeps the tree's structure sound: every module node
/// that hangs under a module node mirrors a submodule that the other's
/// module declares (so every ancestor of a mirrored module is mirrored, up to
/// the file root, which hangs under its crate), and every crate and module
/// node has at least one child (no empty branch is materialized).
pub proof fn lemma_reconciled_shape(
    model: SemanticModel,
    file: usize,
    s: Seq<SlotView>,
    krate: Option<usize>,
    name: Seq<char>,
)
    requires
        model.modules@.len() <= usize::MAX,
        tree_inv(model, s),
        krate matches Some(c) ==> c < s.len() && s[c as int].node is Crate,
        reconciled(model, file, s, krate, name).0.len() <= usize::MAX,
    ensures
        tree_inv(model, reconciled(model, file, s, krate, name).0),
        reconciled(model, file, s, krate, name).0.len() >= s.len(),
        reconciled(model, file, s, krate, name).1 matches Some(c) ==> c < reconciled(
            model,
            file,
            s,
            krate,
            name,
        ).0.len() && reconciled(model, file, s, krate, name).0[c as int].node is Crate,
{
    match model.spec_module_for_file(file) {
        Some(root) => {
            if model.modules@[root as int].declarations@.len() != 0 {
                let st = WalkState { slots: s, path: seq![Bijection { origin: root, mirror: None }], krate };
                let vs = file_visits(model, root);
                lemma_visits_valid(model, root as int, seq![root], 0);
                lemma_walk_grows(model, name, st, vs);
                lemma_walk_inv(model, name, st, vs);
            }
        },
        None => {},
    }
}

proof fn lemma_files_shape(model: SemanticModel, files: Seq<usize>, s: Seq<SlotView>, name: Seq<char>)
    requires
        model.modules@.len() <= usize::MAX,
        tree_inv(model, s),
        files_reconciled(model, files, s, None, name).0.len() <= usize::MAX,
    ensures
        tree_inv(model, files_reconciled(model, files, s, None, name).0),
        files_reconciled(model, files, s, None, name).0.len() >= s.len(),
        files_reconciled(model, files, s, None, name).1 matches Some(c) ==> c < files_reconciled(
            model,
            files,
            s,
            None,
            name,
        ).0.len() && files_reconciled(model, files, s, None, name).0[c as int].node is Crate,
    decreases files.len(),
{
    if files.len() > 0 {
        let (s1, k1) = files_reconciled(model, files.drop_last(), s, None, name);
        lemma_files_grow(model, files.drop_last(), s, name);
        lemma_reconciled_grows(model, files.last(), s1, k1, name);
        lemma_files_shape(model, files.drop_last(), s, name);
        lemma_reconciled_shape(model, files.last(), s1, k1, name);
    }
}

proof fn lemma_reconciled_grows(model: SemanticModel, file: usize, s: Seq<SlotView>, krate: Option<usize>, name: Seq<char>)
    ensures
        reconciled(model, file, s, krate, name).0.len() >= s.len(),
{
    match model.spec_module_for_file(file) {
        Some(root) => {
            let st = WalkState { slots: s, path: seq![Bijection { origin: root, mirror: None }], krate };
            lemma_walk_grows(model, name, st, file_visits(model, root));
        },
        None => {},
    }
}

proof fn lemma_files_grow(model: SemanticModel, files: Seq<usize>, s: Seq<SlotView>, name: Seq<char>)
    ensures
        files_reconciled(model, files, s, None, name).0.len() >= s.len(),
    decreases files.len(),
{
    if files.len() > 0 {
        let (s1, k1) = files_reconciled(model, files.drop_last(), s, None, name);
        lemma_files_grow(model, files.drop_last(), s, name);
        lemma_reconciled_grows(model, files.last(), s1, k1, name);
    }
}

/// Pruning and ancestor completeness for a whole session: in the tree that
/// rebuilding a workspace gives, every crate and module node has a child,
/// and every module node that hangs under a module node mirrors a submodule
/// declared by that node's module.
pub proof fn lemma_workspace_shape(model: SemanticModel, crates: Seq<CrateSource>)
    requires
        model.modules@.len() <= usize::MAX,
        crates_reconciled(model, crates, Seq::empty()).len() <= usize::MAX,
    ensures
        links_semantic(model, crates_reconciled(model, crates, Seq::empty())),
        containers_nonempty(crates_reconciled(model, crates, Seq::empty())),
    decreases crates.len(),
{
    lemma_crates_inv(model, crates);
}

proof fn lemma_crates_inv(model: SemanticModel, crates: Seq<CrateSource>)
    requires
        model.modules@.len() <= usize::MAX,
        crates_reconciled(model, crates, Seq::empty()).len() <= usize::MAX,
    ensures
        tree_inv(model, crates_reconciled(model, crates, Seq::empty())),
    decreases crates.len(),
{
    if crates.len() == 0 {
        assert(tree_inv(model, Seq::<SlotView>::empty()));
    } else {
        let prev = crates_reconciled(model, crates.drop_last(), Seq::empty());
        let c = crates.last();
        lemma_files_grow(model, c.files@, prev, crate::runnables::crate_name(c));
        lemma_crates_inv(model, crates.drop_last());
        if !c.is_library {
            lemma_files_shape(model, c.files@, prev, crate::runnables::crate_name(c));
        }
    }
}

/// The tracker after a visit: what the tracker satisfies is kept, and a
/// visit whose module ends the cut-back tracker and whose declaration
/// yields runnables leaves a node mirroring that module.
pub proof fn lemma_visit_tracker(model: SemanticModel, name: Seq<char>, st: WalkState, v: Visit)
    requires
        tracker_inv(model, st),
        visit_valid(model, v),
        visit_step(model, name, st, v).slots.len() <= usize::MAX,
    ensures
        tracker_inv(model, visit_step(model, name, st, v)),
        visit_step(model, name, st, v).slots.len() >= st.slots.len(),
        forall|j: int| 0 <= j < st.slots.len() ==> #[trigger] visit_step(model, name, st, v).slots[j] == st.slots[j],
        resync(st.path, v.module).len() > 0 && decl_candidates(model, v.module as int, v.decl).len() > 0
            ==> exists|h: int| #[trigger] mirrors(visit_step(model, name, st, v).slots, h, v.module),
        ({
            let r = resync(st.path, v.module);
            let np = visit_step(model, name, st, v).path;
            &&& np.len() == r.len() + if entered(model, v.module as int, v.decl) is Some { 1int } else { 0int }
            &&& forall|k: int| 0 <= k < r.len() ==> (#[trigger] np[k]).origin == r[k].origin
            &&& (entered(model, v.module as int, v.decl) matches Some(c) ==> np[r.len() as int].origin == c)
        }),
{
    let t = st.path;
    lemma_resync(t, v.module);
    let t1 = resync(t, v.module);
    let n = t1.len();
    assert forall|k: int| 0 <= k < n implies #[trigger] t1[k] == t[k] by {
        assert(t.subrange(0, n as int)[k] == t[k]);
    }
    let st1 = WalkState { slots: st.slots, path: t1, krate: st.krate };
    assert(tracker_inv(model, st1)) by {
        assert forall|i: int, j: int| 0 <= i < j < t1.len() && #[trigger] t1[i].mirror is None implies #[trigger] t1[j].mirror
            is None by {
            assert(t1[i] == t[i] && t1[j] == t[j]);
        }
        assert forall|k: int| 0 < k < t1.len() implies declares(model, #[trigger] t1[k - 1].origin, t1[k].origin) by {
            assert(t1[k - 1] == t[k - 1] && t1[k] == t[k]);
        }
    }
    let cs = decl_candidates(model, v.module as int, v.decl);
    let (s2, t2, k2) = store_spec(model, st.slots, t1, st.krate, name, cs);
    if t1.len() > 0 && cs.len() > 0 {
        lemma_place_tracker(model, st.slots, t1, st.krate, name, cs);
        let l = t1.len() - 1;
        assert(t2[l].origin == v.module);
        assert(t2[l].mirror is Some) by {
            lemma_place_explicit(model, st.slots, t1, st.krate, name, cs);
        }
        assert(mirrors(s2, t2[l].mirror->0 as int, v.module));
    }
    match entered(model, v.module as int, v.decl) {
        Some(c) => {
            let t3 = t2.push(Bijection { origin: c, mirror: None });
            if t2.len() > 0 {
                assert(t2[t2.len() - 1].origin == v.module);
                assert(declares(model, v.module, c));
            }
            assert forall|k: int| 0 < k < t3.len() implies declares(model, #[trigger] t3[k - 1].origin, t3[k].origin) by {
                if k < t2.len() {
                    assert(t3[k - 1] == t2[k - 1] && t3[k] == t2[k]);
                } else {
                    assert(t3[k - 1] == t2[t2.len() - 1]);
                }
            }
            assert forall|i: int, j: int| 0 <= i < j < t3.len() && #[trigger] t3[i].mirror is None implies #[trigger] t3[j].mirror
                is None by {
                if j < t2.len() {
                    assert(t3[i] == t2[i] && t3[j] == t2[j]);
                }
            }
            assert forall|k: int| 0 <= k < t3.len() && #[trigger] t3[k].mirror is Some implies mirrors(
                s2,
                t3[k].mirror->0 as int,
                t3[k].origin,
            ) by {
                assert(t3[k] == t2[k]);
            }
            assert forall|k: int| 0 <= k < t3.len() implies (#[trigger] t3[k]).origin < model.modules@.len() by {
                if k < t2.len() {
                    assert(t3[k] == t2[k]);
                }
            }
            assert forall|k: int| 0 <= k < t3.len() && #[trigger] t3[k].mirror is Some implies t3[k].mirror->0 < s2.len() by {
                assert(t3[k] == t2[k]);
            }
        },
        None => {},
    }
}

/// The tracker cut back to `owner` when `owner` is at position `q` and
/// not after it.
pub proof fn lemma_resync_stops(t: Seq<Bijection>, owner: ModuleRef, q: int)
    requires
        0 <= q < t.len(),
        t[q].origin == owner,
        forall|a: int| q < a < t.len() ==> (#[trigger] t[a]).origin != owner,
    ensures
        resync(t, owner) == t.subrange(0, q + 1),
    decreases t.len(),
{
    if t.last().origin == owner {
        assert(t.len() - 1 == q);
        assert(t.subrange(0, q + 1) =~= t);
    } else {
        let u = t.drop_last();
        assert forall|a: int| q < a < u.len() implies (#[trigger] u[a]).origin != owner by {
            assert(u[a] == t[a]);
        }
        lemma_resync_stops(u, owner, q);
        assert(u.subrange(0, q + 1) =~= t.subrange(0, q + 1));
    }
}

/// The tracker's modules start with the path `p`.
pub open spec fn origins_start_with(t: Seq<Bijection>, p: Seq<ModuleRef>) -> bool {
    p.len() <= t.len() && forall|k: int| 0 <= k < p.len() ==> #[trigger] t[k].origin == p[k]
}

pub open spec fn seq_prefix(a: Seq<ModuleRef>, b: Seq<ModuleRef>) -> bool {
    a.len() <= b.len() && forall|k: int| 0 <= k < a.len() ==> #[trigger] a[k] == b[k]
}

/// Module handles grow along the tracker.
pub open spec fn increasing(t: Seq<Bijection>) -> bool {
    forall|a: int, b: int| 0 <= a < b < t.len() ==> #[trigger] t[a].origin < #[trigger] t[b].origin
}

/// Every visited module one of whose declarations yields a runnable is
/// mirrored by a node.
pub open spec fn found(model: SemanticModel, done: Seq<Visit>, sv: Seq<SlotView>) -> bool {
    forall|k: int|
        0 <= k < done.len() && #[trigger] decl_candidates(model, done[k].module as int, done[k].decl).len() > 0
            ==> exists|h: int| #[trigger] mirrors(sv, h, done[k].module)
}

} // verus!
