//! Reconciling files into crates and crates into a session.
use vstd::prelude::*;

use crate::algo::{file_visits, reconciled, store_view, visit_file_defs_with_path, CrateCursor, SlotView};
use crate::order::{in_declaration_order, keyed, sorted};
use crate::shape::{found, mirrors};
use crate::delta::{lemma_records_chain, lemma_records_none, records_appends, Patch};
use crate::source::SemanticModel;
use crate::store::MirrorStore;

verus! {

/// A crate of the workspace as the caching layer hands it over: its name,
/// its source files in source-root order, and whether it is a library
/// dependency rather than a workspace member.
#[derive(Debug, Clone)]
pub struct CrateSource {
    /// The crate's display name; `None` where the crate has none.
    pub name: Option<String>,
    pub files: Vec<usize>,
    pub is_library: bool,
}

/// Reconciling the files `files` in order into a crate.
pub open spec fn files_reconciled(
    model: SemanticModel,
    files: Seq<usize>,
    s: Seq<SlotView>,
    krate: Option<usize>,
    name: Seq<char>,
) -> (Seq<SlotView>, Option<usize>)
    decreases files.len(),
{
    if files.len() == 0 {
        (s, krate)
    } else {
        let (s1, k1) = files_reconciled(model, files.drop_last(), s, krate, name);
        reconciled(model, files.last(), s1, k1, name)
    }
}

/// The name a crate's node gets; a crate without a display name gets a
/// placeholder.
pub open spec fn crate_name(c: CrateSource) -> Seq<char> {
    match c.name {
        Some(n) => n@,
        None => "UNKNOW_CRATE_NAME"@,
    }
}

/// The name a crate's node gets.
fn crate_name_of(c: &CrateSource) -> (r: String)
    ensures
        r@ == crate_name(*c),
{
    match &c.name {
        Some(n) => n.clone(),
        None => "UNKNOW_CRATE_NAME".to_owned(),
    }
}

/// Reconciling the workspace crates among `crates` in order into a session.
pub open spec fn crates_reconciled(model: SemanticModel, crates: Seq<CrateSource>, s: Seq<SlotView>) -> Seq<SlotView>
    decreases crates.len(),
{
    if crates.len() == 0 {
        s
    } else {
        let s1 = crates_reconciled(model, crates.drop_last(), s);
        let c = crates.last();
        if c.is_library {
            s1
        } else {
            files_reconciled(model, c.files@, s1, None, crate_name(c)).0
        }
    }
}

/// Every module reached by walking one of `files` that has a declaration
/// yielding a runnable is mirrored by a node of `sv`.
pub open spec fn files_found(model: SemanticModel, files: Seq<usize>, sv: Seq<SlotView>) -> bool {
    forall|f: int|
        0 <= f < files.len() ==> (#[trigger] model.spec_module_for_file(files[f]) matches Some(root) ==> found(
            model,
            file_visits(model, root),
            sv,
        ))
}

proof fn lemma_found_grows(model: SemanticModel, files: Seq<usize>, a: Seq<SlotView>, b: Seq<SlotView>)
    requires
        files_found(model, files, a),
        a.len() <= b.len(),
        forall|j: int| 0 <= j < a.len() ==> #[trigger] b[j] == a[j],
    ensures
        files_found(model, files, b),
{
    assert forall|f: int| 0 <= f < files.len() implies (#[trigger] model.spec_module_for_file(files[f]) matches Some(root)
        ==> found(model, file_visits(model, root), b)) by {
        match model.spec_module_for_file(files[f]) {
            Some(root) => {
                let vs = file_visits(model, root);
                assert forall|k: int|
                    0 <= k < vs.len() && #[trigger] crate::classify::decl_candidates(model, vs[k].module as int, vs[k].decl).len() > 0
                        implies exists|h: int| #[trigger] mirrors(b, h, vs[k].module) by {
                    let h = choose|h: int| #[trigger] mirrors(a, h, vs[k].module);
                    assert(b[h] == a[h]);
                    assert(mirrors(b, h, vs[k].module));
                }
            },
            None => {},
        }
    }
}

/// Reconciles the files of a crate, in order, into the store. The crate's
/// node is created with its first runnable; returns it, or `None` if no file
/// holds a runnable.
pub fn crate_runnables(
    model: &SemanticModel,
    store: &mut MirrorStore,
    patch: &mut Patch,
    files: &Vec<usize>,
    name: String,
) -> (r: Option<usize>)
    requires
        model.wf(),
        old(store).wf(),
        old(patch).tracks(old(store)),
    ensures
        final(store).wf(),
        final(patch).tracks(final(store)),
        final(patch).base == old(patch).base,
        final(patch).id == old(patch).id,
        final(patch).delete@ == old(patch).delete@,
        final(patch).update@ == old(patch).update@,
        records_appends(old(patch).append@, final(patch).append@, old(store).slots@.len() as int, final(store).slots@),
        (store_view(final(store).slots@), r) == files_reconciled(
            *model,
            files@,
            store_view(old(store).slots@),
            None,
            name@,
        ),
        final(store).slots@.len() >= old(store).slots@.len(),
        final(store).slots@.subrange(0, old(store).slots@.len() as int) == old(store).slots@,
        files_found(*model, files@, store_view(final(store).slots@)),
        in_declaration_order(*model, store_view(old(store).slots@)) ==> in_declaration_order(
            *model,
            store_view(final(store).slots@),
        ),
{
    proof {
        lemma_records_none(old(patch).append@, old(store).slots@);
    }
    let ghost s0 = store.slots@;
    let ghost nm = name@;
    let mut cursor = CrateCursor { name, node: None };
    let mut i: usize = 0;
    assert(store.slots@.subrange(0, s0.len() as int) =~= s0);
    while i < files.len()
        invariant
            i <= files@.len(),
            model.wf(),
            store.wf(),
            patch.tracks(store),
            patch.base == old(patch).base,
            patch.id == old(patch).id,
            patch.delete@ == old(patch).delete@,
            patch.update@ == old(patch).update@,
            records_appends(old(patch).append@, patch.append@, old(store).slots@.len() as int, store.slots@),
            cursor.name@ == nm,
            cursor.node matches Some(c) ==> c < store.slots@.len() && store.slots@[c as int].item is Crate,
            (store_view(store.slots@), cursor.node) == files_reconciled(
                *model,
                files@.subrange(0, i as int),
                store_view(s0),
                None,
                nm,
            ),
            store.slots@.len() >= s0.len(),
            store.slots@.subrange(0, s0.len() as int) == s0,
            files_found(*model, files@.subrange(0, i as int), store_view(store.slots@)),
            in_declaration_order(*model, store_view(s0)) ==> in_declaration_order(*model, store_view(store.slots@)),
        decreases files@.len() - i,
    {
        let ghost before = store.slots@;
        let ghost ra = patch.append@;
        let ghost rs = store.slots@;
        visit_file_defs_with_path(model, store, patch, files[i], &mut cursor);
        proof {
            lemma_records_chain(old(patch).append@, ra, patch.append@, old(store).slots@.len() as int, rs, store.slots@);
        }
        proof {
            let a = store_view(before);
            let b = store_view(store.slots@);
            assert forall|j: int| 0 <= j < a.len() implies #[trigger] b[j] == a[j] by {
                assert(store.slots@.subrange(0, before.len() as int)[j] == before[j]);
            }
            lemma_found_grows(*model, files@.subrange(0, i as int), a, b);
            let fs = files@.subrange(0, i + 1);
            assert forall|f: int| 0 <= f < fs.len() implies (#[trigger] model.spec_module_for_file(fs[f]) matches Some(root)
                ==> found(*model, file_visits(*model, root), b)) by {
                if f < i {
                    assert(fs[f] == files@.subrange(0, i as int)[f]);
                }
            }
            assert(files@.subrange(0, i + 1).drop_last() =~= files@.subrange(0, i as int));
            assert(store.slots@.subrange(0, s0.len() as int) =~= s0) by {
                assert forall|j: int| 0 <= j < s0.len() implies store.slots@[j] == s0[j] by {
                    assert(store.slots@.subrange(0, before.len() as int)[j] == before[j]);
                    assert(before.subrange(0, s0.len() as int)[j] == s0[j]);
                }
            }
        }
        i = i + 1;
    }
    assert(files@.subrange(0, files@.len() as int) =~= files@);
    assert(files@.subrange(0, 0) =~= Seq::<usize>::empty());
    cursor.node
}

/// Builds the mirror tree of a workspace from scratch: every crate that is
/// not a library dependency, in order. Returns the store and the changelog
/// of the build, whose base is the empty store.
pub fn workspace_runnables(model: &SemanticModel, crates: &Vec<CrateSource>) -> (r: (MirrorStore, Patch))
    requires
        model.wf(),
    ensures
        r.0.wf(),
        r.1.tracks(&r.0),
        r.1.base@ == Seq::<crate::store::Slot>::empty(),
        r.1.id == 0,
        r.1.delete@.len() == 0,
        r.1.update@.len() == 0,
        records_appends(Seq::empty(), r.1.append@, 0, r.0.slots@),
        store_view(r.0.slots@) == crates_reconciled(*model, crates@, Seq::empty()),
        in_declaration_order(*model, store_view(r.0.slots@)),
        forall|c: int|
            0 <= c < crates@.len() && !(#[trigger] crates@[c]).is_library ==> files_found(
                *model,
                crates@[c].files@,
                store_view(r.0.slots@),
            ),
{
    let mut store = MirrorStore::new();
    assert(store.slots@ =~= Seq::<crate::store::Slot>::empty());
    let mut patch = Patch::new(&store);
    proof {
        lemma_records_none(patch.append@, store.slots@);
        assert(patch.append@ =~= Seq::<crate::delta::Append>::empty());
    }
    let mut i: usize = 0;
    assert(store_view(store.slots@) =~= Seq::<SlotView>::empty());
    assert(keyed(*model, Seq::<SlotView>::empty(), Seq::<int>::empty()));
    assert(sorted(Seq::<SlotView>::empty(), Seq::<int>::empty()));
    assert(in_declaration_order(*model, store_view(store.slots@)));
    while i < crates.len()
        invariant
            i <= crates@.len(),
            model.wf(),
            store.wf(),
            patch.tracks(&store),
            patch.base@ == Seq::<crate::store::Slot>::empty(),
            patch.id == 0,
            patch.delete@.len() == 0,
            patch.update@.len() == 0,
            records_appends(Seq::empty(), patch.append@, 0, store.slots@),
            store_view(store.slots@) == crates_reconciled(
                *model,
                crates@.subrange(0, i as int),
                Seq::empty(),
            ),
            forall|c: int|
                0 <= c < i && !(#[trigger] crates@[c]).is_library ==> files_found(
                    *model,
                    crates@[c].files@,
                    store_view(store.slots@),
                ),
            in_declaration_order(*model, store_view(store.slots@)),
        decreases crates@.len() - i,
    {
        let c = &crates[i];
        let ghost before = store.slots@;
        if !c.is_library {
            let ghost ra = patch.append@;
            let ghost rs = store.slots@;
            crate_runnables(model, &mut store, &mut patch, &c.files, crate_name_of(c));
            proof {
                lemma_records_chain(Seq::empty(), ra, patch.append@, 0, rs, store.slots@);
            }
            proof {
                let a = store_view(before);
                let b = store_view(store.slots@);
                assert forall|j: int| 0 <= j < a.len() implies #[trigger] b[j] == a[j] by {
                    assert(store.slots@.subrange(0, before.len() as int)[j] == before[j]);
                }
                assert forall|k: int| 0 <= k < i && !(#[trigger] crates@[k]).is_library implies files_found(
                    *model,
                    crates@[k].files@,
                    b,
                ) by {
                    lemma_found_grows(*model, crates@[k].files@, a, b);
                }
            }
        }
        assert(crates@.subrange(0, i + 1).drop_last() =~= crates@.subrange(0, i as int));
        i = i + 1;
    }
    assert(crates@.subrange(0, crates@.len() as int) =~= crates@);
    (store, patch)
}

/// Rebuilding an unchanged workspace gives the same structure every time:
/// the structure of a rebuild is a function of the semantic model and the
/// crates alone, so two rebuilds agree node for node (kinds, names,
/// classifications, links and identifiers).
pub proof fn lemma_rebuild_same_structure(
    model: SemanticModel,
    crates: Seq<CrateSource>,
    first: MirrorStore,
    second: MirrorStore,
)
    requires
        store_view(first.slots@) == crates_reconciled(model, crates, Seq::empty()),
        store_view(second.slots@) == crates_reconciled(model, crates, Seq::empty()),
    ensures
        store_view(first.slots@) == store_view(second.slots@),
{
}

} // verus!
