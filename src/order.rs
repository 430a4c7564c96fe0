//! Content order: the children of a module node follow the order of the
//! declarations they come from.
use vstd::prelude::*;

use crate::algo::{
    entered, first_unmirrored, leaf_view, resync, store_spec, synth_from, visit_step, Bijection, NodeView,
    SlotView, Visit, WalkState,
};
use crate::classify::{decl_candidates, decl_doctest, decl_function, impl_doctests, Candidate};
use crate::shape::{
    chain_ok, declares, links_backward, lemma_place_explicit, lemma_root_explicit, module_loc, rooted, start_of, tracker_inv,
    visit_valid,
};
use crate::source::{Definition, SemanticModel};
use crate::store::Link;
use crate::view::{DoctestLocation, ModuleRef};

verus! {

/// Declaration `d` of module `m` declares module `c`.
pub open spec fn declared_at(model: SemanticModel, m: ModuleRef, d: int, c: ModuleRef) -> bool {
    0 <= d < model.modules@[m as int].declarations@.len() && model.modules@[m as int].declarations@[d]
        == Definition::Module(c)
}

/// Node `x` hangs under a module node.
pub open spec fn under_module(sv: Seq<SlotView>, x: int) -> bool {
    sv[x].link is Under && sv[x].link->0 < sv.len() && sv[sv[x].link->0 as int].node is Module
}

/// Node `x`, under a node mirroring module `m`, comes from declaration `k`
/// of `m`.
pub open spec fn comes_from(model: SemanticModel, m: ModuleRef, node: NodeView, k: int) -> bool {
    match node {
        NodeView::Module { location, .. } => declared_at(model, m, k, location),
        NodeView::Function { location, .. } => k == location.decl,
        NodeView::Doctest { location, .. } => match location {
            DoctestLocation::Decl(l) => k == l.decl,
            DoctestLocation::Module(c) => declared_at(model, m, k, c),
            DoctestLocation::Impl(c, _) => declared_at(model, m, k, c),
        },
        _ => true,
    }
}

/// `keys` gives, for every node under a module node, the declaration it
/// comes from.
pub open spec fn keyed(model: SemanticModel, sv: Seq<SlotView>, keys: Seq<int>) -> bool {
    &&& keys.len() == sv.len()
    &&& forall|x: int|
        0 <= x < sv.len() && #[trigger] under_module(sv, x) ==> comes_from(
            model,
            module_loc(sv[sv[x].link->0 as int].node),
            sv[x].node,
            keys[x],
        )
}

/// Among the children of every module node, later children come from the
/// same or later declarations.
pub open spec fn sorted(sv: Seq<SlotView>, keys: Seq<int>) -> bool {
    forall|x: int, y: int|
        #![trigger keys[x], keys[y]]
        0 <= x < y < sv.len() && sv[x].link is Under && sv[y].link == sv[x].link && under_module(sv, x)
            ==> keys[x] <= keys[y]
}

/// The children of every module node are in the order of the declarations
/// they come from.
pub open spec fn in_declaration_order(model: SemanticModel, sv: Seq<SlotView>) -> bool {
    exists|keys: Seq<int>| keyed(model, sv, keys) && sorted(sv, keys)
}

/// For every tracker entry, `cur` names the declaration of its module the
/// walk is in: the one that declares the next entry's module, for all but
/// the last. No child of a mirroring node comes from a later declaration.
pub open spec fn cursors_ok(
    model: SemanticModel,
    sv: Seq<SlotView>,
    t: Seq<Bijection>,
    keys: Seq<int>,
    cur: Seq<int>,
) -> bool {
    &&& cur.len() == t.len()
    &&& forall|j: int| 0 <= j < t.len() - 1 ==> declared_at(model, t[j].origin, #[trigger] cur[j], t[j + 1].origin)
    &&& forall|j: int, x: int|
        #![trigger cur[j], keys[x]]
        0 <= j < t.len() && t[j].mirror is Some && 0 <= x < sv.len() && sv[x].link == Link::Under(t[j].mirror->0)
            ==> keys[x] <= cur[j]
}

/// Candidate `e` comes from declaration `i` of module `m`.
pub open spec fn cand_at(model: SemanticModel, m: ModuleRef, i: int, e: Candidate) -> bool {
    match e {
        Candidate::Function { location, .. } => location.decl == i,
        Candidate::Doctest(location) => match location {
            DoctestLocation::Decl(l) => l.decl == i,
            DoctestLocation::Module(c) => declared_at(model, m, i, c),
            DoctestLocation::Impl(c, _) => declared_at(model, m, i, c),
        },
    }
}

proof fn lemma_impl_doctests(model: SemanticModel, c: int, n: int)
    ensures
        forall|k: int|
            0 <= k < impl_doctests(model, c, n).len() ==> (#[trigger] impl_doctests(model, c, n)[k] matches Candidate::Doctest(
                DoctestLocation::Impl(c2, _),
            ) && c2 == c as usize),
    decreases n,
{
    if n > 0 {
        lemma_impl_doctests(model, c, n - 1);
        let a = impl_doctests(model, c, n - 1);
        let all = impl_doctests(model, c, n);
        assert forall|k: int| 0 <= k < all.len() implies (#[trigger] all[k] matches Candidate::Doctest(
            DoctestLocation::Impl(c2, _),
        ) && c2 == c as usize) by {
            if k < a.len() {
                assert(all[k] == a[k]);
            }
        }
    }
}

proof fn lemma_candidates_at(model: SemanticModel, v: Visit)
    requires
        visit_valid(model, v),
        model.modules@.len() <= usize::MAX,
        model.modules@[v.module as int].declarations@.len() <= usize::MAX,
    ensures
        forall|k: int|
            0 <= k < decl_candidates(model, v.module as int, v.decl).len() ==> cand_at(
                model,
                v.module,
                v.decl,
                #[trigger] decl_candidates(model, v.module as int, v.decl)[k],
            ),
{
    let m = v.module as int;
    let i = v.decl;
    let a = decl_doctest(model, m, i);
    let b = decl_function(model, m, i);
    let c = crate::classify::decl_impls(model, m, i);
    match model.modules@[m].declarations@[i] {
        Definition::Module(cm) => lemma_impl_doctests(model, cm as int, model.modules@[cm as int].impls@.len() as int),
        _ => {},
    }
    let all = decl_candidates(model, m, i);
    assert(all == a + b + c);
    assert forall|k: int| 0 <= k < all.len() implies cand_at(model, v.module, i, #[trigger] all[k]) by {
        if k < a.len() {
            assert(all[k] == a[k]);
        } else if k < a.len() + b.len() {
            assert(all[k] == b[k - a.len()]);
        } else {
            assert(all[k] == c[k - a.len() - b.len()]);
        }
    }
}

/// The keys after a placement: old nodes keep theirs, the crate and file
/// root nodes get `0` (they hang under no module node), the node created
/// for tracker entry `j` comes from the cursor of entry `j - 1`, and the
/// leaves come from the visited declaration.
pub open spec fn placed_keys(
    keys: Seq<int>,
    n0: int,
    n1: int,
    n2: int,
    n3: int,
    start: int,
    cur: Seq<int>,
    decl: int,
) -> Seq<int> {
    Seq::new(
        n3 as nat,
        |x: int|
            if x < n0 {
                keys[x]
            } else if x < n1 {
                0
            } else if x < n2 {
                cur[x - n1 + start - 1]
            } else {
                decl
            },
    )
}

/// The facts of one placement that the order proofs use.
pub open spec fn placement(
    model: SemanticModel,
    s: Seq<SlotView>,
    t: Seq<Bijection>,
    krate: Option<usize>,
    name: Seq<char>,
    cs: Seq<Candidate>,
    m: ModuleRef,
) -> bool {
    &&& t.len() > 0
    &&& cs.len() > 0
    &&& t[t.len() - 1].origin == m
    &&& tracker_inv(model, WalkState { slots: s, path: t, krate })
    &&& links_backward(s)
    &&& store_spec(model, s, t, krate, name, cs).0.len() <= usize::MAX
}

#[verifier::spinoff_prover]
#[verifier::rlimit(100)]
proof fn lemma_placement_nodes(
    model: SemanticModel,
    s: Seq<SlotView>,
    t: Seq<Bijection>,
    krate: Option<usize>,
    name: Seq<char>,
    cs: Seq<Candidate>,
    m: ModuleRef,
)
    requires
        placement(model, s, t, krate, name, cs, m),
    ensures
        ({
            let (s1, t1, k1) = rooted(model, s, t, krate, name);
            let start = start_of(t);
            let (s2, t2) = synth_from(model, s1, t1, start);
            let (s3, t3, k3) = store_spec(model, s, t, krate, name, cs);
            &&& t3 == t2
            &&& t2.len() == t.len()
            &&& s3.len() == s2.len() + cs.len()
            &&& s1.len() >= s.len()
            &&& s2.len() == s1.len() + t.len() - start
            &&& 1 <= start <= t.len()
            &&& forall|x: int| 0 <= x < s.len() ==> #[trigger] s3[x] == s[x]
            // every entry is mirrored by a module node of its module
            &&& forall|j: int|
                0 <= j < t.len() ==> #[trigger] t2[j].mirror is Some && t2[j].mirror->0 < s3.len() && s3[t2[j].mirror->0 as int].node
                    is Module && module_loc(s3[t2[j].mirror->0 as int].node) == t[j].origin
            // old entries keep their mirrors; the file root's node is new
            &&& forall|j: int| 0 <= j < t.len() && t[j].mirror is Some ==> #[trigger] t2[j] == t[j]
            &&& forall|j: int| 0 <= j < t.len() && t[j].mirror is None ==> #[trigger] t2[j].mirror->0 >= s.len()
            &&& forall|j: int| 0 <= j < t.len() ==> (#[trigger] t2[j]).origin == t[j].origin
            // distinct entries have distinct mirrors
            &&& forall|a: int, b: int| 0 <= a < b < t.len() ==> #[trigger] t2[a].mirror != #[trigger] t2[b].mirror
            // the new nodes
            &&& forall|x: int|
                s.len() <= x < s1.len() ==> !(#[trigger] s3[x].link is Under) || !(s3[s3[x].link->0 as int].node is Module)
            &&& forall|x: int|
                s1.len() <= x < s2.len() ==> {
                    let j = x - s1.len() + start;
                    &&& start <= j < t.len()
                    &&& #[trigger] s3[x].link == Link::Under(t2[j - 1].mirror->0)
                    &&& s3[x].node == (NodeView::Module {
                        id: crate::store::id_of_handle(x),
                        name: crate::algo::module_name(model, t[j].origin),
                        location: t[j].origin,
                    })
                    &&& t2[j].mirror == Some(x as usize)
                }
            &&& forall|x: int|
                s2.len() <= x < s3.len() ==> #[trigger] s3[x] == leaf_view(cs[x - s2.len()], t2[t.len() - 1].mirror->0, x)
            &&& forall|x: int| 0 <= x < s3.len() && #[trigger] s3[x].link is Under ==> s3[x].link->0 < x
        }),
{
    let d = first_unmirrored(t, 0);
    lemma_place_explicit(model, s, t, krate, name, cs);
    if d == 0 {
        lemma_root_explicit(model, s, t, krate, name);
    }
    let (s1, t1, k1) = rooted(model, s, t, krate, name);
    let start = start_of(t);
    let (s2, t2) = synth_from(model, s1, t1, start);
    let (s3, t3, k3) = store_spec(model, s, t, krate, name, cs);
    assert forall|j: int| 0 <= j < start implies #[trigger] t1[j].mirror->0 < s1.len() && s1[t1[j].mirror->0 as int].node is Module
        && module_loc(s1[t1[j].mirror->0 as int].node) == t[j].origin by {
        if d != 0 {
            assert(t1[j] == t[j]);
            assert(s1[t[j].mirror->0 as int] == s[t[j].mirror->0 as int]);
        }
    }
    assert forall|j: int|
        0 <= j < t.len() implies #[trigger] t2[j].mirror is Some && t2[j].mirror->0 < s3.len() && s3[t2[j].mirror->0 as int].node
            is Module && module_loc(s3[t2[j].mirror->0 as int].node) == t[j].origin by {
        if j < start {
            assert(t2[j] == t1[j]);
            assert(s3[t1[j].mirror->0 as int] == s1[t1[j].mirror->0 as int]);
        } else {
            assert(s3[s1.len() + j - start] == s2[s1.len() + j - start]);
        }
    }
    assert forall|j: int| 0 <= j < t.len() && t[j].mirror is None implies #[trigger] t2[j].mirror->0 >= s.len() by {
        if j < start {
            assert(t2[j] == t1[j]);
            assert(d == 0 && j == 0);
        }
    }
    assert forall|j: int| 0 <= j < t.len() && t[j].mirror is Some implies #[trigger] t2[j] == t[j] by {
        assert(j < start);
        assert(t2[j] == t1[j]);
        if d == 0 {
            crate::algo::lemma_first_unmirrored_bounds(t, 1);
            assert(t[0].mirror is None);
        }
    }
    assert forall|a: int, b: int| 0 <= a < b < t.len() implies #[trigger] t2[a].mirror != #[trigger] t2[b].mirror by {
        if b >= start {
            if a < start {
                assert(t2[a] == t1[a]);
            }
        } else {
            assert(t2[a] == t1[a] && t2[b] == t1[b]);
            if d != 0 {
                // two old entries mirror nodes of different modules
                lemma_chain_increasing(model, t, a, b);
                assert(s[t[a].mirror->0 as int] == s3[t[a].mirror->0 as int]);
            }
        }
    }
    assert forall|x: int| s.len() <= x < s1.len() implies !(#[trigger] s3[x].link is Under) || !(
    s3[s3[x].link->0 as int].node is Module) by {
        assert(s3[x] == s1[x]);
        let c = crate::shape::crate_of(s, krate);
        if s3[x].link is Under {
            assert(s3[x].link->0 == c);
            match krate {
                Some(c0) => {
                    assert(s3[c] == s[c]);
                },
                None => {
                    assert(s3[c] == s1[c]);
                },
            }
        }
    }
    assert forall|x: int|
        s1.len() <= x < s2.len() implies {
            let j = x - s1.len() + start;
            &&& start <= j < t.len()
            &&& #[trigger] s3[x].link == Link::Under(t2[j - 1].mirror->0)
            &&& s3[x].node == (NodeView::Module {
                id: crate::store::id_of_handle(x),
                name: crate::algo::module_name(model, t[j].origin),
                location: t[j].origin,
            })
            &&& t2[j].mirror == Some(x as usize)
        } by {
        let j = x - s1.len() + start;
        assert(s3[s1.len() + j - start] == s2[s1.len() + j - start]);
    }
    crate::shape::lemma_place_backward(model, s, t, krate, name, cs);
}

proof fn lemma_chain_increasing(model: SemanticModel, t: Seq<Bijection>, a: int, b: int)
    requires
        chain_ok(model, t),
        0 <= a < b < t.len(),
    ensures
        t[a].origin < t[b].origin,
    decreases b - a,
{
    assert(declares(model, t[b - 1].origin, t[b].origin));
    let d = choose|d: int|
        0 <= d < model.modules@[t[b - 1].origin as int].declarations@.len() && #[trigger] entered(
            model,
            t[b - 1].origin as int,
            d,
        ) == Some(t[b].origin);
    if a < b - 1 {
        lemma_chain_increasing(model, t, a, b - 1);
    }
}

/// What the order proofs of a placement need besides its facts.
pub open spec fn order_pre(
    model: SemanticModel,
    s: Seq<SlotView>,
    t: Seq<Bijection>,
    cs: Seq<Candidate>,
    m: ModuleRef,
    i: int,
    keys: Seq<int>,
    cur: Seq<int>,
) -> bool {
    &&& keyed(model, s, keys)
    &&& sorted(s, keys)
    &&& cursors_ok(model, s, t, keys, cur)
    &&& cur[t.len() - 1] == i
    &&& forall|k: int| 0 <= k < cs.len() ==> cand_at(model, m, i, #[trigger] cs[k])
}

pub open spec fn keys_after(
    model: SemanticModel,
    s: Seq<SlotView>,
    t: Seq<Bijection>,
    krate: Option<usize>,
    name: Seq<char>,
    cs: Seq<Candidate>,
    i: int,
    keys: Seq<int>,
    cur: Seq<int>,
) -> Seq<int> {
    let (s1, t1, k1) = rooted(model, s, t, krate, name);
    let start = start_of(t);
    let n2 = s1.len() + t.len() - start;
    placed_keys(keys, s.len() as int, s1.len() as int, n2, n2 + cs.len(), start, cur, i)
}

#[verifier::spinoff_prover]
#[verifier::rlimit(100)]
proof fn lemma_place_keyed(
    model: SemanticModel,
    s: Seq<SlotView>,
    t: Seq<Bijection>,
    krate: Option<usize>,
    name: Seq<char>,
    cs: Seq<Candidate>,
    m: ModuleRef,
    i: int,
    keys: Seq<int>,
    cur: Seq<int>,
)
    requires
        placement(model, s, t, krate, name, cs, m),
        order_pre(model, s, t, cs, m, i, keys, cur),
    ensures
        keyed(model, store_spec(model, s, t, krate, name, cs).0, keys_after(model, s, t, krate, name, cs, i, keys, cur)),
{
    lemma_placement_nodes(model, s, t, krate, name, cs, m);
    let (s1, t1, k1) = rooted(model, s, t, krate, name);
    let start = start_of(t);
    let (s2, t2) = synth_from(model, s1, t1, start);
    let s3 = store_spec(model, s, t, krate, name, cs).0;
    let nk = keys_after(model, s, t, krate, name, cs, i, keys, cur);
    let l = t.len() - 1;
    assert forall|x: int| 0 <= x < s3.len() && #[trigger] under_module(s3, x) implies comes_from(
        model,
        module_loc(s3[s3[x].link->0 as int].node),
        s3[x].node,
        nk[x],
    ) by {
        let p = s3[x].link->0;
        if x < s.len() {
            assert(s3[x] == s[x]);
            assert(p < x);
            assert(s3[p as int] == s[p as int]);
            assert(under_module(s, x));
            assert(nk[x] == keys[x]);
        } else if x < s1.len() {
        } else if x < s2.len() {
            let j = x - s1.len() + start;
            assert(nk[x] == cur[j - 1]);
            assert(declared_at(model, t[j - 1].origin, cur[j - 1], t[j].origin));
        } else {
            let e = cs[x - s2.len()];
            assert(cand_at(model, m, i, e));
            assert(nk[x] == i);
            assert(s3[x] == leaf_view(e, t2[l].mirror->0, x));
        }
    }
}

#[verifier::spinoff_prover]
#[verifier::rlimit(100)]
proof fn lemma_place_sorted(
    model: SemanticModel,
    s: Seq<SlotView>,
    t: Seq<Bijection>,
    krate: Option<usize>,
    name: Seq<char>,
    cs: Seq<Candidate>,
    m: ModuleRef,
    i: int,
    keys: Seq<int>,
    cur: Seq<int>,
)
    requires
        placement(model, s, t, krate, name, cs, m),
        order_pre(model, s, t, cs, m, i, keys, cur),
    ensures
        sorted(store_spec(model, s, t, krate, name, cs).0, keys_after(model, s, t, krate, name, cs, i, keys, cur)),
{
    lemma_placement_nodes(model, s, t, krate, name, cs, m);
    let (s1, t1, k1) = rooted(model, s, t, krate, name);
    let start = start_of(t);
    let (s2, t2) = synth_from(model, s1, t1, start);
    let s3 = store_spec(model, s, t, krate, name, cs).0;
    let nk = keys_after(model, s, t, krate, name, cs, i, keys, cur);
    let l = t.len() - 1;
    assert forall|x: int, y: int|
        #![trigger nk[x], nk[y]]
        0 <= x < y < s3.len() && s3[x].link is Under && s3[y].link == s3[x].link && under_module(s3, x) implies nk[x]
            <= nk[y] by {
        let p = s3[x].link->0;
        if y < s.len() {
            assert(s3[x] == s[x] && s3[y] == s[y]);
            assert(s3[p as int] == s[p as int]);
            assert(keys[x] <= keys[y]);
        } else if y < s1.len() {
        } else if y < s2.len() {
            let j = y - s1.len() + start;
            assert(p == t2[j - 1].mirror->0);
            if x < s.len() {
                // an old child of the node of entry j - 1: that entry was mirrored before
                assert(s3[x] == s[x]);
                if t[j - 1].mirror is None {
                    assert(t2[j - 1].mirror->0 >= s.len());
                } else {
                    assert(t2[j - 1] == t[j - 1]);
                    assert(keys[x] <= cur[j - 1]);
                }
            } else if x < s1.len() {
            } else {
                // two new module nodes never share a parent
                let jx = x - s1.len() + start;
                assert(t2[jx - 1].mirror != t2[j - 1].mirror);
            }
        } else {
            assert(s3[y] == leaf_view(cs[y - s2.len()], t2[l].mirror->0, y));
            assert(p == t2[l].mirror->0);
            if x < s.len() {
                assert(s3[x] == s[x]);
                if t[l].mirror is None {
                    assert(t2[l].mirror->0 >= s.len());
                } else {
                    assert(t2[l] == t[l]);
                    assert(keys[x] <= cur[l]);
                }
            } else if x < s1.len() {
            } else if x < s2.len() {
                let jx = x - s1.len() + start;
                assert(t2[jx - 1].mirror != t2[l].mirror);
            } else {
                assert(s3[x] == leaf_view(cs[x - s2.len()], t2[l].mirror->0, x));
            }
        }
    }
}

#[verifier::spinoff_prover]
#[verifier::rlimit(100)]
proof fn lemma_place_cursors(
    model: SemanticModel,
    s: Seq<SlotView>,
    t: Seq<Bijection>,
    krate: Option<usize>,
    name: Seq<char>,
    cs: Seq<Candidate>,
    m: ModuleRef,
    i: int,
    keys: Seq<int>,
    cur: Seq<int>,
)
    requires
        placement(model, s, t, krate, name, cs, m),
        order_pre(model, s, t, cs, m, i, keys, cur),
    ensures
        cursors_ok(
            model,
            store_spec(model, s, t, krate, name, cs).0,
            store_spec(model, s, t, krate, name, cs).1,
            keys_after(model, s, t, krate, name, cs, i, keys, cur),
            cur,
        ),
{
    lemma_placement_nodes(model, s, t, krate, name, cs, m);
    let (s1, t1, k1) = rooted(model, s, t, krate, name);
    let start = start_of(t);
    let (s2, t2) = synth_from(model, s1, t1, start);
    let s3 = store_spec(model, s, t, krate, name, cs).0;
    let nk = keys_after(model, s, t, krate, name, cs, i, keys, cur);
    let l = t.len() - 1;
    assert forall|j: int| 0 <= j < t2.len() - 1 implies declared_at(model, t2[j].origin, #[trigger] cur[j], t2[j + 1].origin) by {
        assert(t2[j].origin == t[j].origin && t2[j + 1].origin == t[j + 1].origin);
    }
    assert forall|j: int, x: int|
        #![trigger cur[j], nk[x]]
        0 <= j < t2.len() && t2[j].mirror is Some && 0 <= x < s3.len() && s3[x].link == Link::Under(t2[j].mirror->0)
            implies nk[x] <= cur[j] by {
        let p = t2[j].mirror->0;
        if x < s.len() {
            assert(s3[x] == s[x]);
            if t[j].mirror is None {
                assert(t2[j].mirror->0 >= s.len());
            } else {
                assert(t2[j] == t[j]);
                assert(keys[x] <= cur[j]);
            }
        } else if x < s1.len() {
            assert(s3[p as int].node is Module);
        } else if x < s2.len() {
            let jx = x - s1.len() + start;
            if jx - 1 != j {
                if jx - 1 < j {
                    assert(t2[jx - 1].mirror != t2[j].mirror);
                } else {
                    assert(t2[j].mirror != t2[jx - 1].mirror);
                }
            }
        } else {
            assert(s3[x] == leaf_view(cs[x - s2.len()], t2[l].mirror->0, x));
            if j != l {
                assert(t2[j].mirror != t2[l].mirror);
            }
        }
    }
}

/// One visit keeps the children of every module node in declaration
/// order, given that the visited declaration comes after the one the walk
/// was in for the visited module. Returns the keys and cursors after it.
pub proof fn lemma_visit_order(
    model: SemanticModel,
    name: Seq<char>,
    st: WalkState,
    v: Visit,
    keys: Seq<int>,
    cur: Seq<int>,
) -> (r: (Seq<int>, Seq<int>))
    requires
        tracker_inv(model, st),
        links_backward(st.slots),
        visit_valid(model, v),
        model.modules@.len() <= usize::MAX,
        model.modules@[v.module as int].declarations@.len() <= usize::MAX,
        visit_step(model, name, st, v).slots.len() <= usize::MAX,
        keyed(model, st.slots, keys),
        sorted(st.slots, keys),
        cursors_ok(model, st.slots, st.path, keys, cur),
        resync(st.path, v.module).len() > 0,
        cur[resync(st.path, v.module).len() - 1] < v.decl,
    ensures
        ({
            let st2 = visit_step(model, name, st, v);
            let q = resync(st.path, v.module).len() - 1;
            &&& keyed(model, st2.slots, r.0)
            &&& sorted(st2.slots, r.0)
            &&& cursors_ok(model, st2.slots, st2.path, r.0, r.1)
            &&& links_backward(st2.slots)
            &&& forall|k: int| 0 <= k < q ==> #[trigger] r.1[k] == cur[k]
            &&& r.1[q] == v.decl
            &&& (entered(model, v.module as int, v.decl) is Some ==> r.1[q + 1] == -1)
        }),
{
    let t = st.path;
    let s = st.slots;
    crate::shape::lemma_resync(t, v.module);
    let t1 = resync(t, v.module);
    let n = t1.len();
    assert forall|k: int| 0 <= k < n implies #[trigger] t1[k] == t[k] by {
        assert(t.subrange(0, n as int)[k] == t[k]);
    }
    let c1 = cur.subrange(0, n as int).update(n - 1, v.decl);
    let st1 = WalkState { slots: s, path: t1, krate: st.krate };
    assert(tracker_inv(model, st1)) by {
        assert forall|a: int, b: int| 0 <= a < b < t1.len() && #[trigger] t1[a].mirror is None implies #[trigger] t1[b].mirror
            is None by {
            assert(t1[a] == t[a] && t1[b] == t[b]);
        }
        assert forall|k: int| 0 < k < t1.len() implies declares(model, #[trigger] t1[k - 1].origin, t1[k].origin) by {
            assert(t1[k - 1] == t[k - 1] && t1[k] == t[k]);
        }
    }
    assert(cursors_ok(model, s, t1, keys, c1)) by {
        assert forall|j: int| 0 <= j < t1.len() - 1 implies declared_at(model, t1[j].origin, #[trigger] c1[j], t1[j + 1].origin) by {
            assert(c1[j] == cur[j]);
            assert(t1[j] == t[j] && t1[j + 1] == t[j + 1]);
        }
        assert forall|j: int, x: int|
            #![trigger c1[j], keys[x]]
            0 <= j < t1.len() && t1[j].mirror is Some && 0 <= x < s.len() && s[x].link == Link::Under(t1[j].mirror->0)
                implies keys[x] <= c1[j] by {
            assert(t1[j] == t[j]);
            assert(keys[x] <= cur[j]);
        }
    }
    let cs = decl_candidates(model, v.module as int, v.decl);
    lemma_candidates_at(model, v);
    let (s3, t2, k2) = store_spec(model, s, t1, st.krate, name, cs);
    let nk = if cs.len() > 0 {
        keys_after(model, s, t1, st.krate, name, cs, v.decl, keys, c1)
    } else {
        keys
    };
    if cs.len() > 0 {
        assert(placement(model, s, t1, st.krate, name, cs, v.module));
        assert(order_pre(model, s, t1, cs, v.module, v.decl, keys, c1));
        lemma_place_keyed(model, s, t1, st.krate, name, cs, v.module, v.decl, keys, c1);
        lemma_place_sorted(model, s, t1, st.krate, name, cs, v.module, v.decl, keys, c1);
        lemma_place_cursors(model, s, t1, st.krate, name, cs, v.module, v.decl, keys, c1);
        crate::shape::lemma_place_backward(model, s, t1, st.krate, name, cs);
        lemma_placement_nodes(model, s, t1, st.krate, name, cs, v.module);
    }
    assert(t2.len() == t1.len());
    assert(forall|j: int| 0 <= j < t1.len() ==> (#[trigger] t2[j]).origin == t1[j].origin);
    match entered(model, v.module as int, v.decl) {
        Some(c) => {
            let t3 = t2.push(Bijection { origin: c, mirror: None });
            let nc = c1.push(-1);
            assert(cursors_ok(model, s3, t3, nk, nc)) by {
                assert forall|j: int| 0 <= j < t3.len() - 1 implies declared_at(model, t3[j].origin, #[trigger] nc[j], t3[j + 1].origin) by {
                    if j < t2.len() - 1 {
                        assert(t3[j] == t2[j] && t3[j + 1] == t2[j + 1] && nc[j] == c1[j]);
                    } else {
                        assert(t3[j] == t2[j] && nc[j] == c1[j]);
                    }
                }
                assert forall|j: int, x: int|
                    #![trigger nc[j], nk[x]]
                    0 <= j < t3.len() && t3[j].mirror is Some && 0 <= x < s3.len() && s3[x].link == Link::Under(
                        t3[j].mirror->0,
                    ) implies nk[x] <= nc[j] by {
                    assert(t3[j] == t2[j] && nc[j] == c1[j]);
                }
            }
            (nk, nc)
        },
        None => (nk, c1),
    }
}

pub proof fn lemma_wf_backward(slots: Seq<crate::store::Slot>)
    requires
        crate::store::slots_wf(slots),
    ensures
        links_backward(crate::algo::store_view(slots)),
{
    let sv = crate::algo::store_view(slots);
    assert forall|x: int| 0 <= x < sv.len() && #[trigger] sv[x].link is Under implies sv[x].link->0 < x by {
        assert(sv[x].link == slots[x].link);
    }
}

/// Every node that hangs under crate node `c` mirrors module `root`.
pub open spec fn crate_kids_at(sv: Seq<SlotView>, c: usize, root: ModuleRef) -> bool {
    forall|x: int|
        0 <= x < sv.len() && #[trigger] sv[x].link == Link::Under(c) ==> sv[x].node is Module && module_loc(sv[x].node)
            == root
}

#[verifier::spinoff_prover]
proof fn lemma_root_nodes(
    model: SemanticModel,
    s: Seq<SlotView>,
    t: Seq<Bijection>,
    krate: Option<usize>,
    name: Seq<char>,
    cs: Seq<Candidate>,
    m: ModuleRef,
)
    requires
        placement(model, s, t, krate, name, cs, m),
    ensures
        ({
            let s1 = rooted(model, s, t, krate, name).0;
            let s3 = store_spec(model, s, t, krate, name, cs).0;
            forall|x: int|
                s.len() <= x < s1.len() && #[trigger] s3[x].link is Under ==> s3[x].node is Module && module_loc(s3[x].node)
                    == t[0].origin
        }),
{
    let d = first_unmirrored(t, 0);
    lemma_place_explicit(model, s, t, krate, name, cs);
    if d == 0 {
        lemma_root_explicit(model, s, t, krate, name);
    }
}

/// A visit keeps the crate node's children file roots of module `root`,
/// the tracker's first entry being `root`.
#[verifier::spinoff_prover]
#[verifier::rlimit(100)]
pub proof fn lemma_visit_crate_kids(model: SemanticModel, name: Seq<char>, st: WalkState, v: Visit, root: ModuleRef)
    requires
        tracker_inv(model, st),
        links_backward(st.slots),
        visit_valid(model, v),
        visit_step(model, name, st, v).slots.len() <= usize::MAX,
        resync(st.path, v.module).len() > 0,
        st.path[0].origin == root,
        st.krate matches Some(c) ==> crate_kids_at(st.slots, c, root),
    ensures
        visit_step(model, name, st, v).path.len() > 0,
        visit_step(model, name, st, v).path[0].origin == root,
        visit_step(model, name, st, v).krate matches Some(c) ==> crate_kids_at(visit_step(model, name, st, v).slots, c, root),
{
    let t = st.path;
    let s = st.slots;
    crate::shape::lemma_resync(t, v.module);
    let t1 = resync(t, v.module);
    assert(t1[0] == t[0]) by {
        assert(t.subrange(0, t1.len() as int)[0] == t[0]);
    }
    let n = t1.len();
    assert forall|k: int| 0 <= k < n implies #[trigger] t1[k] == t[k] by {
        assert(t.subrange(0, n as int)[k] == t[k]);
    }
    assert(tracker_inv(model, WalkState { slots: s, path: t1, krate: st.krate })) by {
        assert forall|a: int, b: int| 0 <= a < b < t1.len() && #[trigger] t1[a].mirror is None implies #[trigger] t1[b].mirror
            is None by {
            assert(t1[a] == t[a] && t1[b] == t[b]);
        }
        assert forall|k: int| 0 < k < t1.len() implies declares(model, #[trigger] t1[k - 1].origin, t1[k].origin) by {
            assert(t1[k - 1] == t[k - 1] && t1[k] == t[k]);
        }
    }
    let cs = decl_candidates(model, v.module as int, v.decl);
    let (s3, t2, k2) = store_spec(model, s, t1, st.krate, name, cs);
    if cs.len() > 0 {
        assert(placement(model, s, t1, st.krate, name, cs, v.module));
        lemma_placement_nodes(model, s, t1, st.krate, name, cs, v.module);
        crate::shape::lemma_place_tracker(model, s, t1, st.krate, name, cs);
        lemma_root_nodes(model, s, t1, st.krate, name, cs, v.module);
        let (s1, u1, k1) = rooted(model, s, t1, st.krate, name);
        let start = start_of(t1);
        let (s2, u2) = synth_from(model, s1, u1, start);
        match k2 {
            Some(c) => {
                assert forall|x: int| 0 <= x < s3.len() && #[trigger] s3[x].link == Link::Under(c) implies s3[x].node
                    is Module && module_loc(s3[x].node) == root by {
                    if x < s.len() {
                        assert(s3[x] == s[x]);
                        if st.krate is None {
                            assert(s[x].link->0 < x);
                        }
                    } else if x < s1.len() {
                    } else if x < s2.len() {
                        let j = x - s1.len() + start;
                        assert(s3[t2[j - 1].mirror->0 as int].node is Module);
                    } else {
                        assert(s3[t2[t1.len() - 1].mirror->0 as int].node is Module);
                    }
                }
            },
            None => {},
        }
    }
    assert(t2.len() == t1.len());
    assert(t2[0].origin == t1[0].origin);
}

/// Some visit of `vs` visits a declaration that yields a runnable.
pub open spec fn some_runnable(model: SemanticModel, vs: Seq<Visit>) -> bool {
    exists|k: int| 0 <= k < vs.len() && #[trigger] decl_candidates(model, vs[k].module as int, vs[k].decl).len() > 0
}

/// In a walk that has no crate node yet and no mirrored tracker entry, a
/// visit creates the crate node exactly when its declaration yields a
/// runnable, and otherwise changes no node and mirrors no entry.
pub proof fn lemma_visit_fresh(model: SemanticModel, name: Seq<char>, st: WalkState, v: Visit)
    requires
        st.krate is None,
        forall|j: int| 0 <= j < st.path.len() ==> (#[trigger] st.path[j]).mirror is None,
        resync(st.path, v.module).len() > 0,
    ensures
        visit_step(model, name, st, v).krate is Some <==> decl_candidates(model, v.module as int, v.decl).len() > 0,
        visit_step(model, name, st, v).krate is None ==> visit_step(model, name, st, v).slots == st.slots && forall|j: int|
            0 <= j < visit_step(model, name, st, v).path.len() ==> (#[trigger] visit_step(model, name, st, v).path[j]).mirror
                is None,
{
    let t = st.path;
    crate::shape::lemma_resync(t, v.module);
    let t1 = resync(t, v.module);
    assert forall|j: int| 0 <= j < t1.len() implies (#[trigger] t1[j]).mirror is None by {
        assert(t.subrange(0, t1.len() as int)[j] == t[j]);
    }
    let cs = decl_candidates(model, v.module as int, v.decl);
    if cs.len() > 0 {
        assert(first_unmirrored(t1, 0) == 0);
    }
    let t2 = store_spec(model, st.slots, t1, st.krate, name, cs).1;
    match entered(model, v.module as int, v.decl) {
        Some(c) => {
            assert forall|j: int| 0 <= j < t2.len() + 1 && cs.len() == 0 implies (#[trigger] t2.push(
                Bijection { origin: c, mirror: None },
            )[j]).mirror is None by {
                if j < t2.len() {
                    assert(t2.push(Bijection { origin: c, mirror: None })[j] == t1[j]);
                }
            }
        },
        None => {},
    }
}

/// One visit of a walk that started without a crate node: the crate node
/// exists exactly once a visited declaration yields a runnable, and until
/// then no node is made and no tracker entry is mirrored.
pub proof fn lemma_fresh_step(
    model: SemanticModel,
    name: Seq<char>,
    before: WalkState,
    v: Visit,
    done0: Seq<Visit>,
    sv0: Seq<SlotView>,
)
    requires
        before.krate is None ==> before.slots == sv0 && forall|j: int| 0 <= j < before.path.len() ==> (#[trigger] before.path[j]).mirror is None,
        before.krate is Some <==> some_runnable(model, done0),
        resync(before.path, v.module).len() > 0,
    ensures
        ({
            let after = visit_step(model, name, before, v);
            &&& after.krate is None ==> after.slots == sv0 && forall|j: int| 0 <= j < after.path.len() ==> (#[trigger] after.path[j]).mirror is None
            &&& after.krate is Some <==> some_runnable(model, done0.push(v))
        }),
{
    let dn = done0.push(v);
    let cs = decl_candidates(model, v.module as int, v.decl);
    let after = visit_step(model, name, before, v);
    if before.krate is None {
        lemma_visit_fresh(model, name, before, v);
        if cs.len() > 0 {
            assert(dn[dn.len() - 1] == v);
            assert(some_runnable(model, dn));
        }
        if some_runnable(model, dn) {
            let k = choose|k: int| 0 <= k < dn.len() && #[trigger] decl_candidates(model, dn[k].module as int, dn[k].decl).len() > 0;
            if k < done0.len() {
                assert(dn[k] == done0[k]);
            }
        }
    } else {
        let k = choose|k: int| 0 <= k < done0.len() && #[trigger] decl_candidates(model, done0[k].module as int, done0[k].decl).len() > 0;
        assert(dn[k] == done0[k]);
        assert(some_runnable(model, dn));
        let t1 = resync(before.path, v.module);
        if t1.len() > 0 && cs.len() > 0 {
            let d = first_unmirrored(t1, 0);
            if d == 0 {
                lemma_root_explicit(model, before.slots, t1, before.krate, name);
            }
        }
    }
}

} // verus!
