//! Publishing the store as the nested tree that readers consume: a
//! snapshot, copied out of the arena.
use vstd::prelude::*;

use crate::algo::{reconciled, slot_view, store_view, visit_file_defs_with_path, CrateCursor, NodeView, SlotView};
use crate::delta::{replay, AppendItem, Patch};
use crate::algo::file_visits;
use crate::order::{crate_kids_at, in_declaration_order, keyed, some_runnable, sorted};
use crate::shape::{containers_nonempty, found, links_semantic};
use crate::source::SemanticModel;
use crate::store::{children_upto, Link, MirrorStore, Slot};
use crate::view::{Content, Crate, MacroCall, Module, Node, Runnable, RunnableFunc, Session};

verus! {

proof fn lemma_children_upto(slots: Seq<Slot>, link: Link, n: int)
    requires
        0 <= n <= slots.len(),
        slots.len() <= usize::MAX,
    ensures
        forall|i: int| 0 <= i < children_upto(slots, link, n).len() ==> {
            let k = #[trigger] children_upto(slots, link, n)[i];
            k < n && slots[k as int].link == link
        },
    decreases n,
{
    if n > 0 {
        lemma_children_upto(slots, link, n - 1);
        let prev = children_upto(slots, link, n - 1);
        let cur = children_upto(slots, link, n);
        assert forall|i: int| 0 <= i < cur.len() implies {
            let k = #[trigger] cur[i];
            k < n && slots[k as int].link == link
        } by {
            if i < prev.len() {
                assert(cur[i] == prev[i]);
            } else {
                assert(slots[n - 1].link == link);
                assert(cur[i] == (n - 1) as usize);
            }
        }
    }
}

proof fn lemma_children_nonempty(slots: Seq<Slot>, link: Link, n: int, j: int)
    requires
        0 <= j < n,
        slots[j].link == link,
    ensures
        children_upto(slots, link, n).len() > 0,
    decreases n,
{
    if j < n - 1 {
        lemma_children_nonempty(slots, link, n - 1, j);
    }
}

/// The handles of the nodes among the first `n` of a structure that hang
/// at `link`, in order.
pub open spec fn view_children(sv: Seq<SlotView>, link: Link, n: int) -> Seq<usize>
    decreases n,
{
    if n <= 0 {
        Seq::empty()
    } else {
        view_children(sv, link, n - 1) + if sv[n - 1].link == link {
            seq![(n - 1) as usize]
        } else {
            Seq::empty()
        }
    }
}

/// `c` is the nested form of node `h`: the same node, and, for a module or
/// macro call, one entry per child of the node, in order, each the nested
/// form of that child.
pub open spec fn node_tree(sv: Seq<SlotView>, h: int, c: Content) -> bool
    decreases sv.len() - h, 1int, 0int,
{
    if h < 0 || h >= sv.len() {
        false
    } else {
        let ks = view_children(sv, Link::Under(h as usize), sv.len() as int);
        match c {
            Content::Leaf(Runnable::Function(f)) => sv[h].node == (NodeView::Function {
                id: f.id,
                name: f.name@,
                kind: f.kind,
                location: f.location,
            }),
            Content::Leaf(Runnable::Doctest(d)) => sv[h].node == (NodeView::Doctest {
                id: d.id,
                location: d.location,
            }),
            Content::Node(Node::Module(m)) => sv[h].node == (NodeView::Module {
                id: m.id,
                name: m.name@,
                location: m.location,
            }) && m.content@.len() == ks.len() && seq_tree(sv, h, ks, m.content@),
            Content::Node(Node::MacroCall(mc)) => sv[h].node == (NodeView::MacroCall { id: mc.id })
                && mc.content@.len() == ks.len() && seq_tree(sv, h, ks, mc.content@),
        }
    }
}

/// Each entry of `cs` is the nested form of the node of `ks` at its position,
/// a child of node `h`.
pub open spec fn seq_tree(sv: Seq<SlotView>, h: int, ks: Seq<usize>, cs: Seq<Content>) -> bool
    decreases sv.len() - h, 0int, cs.len(),
{
    if cs.len() == 0 {
        true
    } else {
        let n = cs.len() - 1;
        seq_tree(sv, h, ks, cs.drop_last()) && n < ks.len() && 0 <= h < ks[n] < sv.len() && node_tree(
            sv,
            ks[n] as int,
            cs[n],
        )
    }
}

/// `c` is the nested form of crate node `h`: the same crate, with one
/// module per child of the node, in order, each the nested form of that
/// child.
pub open spec fn crate_tree(sv: Seq<SlotView>, h: int, c: Crate) -> bool {
    let ks = view_children(sv, Link::Under(h as usize), sv.len() as int);
    &&& 0 <= h < sv.len()
    &&& sv[h].node == (NodeView::Crate { id: c.id, name: c.name@ })
    &&& c.modules@.len() == ks.len()
    &&& forall|i: int| 0 <= i < ks.len() ==> #[trigger] node_tree(sv, ks[i] as int, Content::Node(Node::Module(c.modules@[i])))
}

proof fn lemma_children_view(slots: Seq<Slot>, link: Link, n: int)
    requires
        0 <= n <= slots.len(),
    ensures
        children_upto(slots, link, n) == view_children(store_view(slots), link, n),
    decreases n,
{
    if n > 0 {
        lemma_children_view(slots, link, n - 1);
        assert(store_view(slots)[n - 1].link == slots[n - 1].link);
    }
}

impl MirrorStore {
    /// The content entries of node `h`: one per child, in order, each the
    /// nested form of that child.
    fn content_of(&self, h: usize) -> (r: Vec<Content>)
        requires
            self.wf(),
            h < self.slots@.len(),
            !(self.slots@[h as int].item is Crate),
        ensures
            ({
                let sv = store_view(self.slots@);
                let ks = view_children(sv, Link::Under(h), sv.len() as int);
                &&& r@.len() == ks.len()
                &&& seq_tree(sv, h as int, ks, r@)
            }),
        decreases self.slots@.len() - h, 0int,
    {
        let ghost sv = store_view(self.slots@);
        let kids = self.children(Link::Under(h));
        let _n = self.slots.len();
        proof {
            lemma_children_upto(self.slots@, Link::Under(h), self.slots@.len() as int);
            lemma_children_view(self.slots@, Link::Under(h), self.slots@.len() as int);
        }
        let mut content: Vec<Content> = Vec::new();
        let mut i: usize = 0;
        while i < kids.len()
            invariant
                self.wf(),
                h < self.slots@.len(),
                !(self.slots@[h as int].item is Crate),
                sv == store_view(self.slots@),
                kids@ == view_children(sv, Link::Under(h), sv.len() as int),
                forall|j: int| 0 <= j < kids@.len() ==> {
                    let k = #[trigger] kids@[j];
                    k < self.slots@.len() && self.slots@[k as int].link == Link::Under(h)
                },
                i <= kids@.len(),
                content@.len() == i,
                seq_tree(sv, h as int, kids@, content@),
            decreases kids@.len() - i,
        {
            let k = kids[i];
            assert(self.slots@[k as int].link == Link::Under(h));
            assert(h < k);
            assert(!(self.slots@[k as int].item is Crate));
            let c = match &self.slots[k].item {
                AppendItem::Function(f) => Content::Leaf(
                    Runnable::Function(
                        RunnableFunc { id: f.id, name: f.name.clone(), kind: f.kind, location: f.location },
                    ),
                ),
                AppendItem::Doctest(d) => Content::Leaf(Runnable::Doctest(*d)),
                AppendItem::MacroCall { id } => {
                    let inner = self.content_of(k);
                    let mc = Content::Node(Node::MacroCall(MacroCall { id: *id, content: inner }));
                    assert(sv[k as int] == slot_view(self.slots@[k as int]));
                    assert(node_tree(sv, k as int, mc));
                    mc
                },
                AppendItem::Module { .. } => Content::Node(Node::Module(self.to_module(k))),
                AppendItem::Crate { id, .. } => Content::Node(
                    Node::MacroCall(MacroCall { id: *id, content: Vec::new() }),
                ),
            };
            assert(sv[k as int] == slot_view(self.slots@[k as int]));
            assert(node_tree(sv, k as int, c));
            let ghost before = content@;
            content.push(c);
            assert(content@.drop_last() =~= before);
            i = i + 1;
        }
        content
    }

    /// The module node `h` with everything below it, as a nested tree.
    pub fn to_module(&self, h: usize) -> (r: Module)
        requires
            self.wf(),
            h < self.slots@.len(),
            self.slots@[h as int].item is Module,
        ensures
            node_tree(store_view(self.slots@), h as int, Content::Node(Node::Module(r))),
        decreases self.slots@.len() - h, 1int,
    {
        match &self.slots[h].item {
            AppendItem::Module { id, name, location } => {
                let content = self.content_of(h);
                let m = Module { id: *id, name: name.clone(), location: *location, content };
                assert(store_view(self.slots@)[h as int] == slot_view(self.slots@[h as int]));
                assert(node_tree(store_view(self.slots@), h as int, Content::Node(Node::Module(m))));
                m
            },
            _ => Module { id: 0, name: String::new(), location: 0, content: Vec::new() },
        }
    }

    /// The crate node `h` with the file root modules below it, each as a
    /// nested tree, in order.
    pub fn to_crate(&self, h: usize) -> (r: Crate)
        requires
            self.wf(),
            h < self.slots@.len(),
            self.slots@[h as int].item is Crate,
        ensures
            crate_tree(store_view(self.slots@), h as int, r),
    {
        let ghost sv = store_view(self.slots@);
        let kids = self.children(Link::Under(h));
        let _n = self.slots.len();
        proof {
            lemma_children_upto(self.slots@, Link::Under(h), self.slots@.len() as int);
            lemma_children_view(self.slots@, Link::Under(h), self.slots@.len() as int);
        }
        let mut modules: Vec<Module> = Vec::new();
        let mut i: usize = 0;
        while i < kids.len()
            invariant
                self.wf(),
                h < self.slots@.len(),
                self.slots@[h as int].item is Crate,
                sv == store_view(self.slots@),
                kids@ == view_children(sv, Link::Under(h), sv.len() as int),
                forall|j: int| 0 <= j < kids@.len() ==> {
                    let k = #[trigger] kids@[j];
                    k < self.slots@.len() && self.slots@[k as int].link == Link::Under(h)
                },
                i <= kids@.len(),
                modules@.len() == i,
                forall|j: int| 0 <= j < i ==> #[trigger] node_tree(sv, kids@[j] as int, Content::Node(Node::Module(modules@[j]))),
            decreases kids@.len() - i,
        {
            let k = kids[i];
            assert(self.slots@[k as int].link == Link::Under(h));
            let m = self.to_module(k);
            modules.push(m);
            i = i + 1;
        }
        assert(sv[h as int] == slot_view(self.slots@[h as int]));
        match &self.slots[h].item {
            AppendItem::Crate { id, name } => Crate { id: *id, name: name.clone(), modules },
            _ => Crate { id: 0, name: String::new(), modules },
        }
    }

    /// The whole session as a nested tree: its crates in order.
    pub fn to_session(&self) -> (r: Session)
        requires
            self.wf(),
        ensures
            ({
                let sv = store_view(self.slots@);
                let ks = view_children(sv, Link::Root, sv.len() as int);
                &&& r.crates@.len() == ks.len()
                &&& forall|i: int| 0 <= i < ks.len() ==> #[trigger] crate_tree(sv, ks[i] as int, r.crates@[i])
            }),
    {
        let ghost sv = store_view(self.slots@);
        let kids = self.children(Link::Root);
        let _n = self.slots.len();
        proof {
            lemma_children_upto(self.slots@, Link::Root, self.slots@.len() as int);
            lemma_children_view(self.slots@, Link::Root, self.slots@.len() as int);
        }
        let mut crates: Vec<Crate> = Vec::new();
        let mut i: usize = 0;
        while i < kids.len()
            invariant
                self.wf(),
                sv == store_view(self.slots@),
                kids@ == view_children(sv, Link::Root, sv.len() as int),
                forall|j: int| 0 <= j < kids@.len() ==> {
                    let k = #[trigger] kids@[j];
                    k < self.slots@.len() && self.slots@[k as int].link == Link::Root
                },
                i <= kids@.len(),
                crates@.len() == i,
                forall|j: int| 0 <= j < i ==> #[trigger] crate_tree(sv, kids@[j] as int, crates@[j]),
            decreases kids@.len() - i,
        {
            let k = kids[i];
            assert(self.slots@[k as int].link == Link::Root);
            crates.push(self.to_crate(k));
            i = i + 1;
        }
        Session { crates }
    }
}

/// The file root's node in a store that reconciled one file into an
/// empty store: the first child of the crate node.
pub open spec fn file_root(sv: Seq<SlotView>, krate: usize) -> int {
    view_children(sv, Link::Under(krate), sv.len() as int)[0] as int
}

/// The runnables of one file on their own, reconciled into a fresh store:
/// the file root module as a nested tree (`None` if the file holds no
/// runnable), and the changelog of the build, whose base is the empty store.
pub fn file_runnables(model: &SemanticModel, file: usize) -> (r: (Option<Module>, Patch))
    requires
        model.wf(),
    ensures
        ({
            let (sv, krate) = reconciled(*model, file, Seq::empty(), None, Seq::empty());
            &&& r.0 is Some <==> krate is Some
            &&& r.0 is Some <==> (model.spec_module_for_file(file) matches Some(root) && some_runnable(
                *model,
                file_visits(*model, root),
            ))
            &&& r.0 matches Some(m) ==> node_tree(sv, file_root(sv, krate->0), Content::Node(Node::Module(m)))
            &&& r.0 matches Some(m) ==> model.spec_module_for_file(file) == Some(m.location)
            &&& (krate matches Some(c) ==> crate_kids_at(sv, c, model.spec_module_for_file(file)->0))
            &&& r.1.base@ == Seq::<Slot>::empty()
            &&& store_view(replay(Seq::empty(), r.1)) == sv
            &&& containers_nonempty(sv)
            &&& links_semantic(*model, sv)
            &&& in_declaration_order(*model, sv)
            &&& (model.spec_module_for_file(file) matches Some(root) ==> found(*model, file_visits(*model, root), sv))
        }),
{
    let mut store = MirrorStore::new();
    assert(store.slots@ =~= Seq::<Slot>::empty());
    let mut patch = Patch::new(&store);
    let mut cursor = CrateCursor { name: String::new(), node: None };
    let _m = model.modules.len();
    assert(crate::shape::tree_inv(*model, Seq::<SlotView>::empty()));
    assert(store_view(store.slots@) =~= Seq::empty());
    assert(keyed(*model, Seq::<SlotView>::empty(), Seq::<int>::empty()));
    assert(sorted(Seq::<SlotView>::empty(), Seq::<int>::empty()));
    visit_file_defs_with_path(model, &mut store, &mut patch, file, &mut cursor);
    let _n = store.slots.len();
    proof {
        crate::shape::lemma_reconciled_shape(*model, file, Seq::empty(), None, Seq::empty());
    }
    match cursor.node {
        Some(c) => {
            let kids = store.children(Link::Under(c));
            proof {
                lemma_children_upto(store.slots@, Link::Under(c), store.slots@.len() as int);
                lemma_children_view(store.slots@, Link::Under(c), store.slots@.len() as int);
                let sv = store_view(store.slots@);
                assert(sv[c as int].node is Crate);
                let j = choose|j: int| 0 <= j < sv.len() && #[trigger] sv[j].link == Link::Under(c);
                assert(store.slots@[j].link == Link::Under(c));
                lemma_children_nonempty(store.slots@, Link::Under(c), store.slots@.len() as int, j);
            }
            let k = kids[0];
            assert(store.slots@[k as int].link == Link::Under(c));
            let m = store.to_module(k);
            proof {
                let sv = store_view(store.slots@);
                assert(sv[k as int].link == Link::Under(c));
                assert(sv[k as int].node == (NodeView::Module { id: m.id, name: m.name@, location: m.location }));
            }
            (Some(m), patch)
        },
        None => (None, patch),
    }
}

} // verus!
