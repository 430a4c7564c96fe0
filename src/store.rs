//! The mirror node store: an arena of nodes addressed by handles.
//!
//! Node `h` has identifier `h + 1`, so that a node is found from its
//! identifier in constant time; identifier `0` names the session root. A
//! node records where it hangs (under the session root, under another node,
//! or nowhere once it was deleted) and what it is. The children of a node are
//! the nodes that hang under it, in the order they were appended.
use vstd::prelude::*;

use crate::delta::AppendItem;
use crate::view::DefKey;
use crate::Id;

verus! {

/// Where a node of the store hangs.
#[derive(PartialEq, Eq, Structural, Debug, Clone, Copy)]
pub enum Link {
    /// Directly under the session root.
    Root,
    /// Under the node with this handle.
    Under(usize),
    /// Removed from its parent.
    Detached,
}

/// One node of the store.
#[derive(Debug)]
pub struct Slot {
    pub link: Link,
    pub item: AppendItem,
}

/// Whether a node of kind `parent` can hold a node of kind `child`: a crate
/// holds modules; a module or a macro call holds modules, macro calls and
/// runnables; a runnable holds nothing.
pub open spec fn accepts(parent: AppendItem, child: AppendItem) -> bool {
    match parent {
        AppendItem::Crate { .. } => child is Module,
        AppendItem::Module { .. } | AppendItem::MacroCall { .. } => !(child is Crate),
        _ => false,
    }
}

/// The identifier of the node with handle `h`.
pub open spec fn id_of_handle(h: int) -> Id {
    (h + 1) as Id
}

/// The well-formedness of a sequence of nodes: identifiers follow handles,
/// crates hang under the root, and every other attached node hangs under an
/// earlier node that accepts it.
pub open spec fn slots_wf(slots: Seq<Slot>) -> bool {
    &&& forall|h: int| 0 <= h < slots.len() ==> #[trigger] slots[h].item.spec_id() == id_of_handle(h)
    &&& forall|h: int|
        0 <= h < slots.len() ==> match #[trigger] slots[h].link {
            Link::Root => slots[h].item is Crate,
            Link::Under(p) => p < h && accepts(slots[p as int].item, slots[h].item),
            Link::Detached => true,
        }
}

/// The mirror tree of a session, as an arena.
#[derive(Debug)]
pub struct MirrorStore {
    pub slots: Vec<Slot>,
}

impl MirrorStore {
    pub open spec fn wf(&self) -> bool {
        slots_wf(self.slots@)
    }

    /// An empty store: a session with no crate.
    pub fn new() -> (r: MirrorStore)
        ensures
            r.wf(),
            r.slots@.len() == 0,
    {
        MirrorStore { slots: Vec::new() }
    }

    /// The number of nodes ever appended.
    pub fn len(&self) -> (r: usize)
        ensures
            r == self.slots@.len(),
    {
        self.slots.len()
    }

    /// The identifier the next appended node receives.
    pub fn next_id(&self) -> (r: Id)
        requires
            self.wf(),
        ensures
            r == id_of_handle(self.slots@.len() as int),
    {
        self.slots.len() as u128 + 1
    }

    /// The node with identifier `id`, if the store ever held one. Constant
    /// time. A deleted node is returned too, with its `Detached` link (see
    /// `is_attached`); identifier `0`, the session root, names no node.
    pub fn get_by_id(&self, id: Id) -> (r: Option<&Slot>)
        ensures
            id == 0 ==> r is None,
            r is Some <==> (1 <= id && id - 1 < self.slots@.len()),
            r matches Some(s) ==> *s == self.slots@[id - 1],
    {
        if id >= 1 && id - 1 < self.slots.len() as u128 {
            Some(&self.slots[(id - 1) as usize])
        } else {
            None
        }
    }
}

/// The handles of the nodes among the first `n` that hang at `link`, in
/// order.
pub open spec fn children_upto(slots: Seq<Slot>, link: Link, n: int) -> Seq<usize>
    decreases n,
{
    if n <= 0 {
        Seq::empty()
    } else {
        children_upto(slots, link, n - 1) + if slots[n - 1].link == link {
            seq![(n - 1) as usize]
        } else {
            Seq::empty()
        }
    }
}

/// Whether node `h` lies below node `root`.
pub open spec fn descends(slots: Seq<Slot>, h: int, root: usize) -> bool
    decreases h,
{
    if h < 0 || h >= slots.len() {
        false
    } else {
        match slots[h].link {
            Link::Under(p) => p == root || (p < h && descends(slots, p as int, root)),
            _ => false,
        }
    }
}

/// The handles of the nodes among the first `n` that lie below `root`, in
/// order.
pub open spec fn descendants_upto(slots: Seq<Slot>, root: usize, n: int) -> Seq<usize>
    decreases n,
{
    if n <= 0 {
        Seq::empty()
    } else {
        descendants_upto(slots, root, n - 1) + if descends(slots, n - 1, root) {
            seq![(n - 1) as usize]
        } else {
            Seq::empty()
        }
    }
}

/// Whether node `h` is part of the tree: every link from it up to the
/// session root is attached.
pub open spec fn attached(slots: Seq<Slot>, h: int) -> bool
    decreases h,
{
    if h < 0 || h >= slots.len() {
        false
    } else {
        match slots[h].link {
            Link::Root => true,
            Link::Under(p) => p < h && attached(slots, p as int),
            Link::Detached => false,
        }
    }
}

/// Whether node `h` is part of the tree and mirrors the definition `key`.
pub open spec fn is_def(slots: Seq<Slot>, h: int, key: DefKey) -> bool {
    attached(slots, h) && match (slots[h].item, key) {
        (AppendItem::Module { location, .. }, DefKey::Module(m)) => location == m,
        (AppendItem::Function(f), DefKey::Function(d)) => f.location == d,
        _ => false,
    }
}

impl MirrorStore {
    /// The children of the session root (`Link::Root`) or of a node
    /// (`Link::Under(h)`), in the order they were appended.
    pub fn children(&self, link: Link) -> (r: Vec<usize>)
        ensures
            r@ == children_upto(self.slots@, link, self.slots@.len() as int),
    {
        let mut r: Vec<usize> = Vec::new();
        let mut i: usize = 0;
        while i < self.slots.len()
            invariant
                i <= self.slots@.len(),
                r@ == children_upto(self.slots@, link, i as int),
            decreases self.slots@.len() - i,
        {
            if self.slots[i].link == link {
                r.push(i);
            }
            i = i + 1;
        }
        r
    }

    /// Every node below node `root`, not `root` itself, in the order they
    /// were appended.
    pub fn flatten_content(&self, root: usize) -> (r: Vec<usize>)
        ensures
            r@ == descendants_upto(self.slots@, root, self.slots@.len() as int),
    {
        let mut below: Vec<bool> = Vec::new();
        let mut r: Vec<usize> = Vec::new();
        let mut i: usize = 0;
        while i < self.slots.len()
            invariant
                i <= self.slots@.len(),
                below@.len() == i,
                forall|j: int| 0 <= j < i ==> #[trigger] below@[j] == descends(self.slots@, j, root),
                r@ == descendants_upto(self.slots@, root, i as int),
            decreases self.slots@.len() - i,
        {
            let d = match self.slots[i].link {
                Link::Under(p) => p == root || (p < i && below[p]),
                _ => false,
            };
            below.push(d);
            if d {
                r.push(i);
            }
            i = i + 1;
        }
        r
    }

    /// Whether node `h` is part of the tree: it and each node above it are
    /// attached. Takes as many steps as the node is deep.
    pub fn is_attached(&self, h: usize) -> (r: bool)
        ensures
            r == attached(self.slots@, h as int),
    {
        if h >= self.slots.len() {
            return false;
        }
        let mut cur = h;
        loop
            invariant
                cur < self.slots@.len(),
                attached(self.slots@, h as int) == attached(self.slots@, cur as int),
            decreases cur,
        {
            match self.slots[cur].link {
                Link::Root => return true,
                Link::Detached => return false,
                Link::Under(p) => {
                    if p < cur {
                        cur = p;
                    } else {
                        return false;
                    }
                },
            }
        }
    }

    /// The node of the tree with identifier `id`, if there is one: deleted
    /// nodes, and nodes under a deleted node, are not found. Found through
    /// the identifier index; checking that the node is reachable takes as
    /// many steps as it is deep.
    pub fn find_by_id(&self, id: Id) -> (r: Option<&Slot>)
        ensures
            r is Some <==> (1 <= id && id - 1 < self.slots@.len() && attached(self.slots@, id - 1)),
            r matches Some(s) ==> *s == self.slots@[id - 1],
    {
        let n = self.slots.len();
        if id >= 1 && id - 1 < n as u128 {
            let h = (id - 1) as usize;
            assert(h as int == id - 1);
            if self.is_attached(h) {
                return Some(&self.slots[h]);
            }
        }
        None
    }

    /// The first node of the tree that mirrors the definition `key`, if any.
    /// Deleted nodes, and nodes under a deleted node, are not found.
    pub fn find_by_def(&self, key: DefKey) -> (r: Option<usize>)
        ensures
            r is None ==> forall|h: int| 0 <= h < self.slots@.len() ==> !#[trigger] is_def(self.slots@, h, key),
            r matches Some(h) ==> h < self.slots@.len() && is_def(self.slots@, h as int, key)
                && forall|j: int| 0 <= j < h ==> !#[trigger] is_def(self.slots@, j, key),
    {
        let mut i: usize = 0;
        while i < self.slots.len()
            invariant
                i <= self.slots@.len(),
                forall|j: int| 0 <= j < i ==> !#[trigger] is_def(self.slots@, j, key),
            decreases self.slots@.len() - i,
        {
            let s = &self.slots[i];
            let hit = match (&s.item, key) {
                (AppendItem::Module { location, .. }, DefKey::Module(m)) => *location == m,
                (AppendItem::Function(f), DefKey::Function(d)) => f.location == d,
                _ => false,
            };
            if hit && self.is_attached(i) {
                return Some(i);
            }
            i = i + 1;
        }
        None
    }
}

/// Identifiers are pairwise distinct within a session, and none is the
/// session root's `0`.
pub proof fn lemma_ids_unique(store: &MirrorStore)
    requires
        store.wf(),
        store.slots@.len() <= usize::MAX,
    ensures
        forall|i: int, j: int|
            0 <= i < j < store.slots@.len() ==> #[trigger] store.slots@[i].item.spec_id()
                != #[trigger] store.slots@[j].item.spec_id(),
        forall|i: int| 0 <= i < store.slots@.len() ==> #[trigger] store.slots@[i].item.spec_id() != 0,
{
}

} // verus!
