//! The changelog of structural edits, and the mutator through which every
//! edit of the store is made.
use vstd::prelude::*;

use crate::store::{accepts, id_of_handle, Link, MirrorStore, Slot};
use crate::view::{Doctest, ModuleRef, RunnableFunc};
use crate::Id;

verus! {

/// A node as it is appended: a new node has no children yet, so the
/// container kinds carry only their own fields.
#[derive(Debug)]
pub enum AppendItem {
    Crate { id: Id, name: String },
    Module { id: Id, name: String, location: ModuleRef },
    MacroCall { id: Id },
    Function(RunnableFunc),
    Doctest(Doctest),
}

impl AppendItem {
    pub open spec fn spec_id(&self) -> Id {
        match self {
            AppendItem::Crate { id, .. } => *id,
            AppendItem::Module { id, .. } => *id,
            AppendItem::MacroCall { id } => *id,
            AppendItem::Function(f) => f.id,
            AppendItem::Doctest(d) => d.id,
        }
    }

    /// The identifier of the node.
    pub fn id(&self) -> (r: Id)
        ensures
            r == self.spec_id(),
    {
        match self {
            AppendItem::Crate { id, .. } => *id,
            AppendItem::Module { id, .. } => *id,
            AppendItem::MacroCall { id } => *id,
            AppendItem::Function(f) => f.id,
            AppendItem::Doctest(d) => d.id,
        }
    }

    /// An equal copy.
    pub fn copy(&self) -> (r: AppendItem)
        ensures
            r == *self,
    {
        match self {
            AppendItem::Crate { id, name } => AppendItem::Crate { id: *id, name: name.clone() },
            AppendItem::Module { id, name, location } => AppendItem::Module {
                id: *id,
                name: name.clone(),
                location: *location,
            },
            AppendItem::MacroCall { id } => AppendItem::MacroCall { id: *id },
            AppendItem::Function(f) => AppendItem::Function(
                RunnableFunc { id: f.id, name: f.name.clone(), kind: f.kind, location: f.location },
            ),
            AppendItem::Doctest(d) => AppendItem::Doctest(*d),
        }
    }
}

/// Removal of the child `item_id` from the node `target_id`.
#[derive(Debug, Clone, Copy)]
pub struct Delete {
    pub target_id: Id,
    pub item_id: Id,
}

/// A new child `item` of the node `target_id`.
#[derive(Debug)]
pub struct Append {
    pub target_id: Id,
    pub item: AppendItem,
}

/// A change of the fields of the node `target_id`.
#[derive(Debug)]
pub struct Update {
    pub target_id: Id,
    pub changes: Changes,
}

/// A field-level change, one variant per kind of node that can change.
#[derive(Debug)]
pub enum Changes {
    Crate { name: Option<String> },
    Module { name: Option<String>, location: Option<ModuleRef> },
    MacroCall {},
}

/// The structural edits made since the changelog was last consumed.
/// `base` is the store as it was at that moment (ghost).
pub struct Patch {
    /// The version: how many batches were consumed before this one.
    pub id: u64,
    pub delete: Vec<Delete>,
    pub append: Vec<Append>,
    pub update: Vec<Update>,
    pub base: Ghost<Seq<Slot>>,
}

/// Where a node appended under `target_id` hangs.
pub open spec fn link_for(target_id: Id) -> Link {
    if target_id == 0 {
        Link::Root
    } else {
        Link::Under((target_id - 1) as usize)
    }
}

/// The identifier of the node a link hangs under: `0` for the session root.
pub open spec fn link_target(l: Link) -> Id {
    match l {
        Link::Under(p) => id_of_handle(p as int),
        _ => 0,
    }
}

/// `new_app` is `old_app` followed by one append per node of `slots` from
/// handle `n` on, in order, each naming the node's parent and the node.
pub open spec fn records_appends(old_app: Seq<Append>, new_app: Seq<Append>, n: int, slots: Seq<Slot>) -> bool {
    &&& 0 <= n <= slots.len()
    &&& new_app.len() == old_app.len() + slots.len() - n
    &&& new_app.subrange(0, old_app.len() as int) == old_app
    &&& forall|k: int|
        0 <= k < slots.len() - n ==> #[trigger] new_app[old_app.len() + k] == (Append {
            target_id: link_target(slots[n + k].link),
            item: slots[n + k].item,
        })
}

/// Recording nothing.
pub proof fn lemma_records_none(app: Seq<Append>, slots: Seq<Slot>)
    ensures
        records_appends(app, app, slots.len() as int, slots),
{
    assert(app.subrange(0, app.len() as int) =~= app);
}

/// Two stretches of recorded appends make one.
pub proof fn lemma_records_chain(
    a0: Seq<Append>,
    a1: Seq<Append>,
    a2: Seq<Append>,
    n0: int,
    s1: Seq<Slot>,
    s2: Seq<Slot>,
)
    requires
        records_appends(a0, a1, n0, s1),
        records_appends(a1, a2, s1.len() as int, s2),
        s2.subrange(0, s1.len() as int) == s1,
    ensures
        records_appends(a0, a2, n0, s2),
{
    assert(a2.subrange(0, a0.len() as int) =~= a0) by {
        assert forall|j: int| 0 <= j < a0.len() implies a2[j] == a0[j] by {
            assert(a2.subrange(0, a1.len() as int)[j] == a1[j]);
            assert(a1.subrange(0, a0.len() as int)[j] == a0[j]);
        }
    }
    assert forall|k: int| 0 <= k < s2.len() - n0 implies #[trigger] a2[a0.len() + k] == (Append {
        target_id: link_target(s2[n0 + k].link),
        item: s2[n0 + k].item,
    }) by {
        if n0 + k < s1.len() {
            assert(a1[a0.len() + k] == (Append { target_id: link_target(s1[n0 + k].link), item: s1[n0 + k].item }));
            assert(a2.subrange(0, a1.len() as int)[a0.len() + k] == a1[a0.len() + k]);
            assert(s2.subrange(0, s1.len() as int)[n0 + k] == s1[n0 + k]);
        } else {
            let k2 = n0 + k - s1.len();
            assert(a2[a1.len() + k2] == (Append { target_id: link_target(s2[s1.len() + k2].link), item: s2[s1.len() + k2].item }));
        }
    }
}

/// What `changes` makes of a node; a change of another kind does nothing.
pub open spec fn changed(item: AppendItem, changes: Changes) -> AppendItem {
    match (item, changes) {
        (AppendItem::Crate { id, name }, Changes::Crate { name: n }) => AppendItem::Crate {
            id,
            name: match n {
                Some(x) => x,
                None => name,
            },
        },
        (AppendItem::Module { id, name, location }, Changes::Module { name: n, location: l }) => {
            AppendItem::Module {
                id,
                name: match n {
                    Some(x) => x,
                    None => name,
                },
                location: match l {
                    Some(x) => x,
                    None => location,
                },
            }
        },
        _ => item,
    }
}

pub open spec fn apply_append(s: Seq<Slot>, a: Append) -> Seq<Slot> {
    s.push(Slot { link: link_for(a.target_id), item: a.item })
}

pub open spec fn apply_update(s: Seq<Slot>, u: Update) -> Seq<Slot> {
    let h = u.target_id - 1;
    if 1 <= u.target_id && h < s.len() {
        s.update(h, Slot { link: s[h].link, item: changed(s[h].item, u.changes) })
    } else {
        s
    }
}

pub open spec fn apply_delete(s: Seq<Slot>, d: Delete) -> Seq<Slot> {
    let h = d.item_id - 1;
    if 1 <= d.item_id && h < s.len() {
        s.update(h, Slot { link: Link::Detached, item: s[h].item })
    } else {
        s
    }
}

pub open spec fn fold_appends(s: Seq<Slot>, a: Seq<Append>) -> Seq<Slot>
    decreases a.len(),
{
    if a.len() == 0 {
        s
    } else {
        apply_append(fold_appends(s, a.drop_last()), a.last())
    }
}

pub open spec fn fold_updates(s: Seq<Slot>, u: Seq<Update>) -> Seq<Slot>
    decreases u.len(),
{
    if u.len() == 0 {
        s
    } else {
        apply_update(fold_updates(s, u.drop_last()), u.last())
    }
}

pub open spec fn fold_deletes(s: Seq<Slot>, d: Seq<Delete>) -> Seq<Slot>
    decreases d.len(),
{
    if d.len() == 0 {
        s
    } else {
        apply_delete(fold_deletes(s, d.drop_last()), d.last())
    }
}

/// The store that replaying a batch over `s` gives: its appends in order,
/// then its updates, then its deletions.
pub open spec fn replay(s: Seq<Slot>, p: Patch) -> Seq<Slot> {
    fold_deletes(fold_updates(fold_appends(s, p.append@), p.update@), p.delete@)
}

proof fn lemma_fold_updates_len(s: Seq<Slot>, u: Seq<Update>)
    ensures
        fold_updates(s, u).len() == s.len(),
    decreases u.len(),
{
    if u.len() > 0 {
        lemma_fold_updates_len(s, u.drop_last());
    }
}

proof fn lemma_fold_deletes_len(s: Seq<Slot>, d: Seq<Delete>)
    ensures
        fold_deletes(s, d).len() == s.len(),
    decreases d.len(),
{
    if d.len() > 0 {
        lemma_fold_deletes_len(s, d.drop_last());
    }
}

proof fn lemma_updates_push(s: Seq<Slot>, u: Seq<Update>, x: Slot)
    requires
        forall|k: int| 0 <= k < u.len() ==> 1 <= #[trigger] u[k].target_id <= s.len(),
    ensures
        fold_updates(s.push(x), u) == fold_updates(s, u).push(x),
    decreases u.len(),
{
    if u.len() > 0 {
        let v = u.drop_last();
        assert forall|k: int| 0 <= k < v.len() implies 1 <= #[trigger] v[k].target_id <= s.len() by {
            assert(v[k] == u[k]);
        }
        lemma_updates_push(s, v, x);
        lemma_fold_updates_len(s, v);
        let l = u.last();
        assert(1 <= l.target_id <= s.len()) by {
            assert(l == u[u.len() - 1]);
        }
        assert(apply_update(fold_updates(s, v).push(x), l) =~= apply_update(fold_updates(s, v), l).push(x));
    }
}

proof fn lemma_deletes_push(s: Seq<Slot>, d: Seq<Delete>, x: Slot)
    requires
        forall|k: int| 0 <= k < d.len() ==> 1 <= #[trigger] d[k].item_id <= s.len(),
    ensures
        fold_deletes(s.push(x), d) == fold_deletes(s, d).push(x),
    decreases d.len(),
{
    if d.len() > 0 {
        let e = d.drop_last();
        assert forall|k: int| 0 <= k < e.len() implies 1 <= #[trigger] e[k].item_id <= s.len() by {
            assert(e[k] == d[k]);
        }
        lemma_deletes_push(s, e, x);
        lemma_fold_deletes_len(s, e);
        let l = d.last();
        assert(1 <= l.item_id <= s.len()) by {
            assert(l == d[d.len() - 1]);
        }
        assert(apply_delete(fold_deletes(s, e).push(x), l) =~= apply_delete(fold_deletes(s, e), l).push(x));
    }
}

proof fn lemma_deletes_update(s: Seq<Slot>, d: Seq<Delete>, u: Update)
    ensures
        fold_deletes(apply_update(s, u), d) == apply_update(fold_deletes(s, d), u),
    decreases d.len(),
{
    if d.len() > 0 {
        let e = d.drop_last();
        lemma_deletes_update(s, e, u);
        lemma_fold_deletes_len(s, e);
        let t = fold_deletes(s, e);
        let l = d.last();
        assert(apply_delete(apply_update(t, u), l) =~= apply_update(apply_delete(t, l), u));
    }
}

proof fn lemma_changed_keeps_kind(item: AppendItem, changes: Changes)
    ensures
        changed(item, changes).spec_id() == item.spec_id(),
        (changed(item, changes) is Crate) == (item is Crate),
        (changed(item, changes) is Module) == (item is Module),
        (changed(item, changes) is MacroCall) == (item is MacroCall),
        (changed(item, changes) is Function) == (item is Function),
        (changed(item, changes) is Doctest) == (item is Doctest),
{
}

impl Patch {
    /// The batch describes, over its base, exactly the store `store`; every
    /// update and deletion names a node of the store.
    pub open spec fn tracks(&self, store: &MirrorStore) -> bool {
        &&& replay(self.base@, *self) == store.slots@
        &&& forall|k: int|
            0 <= k < self.update@.len() ==> 1 <= #[trigger] self.update@[k].target_id
                <= store.slots@.len()
        &&& forall|k: int|
            0 <= k < self.delete@.len() ==> 1 <= #[trigger] self.delete@[k].item_id
                <= store.slots@.len()
    }

    /// An empty batch of version `0` over `store`.
    pub fn new(store: &MirrorStore) -> (r: Patch)
        ensures
            r.id == 0,
            r.base@ == store.slots@,
            r.append@.len() == 0 && r.update@.len() == 0 && r.delete@.len() == 0,
            r.tracks(store),
    {
        Patch {
            id: 0,
            delete: Vec::new(),
            append: Vec::new(),
            update: Vec::new(),
            base: Ghost(store.slots@),
        }
    }

    /// Called by the consumer once it has taken the batch: the version moves
    /// on and the three lists are emptied. The store as it stands becomes the
    /// base of the next batch.
    pub fn was_consumed(&mut self)
        requires
            old(self).id < u64::MAX,
        ensures
            final(self).id == old(self).id + 1,
            final(self).append@.len() == 0,
            final(self).update@.len() == 0,
            final(self).delete@.len() == 0,
            final(self).base@ == replay(old(self).base@, *old(self)),
            forall|store: MirrorStore| #[trigger] old(self).tracks(&store) ==> final(self).tracks(&store),
    {
        let ghost now = replay(self.base@, *self);
        self.id = self.id + 1;
        self.delete.clear();
        self.append.clear();
        self.update.clear();
        self.base = Ghost(now);
    }

    /// Hands the batch to its consumer and starts the next one: the returned
    /// batch holds the edits, the version and the base; this changelog goes
    /// on with the next version, no edit, and the store as it stands as its
    /// base.
    pub fn consume(&mut self) -> (r: Patch)
        requires
            old(self).id < u64::MAX,
        ensures
            r.id == old(self).id,
            r.append@ == old(self).append@,
            r.update@ == old(self).update@,
            r.delete@ == old(self).delete@,
            r.base == old(self).base,
            final(self).id == old(self).id + 1,
            final(self).append@.len() == 0,
            final(self).update@.len() == 0,
            final(self).delete@.len() == 0,
            final(self).base@ == replay(old(self).base@, *old(self)),
            forall|store: MirrorStore| #[trigger] old(self).tracks(&store) ==> final(self).tracks(&store),
    {
        let ghost now = replay(self.base@, *self);
        let mut delete: Vec<Delete> = Vec::new();
        let mut append: Vec<Append> = Vec::new();
        let mut update: Vec<Update> = Vec::new();
        core::mem::swap(&mut delete, &mut self.delete);
        core::mem::swap(&mut append, &mut self.append);
        core::mem::swap(&mut update, &mut self.update);
        let batch = Patch { id: self.id, delete, append, update, base: self.base };
        self.id = self.id + 1;
        self.base = Ghost(now);
        batch
    }

    /// Whether the batch holds no edit.
    pub fn is_empty(&self) -> (r: bool)
        ensures
            r == (self.delete@.len() == 0 && self.append@.len() == 0 && self.update@.len() == 0),
    {
        self.delete.is_empty() && self.append.is_empty() && self.update.is_empty()
    }
}

/// What `changes` makes of `item`.
fn apply_changes(item: &AppendItem, changes: &Changes) -> (r: AppendItem)
    ensures
        r == changed(*item, *changes),
{
    match (item, changes) {
        (AppendItem::Crate { id, name }, Changes::Crate { name: n }) => AppendItem::Crate {
            id: *id,
            name: match n {
                Some(x) => x.clone(),
                None => name.clone(),
            },
        },
        (AppendItem::Module { id, name, location }, Changes::Module { name: n, location: l }) => {
            AppendItem::Module {
                id: *id,
                name: match n {
                    Some(x) => x.clone(),
                    None => name.clone(),
                },
                location: match l {
                    Some(x) => *x,
                    None => *location,
                },
            }
        },
        _ => item.copy(),
    }
}

/// The node a mutator works on: the session root, or a node of the store of
/// the named kind.
#[derive(PartialEq, Eq, Structural, Debug, Clone, Copy)]
pub enum RefNode {
    Session,
    Crate(usize),
    Module(usize),
    MacroCall(usize),
}

impl RefNode {
    /// The target is the session root or a node of the store of its kind.
    pub open spec fn valid(self, slots: Seq<Slot>) -> bool {
        match self {
            RefNode::Session => true,
            RefNode::Crate(h) => h < slots.len() && slots[h as int].item is Crate,
            RefNode::Module(h) => h < slots.len() && slots[h as int].item is Module,
            RefNode::MacroCall(h) => h < slots.len() && slots[h as int].item is MacroCall,
        }
    }

    /// Whether the target takes `item` as a child: the session takes
    /// crates, a crate takes modules, modules and macro calls take anything
    /// but crates.
    pub open spec fn takes(self, item: AppendItem) -> bool {
        match self {
            RefNode::Session => item is Crate,
            RefNode::Crate(_) => item is Module,
            _ => !(item is Crate),
        }
    }

    /// Whether `changes` is of the target's kind.
    pub open spec fn takes_changes(self, changes: Changes) -> bool {
        match self {
            RefNode::Crate(_) => changes is Crate,
            RefNode::Module(_) => changes is Module,
            RefNode::MacroCall(_) => changes is MacroCall,
            RefNode::Session => false,
        }
    }

    pub open spec fn spec_link(self) -> Link {
        match self {
            RefNode::Session => Link::Root,
            RefNode::Crate(h) | RefNode::Module(h) | RefNode::MacroCall(h) => Link::Under(h),
        }
    }

    pub open spec fn spec_id(self) -> Id {
        match self {
            RefNode::Session => 0,
            RefNode::Crate(h) | RefNode::Module(h) | RefNode::MacroCall(h) => id_of_handle(h as int),
        }
    }

    /// The identifier of the target: `0` for the session root.
    pub fn id(self) -> (r: Id)
        ensures
            r == self.spec_id(),
    {
        match self {
            RefNode::Session => 0,
            RefNode::Crate(h) | RefNode::Module(h) | RefNode::MacroCall(h) => h as u128 + 1,
        }
    }
}

/// The only writer of the store: every edit it makes is recorded in the
/// changelog.
#[derive(Debug, Clone, Copy)]
pub struct ItemMutator {
    pub target: RefNode,
}

impl ItemMutator {
    pub fn new(target: RefNode) -> (r: ItemMutator)
        ensures
            r.target == target,
    {
        ItemMutator { target }
    }

    /// Appends `item` under the target and records it. The item must be of
    /// a kind the target takes and carry the store's next identifier.
    pub fn append(&self, store: &mut MirrorStore, patch: &mut Patch, item: AppendItem)
        requires
            old(store).wf(),
            old(patch).tracks(old(store)),
            self.target.valid(old(store).slots@),
            self.target.takes(item),
            item.spec_id() == id_of_handle(old(store).slots@.len() as int),
        ensures
            final(store).wf(),
            final(store).slots@ == old(store).slots@.push(
                Slot { link: self.target.spec_link(), item },
            ),
            final(patch).append@ == old(patch).append@.push(
                Append { target_id: self.target.spec_id(), item },
            ),
            final(patch).update@ == old(patch).update@,
            final(patch).delete@ == old(patch).delete@,
            final(patch).id == old(patch).id,
            final(patch).base == old(patch).base,
            final(patch).tracks(final(store)),
            records_appends(old(patch).append@, final(patch).append@, old(store).slots@.len() as int, final(store).slots@),
    {
        let target_id = self.target.id();
        let slot = Slot { link: self.link(), item: item.copy() };
        let ghost s0 = store.slots@;
        proof {
            let a = Append { target_id: self.target.spec_id(), item };
            let pre = fold_appends(patch.base@, patch.append@);
            let mid = fold_updates(pre, patch.update@);
            lemma_fold_updates_len(pre, patch.update@);
            lemma_fold_deletes_len(mid, patch.delete@);
            lemma_updates_push(pre, patch.update@, slot);
            lemma_deletes_push(mid, patch.delete@, slot);
            assert(patch.append@.push(a).drop_last() =~= patch.append@);
            assert(link_for(a.target_id) == slot.link);
        }
        store.slots.push(slot);
        patch.append.push(Append { target_id, item });
        proof {
            assert(patch.append@.subrange(0, old(patch).append@.len() as int) =~= old(patch).append@);
            assert(link_target(self.target.spec_link()) == self.target.spec_id());
            let s = store.slots@;
            assert forall|h: int| 0 <= h < s.len() implies #[trigger] s[h].item.spec_id() == id_of_handle(h) by {
                if h < s0.len() {
                    assert(s[h] == s0[h]);
                }
            }
            assert forall|h: int| 0 <= h < s.len() implies match #[trigger] s[h].link {
                Link::Root => s[h].item is Crate,
                Link::Under(p) => p < h && accepts(s[p as int].item, s[h].item),
                Link::Detached => true,
            } by {
                if h < s0.len() {
                    assert(s[h] == s0[h]);
                    match s0[h].link {
                        Link::Under(p) => assert(s[p as int] == s0[p as int]),
                        _ => {},
                    }
                } else {
                    match self.target {
                        RefNode::Crate(p) | RefNode::Module(p) | RefNode::MacroCall(p) => {
                            assert(s[p as int] == s0[p as int]);
                        },
                        RefNode::Session => {},
                    }
                }
            }
        }
    }

    /// Removes the child `item_id` of the target and records it. The child
    /// stays in the arena, detached, so that handles remain stable.
    pub fn delete(&self, store: &mut MirrorStore, patch: &mut Patch, item_id: Id)
        requires
            old(store).wf(),
            old(patch).tracks(old(store)),
            self.target.valid(old(store).slots@),
            1 <= item_id,
            item_id - 1 < old(store).slots@.len(),
            old(store).slots@[item_id - 1].link == self.target.spec_link(),
        ensures
            final(store).wf(),
            final(store).slots@ == old(store).slots@.update(
                item_id - 1,
                Slot { link: Link::Detached, item: old(store).slots@[item_id - 1].item },
            ),
            final(patch).delete@ == old(patch).delete@.push(
                Delete { target_id: self.target.spec_id(), item_id },
            ),
            final(patch).append@ == old(patch).append@,
            final(patch).update@ == old(patch).update@,
            final(patch).id == old(patch).id,
            final(patch).base == old(patch).base,
            final(patch).tracks(final(store)),
    {
        let target_id = self.target.id();
        let len = store.slots.len();
        assert(item_id - 1 < len);
        let h = (item_id - 1) as usize;
        assert(h == item_id - 1);
        let item = store.slots[h].item.copy();
        let ghost s0 = store.slots@;
        store.slots.set(h, Slot { link: Link::Detached, item });
        patch.delete.push(Delete { target_id, item_id });
        proof {
            let d = Delete { target_id, item_id };
            assert(patch.delete@.drop_last() =~= old(patch).delete@);
            let s = store.slots@;
            assert forall|k: int| 0 <= k < s.len() implies #[trigger] s[k].item.spec_id() == id_of_handle(k) by {
                assert(s[k].item == s0[k].item);
            }
            assert forall|k: int| 0 <= k < s.len() implies match #[trigger] s[k].link {
                Link::Root => s[k].item is Crate,
                Link::Under(p) => p < k && accepts(s[p as int].item, s[k].item),
                Link::Detached => true,
            } by {
                if k != h {
                    assert(s[k] == s0[k]);
                    match s0[k].link {
                        Link::Under(p) => assert(s[p as int].item == s0[p as int].item),
                        _ => {},
                    }
                }
            }
        }
    }

    /// Changes the fields of the target and records it. The change must be
    /// of the target's kind.
    pub fn update(&self, store: &mut MirrorStore, patch: &mut Patch, changes: Changes)
        requires
            old(store).wf(),
            old(patch).tracks(old(store)),
            self.target.valid(old(store).slots@),
            self.target.takes_changes(changes),
        ensures
            final(store).wf(),
            final(store).slots@ == apply_update(
                old(store).slots@,
                Update { target_id: self.target.spec_id(), changes },
            ),
            final(patch).update@ == old(patch).update@.push(
                Update { target_id: self.target.spec_id(), changes },
            ),
            final(patch).append@ == old(patch).append@,
            final(patch).delete@ == old(patch).delete@,
            final(patch).id == old(patch).id,
            final(patch).base == old(patch).base,
            final(patch).tracks(final(store)),
    {
        let target_id = self.target.id();
        let h: usize = match self.target {
            RefNode::Crate(h) | RefNode::Module(h) | RefNode::MacroCall(h) => h,
            RefNode::Session => 0,
        };
        let item = apply_changes(&store.slots[h].item, &changes);
        let link = store.slots[h].link;
        let ghost s0 = store.slots@;
        proof {
            let u = Update { target_id, changes };
            let pre = fold_appends(patch.base@, patch.append@);
            let mid = fold_updates(pre, patch.update@);
            lemma_deletes_update(mid, patch.delete@, u);
            assert(patch.update@.push(u).drop_last() =~= patch.update@);
        }
        store.slots.set(h, Slot { link, item });
        patch.update.push(Update { target_id, changes });
        proof {
            lemma_changed_keeps_kind(s0[h as int].item, changes);
            let s = store.slots@;
            assert forall|k: int| 0 <= k < s.len() implies #[trigger] s[k].item.spec_id() == id_of_handle(k) by {
                if k != h {
                    assert(s[k] == s0[k]);
                }
            }
            assert forall|k: int| 0 <= k < s.len() implies match #[trigger] s[k].link {
                Link::Root => s[k].item is Crate,
                Link::Under(p) => p < k && accepts(s[p as int].item, s[k].item),
                Link::Detached => true,
            } by {
                if k != h {
                    assert(s[k] == s0[k]);
                    match s0[k].link {
                        Link::Under(p) => {
                            if p != h {
                                assert(s[p as int] == s0[p as int]);
                            }
                        },
                        _ => {},
                    }
                }
            }
            assert(s =~= apply_update(s0, Update { target_id, changes }));
        }
    }

    fn link(&self) -> (r: Link)
        ensures
            r == self.target.spec_link(),
    {
        match self.target {
            RefNode::Session => Link::Root,
            RefNode::Crate(h) | RefNode::Module(h) | RefNode::MacroCall(h) => Link::Under(h),
        }
    }
}

} // verus!

verus! {

/// One update applied to a store, as replay does it.
fn replay_update(slots: &mut Vec<Slot>, u: &Update)
    ensures
        final(slots)@ == apply_update(old(slots)@, *u),
{
    let len = slots.len();
    if u.target_id >= 1 && u.target_id - 1 < len as u128 {
        let h = (u.target_id - 1) as usize;
        let item = apply_changes(&slots[h].item, &u.changes);
        let link = slots[h].link;
        slots.set(h, Slot { link, item });
    }
}

/// One deletion applied to a store, as replay does it.
fn replay_delete(slots: &mut Vec<Slot>, d: &Delete)
    ensures
        final(slots)@ == apply_delete(old(slots)@, *d),
{
    let len = slots.len();
    if d.item_id >= 1 && d.item_id - 1 < len as u128 {
        let h = (d.item_id - 1) as usize;
        let item = slots[h].item.copy();
        slots.set(h, Slot { link: Link::Detached, item });
    }
}

impl MirrorStore {
    /// Replays a consumed batch over this store: its appends in order, then
    /// its updates, then its deletions.
    pub fn apply_patch(&mut self, patch: &Patch)
        ensures
            final(self).slots@ == replay(old(self).slots@, *patch),
    {
        let ghost s0 = self.slots@;
        let mut i: usize = 0;
        while i < patch.append.len()
            invariant
                i <= patch.append@.len(),
                self.slots@ == fold_appends(s0, patch.append@.subrange(0, i as int)),
            decreases patch.append@.len() - i,
        {
            let a = &patch.append[i];
            let link = if a.target_id == 0 {
                Link::Root
            } else {
                Link::Under((a.target_id - 1) as usize)
            };
            self.slots.push(Slot { link, item: a.item.copy() });
            proof {
                assert(patch.append@.subrange(0, i + 1).drop_last() =~= patch.append@.subrange(
                    0,
                    i as int,
                ));
            }
            i = i + 1;
        }
        assert(patch.append@.subrange(0, patch.append@.len() as int) =~= patch.append@);
        let ghost s1 = self.slots@;
        let mut i: usize = 0;
        while i < patch.update.len()
            invariant
                i <= patch.update@.len(),
                self.slots@ == fold_updates(s1, patch.update@.subrange(0, i as int)),
            decreases patch.update@.len() - i,
        {
            replay_update(&mut self.slots, &patch.update[i]);
            proof {
                assert(patch.update@.subrange(0, i + 1).drop_last() =~= patch.update@.subrange(
                    0,
                    i as int,
                ));
            }
            i = i + 1;
        }
        assert(patch.update@.subrange(0, patch.update@.len() as int) =~= patch.update@);
        let ghost s2 = self.slots@;
        let mut i: usize = 0;
        while i < patch.delete.len()
            invariant
                i <= patch.delete@.len(),
                self.slots@ == fold_deletes(s2, patch.delete@.subrange(0, i as int)),
            decreases patch.delete@.len() - i,
        {
            replay_delete(&mut self.slots, &patch.delete[i]);
            proof {
                assert(patch.delete@.subrange(0, i + 1).drop_last() =~= patch.delete@.subrange(
                    0,
                    i as int,
                ));
            }
            i = i + 1;
        }
        assert(patch.delete@.subrange(0, patch.delete@.len() as int) =~= patch.delete@);
    }
}

/// Changelog fidelity: a batch that tracks a store, replayed over a copy of
/// the store it started from, gives that store exactly. Every mutation of
/// the library keeps its batch tracking the store, and `apply_patch` does
/// this replay.
pub proof fn lemma_changelog_fidelity(pre: MirrorStore, batch: Patch, post: MirrorStore)
    requires
        batch.base@ == pre.slots@,
        batch.tracks(&post),
    ensures
        replay(pre.slots@, batch) == post.slots@,
{
}

} // verus!
