use vstd::prelude::*;

use crate::model::{
    has_parent, is_attached, head_of, inserted_brother, inserted_child, next_link, parent_of, placed, removed, rooted,
    shift_counts, shifted, slot, stamp, stamp_budget, strip, walk_back, walk_forward, with_next,
    with_prev, downs_after_unlink, bridge, null_key, WALK_LIMIT,
};
use crate::records::{Down, InsertType, Layer, TreeKey, Up, NULL_DEPTH};
use crate::storage::{Storage, StorageMut};

verus! {

/// The structure engine over a storage `S`.
pub struct Tree<S> {
    storage: S,
}

impl<S> Tree<S> {
    /// The storage that holds the records.
    pub closed spec fn spec_storage(&self) -> S {
        self.storage
    }

    /// An engine over `storage`, whose records it leaves as they are.
    pub fn new(storage: S) -> (r: Tree<S>)
        ensures
            r.spec_storage() == storage,
    {
        Tree { storage }
    }

    pub fn get_storage(&self) -> (r: &S)
        ensures
            *r == self.spec_storage(),
    {
        &self.storage
    }
}

/// A tree reads as its storage.
impl<S> std::ops::Deref for Tree<S> {
    type Target = S;

    fn deref(&self) -> &S {
        &self.storage
    }
}

/// The records of the storage, as maps keyed by handle.
impl<S: Storage> Tree<S> {
    pub open spec fn ups(&self) -> Map<TreeKey, Up> {
        self.spec_storage().ups()
    }

    pub open spec fn downs(&self) -> Map<TreeKey, Down> {
        self.spec_storage().downs()
    }

    pub open spec fn layers(&self) -> Map<TreeKey, Layer> {
        self.spec_storage().layers()
    }

    pub open spec fn roots(&self) -> Set<TreeKey> {
        self.spec_storage().roots()
    }
}

impl<S: Storage> Tree<S> {
    /// The direct children, from `node_children_head` along the `next` links.
    pub fn iter(&self, node_children_head: TreeKey) -> (r: ChildrenIterator<'_, S>)
        ensures
            r.spec_head() == node_children_head,
            r.spec_inner() == self.spec_storage(),
    {
        ChildrenIterator::new(&self.storage, node_children_head)
    }

    /// Every node of the subtree that starts at `node_children_head` (with the
    /// siblings after it), each before its descendants.
    pub fn recursive_iter(&self, node_children_head: TreeKey) -> (r: RecursiveIterator<'_, S>)
        ensures
            r.spec_inner() == self.spec_storage(),
            r.spec_stack() == (if node_children_head.spec_is_null() {
                Seq::<TreeKey>::empty()
            } else {
                seq![node_children_head]
            }),
    {
        let len: usize = if node_children_head.is_null() {
            0
        } else {
            1
        };
        RecursiveIterator::new(&self.storage, node_children_head, len)
    }
}

/// Walks a sibling chain along the `next` links.
pub struct ChildrenIterator<'a, S> {
    inner: &'a S,
    head: TreeKey,
}

impl<'a, S: Storage> ChildrenIterator<'a, S> {
    /// The node that `next` hands out next; null when the walk is over.
    pub closed spec fn spec_head(&self) -> TreeKey {
        self.head
    }

    pub closed spec fn spec_inner(&self) -> S {
        *self.inner
    }

    pub fn new(s: &'a S, head: TreeKey) -> (r: ChildrenIterator<'a, S>)
        ensures
            r.spec_head() == head,
            r.spec_inner() == *s,
    {
        ChildrenIterator { inner: s, head }
    }

    /// The current node, moving on to its next sibling (or to null where it has
    /// no `Up`); `None` once the walk reached null.
    pub fn next(&mut self) -> (r: Option<TreeKey>)
        ensures
            final(self).spec_inner() == old(self).spec_inner(),
            old(self).spec_head().spec_is_null() ==> r is None && final(self).spec_head() == old(
                self,
            ).spec_head(),
            !old(self).spec_head().spec_is_null() ==> r == Some(old(self).spec_head())
                && final(self).spec_head() == next_link(old(self).spec_inner().ups(), old(self).spec_head()),
    {
        if self.head.is_null() {
            return None;
        }
        let r = self.head;
        self.head = match self.inner.get_up(r) {
            Some(up) => up.next,
            None => TreeKey::null(),
        };
        Some(r)
    }
}

/// Walks a subtree in pre-order with a stack of pending branches: the top of the
/// stack is handed out next.
pub struct RecursiveIterator<'a, S> {
    inner: &'a S,
    arr: Vec<TreeKey>,
}

impl<'a, S: Storage> RecursiveIterator<'a, S> {
    /// The pending branches; the last one is handed out next.
    pub closed spec fn spec_stack(&self) -> Seq<TreeKey> {
        self.arr@
    }

    pub closed spec fn spec_inner(&self) -> S {
        *self.inner
    }

    /// A walk that starts at `head` where `len` is non-zero, and is over at once
    /// where it is zero.
    pub fn new(s: &'a S, head: TreeKey, len: usize) -> (r: RecursiveIterator<'a, S>)
        ensures
            r.spec_inner() == *s,
            r.spec_stack() == (if len == 0 {
                Seq::<TreeKey>::empty()
            } else {
                seq![head]
            }),
    {
        let mut arr: Vec<TreeKey> = Vec::new();
        if len != 0 {
            arr.push(head);
        }
        RecursiveIterator { inner: s, arr }
    }

    /// The branch on top of the stack; its next sibling and then its first child
    /// (each where non-null) take its place, so the child comes out right after it
    /// and before the sibling. `None` once the stack is empty.
    pub fn next(&mut self) -> (r: Option<TreeKey>)
        ensures
            final(self).spec_inner() == old(self).spec_inner(),
            old(self).spec_stack().len() == 0 ==> r is None && final(self).spec_stack() == old(
                self,
            ).spec_stack(),
            old(self).spec_stack().len() > 0 ==> ({
                let st = old(self).spec_stack();
                let h = st.last();
                let ups = old(self).spec_inner().ups();
                let downs = old(self).spec_inner().downs();
                let s1 = if next_link(ups, h).spec_is_null() {
                    st.drop_last()
                } else {
                    st.drop_last().push(next_link(ups, h))
                };
                &&& r == Some(h)
                &&& final(self).spec_stack() == (if head_of(downs, h).spec_is_null() {
                    s1
                } else {
                    s1.push(head_of(downs, h))
                })
            }),
    {
        let head = match self.arr.pop() {
            Some(h) => h,
            None => {
                return None;
            },
        };
        let next = match self.inner.get_up(head) {
            Some(up) => up.next,
            None => TreeKey::null(),
        };
        if !next.is_null() {
            self.arr.push(next);
        }
        let child = match self.inner.get_down(head) {
            Some(down) => down.head,
            None => TreeKey::null(),
        };
        if !child.is_null() {
            self.arr.push(child);
        }
        Some(head)
    }
}

impl<S: StorageMut> Tree<S> {
    /// Sets the `next` link of `k` to `n`, where `k` is non-null and has an `Up`.
    fn patch_next(&mut self, k: TreeKey, n: TreeKey)
        ensures
            final(self).roots() == old(self).roots(),
            final(self).ups() == with_next(old(self).ups(), k, n),
            final(self).downs() == old(self).downs(),
            final(self).layers() == old(self).layers(),
    {
        if !k.is_null() {
            let found: Option<Up> = match self.storage.get_up(k) {
                Some(u) => Some(*u),
                None => None,
            };
            if let Some(u) = found {
                self.storage.set_up(k, Up { parent: u.parent, prev: u.prev, next: n });
            }
        }
    }

    /// Sets the `prev` link of `k` to `p`, where `k` is non-null and has an `Up`.
    fn patch_prev(&mut self, k: TreeKey, p: TreeKey)
        ensures
            final(self).roots() == old(self).roots(),
            final(self).ups() == with_prev(old(self).ups(), k, p),
            final(self).downs() == old(self).downs(),
            final(self).layers() == old(self).layers(),
    {
        if !k.is_null() {
            let found: Option<Up> = match self.storage.get_up(k) {
                Some(u) => Some(*u),
                None => None,
            };
            if let Some(u) = found {
                self.storage.set_up(k, Up { parent: u.parent, prev: p, next: u.next });
            }
        }
    }

    fn parent_key(&self, k: TreeKey) -> (r: TreeKey)
        ensures
            r == parent_of(self.ups(), k),
    {
        match self.storage.get_up(k) {
            Some(u) => u.parent,
            None => TreeKey::null(),
        }
    }

    fn head_key(&self, k: TreeKey) -> (r: TreeKey)
        ensures
            r == head_of(self.downs(), k),
    {
        match self.storage.get_down(k) {
            Some(d) => d.head,
            None => TreeKey::null(),
        }
    }

    /// Stamps `Layer { depth, root }` on `id` and its later siblings, and deeper
    /// layers on everything below them.
    fn insert_tree(&mut self, id: TreeKey, depth: usize, root: TreeKey, fuel: usize)
        requires
            fuel == 0 || depth + fuel < usize::MAX,
        ensures
            final(self).roots() == old(self).roots(),
            final(self).ups() == old(self).ups(),
            final(self).downs() == old(self).downs(),
            final(self).layers() == stamp(
                old(self).ups(),
                old(self).downs(),
                old(self).layers(),
                id,
                depth,
                root,
                fuel as nat,
            ),
        decreases fuel,
    {
        let mut cur = id;
        let mut f: usize = fuel;
        while f > 0 && !cur.is_null()
            invariant
                self.roots() == old(self).roots(),
                f <= fuel,
                fuel == 0 || depth + fuel < usize::MAX,
                self.ups() == old(self).ups(),
                self.downs() == old(self).downs(),
                stamp(self.ups(), self.downs(), self.layers(), cur, depth, root, f as nat) == stamp(
                    old(self).ups(),
                    old(self).downs(),
                    old(self).layers(),
                    id,
                    depth,
                    root,
                    fuel as nat,
                ),
            decreases f,
        {
            self.storage.set_layer(cur, Layer { layer: depth, root });
            let head = self.head_key(cur);
            self.insert_tree(head, depth + 1, root, f - 1);
            let up: Option<Up> = match self.storage.get_up(cur) {
                Some(u) => Some(*u),
                None => None,
            };
            match up {
                Some(u) => {
                    cur = u.next;
                    f = f - 1;
                },
                None => {
                    f = 0;
                },
            }
        }
    }

    /// Stamps the subtree that starts at `head` from `depth` down, with the whole
    /// budget that `depth` leaves.
    fn stamp_subtree(&mut self, head: TreeKey, depth: usize, root: TreeKey)
        ensures
            final(self).roots() == old(self).roots(),
            final(self).ups() == old(self).ups(),
            final(self).downs() == old(self).downs(),
            final(self).layers() == stamp(
                old(self).ups(),
                old(self).downs(),
                old(self).layers(),
                head,
                depth,
                root,
                stamp_budget(depth),
            ),
    {
        let fuel: usize = if depth < NULL_DEPTH {
            NULL_DEPTH - 1 - depth
        } else {
            0
        };
        self.insert_tree(head, depth, root, fuel);
    }

    /// Removes the `Layer` of `id`, of its later siblings and of everything below them.
    fn remove_tree(&mut self, id: TreeKey, fuel: usize)
        ensures
            final(self).roots() == old(self).roots(),
            final(self).ups() == old(self).ups(),
            final(self).downs() == old(self).downs(),
            final(self).layers() == strip(
                old(self).ups(),
                old(self).downs(),
                old(self).layers(),
                id,
                fuel as nat,
            ),
        decreases fuel,
    {
        let mut cur = id;
        let mut f: usize = fuel;
        while f > 0 && !cur.is_null()
            invariant
                self.roots() == old(self).roots(),
                f <= fuel,
                self.ups() == old(self).ups(),
                self.downs() == old(self).downs(),
                strip(self.ups(), self.downs(), self.layers(), cur, f as nat) == strip(
                    old(self).ups(),
                    old(self).downs(),
                    old(self).layers(),
                    id,
                    fuel as nat,
                ),
            decreases f,
        {
            self.storage.remove_layer(cur);
            let head = self.head_key(cur);
            self.remove_tree(head, f - 1);
            let up: Option<Up> = match self.storage.get_up(cur) {
                Some(u) => Some(*u),
                None => None,
            };
            match up {
                Some(u) => {
                    cur = u.next;
                    f = f - 1;
                },
                None => {
                    f = 0;
                },
            }
        }
    }

    /// Unlinks `id` from between `prev` and `next` under `parent`, takes `count`
    /// nodes off the parent and its ancestors, and drops the `Layer` and `Up` of `id`.
    fn remove_node(&mut self, id: TreeKey, parent: TreeKey, count: usize, prev: TreeKey, next: TreeKey)
        ensures
            final(self).roots() == old(self).roots(),
            final(self).ups() == bridge(old(self).ups(), prev, next).remove(id),
            final(self).downs() == downs_after_unlink(
                old(self).ups(),
                old(self).downs(),
                parent,
                count,
                prev,
                next,
            ),
            final(self).layers() == old(self).layers().remove(id),
    {
        self.patch_next(prev, next);
        self.patch_prev(next, prev);
        let found: Option<Down> = match self.storage.get_down(parent) {
            Some(d) => Some(*d),
            None => None,
        };
        if let Some(d) = found {
            let head = if prev.is_null() {
                next
            } else {
                d.head
            };
            let tail = if next.is_null() {
                prev
            } else {
                d.tail
            };
            self.storage.set_down(
                parent,
                Down { head, tail, len: d.len.saturating_sub(1), count: d.count.saturating_sub(count) },
            );
        }
        let p_p = self.parent_key(parent);
        self.modify_count(p_p, count, false);
        self.storage.remove_layer(id);
        self.storage.remove_up(id);
    }

    /// Places `id` between `prev` and `next` under `parent`: a move where `id` is
    /// already a child, an attach otherwise.
    fn insert_node(&mut self, id: TreeKey, parent: TreeKey, layer: Layer, prev: TreeKey, next: TreeKey)
        requires
            id != parent,
            has_parent(old(self).ups(), id) ==> old(self).ups()[id].parent == parent,
        ensures
            final(self).roots() == old(self).roots(),
            placed(
                old(self).ups(),
                old(self).downs(),
                old(self).layers(),
                final(self).ups(),
                final(self).downs(),
                final(self).layers(),
                id,
                parent,
                layer,
                prev,
                next,
            ),
    {
        let up: Option<Up> = match self.storage.get_up(id) {
            Some(u) => Some(*u),
            None => None,
        };
        match up {
            Some(u) if !u.parent.is_null() => {
                let fix_prev = u.prev;
                let fix_next = u.next;
                if prev == id || next == id || (prev == fix_prev && next == fix_next) {
                    return ;
                }
                self.storage.set_up(id, Up { parent, prev, next });
                self.patch_next(prev, id);
                self.patch_prev(next, id);
                self.patch_next(fix_prev, fix_next);
                self.patch_prev(fix_next, fix_prev);
                let found: Option<Down> = match self.storage.get_down(parent) {
                    Some(d) => Some(*d),
                    None => None,
                };
                if let Some(d) = found {
                    let head = if prev.is_null() {
                        id
                    } else if fix_prev.is_null() {
                        fix_next
                    } else {
                        d.head
                    };
                    let tail = if next.is_null() {
                        id
                    } else if fix_next.is_null() {
                        fix_prev
                    } else {
                        d.tail
                    };
                    self.storage.set_down(parent, Down { head, tail, len: d.len, count: d.count });
                }
            },
            _ => {
                let (count, child_head): (usize, TreeKey) = match self.storage.get_down(id) {
                    Some(d) => (d.count.saturating_add(1), d.head),
                    None => (1, TreeKey::null()),
                };
                let attached = layer.layer != NULL_DEPTH;
                if attached {
                    self.storage.set_layer(id, layer);
                }
                self.storage.set_up(id, Up { parent, prev, next });
                self.patch_next(prev, id);
                self.patch_prev(next, id);
                let d: Down = match self.storage.get_down(parent) {
                    Some(d) => *d,
                    None => Down { head: TreeKey::null(), tail: TreeKey::null(), len: 0, count: 0 },
                };
                let head = if prev.is_null() {
                    id
                } else {
                    d.head
                };
                let tail = if next.is_null() {
                    id
                } else {
                    d.tail
                };
                self.storage.set_down(
                    parent,
                    Down { head, tail, len: d.len.saturating_add(1), count: d.count.saturating_add(count) },
                );
                let p_p = self.parent_key(parent);
                self.modify_count(p_p, count, true);
                if attached {
                    self.stamp_subtree(child_head, layer.layer + 1, layer.root);
                    // stamped again last: `id` is the point where the subtree joined
                    self.storage.set_layer(id, layer);
                }
            },
        }
    }

    /// Makes `id` a root, unless it has a parent, in which case nothing changes.
    fn insert_as_root(&mut self, id: TreeKey)
        ensures
            final(self).roots() == (if has_parent(old(self).ups(), id) {
                old(self).roots()
            } else {
                old(self).roots().insert(id)
            }),
            rooted(
                old(self).ups(),
                old(self).downs(),
                old(self).layers(),
                final(self).ups(),
                final(self).downs(),
                final(self).layers(),
                id,
            ),
    {
        let has_parent: bool = match self.storage.get_up(id) {
            Some(u) => !u.parent.is_null(),
            None => false,
        };
        if has_parent {
            return ;
        }
        self.storage.set_root(id);
        let top = Layer { layer: 1, root: id };
        self.storage.set_layer(id, top);
        let head: TreeKey = match self.storage.get_down(id) {
            Some(d) => d.head,
            None => {
                self.storage.set_down(
                    id,
                    Down { head: TreeKey::null(), tail: TreeKey::null(), len: 0, count: 0 },
                );
                TreeKey::null()
            },
        };
        self.stamp_subtree(head, 2, id);
        // stamped again last: `id` heads the tree
        self.storage.set_layer(id, top);
    }

    /// Adds `amount` (or takes it away, where `grow` is false) to the count of
    /// `start` and of every ancestor above it.
    fn modify_count(&mut self, start: TreeKey, amount: usize, grow: bool)
        ensures
            final(self).roots() == old(self).roots(),
            final(self).ups() == old(self).ups(),
            final(self).layers() == old(self).layers(),
            final(self).downs() == shift_counts(
                old(self).ups(),
                old(self).downs(),
                start,
                if grow { amount as int } else { -amount },
                WALK_LIMIT as nat,
            ),
    {
        let ghost delta: int = if grow { amount as int } else { -amount };
        let mut id = start;
        let mut fuel: usize = WALK_LIMIT;
        while fuel > 0 && !id.is_null()
            invariant
                self.roots() == old(self).roots(),
                delta == (if grow { amount as int } else { -amount }),
                self.ups() == old(self).ups(),
                self.layers() == old(self).layers(),
                shift_counts(self.ups(), self.downs(), id, delta, fuel as nat) == shift_counts(
                    old(self).ups(),
                    old(self).downs(),
                    start,
                    delta,
                    WALK_LIMIT as nat,
                ),
            decreases fuel,
        {
            let ghost d0 = self.downs();
            let ghost id0 = id;
            let ghost f0 = fuel as nat;
            let found: Option<Down> = match self.storage.get_down(id) {
                Some(d) => Some(*d),
                None => None,
            };
            if let Some(d) = found {
                let count = if grow {
                    d.count.saturating_add(amount)
                } else {
                    d.count.saturating_sub(amount)
                };
                assert(count == shifted(d.count, delta));
                self.storage.set_down(id, Down { head: d.head, tail: d.tail, len: d.len, count });
            }
            assert(self.downs() == (if d0.contains_key(id0) {
                d0.insert(
                    id0,
                    Down {
                        head: d0[id0].head,
                        tail: d0[id0].tail,
                        len: d0[id0].len,
                        count: shifted(d0[id0].count, delta),
                    },
                )
            } else {
                d0
            }));
            let up: Option<Up> = match self.storage.get_up(id) {
                Some(u) => Some(*u),
                None => None,
            };
            match up {
                Some(u) => {
                    id = u.parent;
                    fuel = fuel - 1;
                },
                None => {
                    fuel = 0;
                },
            }
        }
    }

    /// Places `id` as child number `order` (from 0) of `parent`, or after the last
    /// child where `order` is at least the number of children. A null `parent`
    /// makes `id` a root. Where `id` is already a child of `parent` it moves.
    pub fn insert_child(&mut self, id: TreeKey, parent: TreeKey, order: usize)
        requires
            id != parent,
            has_parent(old(self).ups(), id) && !parent.spec_is_null() ==> old(self).ups()[id].parent
                == parent,
        ensures
            final(self).roots() == (if parent.spec_is_null() && !has_parent(old(self).ups(), id) {
                old(self).roots().insert(id)
            } else {
                old(self).roots()
            }),
            inserted_child(
                old(self).ups(),
                old(self).downs(),
                old(self).layers(),
                final(self).ups(),
                final(self).downs(),
                final(self).layers(),
                id,
                parent,
                order,
            ),
    {
        if parent.is_null() {
            self.insert_as_root(id);
            return ;
        }
        let p_down: Down = match self.storage.get_down(parent) {
            Some(d) => *d,
            None => Down { head: TreeKey::null(), tail: TreeKey::null(), len: 0, count: 0 },
        };
        let layer: Layer = match self.storage.get_layer(parent) {
            Some(l) => Layer {
                layer: if l.layer == NULL_DEPTH {
                    NULL_DEPTH
                } else {
                    l.layer + 1
                },
                root: l.root,
            },
            None => Layer { layer: NULL_DEPTH, root: TreeKey::null() },
        };
        let (prev, next) = self.find_slot(&p_down, order);
        self.insert_node(id, parent, layer, prev, next);
    }

    /// The gap before child number `order` of a parent whose `Down` is `d`.
    fn find_slot(&self, d: &Down, order: usize) -> (r: (TreeKey, TreeKey))
        ensures
            r == slot(self.ups(), *d, order),
    {
        if order >= d.len {
            return (d.tail, TreeKey::null());
        }
        if order >= d.len - order {
            // nearer the back: walk from the last child towards the front
            let mut prev = d.tail;
            let mut next = TreeKey::null();
            let mut n: usize = d.len - order;
            while n > 0 && !prev.is_null()
                invariant
                    walk_back(self.ups(), prev, next, n as nat) == walk_back(
                        self.ups(),
                        d.tail,
                        null_key(),
                        (d.len - order) as nat,
                    ),
                decreases n,
            {
                n = n - 1;
                next = prev;
                prev = match self.storage.get_up(next) {
                    Some(u) => u.prev,
                    None => TreeKey::null(),
                };
            }
            (prev, next)
        } else {
            // nearer the front: walk from the first child towards the back
            let mut prev = TreeKey::null();
            let mut next = d.head;
            let mut n: usize = order;
            while n > 0 && !next.is_null()
                invariant
                    walk_forward(self.ups(), prev, next, n as nat) == walk_forward(
                        self.ups(),
                        null_key(),
                        d.head,
                        order as nat,
                    ),
                decreases n,
            {
                n = n - 1;
                prev = next;
                next = match self.storage.get_up(prev) {
                    Some(u) => u.next,
                    None => TreeKey::null(),
                };
            }
            (prev, next)
        }
    }

    /// Places `id` right before (`Front`) or right after (`Back`) `brother`, under
    /// the parent of `brother` and with its layer; where `brother` has no parent,
    /// `id` is made a root instead.
    pub fn insert_brother(&mut self, id: TreeKey, brother: TreeKey, insert: InsertType)
        requires
            old(self).ups().contains_key(brother),
            id != old(self).ups()[brother].parent,
            has_parent(old(self).ups(), id) && !old(self).ups()[brother].parent.spec_is_null()
                ==> old(self).ups()[id].parent == old(self).ups()[brother].parent,
        ensures
            final(self).roots() == (if old(self).ups()[brother].parent.spec_is_null() && !has_parent(
                old(self).ups(),
                id,
            ) {
                old(self).roots().insert(id)
            } else {
                old(self).roots()
            }),
            inserted_brother(
                old(self).ups(),
                old(self).downs(),
                old(self).layers(),
                final(self).ups(),
                final(self).downs(),
                final(self).layers(),
                id,
                brother,
                insert,
            ),
    {
        let b: Up = *self.storage.up(brother);
        let layer: Layer = match self.storage.get_layer(brother) {
            Some(l) => *l,
            None => Layer { layer: NULL_DEPTH, root: TreeKey::null() },
        };
        let (prev, next) = match insert {
            InsertType::Front => (b.prev, brother),
            InsertType::Back => (brother, b.next),
        };
        if b.parent.is_null() {
            self.insert_as_root(id);
        } else {
            self.insert_node(id, b.parent, layer, prev, next);
        }
    }

    /// Detaches `id` from its parent; does nothing where `id` has no parent.
    /// Where `id` is attached, the layers of the subtree below it are removed
    /// first (and a depth-1 node is reported as no longer a root). Then `id`
    /// leaves the sibling chain, the parent and its
    /// ancestors lose `id` and its descendants from their counts, and the `Layer`
    /// and `Up` of `id` are dropped. The `Down` of `id` stays, so the subtree below
    /// it stays whole and can be attached again.
    pub fn remove(&mut self, id: TreeKey)
        ensures
            final(self).roots() == (if has_parent(old(self).ups(), id) && is_attached(old(self).layers(), id)
                && old(self).layers()[id].layer == 1 {
                old(self).roots().remove(id)
            } else {
                old(self).roots()
            }),
            removed(
                old(self).ups(),
                old(self).downs(),
                old(self).layers(),
                final(self).ups(),
                final(self).downs(),
                final(self).layers(),
                id,
            ),
    {
        let up: Up = match self.storage.get_up(id) {
            Some(u) => *u,
            None => {
                return ;
            },
        };
        if up.parent.is_null() {
            return ;
        }
        let layer: Option<Layer> = match self.storage.get_layer(id) {
            Some(l) => Some(*l),
            None => None,
        };
        if let Some(l) = layer {
            if l.layer != NULL_DEPTH {
                if l.layer == 1 {
                    self.storage.remove_root(id);
                }
                let head = self.head_key(id);
                self.remove_tree(head, WALK_LIMIT);
            }
        }
        let count: usize = match self.storage.get_down(id) {
            Some(d) => d.count.saturating_add(1),
            None => 1,
        };
        self.remove_node(id, up.parent, count, up.prev, up.next);
    }
}

} // verus!
