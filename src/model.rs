//! The records as mathematical maps, and what each step of the engine does to them.
use vstd::prelude::*;

use crate::records::{Down, InsertType, Layer, TreeKey, Up, NULL_DEPTH, NULL_INDEX};

verus! {

/// The most links any walk of the engine follows. A well-formed structure never
/// needs as many; the bound keeps every walk finite on a corrupted one.
pub const WALK_LIMIT: usize = usize::MAX;

/// The null handle that `TreeKey::null` returns.
pub open spec fn null_key() -> TreeKey {
    TreeKey(NULL_INDEX as u64)
}

/// The record that stands for a missing `Down`: no children, nothing below.
pub open spec fn empty_down() -> Down {
    Down { head: null_key(), tail: null_key(), len: 0, count: 0 }
}

/// `c + delta`, held to the range of `usize`.
pub open spec fn shifted(c: usize, delta: int) -> usize {
    if c + delta < 0 {
        0
    } else if c + delta > usize::MAX {
        usize::MAX
    } else {
        (c + delta) as usize
    }
}

/// `ups` with the `next` link of `k` set to `n`, where `k` is non-null and has an `Up`.
pub open spec fn with_next(ups: Map<TreeKey, Up>, k: TreeKey, n: TreeKey) -> Map<TreeKey, Up> {
    if !k.spec_is_null() && ups.contains_key(k) {
        ups.insert(k, Up { parent: ups[k].parent, prev: ups[k].prev, next: n })
    } else {
        ups
    }
}

/// `ups` with the `prev` link of `k` set to `p`, where `k` is non-null and has an `Up`.
pub open spec fn with_prev(ups: Map<TreeKey, Up>, k: TreeKey, p: TreeKey) -> Map<TreeKey, Up> {
    if !k.spec_is_null() && ups.contains_key(k) {
        ups.insert(k, Up { parent: ups[k].parent, prev: p, next: ups[k].next })
    } else {
        ups
    }
}

/// The parent of `k`, or null where `k` has no `Up`.
pub open spec fn parent_of(ups: Map<TreeKey, Up>, k: TreeKey) -> TreeKey {
    if ups.contains_key(k) {
        ups[k].parent
    } else {
        null_key()
    }
}

/// The counts after adding `delta` to `k` and to each ancestor above it, up to the
/// first node without an `Up`, following at most `fuel` links.
pub open spec fn shift_counts(
    ups: Map<TreeKey, Up>,
    downs: Map<TreeKey, Down>,
    k: TreeKey,
    delta: int,
    fuel: nat,
) -> Map<TreeKey, Down>
    decreases fuel,
{
    if fuel == 0 || k.spec_is_null() {
        downs
    } else {
        let d2 = if downs.contains_key(k) {
            downs.insert(
                k,
                Down {
                    head: downs[k].head,
                    tail: downs[k].tail,
                    len: downs[k].len,
                    count: shifted(downs[k].count, delta),
                },
            )
        } else {
            downs
        };
        if ups.contains_key(k) {
            shift_counts(ups, d2, ups[k].parent, delta, (fuel - 1) as nat)
        } else {
            d2
        }
    }
}

/// The first child of `k`, or null where `k` has no `Down`.
pub open spec fn head_of(downs: Map<TreeKey, Down>, k: TreeKey) -> TreeKey {
    if downs.contains_key(k) {
        downs[k].head
    } else {
        null_key()
    }
}

/// The layers after stamping `Layer { depth, root }` on `id` and on each sibling
/// after it, and one level deeper on every node below them, following at most
/// `fuel` links from any node.
pub open spec fn stamp(
    ups: Map<TreeKey, Up>,
    downs: Map<TreeKey, Down>,
    layers: Map<TreeKey, Layer>,
    id: TreeKey,
    depth: usize,
    root: TreeKey,
    fuel: nat,
) -> Map<TreeKey, Layer>
    decreases fuel,
{
    if fuel == 0 || id.spec_is_null() {
        layers
    } else {
        let l1 = layers.insert(id, Layer { layer: depth, root });
        let l2 = stamp(ups, downs, l1, head_of(downs, id), (depth + 1) as usize, root, (fuel - 1) as nat);
        if ups.contains_key(id) {
            stamp(ups, downs, l2, ups[id].next, depth, root, (fuel - 1) as nat)
        } else {
            l2
        }
    }
}

/// The number of links a stamp from `depth` may follow: every depth it reaches
/// stays below `NULL_DEPTH`.
pub open spec fn stamp_budget(depth: usize) -> nat {
    if depth < NULL_DEPTH {
        (NULL_DEPTH - 1 - depth) as nat
    } else {
        0
    }
}

/// The layers after removing the `Layer` of `id`, of each sibling after it, and of
/// every node below them, following at most `fuel` links from any node.
pub open spec fn strip(
    ups: Map<TreeKey, Up>,
    downs: Map<TreeKey, Down>,
    layers: Map<TreeKey, Layer>,
    id: TreeKey,
    fuel: nat,
) -> Map<TreeKey, Layer>
    decreases fuel,
{
    if fuel == 0 || id.spec_is_null() {
        layers
    } else {
        let l1 = layers.remove(id);
        let l2 = strip(ups, downs, l1, head_of(downs, id), (fuel - 1) as nat);
        if ups.contains_key(id) {
            strip(ups, downs, l2, ups[id].next, (fuel - 1) as nat)
        } else {
            l2
        }
    }
}

/// Whether `id` carries a `Layer` with a non-null depth.
pub open spec fn is_attached(layers: Map<TreeKey, Layer>, id: TreeKey) -> bool {
    layers.contains_key(id) && layers[id].layer != NULL_DEPTH
}

/// Whether `id` carries an `Up` with a non-null parent.
pub open spec fn has_parent(ups: Map<TreeKey, Up>, id: TreeKey) -> bool {
    ups.contains_key(id) && !ups[id].parent.spec_is_null()
}

/// The number of nodes that leave or join a parent with `id`: `id` itself and
/// the count of its `Down`, if any.
pub open spec fn moved_count(downs: Map<TreeKey, Down>, id: TreeKey) -> usize {
    if downs.contains_key(id) {
        shifted(downs[id].count, 1)
    } else {
        1
    }
}

/// The links after joining `prev` and `next` to each other.
pub open spec fn bridge(ups: Map<TreeKey, Up>, prev: TreeKey, next: TreeKey) -> Map<TreeKey, Up> {
    with_prev(with_next(ups, prev, next), next, prev)
}

/// A parent's `Down` after the child between `prev` and `next` left with `c` nodes.
pub open spec fn down_without(d: Down, prev: TreeKey, next: TreeKey, c: usize) -> Down {
    Down {
        head: if prev.spec_is_null() { next } else { d.head },
        tail: if next.spec_is_null() { prev } else { d.tail },
        len: shifted(d.len, -1),
        count: shifted(d.count, -c),
    }
}

/// The `Down` records after a child between `prev` and `next` left `parent` with
/// `c` nodes: the parent's record is patched and its ancestors lose `c`.
pub open spec fn downs_after_unlink(
    ups: Map<TreeKey, Up>,
    downs: Map<TreeKey, Down>,
    parent: TreeKey,
    c: usize,
    prev: TreeKey,
    next: TreeKey,
) -> Map<TreeKey, Down> {
    let u1 = bridge(ups, prev, next);
    let d1 = if downs.contains_key(parent) {
        downs.insert(parent, down_without(downs[parent], prev, next, c))
    } else {
        downs
    };
    shift_counts(u1, d1, parent_of(u1, parent), -c, WALK_LIMIT as nat)
}

/// The layers after `remove(id)` took the layers off the subtree below an attached `id`.
pub open spec fn layers_after_strip(
    ups: Map<TreeKey, Up>,
    downs: Map<TreeKey, Down>,
    layers: Map<TreeKey, Layer>,
    id: TreeKey,
) -> Map<TreeKey, Layer> {
    if is_attached(layers, id) {
        strip(ups, downs, layers, head_of(downs, id), WALK_LIMIT as nat)
    } else {
        layers
    }
}

/// Whether a reposition of `id` to between `prev` and `next` would leave it where it is.
pub open spec fn same_place(ups: Map<TreeKey, Up>, id: TreeKey, prev: TreeKey, next: TreeKey) -> bool {
    prev == id || next == id || (prev == ups[id].prev && next == ups[id].next)
}

/// The links after `id` took its place between `prev` and `next` under `parent`.
pub open spec fn linked_in(
    ups: Map<TreeKey, Up>,
    id: TreeKey,
    parent: TreeKey,
    prev: TreeKey,
    next: TreeKey,
) -> Map<TreeKey, Up> {
    with_prev(with_next(ups.insert(id, Up { parent, prev, next }), prev, id), next, id)
}

/// A parent's `Down` after a child joined between `prev` and `next` with `c` nodes.
pub open spec fn down_with(d: Down, id: TreeKey, prev: TreeKey, next: TreeKey, c: usize) -> Down {
    Down {
        head: if prev.spec_is_null() { id } else { d.head },
        tail: if next.spec_is_null() { id } else { d.tail },
        len: shifted(d.len, 1),
        count: shifted(d.count, c as int),
    }
}

/// A parent's `Down` after its child `id` moved from between `fix_prev` and
/// `fix_next` to between `prev` and `next`.
pub open spec fn down_moved(
    d: Down,
    id: TreeKey,
    prev: TreeKey,
    next: TreeKey,
    fix_prev: TreeKey,
    fix_next: TreeKey,
) -> Down {
    Down {
        head: if prev.spec_is_null() {
            id
        } else if fix_prev.spec_is_null() {
            fix_next
        } else {
            d.head
        },
        tail: if next.spec_is_null() {
            id
        } else if fix_next.spec_is_null() {
            fix_prev
        } else {
            d.tail
        },
        len: d.len,
        count: d.count,
    }
}

/// The stored `Down` of `k`, or `empty_down()`.
pub open spec fn down_or_empty(downs: Map<TreeKey, Down>, k: TreeKey) -> Down {
    if downs.contains_key(k) {
        downs[k]
    } else {
        empty_down()
    }
}

/// Whether the records went from `(ups, downs, layers)` to `(ups2, downs2, layers2)`
/// by placing `id` between `prev` and `next` under the non-null `parent`, with
/// `layer` as the layer of `id` (its depth null where `parent` is not attached).
///
/// Where `id` is already a child (of `parent`), it only moves: its old neighbours
/// are joined, its new ones point at it, and the parent's first and last child
/// follow; counts and layers stay. Otherwise `id` joins: it gets `Up` (and `layer`
/// if non-null), the parent gains a child and `moved_count` nodes, as does every
/// ancestor above it, and, under an attached parent, the subtree below `id` is
/// stamped one level deeper than `id`.
pub open spec fn placed(
    ups: Map<TreeKey, Up>,
    downs: Map<TreeKey, Down>,
    layers: Map<TreeKey, Layer>,
    ups2: Map<TreeKey, Up>,
    downs2: Map<TreeKey, Down>,
    layers2: Map<TreeKey, Layer>,
    id: TreeKey,
    parent: TreeKey,
    layer: Layer,
    prev: TreeKey,
    next: TreeKey,
) -> bool {
    if has_parent(ups, id) {
        if same_place(ups, id, prev, next) {
            &&& ups2 == ups
            &&& downs2 == downs
            &&& layers2 == layers
        } else {
            let fix_prev = ups[id].prev;
            let fix_next = ups[id].next;
            &&& ups2 == bridge(linked_in(ups, id, parent, prev, next), fix_prev, fix_next)
            &&& downs2 == (if downs.contains_key(parent) {
                downs.insert(parent, down_moved(downs[parent], id, prev, next, fix_prev, fix_next))
            } else {
                downs
            })
            &&& layers2 == layers
        }
    } else {
        let c = moved_count(downs, id);
        let u1 = linked_in(ups, id, parent, prev, next);
        let d1 = downs.insert(parent, down_with(down_or_empty(downs, parent), id, prev, next, c));
        let attached = layer.layer != NULL_DEPTH;
        &&& ups2 == u1
        &&& downs2 == shift_counts(u1, d1, parent_of(u1, parent), c as int, WALK_LIMIT as nat)
        &&& layers2 == (if attached {
            stamp(
                u1,
                downs2,
                layers.insert(id, layer),
                head_of(downs, id),
                (layer.layer + 1) as usize,
                layer.root,
                stamp_budget((layer.layer + 1) as usize),
            ).insert(id, layer)
        } else {
            layers
        })
    }
}

/// Whether the records went from `(ups, downs, layers)` to `(ups2, downs2, layers2)`
/// by making `id` a root: nothing changes where `id` has a parent; otherwise `id`
/// gets depth 1 and root `id`, an empty `Down` where it had none, and the subtree
/// below it is stamped from depth 2 with root `id`.
pub open spec fn rooted(
    ups: Map<TreeKey, Up>,
    downs: Map<TreeKey, Down>,
    layers: Map<TreeKey, Layer>,
    ups2: Map<TreeKey, Up>,
    downs2: Map<TreeKey, Down>,
    layers2: Map<TreeKey, Layer>,
    id: TreeKey,
) -> bool {
    if has_parent(ups, id) {
        &&& ups2 == ups
        &&& downs2 == downs
        &&& layers2 == layers
    } else {
        let top = Layer { layer: 1, root: id };
        &&& ups2 == ups
        &&& downs2 == (if downs.contains_key(id) {
            downs
        } else {
            downs.insert(id, empty_down())
        })
        &&& layers2 == stamp(
            ups,
            downs2,
            layers.insert(id, top),
            head_of(downs, id),
            2,
            id,
            stamp_budget(2),
        ).insert(id, top)
    }
}

/// The layer a child of `parent` gets: one deeper, under the same root; null
/// where `parent` is not attached.
pub open spec fn child_layer(layers: Map<TreeKey, Layer>, parent: TreeKey) -> Layer {
    if layers.contains_key(parent) {
        Layer {
            layer: if layers[parent].layer == NULL_DEPTH {
                NULL_DEPTH
            } else {
                (layers[parent].layer + 1) as usize
            },
            root: layers[parent].root,
        }
    } else {
        Layer { layer: NULL_DEPTH, root: null_key() }
    }
}

/// The previous sibling of `k`, or null where `k` has no `Up`.
pub open spec fn prev_link(ups: Map<TreeKey, Up>, k: TreeKey) -> TreeKey {
    if ups.contains_key(k) {
        ups[k].prev
    } else {
        null_key()
    }
}

/// The next sibling of `k`, or null where `k` has no `Up`.
pub open spec fn next_link(ups: Map<TreeKey, Up>, k: TreeKey) -> TreeKey {
    if ups.contains_key(k) {
        ups[k].next
    } else {
        null_key()
    }
}

/// The gap `n` steps towards the front from the gap between `prev` and `next`.
pub open spec fn walk_back(ups: Map<TreeKey, Up>, prev: TreeKey, next: TreeKey, n: nat) -> (TreeKey, TreeKey)
    decreases n,
{
    if n == 0 || prev.spec_is_null() {
        (prev, next)
    } else {
        walk_back(ups, prev_link(ups, prev), prev, (n - 1) as nat)
    }
}

/// The gap `n` steps towards the back from the gap between `prev` and `next`.
pub open spec fn walk_forward(ups: Map<TreeKey, Up>, prev: TreeKey, next: TreeKey, n: nat) -> (TreeKey, TreeKey)
    decreases n,
{
    if n == 0 || next.spec_is_null() {
        (prev, next)
    } else {
        walk_forward(ups, next, next_link(ups, next), (n - 1) as nat)
    }
}

/// The gap `(prev, next)` before the child at position `order` of a parent with
/// `Down` `d`; past the end, the gap after the last child. It is sought from the
/// nearer end of the list.
pub open spec fn slot(ups: Map<TreeKey, Up>, d: Down, order: usize) -> (TreeKey, TreeKey) {
    if order >= d.len {
        (d.tail, null_key())
    } else if order + order >= d.len {
        walk_back(ups, d.tail, null_key(), (d.len - order) as nat)
    } else {
        walk_forward(ups, null_key(), d.head, order as nat)
    }
}

/// Whether the records went from `(ups, downs, layers)` to `(ups2, downs2, layers2)`
/// by `insert_child(id, parent, order)`: a root where `parent` is null, otherwise
/// placed in the gap that `slot` finds for `order`, with the layer below `parent`.
pub open spec fn inserted_child(
    ups: Map<TreeKey, Up>,
    downs: Map<TreeKey, Down>,
    layers: Map<TreeKey, Layer>,
    ups2: Map<TreeKey, Up>,
    downs2: Map<TreeKey, Down>,
    layers2: Map<TreeKey, Layer>,
    id: TreeKey,
    parent: TreeKey,
    order: usize,
) -> bool {
    if parent.spec_is_null() {
        rooted(ups, downs, layers, ups2, downs2, layers2, id)
    } else {
        let gap = slot(ups, down_or_empty(downs, parent), order);
        placed(ups, downs, layers, ups2, downs2, layers2, id, parent, child_layer(layers, parent), gap.0, gap.1)
    }
}

/// Whether the records went from `(ups, downs, layers)` to `(ups2, downs2, layers2)`
/// by `remove(id)`: nothing changes where `id` has no parent. Otherwise the
/// subtree below an attached `id` loses its layers, its neighbours are joined, the parent loses a child,
/// the parent and every ancestor lose `moved_count` nodes, and `id` loses its
/// `Up` and `Layer`.
pub open spec fn removed(
    ups: Map<TreeKey, Up>,
    downs: Map<TreeKey, Down>,
    layers: Map<TreeKey, Layer>,
    ups2: Map<TreeKey, Up>,
    downs2: Map<TreeKey, Down>,
    layers2: Map<TreeKey, Layer>,
    id: TreeKey,
) -> bool {
    if has_parent(ups, id) {
        let u = ups[id];
        let l1 = layers_after_strip(ups, downs, layers, id);
        &&& ups2 == bridge(ups, u.prev, u.next).remove(id)
        &&& downs2 == downs_after_unlink(ups, downs, u.parent, moved_count(downs, id), u.prev, u.next)
        &&& layers2 == l1.remove(id)
    } else {
        &&& ups2 == ups
        &&& downs2 == downs
        &&& layers2 == layers
    }
}

/// The gap right before (`Front`) or right after (`Back`) `brother`, whose `Up` is `b`.
pub open spec fn gap_beside(b: Up, brother: TreeKey, insert: InsertType) -> (TreeKey, TreeKey) {
    match insert {
        InsertType::Front => (b.prev, brother),
        InsertType::Back => (brother, b.next),
    }
}

/// Whether the records went from `(ups, downs, layers)` to `(ups2, downs2, layers2)`
/// by `insert_brother(id, brother, insert)`: placed beside `brother`, under its
/// parent and with its layer (null where it has none); a root where `brother`
/// has no parent.
pub open spec fn inserted_brother(
    ups: Map<TreeKey, Up>,
    downs: Map<TreeKey, Down>,
    layers: Map<TreeKey, Layer>,
    ups2: Map<TreeKey, Up>,
    downs2: Map<TreeKey, Down>,
    layers2: Map<TreeKey, Layer>,
    id: TreeKey,
    brother: TreeKey,
    insert: InsertType,
) -> bool {
    let b = ups[brother];
    let layer = if layers.contains_key(brother) {
        layers[brother]
    } else {
        Layer { layer: NULL_DEPTH, root: null_key() }
    };
    let gap = gap_beside(b, brother, insert);
    if b.parent.spec_is_null() {
        rooted(ups, downs, layers, ups2, downs2, layers2, id)
    } else {
        placed(ups, downs, layers, ups2, downs2, layers2, id, b.parent, layer, gap.0, gap.1)
    }
}

} // verus!
