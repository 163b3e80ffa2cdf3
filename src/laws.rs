use vstd::prelude::*;

use crate::model::{
    bridge, child_layer, down_or_empty, gap_beside, has_parent, head_of, inserted_brother,
    inserted_child, is_attached, linked_in, moved_count, next_link, parent_of, placed, prev_link,
    removed, rooted, same_place, shift_counts, shifted, slot, walk_back, walk_forward, with_next, with_prev,
    WALK_LIMIT,
};
use crate::records::{Down, InsertType, Layer, TreeKey, Up};

verus! {

/// Inserting a child of `parent` at its own position (the gap that `order` finds
/// borders it) changes no record.
pub proof fn lemma_insert_in_place(
    ups: Map<TreeKey, Up>,
    downs: Map<TreeKey, Down>,
    layers: Map<TreeKey, Layer>,
    ups2: Map<TreeKey, Up>,
    downs2: Map<TreeKey, Down>,
    layers2: Map<TreeKey, Layer>,
    id: TreeKey,
    parent: TreeKey,
    order: usize,
)
    requires
        !parent.spec_is_null(),
        has_parent(ups, id),
        ups[id].parent == parent,
        ({
            let gap = slot(ups, down_or_empty(downs, parent), order);
            gap.0 == id || gap.1 == id
        }),
        inserted_child(ups, downs, layers, ups2, downs2, layers2, id, parent, order),
    ensures
        ups2 == ups,
        downs2 == downs,
        layers2 == layers,
{
}

/// The nodes whose counts a walk up from `k` visits: `k`, its parent, and so on
/// up to the first node without an `Up`, at most `fuel` of them.
pub open spec fn up_chain(ups: Map<TreeKey, Up>, k: TreeKey, fuel: nat) -> Seq<TreeKey>
    decreases fuel,
{
    if fuel == 0 || k.spec_is_null() {
        Seq::empty()
    } else if ups.contains_key(k) {
        seq![k] + up_chain(ups, ups[k].parent, (fuel - 1) as nat)
    } else {
        seq![k]
    }
}

/// Where the walk up from `k` meets no node twice, it shifts the count of each
/// node it meets once, and leaves every other record as it is.
proof fn lemma_shift_pointwise(
    ups: Map<TreeKey, Up>,
    downs: Map<TreeKey, Down>,
    k: TreeKey,
    delta: int,
    fuel: nat,
)
    requires
        up_chain(ups, k, fuel).no_duplicates(),
    ensures
        shift_counts(ups, downs, k, delta, fuel).dom() == downs.dom(),
        forall|a: TreeKey|
            #![trigger shift_counts(ups, downs, k, delta, fuel)[a]]
            downs.contains_key(a) ==> shift_counts(ups, downs, k, delta, fuel)[a] == (if up_chain(
                ups,
                k,
                fuel,
            ).contains(a) {
                Down {
                    head: downs[a].head,
                    tail: downs[a].tail,
                    len: downs[a].len,
                    count: shifted(downs[a].count, delta),
                }
            } else {
                downs[a]
            }),
    decreases fuel,
{
    if fuel == 0 || k.spec_is_null() {
    } else {
        let d2 = if downs.contains_key(k) {
            downs.insert(
                k,
                Down {
                    head: downs[k].head,
                    tail: downs[k].tail,
                    len: downs[k].len,
                    count: shifted(downs[k].count, delta),
                },
            )
        } else {
            downs
        };
        assert(d2.dom() =~= downs.dom());
        if ups.contains_key(k) {
            let p = ups[k].parent;
            let rest = up_chain(ups, p, (fuel - 1) as nat);
            assert(up_chain(ups, k, fuel) == seq![k] + rest);
            assert(rest.no_duplicates()) by {
                assert forall|i: int, j: int|
                    0 <= i < rest.len() && 0 <= j < rest.len() && i != j implies rest[i] != rest[j] by {
                    assert(rest[i] == up_chain(ups, k, fuel)[i + 1]);
                    assert(rest[j] == up_chain(ups, k, fuel)[j + 1]);
                }
            }
            assert(!rest.contains(k)) by {
                if rest.contains(k) {
                    let i = choose|i: int| 0 <= i < rest.len() && rest[i] == k;
                    assert(up_chain(ups, k, fuel)[i + 1] == k);
                    assert(up_chain(ups, k, fuel)[0] == k);
                }
            }
            lemma_shift_pointwise(ups, d2, p, delta, (fuel - 1) as nat);
            assert forall|a: TreeKey| downs.contains_key(a) implies #[trigger] shift_counts(
                ups,
                downs,
                k,
                delta,
                fuel,
            )[a] == (if up_chain(ups, k, fuel).contains(a) {
                Down {
                    head: downs[a].head,
                    tail: downs[a].tail,
                    len: downs[a].len,
                    count: shifted(downs[a].count, delta),
                }
            } else {
                downs[a]
            }) by {
                assert(up_chain(ups, k, fuel).contains(a) == (a == k || rest.contains(a))) by {
                    if a == k {
                        assert(up_chain(ups, k, fuel)[0] == k);
                    }
                    if rest.contains(a) {
                        let i = choose|i: int| 0 <= i < rest.len() && rest[i] == a;
                        assert(up_chain(ups, k, fuel)[i + 1] == a);
                    }
                    if up_chain(ups, k, fuel).contains(a) && a != k {
                        let i = choose|i: int| 0 <= i < up_chain(ups, k, fuel).len() && up_chain(ups, k, fuel)[i] == a;
                        assert(rest[i - 1] == a);
                    }
                }
                assert(shift_counts(ups, downs, k, delta, fuel)[a] == shift_counts(
                    ups,
                    d2,
                    p,
                    delta,
                    (fuel - 1) as nat,
                )[a]);
            }
        } else {
            assert(up_chain(ups, k, fuel) == seq![k]);
            assert forall|a: TreeKey| downs.contains_key(a) implies #[trigger] shift_counts(
                ups,
                downs,
                k,
                delta,
                fuel,
            )[a] == (if up_chain(ups, k, fuel).contains(a) {
                Down {
                    head: downs[a].head,
                    tail: downs[a].tail,
                    len: downs[a].len,
                    count: shifted(downs[a].count, delta),
                }
            } else {
                downs[a]
            }) by {
                assert(up_chain(ups, k, fuel).contains(a) == (a == k)) by {
                    if a == k {
                        assert(seq![k][0] == k);
                    }
                }
            }
        }
    }
}

/// Whether `a` and `b` hold an `Up` for the same nodes, with the same parents,
/// apart from `id`.
pub open spec fn same_parents(a: Map<TreeKey, Up>, b: Map<TreeKey, Up>, id: TreeKey) -> bool {
    forall|x: TreeKey|
        x != id ==> (#[trigger] a.contains_key(x) == b.contains_key(x)) && (a.contains_key(x) ==> a[x].parent
            == b[x].parent)
}

/// Patching sibling links keeps every parent.
proof fn lemma_links_keep_parents(ups: Map<TreeKey, Up>, id: TreeKey, parent: TreeKey, prev: TreeKey, next: TreeKey)
    ensures
        same_parents(ups, bridge(ups, prev, next), id),
        same_parents(ups, bridge(ups, prev, next).remove(id), id),
        same_parents(ups, linked_in(ups, id, parent, prev, next), id),
        forall|k: TreeKey, n: TreeKey| #[trigger] same_parents(ups, with_next(ups, k, n), id),
        forall|k: TreeKey, n: TreeKey| #[trigger] same_parents(ups, with_prev(ups, k, n), id),
{
}

/// A walk up that never meets `id` goes the same way, and shifts the same
/// counts, in two maps whose parents agree apart from `id`.
proof fn lemma_chain_stable(
    a: Map<TreeKey, Up>,
    b: Map<TreeKey, Up>,
    id: TreeKey,
    k: TreeKey,
    downs: Map<TreeKey, Down>,
    delta: int,
    fuel: nat,
)
    requires
        same_parents(a, b, id),
        !up_chain(a, k, fuel).contains(id),
    ensures
        up_chain(a, k, fuel) == up_chain(b, k, fuel),
        shift_counts(a, downs, k, delta, fuel) == shift_counts(b, downs, k, delta, fuel),
    decreases fuel,
{
    if fuel == 0 || k.spec_is_null() {
    } else {
        assert(up_chain(a, k, fuel)[0] == k);
        assert(k != id);
        let d2 = if downs.contains_key(k) {
            downs.insert(
                k,
                Down {
                    head: downs[k].head,
                    tail: downs[k].tail,
                    len: downs[k].len,
                    count: shifted(downs[k].count, delta),
                },
            )
        } else {
            downs
        };
        if a.contains_key(k) {
            let rest = up_chain(a, a[k].parent, (fuel - 1) as nat);
            assert(!rest.contains(id)) by {
                if rest.contains(id) {
                    let i = choose|i: int| 0 <= i < rest.len() && rest[i] == id;
                    assert(up_chain(a, k, fuel)[i + 1] == id);
                }
            }
            lemma_chain_stable(a, b, id, a[k].parent, downs, delta, (fuel - 1) as nat);
            lemma_chain_stable(a, b, id, a[k].parent, d2, delta, (fuel - 1) as nat);
        }
    }
}

/// The conditions under which taking `id` out of its parent and putting it back
/// restores every count: the walk up from the parent meets no node twice and
/// meets neither `id` nor the parent, and no count there is below the number of
/// nodes that move.
pub open spec fn reattach_fits(ups0: Map<TreeKey, Up>, downs0: Map<TreeKey, Down>, id: TreeKey) -> bool {
    let parent = ups0[id].parent;
    let above = up_chain(ups0, parent_of(ups0, parent), WALK_LIMIT as nat);
    &&& has_parent(ups0, id)
    &&& parent != id
    &&& above.no_duplicates()
    &&& !above.contains(id)
    &&& !above.contains(parent)
    &&& downs0.contains_key(parent)
    &&& downs0[parent].count >= moved_count(downs0, id)
    &&& forall|x: TreeKey|
        above.contains(x) && downs0.contains_key(x) ==> #[trigger] downs0[x].count >= moved_count(downs0, id)
}

/// The parent of `id` in `ups0`, and every ancestor above it, has the same count
/// in `downs2` as in `downs0`.
pub open spec fn counts_restored(
    ups0: Map<TreeKey, Up>,
    downs0: Map<TreeKey, Down>,
    downs2: Map<TreeKey, Down>,
    id: TreeKey,
) -> bool {
    let parent = ups0[id].parent;
    let above = up_chain(ups0, parent_of(ups0, parent), WALK_LIMIT as nat);
    &&& downs2.contains_key(parent)
    &&& downs2[parent].count == downs0[parent].count
    &&& forall|x: TreeKey|
        above.contains(x) && downs0.contains_key(x) ==> downs2.contains_key(x) && #[trigger] downs2[x].count
            == downs0[x].count
}

proof fn lemma_reattach_placed(
    ups0: Map<TreeKey, Up>,
    downs0: Map<TreeKey, Down>,
    layers0: Map<TreeKey, Layer>,
    ups1: Map<TreeKey, Up>,
    downs1: Map<TreeKey, Down>,
    layers1: Map<TreeKey, Layer>,
    ups2: Map<TreeKey, Up>,
    downs2: Map<TreeKey, Down>,
    layers2: Map<TreeKey, Layer>,
    id: TreeKey,
    layer: Layer,
    prev: TreeKey,
    next: TreeKey,
)
    requires
        reattach_fits(ups0, downs0, id),
        removed(ups0, downs0, layers0, ups1, downs1, layers1, id),
        placed(ups1, downs1, layers1, ups2, downs2, layers2, id, ups0[id].parent, layer, prev, next),
    ensures
        counts_restored(ups0, downs0, downs2, id),
{
    let u = ups0[id];
    let parent = u.parent;
    let c = moved_count(downs0, id);
    let fuel = WALK_LIMIT as nat;
    let pp = parent_of(ups0, parent);
    let above = up_chain(ups0, pp, fuel);
    // detach
    let u1 = bridge(ups0, u.prev, u.next);
    lemma_links_keep_parents(ups0, id, parent, u.prev, u.next);
    assert(parent_of(u1, parent) == pp);
    let d1 = downs0.insert(parent, crate::model::down_without(downs0[parent], u.prev, u.next, c));
    lemma_chain_stable(ups0, u1, id, pp, d1, -c, fuel);
    lemma_shift_pointwise(ups0, d1, pp, -c, fuel);
    assert(downs1 == shift_counts(ups0, d1, pp, -c, fuel));
    assert(moved_count(downs1, id) == c);
    // attach again
    assert(!has_parent(ups1, id));
    let u2 = linked_in(ups1, id, parent, prev, next);
    lemma_links_keep_parents(ups1, id, parent, prev, next);
    assert(same_parents(ups0, u2, id));
    assert(parent_of(u2, parent) == pp);
    let d2 = downs1.insert(parent, crate::model::down_with(down_or_empty(downs1, parent), id, prev, next, c));
    lemma_chain_stable(ups0, u2, id, pp, d2, c as int, fuel);
    lemma_shift_pointwise(ups0, d2, pp, c as int, fuel);
    assert(downs2 == shift_counts(ups0, d2, pp, c as int, fuel));
    assert forall|x: TreeKey|
        above.contains(x) && downs0.contains_key(x) implies downs2.contains_key(x)
            && #[trigger] downs2[x].count == downs0[x].count by {
        assert(x != parent);
        assert(downs1[x].count == shifted(downs0[x].count, -c));
    }
}

/// Detaching a node and attaching it again with `insert_child` under the same
/// parent, at any position, leaves the count of the parent and of every ancestor
/// above it as it was, under `reattach_fits`.
pub proof fn lemma_reattach_keeps_counts(
    ups0: Map<TreeKey, Up>,
    downs0: Map<TreeKey, Down>,
    layers0: Map<TreeKey, Layer>,
    ups1: Map<TreeKey, Up>,
    downs1: Map<TreeKey, Down>,
    layers1: Map<TreeKey, Layer>,
    ups2: Map<TreeKey, Up>,
    downs2: Map<TreeKey, Down>,
    layers2: Map<TreeKey, Layer>,
    id: TreeKey,
    order: usize,
)
    requires
        reattach_fits(ups0, downs0, id),
        removed(ups0, downs0, layers0, ups1, downs1, layers1, id),
        inserted_child(ups1, downs1, layers1, ups2, downs2, layers2, id, ups0[id].parent, order),
    ensures
        counts_restored(ups0, downs0, downs2, id),
{
    let parent = ups0[id].parent;
    let gap = slot(ups1, down_or_empty(downs1, parent), order);
    lemma_reattach_placed(
        ups0, downs0, layers0, ups1, downs1, layers1, ups2, downs2, layers2, id,
        crate::model::child_layer(layers1, parent), gap.0, gap.1,
    );
}

/// Detaching a node and attaching it again with `insert_brother` beside any other
/// child of the same parent leaves the count of the parent and of every ancestor
/// above it as it was, under `reattach_fits`.
pub proof fn lemma_reattach_beside_keeps_counts(
    ups0: Map<TreeKey, Up>,
    downs0: Map<TreeKey, Down>,
    layers0: Map<TreeKey, Layer>,
    ups1: Map<TreeKey, Up>,
    downs1: Map<TreeKey, Down>,
    layers1: Map<TreeKey, Layer>,
    ups2: Map<TreeKey, Up>,
    downs2: Map<TreeKey, Down>,
    layers2: Map<TreeKey, Layer>,
    id: TreeKey,
    brother: TreeKey,
    insert: InsertType,
)
    requires
        reattach_fits(ups0, downs0, id),
        removed(ups0, downs0, layers0, ups1, downs1, layers1, id),
        ups1.contains_key(brother),
        ups1[brother].parent == ups0[id].parent,
        inserted_brother(ups1, downs1, layers1, ups2, downs2, layers2, id, brother, insert),
    ensures
        counts_restored(ups0, downs0, downs2, id),
{
    let b = ups1[brother];
    let layer = if layers1.contains_key(brother) {
        layers1[brother]
    } else {
        Layer { layer: crate::records::NULL_DEPTH, root: crate::model::null_key() }
    };
    let gap = gap_beside(b, brother, insert);
    lemma_reattach_placed(ups0, downs0, layers0, ups1, downs1, layers1, ups2, downs2, layers2, id, layer, gap.0, gap.1);
}

/// Sibling links agree both ways: the previous sibling of a node names it as its
/// next one, and the next sibling names it as its previous one. No null handle
/// has an `Up`.
pub open spec fn siblings_agree(ups: Map<TreeKey, Up>) -> bool {
    &&& forall|n: TreeKey| #[trigger] ups.contains_key(n) ==> !n.spec_is_null()
    &&& forall|n: TreeKey|
        #![trigger ups[n].prev]
        ups.contains_key(n) && !ups[n].prev.spec_is_null() ==> ups.contains_key(ups[n].prev)
            && ups[ups[n].prev].next == n
    &&& forall|n: TreeKey|
        #![trigger ups[n].next]
        ups.contains_key(n) && !ups[n].next.spec_is_null() ==> ups.contains_key(ups[n].next)
            && ups[ups[n].next].prev == n
}

/// The first and last child that a `Down` names are the two ends of a chain.
pub open spec fn ends_agree(ups: Map<TreeKey, Up>, downs: Map<TreeKey, Down>) -> bool {
    forall|p: TreeKey|
        #[trigger] downs.contains_key(p) ==> (downs[p].head.spec_is_null() || (ups.contains_key(
            downs[p].head,
        ) && ups[downs[p].head].prev.spec_is_null())) && (downs[p].tail.spec_is_null() || (
        ups.contains_key(downs[p].tail) && ups[downs[p].tail].next.spec_is_null()))
}

/// Whether `a` and `b` name the same node, or are both null.
pub open spec fn same_key(a: TreeKey, b: TreeKey) -> bool {
    a == b || (a.spec_is_null() && b.spec_is_null())
}

/// `prev` and `next` are neighbours: each non-null one has an `Up` that names the other.
pub open spec fn is_gap(ups: Map<TreeKey, Up>, prev: TreeKey, next: TreeKey) -> bool {
    &&& (prev.spec_is_null() || (ups.contains_key(prev) && same_key(ups[prev].next, next)))
    &&& (next.spec_is_null() || (ups.contains_key(next) && same_key(ups[next].prev, prev)))
}

proof fn lemma_walk_forward_gap(ups: Map<TreeKey, Up>, prev: TreeKey, next: TreeKey, n: nat)
    requires
        siblings_agree(ups),
        is_gap(ups, prev, next),
    ensures
        is_gap(ups, walk_forward(ups, prev, next, n).0, walk_forward(ups, prev, next, n).1),
    decreases n,
{
    if n == 0 || next.spec_is_null() {
    } else {
        lemma_walk_forward_gap(ups, next, next_link(ups, next), (n - 1) as nat);
    }
}

proof fn lemma_walk_back_gap(ups: Map<TreeKey, Up>, prev: TreeKey, next: TreeKey, n: nat)
    requires
        siblings_agree(ups),
        is_gap(ups, prev, next),
    ensures
        is_gap(ups, walk_back(ups, prev, next, n).0, walk_back(ups, prev, next, n).1),
    decreases n,
{
    if n == 0 || prev.spec_is_null() {
    } else {
        lemma_walk_back_gap(ups, prev_link(ups, prev), prev, (n - 1) as nat);
    }
}

/// The gap that `slot` finds lies between two neighbours.
proof fn lemma_slot_gap(ups: Map<TreeKey, Up>, downs: Map<TreeKey, Down>, parent: TreeKey, order: usize)
    requires
        siblings_agree(ups),
        ends_agree(ups, downs),
    ensures
        is_gap(ups, slot(ups, down_or_empty(downs, parent), order).0, slot(ups, down_or_empty(downs, parent), order).1),
{
    let d = down_or_empty(downs, parent);
    if downs.contains_key(parent) {
        assert(is_gap(ups, d.tail, crate::model::null_key()));
        assert(is_gap(ups, crate::model::null_key(), d.head));
    }
    if order >= d.len {
    } else if order + order >= d.len {
        lemma_walk_back_gap(ups, d.tail, crate::model::null_key(), (d.len - order) as nat);
    } else {
        lemma_walk_forward_gap(ups, crate::model::null_key(), d.head, order as nat);
    }
}

/// Linking a node without an `Up` into a gap keeps the sibling links in agreement.
proof fn lemma_link_keeps_siblings(ups: Map<TreeKey, Up>, id: TreeKey, parent: TreeKey, prev: TreeKey, next: TreeKey)
    requires
        siblings_agree(ups),
        is_gap(ups, prev, next),
        !ups.contains_key(id),
        !id.spec_is_null(),
    ensures
        siblings_agree(linked_in(ups, id, parent, prev, next)),
{
    let m = linked_in(ups, id, parent, prev, next);
    assert(prev != id && next != id);
    assert(m[id] == Up { parent, prev, next });
    assert forall|x: TreeKey| x != id && x != prev && x != next implies #[trigger] m.contains_key(x)
        == ups.contains_key(x) && (ups.contains_key(x) ==> m[x] == ups[x]) by {}
    assert forall|n: TreeKey| m.contains_key(n) && !m[n].prev.spec_is_null() implies m.contains_key(m[n].prev)
        && #[trigger] m[m[n].prev].next == n by {
        if n != id && n != prev && n != next {
            let q = ups[n].prev;
            assert(ups[q].next == n);
            assert(q != prev);
            if q == next {
                assert(m[next].next == ups[next].next);
            }
        } else if n == prev && n != next {
            let q = ups[n].prev;
            assert(ups[q].next == n);
            if q == next {
                assert(m[next].next == ups[next].next);
            }
        } else if n == next && n != prev {
            assert(m[next].prev == id);
        }
    }
    assert forall|n: TreeKey| m.contains_key(n) && !m[n].next.spec_is_null() implies m.contains_key(m[n].next)
        && #[trigger] m[m[n].next].prev == n by {
        if n != id && n != prev && n != next {
            let q = ups[n].next;
            assert(ups[q].prev == n);
            assert(q != next);
            if q == prev {
                assert(m[prev].prev == ups[prev].prev);
            }
        } else if n == next && n != prev {
            let q = ups[n].next;
            assert(ups[q].prev == n);
            if q == prev {
                assert(m[prev].prev == ups[prev].prev);
            }
        } else if n == prev && n != next {
            assert(m[prev].next == id);
        }
    }
}

/// Taking a node out of its chain keeps the sibling links in agreement.
proof fn lemma_unlink_keeps_siblings(ups: Map<TreeKey, Up>, id: TreeKey)
    requires
        siblings_agree(ups),
        ups.contains_key(id),
    ensures
        siblings_agree(bridge(ups, ups[id].prev, ups[id].next).remove(id)),
{
    let u = ups[id];
    let m = bridge(ups, u.prev, u.next).remove(id);
    assert forall|n: TreeKey| m.contains_key(n) && !m[n].prev.spec_is_null() implies m.contains_key(m[n].prev)
        && #[trigger] m[m[n].prev].next == n by {
        if n != u.prev && n != u.next {
            assert(ups[ups[n].prev].next == n);
        }
    }
    assert forall|n: TreeKey| m.contains_key(n) && !m[n].next.spec_is_null() implies m.contains_key(m[n].next)
        && #[trigger] m[m[n].next].prev == n by {
        if n != u.prev && n != u.next {
            assert(ups[ups[n].next].prev == n);
        }
    }
}

/// `remove` keeps the sibling links in agreement.
pub proof fn lemma_remove_keeps_siblings(
    ups: Map<TreeKey, Up>,
    downs: Map<TreeKey, Down>,
    layers: Map<TreeKey, Layer>,
    ups2: Map<TreeKey, Up>,
    downs2: Map<TreeKey, Down>,
    layers2: Map<TreeKey, Layer>,
    id: TreeKey,
)
    requires
        siblings_agree(ups),
        removed(ups, downs, layers, ups2, downs2, layers2, id),
    ensures
        siblings_agree(ups2),
{
    if has_parent(ups, id) {
        lemma_unlink_keeps_siblings(ups, id);
    }
}

/// `insert_child` of a node that has no `Up`, or that moves within its parent and
/// is not its own sibling, keeps the sibling links in agreement, where each `Down`
/// names the two ends of its chain.
pub proof fn lemma_insert_child_keeps_siblings(
    ups: Map<TreeKey, Up>,
    downs: Map<TreeKey, Down>,
    layers: Map<TreeKey, Layer>,
    ups2: Map<TreeKey, Up>,
    downs2: Map<TreeKey, Down>,
    layers2: Map<TreeKey, Layer>,
    id: TreeKey,
    parent: TreeKey,
    order: usize,
)
    requires
        siblings_agree(ups),
        ends_agree(ups, downs),
        !id.spec_is_null(),
        has_parent(ups, id) || !ups.contains_key(id),
        ups.contains_key(id) ==> ups[id].prev != id && ups[id].next != id,
        inserted_child(ups, downs, layers, ups2, downs2, layers2, id, parent, order),
    ensures
        siblings_agree(ups2),
{
    if !parent.spec_is_null() {
        lemma_slot_gap(ups, downs, parent, order);
        let gap = slot(ups, down_or_empty(downs, parent), order);
        if !has_parent(ups, id) {
            lemma_link_keeps_siblings(ups, id, parent, gap.0, gap.1);
        } else if !same_place(ups, id, gap.0, gap.1) {
            lemma_move_keeps_siblings(ups, id, parent, gap.0, gap.1);
        }
    }
}

/// Moving a node to a gap that does not border it keeps the sibling links in agreement.
proof fn lemma_move_keeps_siblings(ups: Map<TreeKey, Up>, id: TreeKey, parent: TreeKey, prev: TreeKey, next: TreeKey)
    requires
        siblings_agree(ups),
        is_gap(ups, prev, next),
        ups.contains_key(id),
        ups[id].prev != id,
        ups[id].next != id,
        !same_place(ups, id, prev, next),
    ensures
        siblings_agree(bridge(linked_in(ups, id, parent, prev, next), ups[id].prev, ups[id].next)),
{
    let u = ups[id];
    let m = bridge(linked_in(ups, id, parent, prev, next), u.prev, u.next);
    let u1 = bridge(ups, u.prev, u.next).remove(id);
    lemma_unlink_keeps_siblings(ups, id);
    assert(!id.spec_is_null());
    assert(prev.spec_is_null() || prev != u.prev) by {
        if prev == u.prev && !prev.spec_is_null() {
            assert(ups[u.prev].next == id);
        }
    }
    assert(next.spec_is_null() || next != u.next) by {
        if next == u.next && !next.spec_is_null() {
            assert(ups[u.next].prev == id);
        }
    }
    assert(is_gap(u1, prev, next));
    lemma_link_keeps_siblings(u1, id, parent, prev, next);
    assert(linked_in(u1, id, parent, prev, next) =~= m);
}

/// `insert_brother` of a node that has no `Up`, or that moves within its parent and
/// is not its own sibling, keeps the sibling links in agreement.
pub proof fn lemma_insert_brother_keeps_siblings(
    ups: Map<TreeKey, Up>,
    downs: Map<TreeKey, Down>,
    layers: Map<TreeKey, Layer>,
    ups2: Map<TreeKey, Up>,
    downs2: Map<TreeKey, Down>,
    layers2: Map<TreeKey, Layer>,
    id: TreeKey,
    brother: TreeKey,
    insert: InsertType,
)
    requires
        siblings_agree(ups),
        !id.spec_is_null(),
        ups.contains_key(brother),
        has_parent(ups, id) || !ups.contains_key(id),
        ups.contains_key(id) ==> ups[id].prev != id && ups[id].next != id,
        inserted_brother(ups, downs, layers, ups2, downs2, layers2, id, brother, insert),
    ensures
        siblings_agree(ups2),
{
    let b = ups[brother];
    let gap = gap_beside(b, brother, insert);
    if !b.parent.spec_is_null() {
        assert(is_gap(ups, gap.0, gap.1));
        if !has_parent(ups, id) {
            lemma_link_keeps_siblings(ups, id, b.parent, gap.0, gap.1);
        } else if !same_place(ups, id, gap.0, gap.1) {
            lemma_move_keeps_siblings(ups, id, b.parent, gap.0, gap.1);
        }
    }
}

/// Every attached node under a parent sits one level below it, under the same root.
pub open spec fn depths_agree(ups: Map<TreeKey, Up>, layers: Map<TreeKey, Layer>) -> bool {
    forall|n: TreeKey|
        #![trigger layers[n], ups[n]]
        ups.contains_key(n) && !ups[n].parent.spec_is_null() && is_attached(layers, n) ==> {
            let p = ups[n].parent;
            &&& is_attached(layers, p)
            &&& layers[n].layer == layers[p].layer + 1
            &&& layers[n].root == layers[p].root
        }
}

proof fn lemma_rooted_leaf_keeps_depths(
    ups: Map<TreeKey, Up>,
    downs: Map<TreeKey, Down>,
    layers: Map<TreeKey, Layer>,
    ups2: Map<TreeKey, Up>,
    downs2: Map<TreeKey, Down>,
    layers2: Map<TreeKey, Layer>,
    id: TreeKey,
)
    requires
        depths_agree(ups, layers),
        head_of(downs, id).spec_is_null(),
        has_parent(ups, id) || !is_attached(layers, id),
        rooted(ups, downs, layers, ups2, downs2, layers2, id),
    ensures
        depths_agree(ups2, layers2),
{
    if !has_parent(ups, id) {
        assert(layers2 =~= layers.insert(id, Layer { layer: 1, root: id }));
        assert forall|n: TreeKey|
            ups2.contains_key(n) && !ups2[n].parent.spec_is_null() && is_attached(layers2, n) implies {
            let p = ups2[n].parent;
            &&& is_attached(layers2, p)
            &&& #[trigger] layers2[n].layer == layers2[p].layer + 1
            &&& layers2[n].root == layers2[p].root
        } by {
            assert(n != id);
            assert(is_attached(layers, n));
        }
    }
}

proof fn lemma_placed_leaf_keeps_depths(
    ups: Map<TreeKey, Up>,
    downs: Map<TreeKey, Down>,
    layers: Map<TreeKey, Layer>,
    ups2: Map<TreeKey, Up>,
    downs2: Map<TreeKey, Down>,
    layers2: Map<TreeKey, Layer>,
    id: TreeKey,
    parent: TreeKey,
    layer: Layer,
    prev: TreeKey,
    next: TreeKey,
)
    requires
        depths_agree(ups, layers),
        head_of(downs, id).spec_is_null(),
        has_parent(ups, id) || !is_attached(layers, id),
        !parent.spec_is_null(),
        id != parent,
        has_parent(ups, id) ==> ups[id].parent == parent,
        layer.layer != crate::records::NULL_DEPTH ==> {
            &&& is_attached(layers, parent)
            &&& layer.layer == layers[parent].layer + 1
            &&& layer.root == layers[parent].root
        },
        placed(ups, downs, layers, ups2, downs2, layers2, id, parent, layer, prev, next),
    ensures
        depths_agree(ups2, layers2),
{
    if has_parent(ups, id) {
        if !same_place(ups, id, prev, next) {
            lemma_links_keep_parents(ups, id, parent, prev, next);
            let l1 = linked_in(ups, id, parent, prev, next);
            lemma_links_keep_parents(l1, id, parent, ups[id].prev, ups[id].next);
            assert(ups2.contains_key(id) && ups2[id].parent == parent);
            assert(same_parents(ups, ups2, id));
            assert forall|n: TreeKey|
                ups2.contains_key(n) && !ups2[n].parent.spec_is_null() && is_attached(layers2, n) implies {
                let p = ups2[n].parent;
                &&& is_attached(layers2, p)
                &&& #[trigger] layers2[n].layer == layers2[p].layer + 1
                &&& layers2[n].root == layers2[p].root
            } by {
                if n != id {
                    assert(ups.contains_key(n) && ups[n].parent == ups2[n].parent);
                }
                assert(layers[n] == layers2[n]);
            }
        }
    } else {
        lemma_links_keep_parents(ups, id, parent, prev, next);
        assert(ups2.contains_key(id) && ups2[id].parent == parent);
        if layer.layer != crate::records::NULL_DEPTH {
            assert(layers2 =~= layers.insert(id, layer));
        }
        assert forall|n: TreeKey|
            ups2.contains_key(n) && !ups2[n].parent.spec_is_null() && is_attached(layers2, n) implies {
            let p = ups2[n].parent;
            &&& is_attached(layers2, p)
            &&& #[trigger] layers2[n].layer == layers2[p].layer + 1
            &&& layers2[n].root == layers2[p].root
        } by {
            if n != id {
                assert(is_attached(layers, n));
                assert(ups[n].parent == ups2[n].parent);
                assert(ups[n].parent != id);
            }
        }
    }
}

/// `insert_child` keeps every attached node one level below its parent, where the
/// inserted node has no children and, unless it already is a child, is not attached.
pub proof fn lemma_insert_leaf_keeps_depths(
    ups: Map<TreeKey, Up>,
    downs: Map<TreeKey, Down>,
    layers: Map<TreeKey, Layer>,
    ups2: Map<TreeKey, Up>,
    downs2: Map<TreeKey, Down>,
    layers2: Map<TreeKey, Layer>,
    id: TreeKey,
    parent: TreeKey,
    order: usize,
)
    requires
        depths_agree(ups, layers),
        head_of(downs, id).spec_is_null(),
        has_parent(ups, id) || !is_attached(layers, id),
        id != parent,
        has_parent(ups, id) && !parent.spec_is_null() ==> ups[id].parent == parent,
        inserted_child(ups, downs, layers, ups2, downs2, layers2, id, parent, order),
    ensures
        depths_agree(ups2, layers2),
{
    if parent.spec_is_null() {
        lemma_rooted_leaf_keeps_depths(ups, downs, layers, ups2, downs2, layers2, id);
    } else {
        let gap = slot(ups, down_or_empty(downs, parent), order);
        lemma_placed_leaf_keeps_depths(
            ups, downs, layers, ups2, downs2, layers2, id, parent, child_layer(layers, parent), gap.0, gap.1,
        );
    }
}

/// `insert_brother` keeps every attached node one level below its parent, where
/// the inserted node has no children and, unless it already is a child, is not attached.
pub proof fn lemma_insert_brother_leaf_keeps_depths(
    ups: Map<TreeKey, Up>,
    downs: Map<TreeKey, Down>,
    layers: Map<TreeKey, Layer>,
    ups2: Map<TreeKey, Up>,
    downs2: Map<TreeKey, Down>,
    layers2: Map<TreeKey, Layer>,
    id: TreeKey,
    brother: TreeKey,
    insert: InsertType,
)
    requires
        depths_agree(ups, layers),
        head_of(downs, id).spec_is_null(),
        has_parent(ups, id) || !is_attached(layers, id),
        ups.contains_key(brother),
        id != ups[brother].parent,
        has_parent(ups, id) && !ups[brother].parent.spec_is_null() ==> ups[id].parent == ups[brother].parent,
        inserted_brother(ups, downs, layers, ups2, downs2, layers2, id, brother, insert),
    ensures
        depths_agree(ups2, layers2),
{
    let b = ups[brother];
    if b.parent.spec_is_null() {
        lemma_rooted_leaf_keeps_depths(ups, downs, layers, ups2, downs2, layers2, id);
    } else {
        let layer = if layers.contains_key(brother) {
            layers[brother]
        } else {
            Layer { layer: crate::records::NULL_DEPTH, root: crate::model::null_key() }
        };
        let gap = gap_beside(b, brother, insert);
        if layer.layer != crate::records::NULL_DEPTH {
            assert(is_attached(layers, brother));
            assert(layers[brother].layer == layers[b.parent].layer + 1);
        }
        lemma_placed_leaf_keeps_depths(ups, downs, layers, ups2, downs2, layers2, id, b.parent, layer, gap.0, gap.1);
    }
}

/// `remove` keeps every attached node one level below its parent, where the
/// removed node is no node's parent.
pub proof fn lemma_remove_leaf_keeps_depths(
    ups: Map<TreeKey, Up>,
    downs: Map<TreeKey, Down>,
    layers: Map<TreeKey, Layer>,
    ups2: Map<TreeKey, Up>,
    downs2: Map<TreeKey, Down>,
    layers2: Map<TreeKey, Layer>,
    id: TreeKey,
)
    requires
        depths_agree(ups, layers),
        head_of(downs, id).spec_is_null(),
        forall|n: TreeKey| #[trigger] ups.contains_key(n) ==> ups[n].parent != id,
        removed(ups, downs, layers, ups2, downs2, layers2, id),
    ensures
        depths_agree(ups2, layers2),
{
    if has_parent(ups, id) {
        let u = ups[id];
        lemma_links_keep_parents(ups, id, u.parent, u.prev, u.next);
        if is_attached(layers, id) {
            assert(crate::model::strip(ups, downs, layers, head_of(downs, id), WALK_LIMIT as nat) == layers);
        }
        assert(layers2 =~= layers.remove(id));
        assert forall|n: TreeKey|
            ups2.contains_key(n) && !ups2[n].parent.spec_is_null() && is_attached(layers2, n) implies {
            let p = ups2[n].parent;
            &&& is_attached(layers2, p)
            &&& #[trigger] layers2[n].layer == layers2[p].layer + 1
            &&& layers2[n].root == layers2[p].root
        } by {
            assert(n != id);
            assert(ups.contains_key(n) && ups[n].parent == ups2[n].parent);
            assert(is_attached(layers, n));
        }
    }
}

/// `s` is the chain of children that `d` describes: `d.len` distinct nodes, each with an
/// `Up`, linked to its neighbours in `s` in both directions, from `d.head` to
/// `d.tail`, with null links at the two ends.
pub open spec fn chain_is(ups: Map<TreeKey, Up>, d: Down, s: Seq<TreeKey>) -> bool {
    &&& s.len() == d.len
    &&& s.no_duplicates()
    &&& forall|i: int| 0 <= i < s.len() ==> !(#[trigger] s[i]).spec_is_null() && ups.contains_key(s[i])
    &&& s.len() > 0 ==> d.head == s[0] && d.tail == s[s.len() - 1]
    &&& s.len() > 0 ==> ups[s[0]].prev.spec_is_null() && ups[s[s.len() - 1]].next.spec_is_null()
    &&& s.len() == 0 ==> d.head.spec_is_null() && d.tail.spec_is_null()
    &&& forall|i: int| 0 < i < s.len() ==> ups[#[trigger] s[i]].prev == s[i - 1]
    &&& forall|i: int| 0 <= i < s.len() - 1 ==> ups[#[trigger] s[i]].next == s[i + 1]
}

/// The gap before child number `k` of the chain `s` (after the last one where `k == s.len()`).
pub open spec fn gap_at(s: Seq<TreeKey>, k: int) -> (TreeKey, TreeKey) {
    (
        if k == 0 { crate::model::null_key() } else { s[k - 1] },
        if k == s.len() { crate::model::null_key() } else { s[k] },
    )
}

/// Whether two gaps are the same, null handles counting as one.
pub open spec fn same_gap(a: (TreeKey, TreeKey), b: (TreeKey, TreeKey)) -> bool {
    same_key(a.0, b.0) && same_key(a.1, b.1)
}

proof fn lemma_walk_forward_index(ups: Map<TreeKey, Up>, d: Down, s: Seq<TreeKey>, prev: TreeKey, next: TreeKey, i: int, n: nat)
    requires
        chain_is(ups, d, s),
        0 <= i <= s.len(),
        same_gap((prev, next), gap_at(s, i)),
    ensures
        same_gap(walk_forward(ups, prev, next, n), gap_at(s, if i + n < s.len() { i + n } else { s.len() as int })),
    decreases n,
{
    if n == 0 || next.spec_is_null() {
        if i < s.len() {
            assert(!s[i].spec_is_null());
        }
    } else {
        assert(i < s.len());
        assert(next == s[i]);
        if i + 1 < s.len() {
            assert(ups[s[i]].next == s[i + 1]);
        }
        lemma_walk_forward_index(ups, d, s, next, next_link(ups, next), i + 1, (n - 1) as nat);
    }
}

proof fn lemma_walk_back_index(ups: Map<TreeKey, Up>, d: Down, s: Seq<TreeKey>, prev: TreeKey, next: TreeKey, i: int, n: nat)
    requires
        chain_is(ups, d, s),
        0 <= i <= s.len(),
        same_gap((prev, next), gap_at(s, i)),
    ensures
        same_gap(walk_back(ups, prev, next, n), gap_at(s, if i - n > 0 { i - n } else { 0 })),
    decreases n,
{
    if n == 0 || prev.spec_is_null() {
        if i > 0 {
            assert(!s[i - 1].spec_is_null());
        }
    } else {
        assert(i > 0);
        assert(prev == s[i - 1]);
        if i - 1 > 0 {
            assert(ups[s[i - 1]].prev == s[i - 2]);
        }
        lemma_walk_back_index(ups, d, s, prev_link(ups, prev), prev, i - 1, (n - 1) as nat);
    }
}

/// On a well-linked chain `s`, the gap that `slot` finds for `order` is the gap
/// before child number `order` of `s`, or after its last child where `order` is
/// at least its length: the two-ended search finds what a walk from the front would.
pub proof fn lemma_slot_is_index(ups: Map<TreeKey, Up>, d: Down, s: Seq<TreeKey>, order: usize)
    requires
        chain_is(ups, d, s),
    ensures
        same_gap(slot(ups, d, order), gap_at(s, if order < s.len() { order as int } else { s.len() as int })),
{
    if order >= d.len {
        if s.len() > 0 {
            assert(d.tail == s[s.len() - 1]);
        }
    } else if order + order >= d.len {
        if s.len() > 0 {
            assert(d.tail == s[s.len() - 1]);
        }
        lemma_walk_back_index(ups, d, s, d.tail, crate::model::null_key(), s.len() as int, (d.len - order) as nat);
    } else {
        assert(d.head == s[0]);
        lemma_walk_forward_index(ups, d, s, crate::model::null_key(), d.head, 0, order as nat);
    }
}

/// Inserting child number `i` of `parent` at position `i` changes no record.
pub proof fn lemma_insert_at_own_index(
    ups: Map<TreeKey, Up>,
    downs: Map<TreeKey, Down>,
    layers: Map<TreeKey, Layer>,
    ups2: Map<TreeKey, Up>,
    downs2: Map<TreeKey, Down>,
    layers2: Map<TreeKey, Layer>,
    s: Seq<TreeKey>,
    id: TreeKey,
    parent: TreeKey,
    i: usize,
)
    requires
        !parent.spec_is_null(),
        chain_is(ups, down_or_empty(downs, parent), s),
        i < s.len(),
        s[i as int] == id,
        ups[id].parent == parent,
        inserted_child(ups, downs, layers, ups2, downs2, layers2, id, parent, i),
    ensures
        ups2 == ups,
        downs2 == downs,
        layers2 == layers,
{
    lemma_slot_is_index(ups, down_or_empty(downs, parent), s, i);
    assert(!id.spec_is_null());
    lemma_insert_in_place(ups, downs, layers, ups2, downs2, layers2, id, parent, i);
}

/// Shifting counts keeps every `Down` in place apart from its count.
proof fn lemma_shift_keeps_shape(ups: Map<TreeKey, Up>, downs: Map<TreeKey, Down>, k: TreeKey, delta: int, fuel: nat)
    ensures
        shift_counts(ups, downs, k, delta, fuel).dom() == downs.dom(),
        forall|a: TreeKey|
            #![trigger shift_counts(ups, downs, k, delta, fuel)[a]]
            downs.contains_key(a) ==> shift_counts(ups, downs, k, delta, fuel)[a].head == downs[a].head
                && shift_counts(ups, downs, k, delta, fuel)[a].tail == downs[a].tail && shift_counts(
                ups,
                downs,
                k,
                delta,
                fuel,
            )[a].len == downs[a].len,
    decreases fuel,
{
    if fuel == 0 || k.spec_is_null() {
    } else {
        let d2 = if downs.contains_key(k) {
            downs.insert(
                k,
                Down {
                    head: downs[k].head,
                    tail: downs[k].tail,
                    len: downs[k].len,
                    count: shifted(downs[k].count, delta),
                },
            )
        } else {
            downs
        };
        assert(d2.dom() =~= downs.dom());
        if ups.contains_key(k) {
            lemma_shift_keeps_shape(ups, d2, ups[k].parent, delta, (fuel - 1) as nat);
        }
    }
}

/// Linking a node that has no `Up` into the gap before child number `k` of the
/// chain `s` makes the chain `s` with the node inserted at `k`.
#[verifier::rlimit(100)]
proof fn lemma_link_chain(
    ups: Map<TreeKey, Up>,
    d: Down,
    s: Seq<TreeKey>,
    id: TreeKey,
    parent: TreeKey,
    prev: TreeKey,
    next: TreeKey,
    k: int,
    c: usize,
)
    requires
        !id.spec_is_null(),
        !ups.contains_key(id),
        chain_is(ups, d, s),
        s.len() < usize::MAX,
        0 <= k <= s.len(),
        same_gap((prev, next), gap_at(s, k)),
    ensures
        chain_is(linked_in(ups, id, parent, prev, next), crate::model::down_with(d, id, prev, next, c), s.insert(k, id)),
{
    let ups2 = linked_in(ups, id, parent, prev, next);
    let t = s.insert(k, id);
    let d2 = crate::model::down_with(d, id, prev, next, c);
    assert(d2.len == t.len());
    assert(!s.contains(id)) by {
        if s.contains(id) {
            let j = choose|j: int| 0 <= j < s.len() && s[j] == id;
            assert(ups.contains_key(s[j]));
        }
    }
    if k > 0 {
        assert(prev == s[k - 1]) by {
            assert(!s[k - 1].spec_is_null());
        }
    } else {
        assert(prev.spec_is_null());
    }
    if k < s.len() {
        assert(next == s[k]) by {
            assert(!s[k].spec_is_null());
        }
    } else {
        assert(next.spec_is_null());
    }
    assert forall|x: TreeKey| x != id && x != prev && x != next implies #[trigger] ups2.contains_key(x)
        == ups.contains_key(x) && (ups.contains_key(x) ==> ups2[x] == ups[x]) by {}
    assert(prev.spec_is_null() || next.spec_is_null() || prev != next);
    if !prev.spec_is_null() {
        assert(ups2[prev] == Up { parent: ups[prev].parent, prev: ups[prev].prev, next: id });
    }
    if !next.spec_is_null() {
        assert(ups2[next] == Up { parent: ups[next].parent, prev: id, next: ups[next].next });
    }
    assert(ups2[id] == Up { parent, prev, next });
    assert(t.no_duplicates()) by {
        assert forall|i: int, j: int| 0 <= i < t.len() && 0 <= j < t.len() && i != j implies t[i] != t[j] by {
            if i != k && j != k {
                let si = if i < k { i } else { i - 1 };
                let sj = if j < k { j } else { j - 1 };
                assert(t[i] == s[si] && t[j] == s[sj]);
            } else if i == k {
                let sj = if j < k { j } else { j - 1 };
                assert(t[j] == s[sj]);
            } else {
                let si = if i < k { i } else { i - 1 };
                assert(t[i] == s[si]);
            }
        }
    }
    assert forall|i: int| 0 <= i < t.len() implies !(#[trigger] t[i]).spec_is_null() && ups2.contains_key(t[i]) by {
        if i < k {
            assert(t[i] == s[i]);
        } else if i > k {
            assert(t[i] == s[i - 1]);
        }
    }
    assert forall|i: int| 0 < i < t.len() implies ups2[#[trigger] t[i]].prev == t[i - 1] by {
        if i < k {
            assert(t[i] == s[i] && t[i - 1] == s[i - 1]);
            assert(s[i] != next);
        } else if i == k {
        } else if i == k + 1 {
            assert(t[i] == s[k]);
        } else {
            assert(t[i] == s[i - 1] && t[i - 1] == s[i - 2]);
            assert(s[i - 1] != next);
            if s[i - 1] == prev {
                assert(i - 1 == k - 1);
            }
        }
    }
    assert forall|i: int| 0 <= i < t.len() - 1 implies ups2[#[trigger] t[i]].next == t[i + 1] by {
        if i < k - 1 {
            assert(t[i] == s[i] && t[i + 1] == s[i + 1]);
            assert(s[i] != prev);
            if s[i] == next {
                assert(i == k);
            }
        } else if i == k - 1 {
            assert(t[i] == s[k - 1]);
        } else if i == k {
        } else {
            assert(t[i] == s[i - 1] && t[i + 1] == s[i]);
            assert(s[i - 1] != prev);
            if s[i - 1] == next {
                assert(i - 1 == k);
            }
        }
    }
    if t.len() > 0 {
        if k > 0 {
            assert(t[0] == s[0]);
            assert(s[0] != next);
        }
        if k < s.len() {
            assert(t[t.len() - 1] == s[s.len() - 1]);
            assert(s[s.len() - 1] != prev);
        }
    }
}


/// The parent's chain after a node without an `Up` was placed in the gap before
/// child number `k` of its chain `s`.
proof fn lemma_link_list(
    ups: Map<TreeKey, Up>,
    downs: Map<TreeKey, Down>,
    layers: Map<TreeKey, Layer>,
    ups2: Map<TreeKey, Up>,
    downs2: Map<TreeKey, Down>,
    layers2: Map<TreeKey, Layer>,
    s: Seq<TreeKey>,
    id: TreeKey,
    parent: TreeKey,
    layer: Layer,
    prev: TreeKey,
    next: TreeKey,
    k: int,
)
    requires
        !parent.spec_is_null(),
        !id.spec_is_null(),
        !ups.contains_key(id),
        chain_is(ups, down_or_empty(downs, parent), s),
        s.len() < usize::MAX,
        0 <= k <= s.len(),
        same_gap((prev, next), gap_at(s, k)),
        placed(ups, downs, layers, ups2, downs2, layers2, id, parent, layer, prev, next),
    ensures
        downs2.contains_key(parent),
        chain_is(ups2, downs2[parent], s.insert(k, id)),
{
    let d = down_or_empty(downs, parent);
    let c = moved_count(downs, id);
    let dw = crate::model::down_with(d, id, prev, next, c);
    let d1 = downs.insert(parent, dw);
    lemma_shift_keeps_shape(ups2, d1, parent_of(ups2, parent), c as int, WALK_LIMIT as nat);
    lemma_link_chain(ups, d, s, id, parent, prev, next, k, c);
    assert(downs2[parent].head == dw.head && downs2[parent].tail == dw.tail && downs2[parent].len == dw.len);
}

/// Inserting a node that has no `Up` with `insert_child(id, parent, order)` makes
/// the parent's chain of children the old chain with `id` at position
/// `min(order, len)`.
pub proof fn lemma_insert_child_list(
    ups: Map<TreeKey, Up>,
    downs: Map<TreeKey, Down>,
    layers: Map<TreeKey, Layer>,
    ups2: Map<TreeKey, Up>,
    downs2: Map<TreeKey, Down>,
    layers2: Map<TreeKey, Layer>,
    s: Seq<TreeKey>,
    id: TreeKey,
    parent: TreeKey,
    order: usize,
)
    requires
        !parent.spec_is_null(),
        !id.spec_is_null(),
        !ups.contains_key(id),
        chain_is(ups, down_or_empty(downs, parent), s),
        s.len() < usize::MAX,
        inserted_child(ups, downs, layers, ups2, downs2, layers2, id, parent, order),
    ensures
        downs2.contains_key(parent),
        chain_is(ups2, downs2[parent], s.insert(if order < s.len() { order as int } else { s.len() as int }, id)),
{
    let d = down_or_empty(downs, parent);
    lemma_slot_is_index(ups, d, s, order);
    let gap = slot(ups, d, order);
    let k = if order < s.len() { order as int } else { s.len() as int };
    lemma_link_list(
        ups, downs, layers, ups2, downs2, layers2, s, id, parent, child_layer(layers, parent), gap.0, gap.1, k,
    );
}

/// Inserting a node that has no `Up` with `insert_brother` beside child number `j`
/// of a parent makes the parent's chain the old chain with `id` at position `j`
/// (`Front`) or `j + 1` (`Back`).
pub proof fn lemma_insert_brother_list(
    ups: Map<TreeKey, Up>,
    downs: Map<TreeKey, Down>,
    layers: Map<TreeKey, Layer>,
    ups2: Map<TreeKey, Up>,
    downs2: Map<TreeKey, Down>,
    layers2: Map<TreeKey, Layer>,
    s: Seq<TreeKey>,
    id: TreeKey,
    brother: TreeKey,
    insert: InsertType,
    j: int,
)
    requires
        !id.spec_is_null(),
        !ups.contains_key(id),
        0 <= j < s.len(),
        s[j] == brother,
        !ups[brother].parent.spec_is_null(),
        chain_is(ups, down_or_empty(downs, ups[brother].parent), s),
        s.len() < usize::MAX,
        inserted_brother(ups, downs, layers, ups2, downs2, layers2, id, brother, insert),
    ensures
        downs2.contains_key(ups[brother].parent),
        chain_is(
            ups2,
            downs2[ups[brother].parent],
            s.insert(if insert == InsertType::Front { j } else { j + 1 }, id),
        ),
{
    let b = ups[brother];
    let layer = if layers.contains_key(brother) {
        layers[brother]
    } else {
        Layer { layer: crate::records::NULL_DEPTH, root: crate::model::null_key() }
    };
    let gap = gap_beside(b, brother, insert);
    let k = if insert == InsertType::Front { j } else { j + 1 };
    if j > 0 {
        assert(b.prev == s[j - 1]);
    }
    if j + 1 < s.len() {
        assert(b.next == s[j + 1]);
    }
    assert(same_gap(gap, gap_at(s, k)));
    lemma_link_list(ups, downs, layers, ups2, downs2, layers2, s, id, b.parent, layer, gap.0, gap.1, k);
}

/// Taking child number `k` out of the chain `s` and joining its neighbours makes
/// the chain `s` without it.
#[verifier::rlimit(100)]
proof fn lemma_unlink_chain(ups: Map<TreeKey, Up>, d: Down, s: Seq<TreeKey>, id: TreeKey, k: int, c: usize)
    requires
        chain_is(ups, d, s),
        0 <= k < s.len(),
        s[k] == id,
    ensures
        chain_is(
            bridge(ups, ups[id].prev, ups[id].next).remove(id),
            crate::model::down_without(d, ups[id].prev, ups[id].next, c),
            s.remove(k),
        ),
{
    let prev = ups[id].prev;
    let next = ups[id].next;
    let ups2 = bridge(ups, prev, next).remove(id);
    let t = s.remove(k);
    let d2 = crate::model::down_without(d, prev, next, c);
    assert(d2.len == t.len());
    if k > 0 {
        assert(prev == s[k - 1]);
    } else {
        assert(prev.spec_is_null());
    }
    if k + 1 < s.len() {
        assert(next == s[k + 1]);
    } else {
        assert(next.spec_is_null());
    }
    assert(prev.spec_is_null() || next.spec_is_null() || prev != next);
    assert(prev != id && next != id);
    assert forall|x: TreeKey| x != id && x != prev && x != next implies #[trigger] ups2.contains_key(x)
        == ups.contains_key(x) && (ups.contains_key(x) ==> ups2[x] == ups[x]) by {}
    if !prev.spec_is_null() {
        assert(ups2[prev] == Up { parent: ups[prev].parent, prev: ups[prev].prev, next });
    }
    if !next.spec_is_null() {
        assert(ups2[next] == Up { parent: ups[next].parent, prev, next: ups[next].next });
    }
    assert(t.no_duplicates()) by {
        assert forall|i: int, j: int| 0 <= i < t.len() && 0 <= j < t.len() && i != j implies t[i] != t[j] by {
            let si = if i < k { i } else { i + 1 };
            let sj = if j < k { j } else { j + 1 };
            assert(t[i] == s[si] && t[j] == s[sj]);
        }
    }
    assert forall|i: int| 0 <= i < t.len() implies !(#[trigger] t[i]).spec_is_null() && ups2.contains_key(t[i]) by {
        let si = if i < k { i } else { i + 1 };
        assert(t[i] == s[si]);
        assert(s[si] != id);
    }
    assert forall|i: int| 0 < i < t.len() implies ups2[#[trigger] t[i]].prev == t[i - 1] by {
        if i < k {
            assert(t[i] == s[i] && t[i - 1] == s[i - 1]);
            assert(s[i] != next && s[i] != id);
        } else if i == k {
            assert(t[i] == s[k + 1] && t[i - 1] == s[k - 1]);
        } else {
            assert(t[i] == s[i + 1] && t[i - 1] == s[i]);
            assert(s[i + 1] != next && s[i + 1] != id);
        }
    }
    assert forall|i: int| 0 <= i < t.len() - 1 implies ups2[#[trigger] t[i]].next == t[i + 1] by {
        if i < k - 1 {
            assert(t[i] == s[i] && t[i + 1] == s[i + 1]);
            assert(s[i] != prev && s[i] != id);
        } else if i == k - 1 {
            assert(t[i] == s[k - 1] && t[i + 1] == s[k + 1]);
        } else {
            assert(t[i] == s[i + 1] && t[i + 1] == s[i + 2]);
            assert(s[i + 1] != prev && s[i + 1] != id);
        }
    }
    if t.len() > 0 {
        if k > 0 {
            assert(t[0] == s[0]);
            assert(s[0] != next);
        } else {
            assert(t[0] == s[1]);
        }
        if k + 1 < s.len() {
            assert(t[t.len() - 1] == s[s.len() - 1]);
            assert(s[s.len() - 1] != prev);
        } else {
            assert(t[t.len() - 1] == s[s.len() - 2]);
        }
    }
}

/// Removing child number `k` of its parent makes the parent's chain of children
/// the old chain without it.
pub proof fn lemma_remove_list(
    ups: Map<TreeKey, Up>,
    downs: Map<TreeKey, Down>,
    layers: Map<TreeKey, Layer>,
    ups2: Map<TreeKey, Up>,
    downs2: Map<TreeKey, Down>,
    layers2: Map<TreeKey, Layer>,
    s: Seq<TreeKey>,
    id: TreeKey,
    k: int,
)
    requires
        has_parent(ups, id),
        downs.contains_key(ups[id].parent),
        chain_is(ups, downs[ups[id].parent], s),
        0 <= k < s.len(),
        s[k] == id,
        removed(ups, downs, layers, ups2, downs2, layers2, id),
    ensures
        downs2.contains_key(ups[id].parent),
        chain_is(ups2, downs2[ups[id].parent], s.remove(k)),
{
    let u = ups[id];
    let parent = u.parent;
    let c = moved_count(downs, id);
    let u1 = bridge(ups, u.prev, u.next);
    let dw = crate::model::down_without(downs[parent], u.prev, u.next, c);
    let d1 = downs.insert(parent, dw);
    lemma_shift_keeps_shape(u1, d1, parent_of(u1, parent), -c, WALK_LIMIT as nat);
    lemma_unlink_chain(ups, downs[parent], s, id, k, c);
    assert(downs2[parent].head == dw.head && downs2[parent].tail == dw.tail && downs2[parent].len == dw.len);
}

/// The position a child moved from `i` to the gap before child number `k` ends up
/// at, counted in the chain without it.
pub open spec fn moved_index(i: int, k: int) -> int {
    if k < i {
        k
    } else {
        k - 1
    }
}

/// A move within the parent is the same as unlinking the node and linking it
/// into the new gap.
#[verifier::rlimit(100)]
proof fn lemma_move_as_relink(
    ups: Map<TreeKey, Up>,
    downs: Map<TreeKey, Down>,
    layers: Map<TreeKey, Layer>,
    ups2: Map<TreeKey, Up>,
    downs2: Map<TreeKey, Down>,
    layers2: Map<TreeKey, Layer>,
    id: TreeKey,
    parent: TreeKey,
    layer: Layer,
    prev: TreeKey,
    next: TreeKey,
)
    requires
        has_parent(ups, id),
        ups[id].parent == parent,
        downs.contains_key(parent),
        downs[parent].len >= 1,
        !same_place(ups, id, prev, next),
        prev.spec_is_null() || prev != ups[id].prev,
        next.spec_is_null() || next != ups[id].next,
        ups[id].prev != id,
        ups[id].next != id,
        placed(ups, downs, layers, ups2, downs2, layers2, id, parent, layer, prev, next),
    ensures
        ups2 == linked_in(bridge(ups, ups[id].prev, ups[id].next).remove(id), id, parent, prev, next),
        downs2.contains_key(parent),
        ({
            let dw = crate::model::down_with(
                crate::model::down_without(downs[parent], ups[id].prev, ups[id].next, 0),
                id,
                prev,
                next,
                0,
            );
            downs2[parent].head == dw.head && downs2[parent].tail == dw.tail && downs2[parent].len == dw.len
        }),
{
    let u1 = bridge(ups, ups[id].prev, ups[id].next).remove(id);
    assert(linked_in(u1, id, parent, prev, next) =~= ups2);
}

/// The gap before child number `k` of `s`, away from child number `i`, is the gap
/// before child number `moved_index(i, k)` of `s` without child `i`.
proof fn lemma_gap_without(s: Seq<TreeKey>, i: int, k: int, prev: TreeKey, next: TreeKey)
    requires
        0 <= i < s.len(),
        0 <= k <= s.len(),
        k != i && k != i + 1,
        same_gap((prev, next), gap_at(s, k)),
    ensures
        same_gap((prev, next), gap_at(s.remove(i), moved_index(i, k))),
{
    let s1 = s.remove(i);
    let k1 = moved_index(i, k);
    if k1 > 0 {
        assert(s1[k1 - 1] == s[k - 1]);
    }
    if k1 < s1.len() {
        assert(s1[k1] == s[k]);
    }
}

/// The chain after child number `i` was unlinked and linked again into the gap
/// before child number `k`.
#[verifier::rlimit(100)]
proof fn lemma_move_chain(
    ups: Map<TreeKey, Up>,
    d: Down,
    ups2: Map<TreeKey, Up>,
    d2: Down,
    s: Seq<TreeKey>,
    id: TreeKey,
    parent: TreeKey,
    prev: TreeKey,
    next: TreeKey,
    i: int,
    k: int,
)
    requires
        chain_is(ups, d, s),
        0 <= i < s.len(),
        s[i] == id,
        0 <= k <= s.len(),
        k != i && k != i + 1,
        same_gap((prev, next), gap_at(s, k)),
        ups2 == linked_in(bridge(ups, ups[id].prev, ups[id].next).remove(id), id, parent, prev, next),
        ({
            let dw = crate::model::down_with(
                crate::model::down_without(d, ups[id].prev, ups[id].next, 0),
                id,
                prev,
                next,
                0,
            );
            d2.head == dw.head && d2.tail == dw.tail && d2.len == dw.len
        }),
    ensures
        chain_is(ups2, d2, s.remove(i).insert(moved_index(i, k), id)),
{
    let fp = ups[id].prev;
    let fnx = ups[id].next;
    let u1 = bridge(ups, fp, fnx).remove(id);
    lemma_unlink_chain(ups, d, s, id, i, 0);
    lemma_gap_without(s, i, k, prev, next);
    assert(!u1.contains_key(id));
    assert(!id.spec_is_null());
    lemma_link_chain(u1, crate::model::down_without(d, fp, fnx, 0), s.remove(i), id, parent, prev, next, moved_index(i, k), 0);
}

/// The non-null sides of a gap of a chain are the chain's nodes next to it.
proof fn lemma_gap_sides(ups: Map<TreeKey, Up>, d: Down, s: Seq<TreeKey>, k: int, prev: TreeKey, next: TreeKey)
    requires
        chain_is(ups, d, s),
        0 <= k <= s.len(),
        same_gap((prev, next), gap_at(s, k)),
    ensures
        k > 0 ==> prev == s[k - 1],
        k == 0 ==> prev.spec_is_null(),
        k < s.len() ==> next == s[k],
        k == s.len() ==> next.spec_is_null(),
{
    if k > 0 {
        assert(!s[k - 1].spec_is_null());
    }
    if k < s.len() {
        assert(!s[k].spec_is_null());
    }
}

/// Facts about a move of child number `i` to the gap before child number `k`,
/// away from its own place.
proof fn lemma_move_facts(
    ups: Map<TreeKey, Up>,
    d: Down,
    s: Seq<TreeKey>,
    id: TreeKey,
    i: int,
    k: int,
    prev: TreeKey,
    next: TreeKey,
)
    requires
        chain_is(ups, d, s),
        0 <= i < s.len(),
        s[i] == id,
        0 <= k <= s.len(),
        k != i && k != i + 1,
        same_gap((prev, next), gap_at(s, k)),
    ensures
        d.len >= 1,
        ups[id].prev != id,
        ups[id].next != id,
        prev.spec_is_null() || prev != ups[id].prev,
        next.spec_is_null() || next != ups[id].next,
        !same_place(ups, id, prev, next),
{
    lemma_gap_sides(ups, d, s, k, prev, next);
    let fp = ups[id].prev;
    let fnx = ups[id].next;
    if i > 0 {
        assert(fp == s[i - 1]);
    } else {
        assert(fp.spec_is_null());
    }
    if i + 1 < s.len() {
        assert(fnx == s[i + 1]);
    } else {
        assert(fnx.spec_is_null());
    }
    assert(!id.spec_is_null());
    assert(prev != id && next != id);
}

/// Moving child number `i` of `parent` with `insert_child(id, parent, order)`:
/// where `min(order, len)` is `i` or `i + 1` the chain stays as it is; otherwise
/// the chain becomes the old one with `id` taken out and put back before what was
/// child number `min(order, len)`.
#[verifier::rlimit(100)]
pub proof fn lemma_move_child_list(
    ups: Map<TreeKey, Up>,
    downs: Map<TreeKey, Down>,
    layers: Map<TreeKey, Layer>,
    ups2: Map<TreeKey, Up>,
    downs2: Map<TreeKey, Down>,
    layers2: Map<TreeKey, Layer>,
    s: Seq<TreeKey>,
    id: TreeKey,
    parent: TreeKey,
    order: usize,
    i: int,
)
    requires
        !parent.spec_is_null(),
        downs.contains_key(parent),
        chain_is(ups, downs[parent], s),
        0 <= i < s.len(),
        s[i] == id,
        ups[id].parent == parent,
        inserted_child(ups, downs, layers, ups2, downs2, layers2, id, parent, order),
    ensures
        downs2.contains_key(parent),
        ({
            let k = if order < s.len() { order as int } else { s.len() as int };
            chain_is(
                ups2,
                downs2[parent],
                if k == i || k == i + 1 { s } else { s.remove(i).insert(moved_index(i, k), id) },
            )
        }),
{
    let d = downs[parent];
    assert(down_or_empty(downs, parent) == d);
    lemma_slot_is_index(ups, d, s, order);
    let gap = slot(ups, d, order);
    let prev = gap.0;
    let next = gap.1;
    let k = if order < s.len() { order as int } else { s.len() as int };
    assert(has_parent(ups, id));
    lemma_gap_sides(ups, d, s, k, prev, next);
    if k == i {
        assert(next == id);
    } else if k == i + 1 {
        assert(prev == id);
    } else {
        lemma_move_facts(ups, d, s, id, i, k, prev, next);
        lemma_move_as_relink(
            ups, downs, layers, ups2, downs2, layers2, id, parent, child_layer(layers, parent), prev, next,
        );
        lemma_move_chain(ups, d, ups2, downs2[parent], s, id, parent, prev, next, i, k);
    }
}

} // verus!
