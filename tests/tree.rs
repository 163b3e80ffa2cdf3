use pi_tree::{Down, InsertType, Layer, SlotMapTree, Storage, Tree, TreeKey, Up, NULL_DEPTH};

fn key(i: u32) -> TreeKey {
    TreeKey::from_ffi((1u64 << 32) | i as u64)
}

fn up(tree: &Tree<SlotMapTree>, k: TreeKey) -> Up {
    *tree.get_storage().get_up(k).unwrap()
}

fn down(tree: &Tree<SlotMapTree>, k: TreeKey) -> Down {
    *tree.get_storage().get_down(k).unwrap()
}

fn layer(tree: &Tree<SlotMapTree>, k: TreeKey) -> Option<Layer> {
    tree.get_storage().get_layer(k).copied()
}

fn children(tree: &Tree<SlotMapTree>, parent: TreeKey) -> Vec<TreeKey> {
    let mut it = tree.iter(down(tree, parent).head());
    let mut out = Vec::new();
    while let Some(k) = it.next() {
        out.push(k);
    }
    out
}

/// R with C1..C5 appended in order.
fn five_children() -> (Tree<SlotMapTree>, TreeKey, Vec<TreeKey>) {
    let mut tree = Tree::new(SlotMapTree::new());
    let r = key(0);
    tree.insert_child(r, TreeKey::null(), usize::MAX);
    let cs: Vec<TreeKey> = (1..=5).map(key).collect();
    for &c in &cs {
        tree.insert_child(c, r, usize::MAX);
    }
    (tree, r, cs)
}

fn check_links(tree: &Tree<SlotMapTree>, parent: TreeKey) {
    let d = down(tree, parent);
    let kids = children(tree, parent);
    assert_eq!(kids.len(), d.len());
    for (i, &k) in kids.iter().enumerate() {
        let u = up(tree, k);
        assert_eq!(u.parent(), parent);
        if i == 0 {
            assert!(u.prev().is_null());
            assert_eq!(d.head(), k);
        } else {
            assert_eq!(u.prev(), kids[i - 1]);
            assert_eq!(up(tree, kids[i - 1]).next(), k);
        }
        if i + 1 == kids.len() {
            assert!(u.next().is_null());
            assert_eq!(d.tail(), k);
        }
    }
}

#[test]
fn test() {
    let mut tree: Tree<SlotMapTree> = Tree::new(SlotMapTree::new());
    let p1 = key(0);
    tree.insert_child(p1, TreeKey::null(), std::usize::MAX);
    let c1 = key(1);
    let c2 = key(2);
    let c3 = key(3);
    let c4 = key(4);
    let c5 = key(5);
    tree.insert_child(c4, p1, std::usize::MAX);
    tree.insert_child(c3, p1, std::usize::MAX);
    tree.insert_brother(c1, c4, InsertType::Front);
    tree.insert_brother(c2, c4, InsertType::Front);
    tree.insert_brother(c3, c4, InsertType::Front);
    tree.insert_child(c5, p1, std::usize::MAX);

    let s = tree.get_storage();
    assert_eq!((s.get_up(c1).unwrap().prev(), s.get_up(c1).unwrap().next()), (TreeKey::null(), c2));
    assert_eq!((s.get_up(c2).unwrap().prev(), s.get_up(c2).unwrap().next()), (c1, c3));
    assert_eq!((s.get_up(c3).unwrap().prev(), s.get_up(c3).unwrap().next()), (c2, c4));
    assert_eq!((s.get_up(c4).unwrap().prev(), s.get_up(c4).unwrap().next()), (c3, c5));
    assert_eq!((s.get_up(c5).unwrap().prev(), s.get_up(c5).unwrap().next()), (c4, TreeKey::null()));
    assert_eq!(down(&tree, p1).len(), 5);
    assert_eq!(children(&tree, p1), vec![c1, c2, c3, c4, c5]);
}

#[test]
fn append_five_children() {
    let (tree, r, cs) = five_children();
    let d = down(&tree, r);
    assert_eq!(d.len(), 5);
    assert_eq!(d.head(), cs[0]);
    assert_eq!(d.tail(), cs[4]);
    assert_eq!(d.count(), 5);
    assert_eq!(up(&tree, cs[2]), Up::new(r, cs[1], cs[3]));
    check_links(&tree, r);
}

#[test]
fn brother_in_front() {
    let (mut tree, r, cs) = five_children();
    let before = down(&tree, r);
    let x = key(9);
    tree.insert_brother(x, cs[2], InsertType::Front);
    assert_eq!(up(&tree, x), Up::new(r, cs[1], cs[2]));
    assert_eq!(up(&tree, cs[1]).next(), x);
    assert_eq!(up(&tree, cs[2]).prev(), x);
    let after = down(&tree, r);
    assert_eq!(after.len(), before.len() + 1);
    assert_eq!(after.count(), before.count() + 1);
    check_links(&tree, r);
}

#[test]
fn brother_behind_the_tail() {
    let (mut tree, r, cs) = five_children();
    let x = key(9);
    tree.insert_brother(x, cs[4], InsertType::Back);
    assert_eq!(up(&tree, x), Up::new(r, cs[4], TreeKey::null()));
    assert_eq!(down(&tree, r).tail(), x);
    check_links(&tree, r);
}

/// R, C1..C5, and G1, G2 under C3.
fn with_grandchildren() -> (Tree<SlotMapTree>, TreeKey, Vec<TreeKey>, TreeKey, TreeKey) {
    let (mut tree, r, cs) = five_children();
    let g1 = key(11);
    let g2 = key(12);
    tree.insert_child(g1, cs[2], usize::MAX);
    tree.insert_child(g2, cs[2], usize::MAX);
    (tree, r, cs, g1, g2)
}

#[test]
fn remove_with_grandchildren() {
    let (mut tree, r, cs, g1, g2) = with_grandchildren();
    let c3 = cs[2];
    let before_r = down(&tree, r);
    let before_c3 = down(&tree, c3);
    assert_eq!(layer(&tree, g2), Some(Layer::new(3, r)));
    tree.remove(c3);
    assert_eq!(down(&tree, r).count(), before_r.count() - 3);
    assert_eq!(down(&tree, r).len(), before_r.len() - 1);
    assert!(layer(&tree, c3).is_none());
    assert!(tree.get_storage().get_up(c3).is_none());
    assert_eq!(up(&tree, g1).parent(), c3);
    assert_eq!(down(&tree, c3), before_c3);
    assert!(layer(&tree, g1).is_none());
    assert!(layer(&tree, g2).is_none());
    assert_eq!(up(&tree, cs[1]).next(), cs[3]);
    assert_eq!(up(&tree, cs[3]).prev(), cs[1]);
    check_links(&tree, r);
}

#[test]
fn reattach_restamps_subtree() {
    let (mut tree, r, cs, g1, g2) = with_grandchildren();
    let c3 = cs[2];
    tree.remove(c3);
    let before_r = down(&tree, r);
    let c3_count = down(&tree, c3).count();
    tree.insert_child(c3, r, 0);
    assert_eq!(down(&tree, r).count(), before_r.count() + c3_count + 1);
    assert_eq!(down(&tree, r).head(), c3);
    assert_eq!(layer(&tree, c3), Some(Layer::new(2, r)));
    assert_eq!(layer(&tree, g1).map(|l| l.root()), Some(r));
    assert_eq!(layer(&tree, g2).map(|l| l.root()), Some(r));
    assert_eq!(layer(&tree, g2).map(|l| l.layer()), Some(3));
    check_links(&tree, r);
}

#[test]
fn detach_and_reattach_keeps_counts() {
    let (mut tree, r, cs, _g1, _g2) = with_grandchildren();
    let before = down(&tree, r).count();
    tree.remove(cs[2]);
    tree.insert_child(cs[2], r, 3);
    assert_eq!(down(&tree, r).count(), before);
    tree.remove(cs[2]);
    tree.insert_brother(cs[2], cs[0], InsertType::Back);
    assert_eq!(down(&tree, r).count(), before);
    check_links(&tree, r);
}

#[test]
fn counts_reach_every_ancestor() {
    let (mut tree, r, cs, g1, _g2) = with_grandchildren();
    let top = down(&tree, r).count();
    let mid = down(&tree, cs[2]).count();
    let leaf = key(20);
    tree.insert_child(leaf, g1, 0);
    assert_eq!(down(&tree, g1).count(), 1);
    assert_eq!(down(&tree, cs[2]).count(), mid + 1);
    assert_eq!(down(&tree, r).count(), top + 1);
    assert_eq!(layer(&tree, leaf), Some(Layer::new(4, r)));
}

#[test]
fn move_in_place_changes_nothing() {
    let (mut tree, r, cs) = five_children();
    for order in 0..5 {
        let ups: Vec<Up> = cs.iter().map(|&c| up(&tree, c)).collect();
        let d = down(&tree, r);
        tree.insert_child(cs[order], r, order);
        let ups2: Vec<Up> = cs.iter().map(|&c| up(&tree, c)).collect();
        assert_eq!(ups, ups2);
        assert_eq!(d, down(&tree, r));
    }
}

#[test]
fn move_within_parent() {
    let (mut tree, r, cs) = five_children();
    let before = down(&tree, r);
    tree.insert_child(cs[0], r, usize::MAX);
    assert_eq!(children(&tree, r), vec![cs[1], cs[2], cs[3], cs[4], cs[0]]);
    tree.insert_child(cs[3], r, 0);
    assert_eq!(children(&tree, r), vec![cs[3], cs[1], cs[2], cs[4], cs[0]]);
    tree.insert_child(cs[0], r, 2);
    assert_eq!(children(&tree, r), vec![cs[3], cs[1], cs[0], cs[2], cs[4]]);
    let after = down(&tree, r);
    assert_eq!(after.len(), before.len());
    assert_eq!(after.count(), before.count());
    check_links(&tree, r);
}

#[test]
fn insert_at_order_from_either_end() {
    let (mut tree, r, cs) = five_children();
    let a = key(30);
    let b = key(31);
    tree.insert_child(a, r, 1);
    assert_eq!(children(&tree, r), vec![cs[0], a, cs[1], cs[2], cs[3], cs[4]]);
    tree.insert_child(b, r, 5);
    assert_eq!(children(&tree, r), vec![cs[0], a, cs[1], cs[2], cs[3], b, cs[4]]);
    check_links(&tree, r);
}

#[test]
fn depth_follows_parent() {
    let (tree, r, cs, g1, _g2) = with_grandchildren();
    assert_eq!(layer(&tree, r), Some(Layer::new(1, r)));
    for &c in &cs {
        assert_eq!(layer(&tree, c), Some(Layer::new(2, r)));
    }
    let p = up(&tree, g1).parent();
    assert_eq!(layer(&tree, g1).unwrap().layer(), layer(&tree, p).unwrap().layer() + 1);
    assert_eq!(layer(&tree, g1).unwrap().root(), layer(&tree, p).unwrap().root());
}

#[test]
fn children_of_a_detached_parent_have_no_layer() {
    let mut tree = Tree::new(SlotMapTree::new());
    let a = key(1);
    let b = key(2);
    tree.insert_child(b, a, 0);
    assert!(layer(&tree, b).is_none());
    assert_eq!(up(&tree, b), Up::new(a, TreeKey::null(), TreeKey::null()));
    assert_eq!(down(&tree, a), Down::new(b, b, 1, 1));
    // making `a` a root stamps what hangs below it
    tree.insert_child(a, TreeKey::null(), 0);
    assert_eq!(layer(&tree, a), Some(Layer::new(1, a)));
    assert_eq!(layer(&tree, b), Some(Layer::new(2, a)));
    assert_eq!(down(&tree, a), Down::new(b, b, 1, 1));
}

#[test]
fn root_of_a_child_is_refused() {
    let (mut tree, r, cs) = five_children();
    let before = up(&tree, cs[0]);
    let l = layer(&tree, cs[0]);
    tree.insert_child(cs[0], TreeKey::null(), 0);
    assert_eq!(up(&tree, cs[0]), before);
    assert_eq!(layer(&tree, cs[0]), l);
    assert_eq!(down(&tree, r).len(), 5);
}

#[test]
fn remove_without_parent_is_a_no_op() {
    let mut tree = Tree::new(SlotMapTree::new());
    let a = key(1);
    let b = key(2);
    tree.insert_child(b, a, 0);
    tree.remove(a);
    assert_eq!(down(&tree, a), Down::new(b, b, 1, 1));
    assert_eq!(up(&tree, b).parent(), a);
}

#[test]
fn subtree_walk_is_preorder() {
    let (mut tree, r, cs, g1, g2) = with_grandchildren();
    let leaf = key(20);
    tree.insert_child(leaf, g1, 0);
    let mut it = tree.recursive_iter(r);
    let mut out = Vec::new();
    while let Some(k) = it.next() {
        out.push(k);
    }
    assert_eq!(out, vec![r, cs[0], cs[1], cs[2], g1, leaf, g2, cs[3], cs[4]]);
    let mut empty = tree.recursive_iter(TreeKey::null());
    assert_eq!(empty.next(), None);
}

#[test]
fn children_walk_stops_at_null() {
    let (tree, _r, cs) = five_children();
    let mut it = tree.iter(cs[3]);
    assert_eq!(it.next(), Some(cs[3]));
    assert_eq!(it.next(), Some(cs[4]));
    assert_eq!(it.next(), None);
    assert_eq!(it.next(), None);
    let mut none = tree.iter(TreeKey::null());
    assert_eq!(none.next(), None);
}

#[test]
fn null_key_and_records() {
    assert!(TreeKey::null().is_null());
    assert_eq!(TreeKey::null().as_ffi(), 0xFFFF_FFFF);
    assert!(TreeKey::from_ffi((7u64 << 32) | 0xFFFF_FFFF).is_null());
    assert!(!key(3).is_null());
    assert_eq!(key(3).index(), 3);
    let l = Layer::default();
    assert_eq!(l.layer(), NULL_DEPTH);
    assert!(l.root().is_null());
    let u = Up::default();
    assert!(u.parent().is_null() && u.prev().is_null() && u.next().is_null());
    let d = Down::default();
    assert_eq!((d.len(), d.count()), (0, 0));
    assert!(d.head().is_null() && d.tail().is_null());
}

#[test]
fn tree_reads_as_its_storage() {
    let (tree, r, cs) = five_children();
    assert_eq!(tree.get_down(r).unwrap().len(), 5);
    assert_eq!(tree.get_up(cs[0]).unwrap().next(), cs[1]);
    assert_eq!(tree.up(cs[4]).prev(), cs[3]);
    assert_eq!(tree.layer(cs[2]).layer(), 2);
    assert_eq!(tree.down(r).tail(), cs[4]);
}

#[test]
fn brother_moves_within_parent() {
    let (mut tree, r, cs) = five_children();
    let before = down(&tree, r);
    tree.insert_brother(cs[0], cs[3], InsertType::Back);
    assert_eq!(children(&tree, r), vec![cs[1], cs[2], cs[3], cs[0], cs[4]]);
    tree.insert_brother(cs[4], cs[1], InsertType::Front);
    assert_eq!(children(&tree, r), vec![cs[4], cs[1], cs[2], cs[3], cs[0]]);
    // beside itself: nothing moves
    tree.insert_brother(cs[2], cs[2], InsertType::Front);
    assert_eq!(children(&tree, r), vec![cs[4], cs[1], cs[2], cs[3], cs[0]]);
    let after = down(&tree, r);
    assert_eq!((after.len(), after.count()), (before.len(), before.count()));
    check_links(&tree, r);
}

#[test]
fn brother_of_a_reattached_child() {
    let mut tree = Tree::new(SlotMapTree::new());
    let a = key(1);
    let b = key(2);
    let c = key(3);
    tree.insert_child(a, TreeKey::null(), 0);
    tree.insert_child(b, a, 0);
    tree.remove(b);
    tree.insert_child(b, a, 0);
    tree.insert_brother(c, b, InsertType::Back);
    assert_eq!(children(&tree, a), vec![b, c]);
    assert_eq!(layer(&tree, c), Some(Layer::new(2, a)));
}

#[test]
fn remove_of_an_attached_root_is_a_no_op() {
    let (mut tree, r, cs, g1, _g2) = with_grandchildren();
    let d = down(&tree, r);
    tree.remove(r);
    assert_eq!(layer(&tree, r), Some(Layer::new(1, r)));
    assert_eq!(layer(&tree, cs[0]), Some(Layer::new(2, r)));
    assert_eq!(layer(&tree, g1), Some(Layer::new(3, r)));
    assert_eq!(down(&tree, r), d);
    assert!(tree.get_storage().get_up(r).is_none());
    check_links(&tree, r);
}

#[test]
fn defaults_are_the_null_records() {
    assert_eq!(Down::default(), Down::new(TreeKey::null(), TreeKey::null(), 0, 0));
    assert_eq!(Up::default(), Up::new(TreeKey::null(), TreeKey::null(), TreeKey::null()));
    assert_eq!(Layer::default(), Layer::new(NULL_DEPTH, TreeKey::null()));
}

#[test]
fn key_with_index_has_version_zero() {
    let k = TreeKey::with(7);
    assert_eq!(k.as_ffi(), 7);
    assert_eq!(k.index(), 7);
    assert!(!k.is_null());
    assert!(TreeKey::with(0xFFFF_FFFF).is_null());
}

#[test]
fn default_storage_is_empty() {
    let s = SlotMapTree::default();
    assert!(s.get_up(key(1)).is_none());
    assert!(s.get_down(key(1)).is_none());
    assert!(s.get_layer(key(1)).is_none());
    let mut tree = Tree::new(s);
    tree.insert_child(key(1), TreeKey::null(), 0);
    assert_eq!(layer(&tree, key(1)), Some(Layer::new(1, key(1))));
}
