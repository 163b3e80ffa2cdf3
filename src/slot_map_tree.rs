use vstd::prelude::*;

use std::collections::HashMap;

use crate::records::{Down, Layer, TreeKey, Up};
use crate::storage::{Storage, StorageMut};

verus! {

broadcast use vstd::std_specs::hash::group_hash_axioms;

/// Reads a map keyed by the 64-bit form of a handle as a map keyed by handles.
pub open spec fn by_key<V>(m: Map<u64, V>) -> Map<TreeKey, V> {
    Map::new(|k: TreeKey| m.contains_key(k.0), |k: TreeKey| m[k.0])
}

proof fn lemma_by_key_insert<V>(m: Map<u64, V>, k: TreeKey, v: V)
    ensures
        by_key(m.insert(k.0, v)) == by_key(m).insert(k, v),
{
    assert(by_key(m.insert(k.0, v)) =~= by_key(m).insert(k, v));
}

proof fn lemma_by_key_remove<V>(m: Map<u64, V>, k: TreeKey)
    ensures
        by_key(m.remove(k.0)) == by_key(m).remove(k),
{
    assert(by_key(m.remove(k.0)) =~= by_key(m).remove(k));
}

/// A storage that keeps each record kind in a hash map keyed by the handle, and
/// tracks which nodes were registered as roots.
pub struct SlotMapTree {
    up: HashMap<u64, Up>,
    down: HashMap<u64, Down>,
    layer: HashMap<u64, Layer>,
    roots: Ghost<Set<TreeKey>>,
}

impl SlotMapTree {
    /// An empty storage: no records of any kind, no roots.
    pub fn new() -> (r: SlotMapTree)
        ensures
            r.ups() == Map::<TreeKey, Up>::empty(),
            r.downs() == Map::<TreeKey, Down>::empty(),
            r.layers() == Map::<TreeKey, Layer>::empty(),
            r.roots() == Set::<TreeKey>::empty(),
    {
        let r = SlotMapTree {
            up: HashMap::new(),
            down: HashMap::new(),
            layer: HashMap::new(),
            roots: Ghost(Set::empty()),
        };
        assert(r.ups() =~= Map::<TreeKey, Up>::empty());
        assert(r.downs() =~= Map::<TreeKey, Down>::empty());
        assert(r.layers() =~= Map::<TreeKey, Layer>::empty());
        r
    }
}

impl Default for SlotMapTree {
    /// An empty storage, as `SlotMapTree::new`.
    fn default() -> (r: SlotMapTree)
        ensures
            r.ups() == Map::<TreeKey, Up>::empty(),
            r.downs() == Map::<TreeKey, Down>::empty(),
            r.layers() == Map::<TreeKey, Layer>::empty(),
            r.roots() == Set::<TreeKey>::empty(),
    {
        SlotMapTree::new()
    }
}

impl Storage for SlotMapTree {
    closed spec fn ups(&self) -> Map<TreeKey, Up> {
        by_key(self.up@)
    }

    closed spec fn downs(&self) -> Map<TreeKey, Down> {
        by_key(self.down@)
    }

    closed spec fn layers(&self) -> Map<TreeKey, Layer> {
        by_key(self.layer@)
    }

    closed spec fn roots(&self) -> Set<TreeKey> {
        self.roots@
    }

    fn get_up(&self, k: TreeKey) -> (r: Option<&Up>) {
        self.up.get(&k.0)
    }

    fn up(&self, k: TreeKey) -> (r: &Up) {
        self.up.get(&k.0).unwrap()
    }

    fn get_layer(&self, k: TreeKey) -> (r: Option<&Layer>) {
        self.layer.get(&k.0)
    }

    fn layer(&self, k: TreeKey) -> (r: &Layer) {
        self.layer.get(&k.0).unwrap()
    }

    fn get_down(&self, k: TreeKey) -> (r: Option<&Down>) {
        self.down.get(&k.0)
    }

    fn down(&self, k: TreeKey) -> (r: &Down) {
        self.down.get(&k.0).unwrap()
    }
}

impl StorageMut for SlotMapTree {
    fn set_up(&mut self, k: TreeKey, up: Up) {
        proof {
            lemma_by_key_insert(self.up@, k, up);
        }
        self.up.insert(k.0, up);
    }

    fn remove_up(&mut self, k: TreeKey) {
        proof {
            lemma_by_key_remove(self.up@, k);
        }
        self.up.remove(&k.0);
    }

    fn set_layer(&mut self, k: TreeKey, layer: Layer) {
        proof {
            lemma_by_key_insert(self.layer@, k, layer);
        }
        self.layer.insert(k.0, layer);
    }

    fn remove_layer(&mut self, k: TreeKey) {
        proof {
            lemma_by_key_remove(self.layer@, k);
        }
        self.layer.remove(&k.0);
    }

    fn set_down(&mut self, k: TreeKey, down: Down) {
        proof {
            lemma_by_key_insert(self.down@, k, down);
        }
        self.down.insert(k.0, down);
    }

    fn remove_down(&mut self, k: TreeKey) {
        proof {
            lemma_by_key_remove(self.down@, k);
        }
        self.down.remove(&k.0);
    }

    fn set_root(&mut self, k: TreeKey) {
        self.roots = Ghost(self.roots@.insert(k));
    }

    fn remove_root(&mut self, k: TreeKey) {
        self.roots = Ghost(self.roots@.remove(k));
    }
}

} // verus!
