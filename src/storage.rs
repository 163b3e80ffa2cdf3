use vstd::prelude::*;

use crate::records::{Down, Layer, TreeKey, Up};

verus! {

/// Read access to the three record kinds, keyed by node handle.
///
/// `ups`, `downs` and `layers` are the records that the storage holds: a handle
/// outside a map's domain has no record of that kind.
pub trait Storage {
    spec fn ups(&self) -> Map<TreeKey, Up>;

    spec fn downs(&self) -> Map<TreeKey, Down>;

    spec fn layers(&self) -> Map<TreeKey, Layer>;

    /// The nodes registered as roots through `StorageMut::set_root`.
    spec fn roots(&self) -> Set<TreeKey>;

    fn get_up(&self, k: TreeKey) -> (r: Option<&Up>)
        ensures
            match r {
                Some(u) => self.ups().contains_key(k) && *u == self.ups()[k],
                None => !self.ups().contains_key(k),
            },
    ;

    fn up(&self, k: TreeKey) -> (r: &Up)
        requires
            self.ups().contains_key(k),
        ensures
            *r == self.ups()[k],
    ;

    fn get_layer(&self, k: TreeKey) -> (r: Option<&Layer>)
        ensures
            match r {
                Some(l) => self.layers().contains_key(k) && *l == self.layers()[k],
                None => !self.layers().contains_key(k),
            },
    ;

    fn layer(&self, k: TreeKey) -> (r: &Layer)
        requires
            self.layers().contains_key(k),
        ensures
            *r == self.layers()[k],
    ;

    fn get_down(&self, k: TreeKey) -> (r: Option<&Down>)
        ensures
            match r {
                Some(d) => self.downs().contains_key(k) && *d == self.downs()[k],
                None => !self.downs().contains_key(k),
            },
    ;

    fn down(&self, k: TreeKey) -> (r: &Down)
        requires
            self.downs().contains_key(k),
        ensures
            *r == self.downs()[k],
    ;
}

/// Write access to the records, and hooks that are told when a node becomes or
/// stops being a root. Each write changes exactly one record.
pub trait StorageMut: Storage {
    fn set_up(&mut self, k: TreeKey, up: Up)
        ensures
            final(self).ups() == old(self).ups().insert(k, up),
            final(self).downs() == old(self).downs(),
            final(self).layers() == old(self).layers(),
            final(self).roots() == old(self).roots(),
    ;

    fn remove_up(&mut self, k: TreeKey)
        ensures
            final(self).ups() == old(self).ups().remove(k),
            final(self).downs() == old(self).downs(),
            final(self).layers() == old(self).layers(),
            final(self).roots() == old(self).roots(),
    ;

    fn set_layer(&mut self, k: TreeKey, layer: Layer)
        ensures
            final(self).ups() == old(self).ups(),
            final(self).downs() == old(self).downs(),
            final(self).layers() == old(self).layers().insert(k, layer),
            final(self).roots() == old(self).roots(),
    ;

    fn remove_layer(&mut self, k: TreeKey)
        ensures
            final(self).ups() == old(self).ups(),
            final(self).downs() == old(self).downs(),
            final(self).layers() == old(self).layers().remove(k),
            final(self).roots() == old(self).roots(),
    ;

    fn set_down(&mut self, k: TreeKey, down: Down)
        ensures
            final(self).ups() == old(self).ups(),
            final(self).downs() == old(self).downs().insert(k, down),
            final(self).layers() == old(self).layers(),
            final(self).roots() == old(self).roots(),
    ;

    fn remove_down(&mut self, k: TreeKey)
        ensures
            final(self).ups() == old(self).ups(),
            final(self).downs() == old(self).downs().remove(k),
            final(self).layers() == old(self).layers(),
            final(self).roots() == old(self).roots(),
    ;

    /// Registers `k` as a root; leaves the records as they are.
    fn set_root(&mut self, k: TreeKey)
        ensures
            final(self).ups() == old(self).ups(),
            final(self).downs() == old(self).downs(),
            final(self).layers() == old(self).layers(),
            final(self).roots() == old(self).roots().insert(k),
    ;

    /// Takes `k` out of the roots; leaves the records as they are.
    fn remove_root(&mut self, k: TreeKey)
        ensures
            final(self).ups() == old(self).ups(),
            final(self).downs() == old(self).downs(),
            final(self).layers() == old(self).layers(),
            final(self).roots() == old(self).roots().remove(k),
    ;
}

} // verus!
