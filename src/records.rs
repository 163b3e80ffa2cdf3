use vstd::prelude::*;

verus! {

/// The number of slot indices: a handle's slot index is its value modulo this.
pub const INDEX_SPAN: u64 = 0x1_0000_0000;

/// The slot index that marks the null handle.
pub const NULL_INDEX: u64 = 0xFFFF_FFFF;

/// The depth that marks a node as not attached to any rooted tree.
pub const NULL_DEPTH: usize = usize::MAX;

/// A node handle: the 64-bit form of an arena key, version in the high half,
/// slot index in the low half.
#[derive(Clone, Copy, Debug, PartialEq, Eq, Hash, Structural)]
pub struct TreeKey(pub u64);

impl TreeKey {
    pub open spec fn spec_is_null(&self) -> bool {
        self.0 % INDEX_SPAN == NULL_INDEX
    }

    /// The null handle (slot index all ones, version zero).
    pub fn null() -> (r: TreeKey)
        ensures
            r.spec_is_null(),
            r.0 == NULL_INDEX,
    {
        TreeKey(NULL_INDEX)
    }

    #[verifier::when_used_as_spec(spec_is_null)]
    pub fn is_null(&self) -> (r: bool)
        ensures
            r == self.spec_is_null(),
    {
        self.0 % INDEX_SPAN == NULL_INDEX
    }

    /// The handle of slot `idx` (taken modulo the number of slots) with version zero.
    pub fn with(idx: usize) -> (r: TreeKey)
        ensures
            r.0 as int == idx as int % INDEX_SPAN as int,
    {
        TreeKey((idx as u64) % INDEX_SPAN)
    }

    pub fn from_ffi(value: u64) -> (r: TreeKey)
        ensures
            r.0 == value,
    {
        TreeKey(value)
    }

    pub fn as_ffi(&self) -> (r: u64)
        ensures
            r == self.0,
    {
        self.0
    }

    /// The slot index of the handle.
    pub fn index(&self) -> (r: usize)
        ensures
            r == self.0 % INDEX_SPAN,
    {
        (self.0 % INDEX_SPAN) as usize
    }
}

/// Where `Tree::insert_brother` places a node relative to its brother.
#[derive(Clone, Copy, Debug, PartialEq, Eq, Structural)]
pub enum InsertType {
    Back,
    Front,
}

/// A node's place under its parent: the parent and the previous and next siblings.
#[derive(Clone, Copy, Debug, PartialEq, Eq, Structural)]
pub struct Up {
    pub parent: TreeKey,
    pub prev: TreeKey,
    pub next: TreeKey,
}

impl Up {
    pub fn new(parent: TreeKey, prev: TreeKey, next: TreeKey) -> (r: Up)
        ensures
            r == (Up { parent, prev, next }),
    {
        Up { parent, prev, next }
    }

    pub fn parent(&self) -> (r: TreeKey)
        ensures
            r == self.parent,
    {
        self.parent
    }

    pub fn prev(&self) -> (r: TreeKey)
        ensures
            r == self.prev,
    {
        self.prev
    }

    pub fn next(&self) -> (r: TreeKey)
        ensures
            r == self.next,
    {
        self.next
    }
}

impl Default for Up {
    fn default() -> (r: Up)
        ensures
            r == (Up { parent: TreeKey(NULL_INDEX), prev: TreeKey(NULL_INDEX), next: TreeKey(NULL_INDEX) }),
    {
        Up { parent: TreeKey::null(), prev: TreeKey::null(), next: TreeKey::null() }
    }
}

/// A node's depth (1 at a root, `NULL_DEPTH` when detached) and the root above it.
#[derive(Clone, Copy, Debug, PartialEq, Eq, Structural)]
pub struct Layer {
    pub layer: usize,
    pub root: TreeKey,
}

impl Layer {
    pub fn new(layer: usize, root: TreeKey) -> (r: Layer)
        ensures
            r == (Layer { layer, root }),
    {
        Layer { layer, root }
    }

    pub fn layer(&self) -> (r: usize)
        ensures
            r == self.layer,
    {
        self.layer
    }

    pub fn root(&self) -> (r: TreeKey)
        ensures
            r == self.root,
    {
        self.root
    }
}

impl Default for Layer {
    fn default() -> (r: Layer)
        ensures
            r == (Layer { layer: NULL_DEPTH, root: TreeKey(NULL_INDEX) }),
    {
        Layer { layer: NULL_DEPTH, root: TreeKey::null() }
    }
}

/// A node's children: first and last child, number of children, and the
/// aggregate count of the subtree below it.
#[derive(Clone, Copy, Debug, PartialEq, Eq, Structural)]
pub struct Down {
    pub head: TreeKey,
    pub tail: TreeKey,
    pub len: usize,
    pub count: usize,
}

impl Down {
    pub fn new(head: TreeKey, tail: TreeKey, len: usize, count: usize) -> (r: Down)
        ensures
            r == (Down { head, tail, len, count }),
    {
        Down { head, tail, len, count }
    }

    pub fn head(&self) -> (r: TreeKey)
        ensures
            r == self.head,
    {
        self.head
    }

    pub fn tail(&self) -> (r: TreeKey)
        ensures
            r == self.tail,
    {
        self.tail
    }

    pub fn len(&self) -> (r: usize)
        ensures
            r == self.len,
    {
        self.len
    }

    pub fn count(&self) -> (r: usize)
        ensures
            r == self.count,
    {
        self.count
    }
}

impl Default for Down {
    fn default() -> (r: Down)
        ensures
            r == (Down { head: TreeKey(NULL_INDEX), tail: TreeKey(NULL_INDEX), len: 0, count: 0 }),
    {
        Down { head: TreeKey::null(), tail: TreeKey::null(), len: 0, count: 0 }
    }
}

} // verus!
