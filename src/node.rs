use vstd::prelude::*;

use std::sync::Arc;

verus! {

/// A point-in-time view of one B-tree page: the keys of its entries and
/// the id of its right sibling page. A view is never changed once made, so
/// handles can share it without a lock.
pub struct BTreePageView {
    keys: Vec<Vec<u8>>,
    right_pid: u32,
}

impl BTreePageView {
    pub closed spec fn entry_count(&self) -> nat {
        self.keys@.len()
    }

    pub closed spec fn right_sibling(&self) -> u32 {
        self.right_pid
    }

    pub fn new(keys: Vec<Vec<u8>>, right_pid: u32) -> (r: BTreePageView)
        ensures
            r.entry_count() == keys@.len(),
            r.right_sibling() == right_pid,
    {
        BTreePageView { keys, right_pid }
    }

    /// The number of entries on the page.
    pub fn len(&self) -> (r: usize)
        ensures
            r == self.entry_count(),
    {
        self.keys.len()
    }
}

/// A shared handle to a page view together with a position among its
/// entries.
#[derive(Clone)]
pub struct CursorItem {
    node: Arc<BTreePageView>,
    index: usize,
}

impl CursorItem {
    pub closed spec fn page(&self) -> BTreePageView {
        *self.node
    }

    pub closed spec fn position(&self) -> nat {
        self.index as nat
    }

    pub fn new(node: BTreePageView, index: usize) -> (r: CursorItem)
        ensures
            r.page() == node,
            r.position() == index,
    {
        CursorItem { node: Arc::new(node), index }
    }

    /// Whether the position has run past the page's last entry.
    pub fn done(&self) -> (r: bool)
        ensures
            r == (self.position() >= self.page().entry_count()),
    {
        self.index >= self.node.len()
    }

    /// The page to continue with once this one is done.
    pub fn right_pid(&self) -> (r: u32)
        ensures
            r == self.page().right_sibling(),
    {
        self.node.right_pid
    }
}

} // verus!
