//! A cursor: an ephemeral value naming a page, an in-page slot, and the
//! stack of interior pages visited on the way down to it.

use vstd::prelude::*;

verus! {

/// A pointer to one entry of one tree, together with the parent pages
/// recorded during descent. A cursor lives for a single operation.
#[derive(Debug)]
pub struct DBCursor {
    /// Page number of the page the cursor points into.
    pub page_num: u32,
    /// Cell-pointer index within that page.
    pub cell_ptr_pos: usize,
    /// Page numbers of the interior pages on the path from the root, the
    /// nearest parent last.
    pub parents_stack: Vec<u32>,
}

impl DBCursor {
    /// A cursor at slot zero of the given page with an empty parent stack.
    pub fn new(page_num: u32) -> (r: DBCursor)
        ensures
            r.page_num == page_num,
            r.cell_ptr_pos == 0,
            r.parents_stack@ == Seq::<u32>::empty(),
    {
        DBCursor { page_num, cell_ptr_pos: 0, parents_stack: Vec::new() }
    }
}

} // verus!
