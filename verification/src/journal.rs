//! A journal of page changes: the first recorded state of every page that
//! an operation touched, keyed by page number in ascending order.

use crate::page::Page;
use vstd::prelude::*;

verus! {

/// Recorded page states by page number, each number at most once, in
/// ascending order.
#[derive(Debug)]
pub struct Journal {
    pub changed_pages: Vec<(usize, Option<Page>)>,
}

/// The page numbers recorded in a journal, in order.
pub open spec fn spec_journal_keys(entries: Seq<(usize, Option<Page>)>) -> Seq<usize> {
    Seq::new(entries.len(), |i: int| entries[i].0)
}

impl Journal {
    /// Page numbers are strictly ascending (so each occurs once).
    pub open spec fn inv(self) -> bool {
        forall|i: int, j: int|
            0 <= i < j < self.changed_pages@.len() ==> (#[trigger] self.changed_pages@[i]).0
                < (#[trigger] self.changed_pages@[j]).0
    }

    /// An empty journal.
    pub fn new() -> (r: Journal)
        ensures
            r.inv(),
            r.changed_pages@.len() == 0,
    {
        Journal { changed_pages: Vec::new() }
    }

    /// Record the given state for a page, unless the page was recorded
    /// before: only the first state of each page is kept.
    pub fn log_page_change(&mut self, page_num: usize, page: Option<&Page>)
        requires
            old(self).inv(),
        ensures
            final(self).inv(),
            spec_journal_keys(old(self).changed_pages@).contains(page_num) ==> *final(self)
                == *old(self),
            !spec_journal_keys(old(self).changed_pages@).contains(page_num) ==> {
                &&& final(self).changed_pages@.len() == old(self).changed_pages@.len() + 1
                &&& exists|j: int|
                    {
                        &&& 0 <= j < final(self).changed_pages@.len()
                        &&& (#[trigger] final(self).changed_pages@[j]).0 == page_num
                        &&& (final(self).changed_pages@[j].1 is Some <==> page is Some)
                        &&& (page matches Some(p) ==> final(self).changed_pages@[j].1
                            matches Some(q) && q.data@ == p.data@ && q@ == p@ && q.page_type
                            == p.page_type)
                    }
            },
    {
        let n = self.changed_pages.len();
        let mut i: usize = 0;
        // Find where the page number belongs in the ascending order.
        while i < n && self.changed_pages[i].0 < page_num
            invariant
                i <= n,
                n == self.changed_pages@.len(),
                self.inv(),
                forall|j: int| 0 <= j < i ==> (#[trigger] self.changed_pages@[j]).0 < page_num,
            decreases n - i,
        {
            i += 1;
        }
        if i < n {
            let k = self.changed_pages[i].0;
            if k == page_num {
                proof {
                    assert(spec_journal_keys(self.changed_pages@)[i as int] == page_num);
                }
                return ;
            }
        }
        proof {
            assert forall|j: int|
                0 <= j < self.changed_pages@.len() implies #[trigger] spec_journal_keys(
                self.changed_pages@,
            )[j] != page_num by {
                if j >= i {
                    assert(self.changed_pages@[j].0 >= self.changed_pages@[i as int].0);
                }
            }
        }
        let copy = match page {
            Some(p) => Some(p.duplicate()),
            None => None,
        };
        let ghost before = self.changed_pages@;
        self.changed_pages.insert(i, (page_num, copy));
        proof {
            before.insert_ensures(i as int, (page_num, copy));
            assert(spec_journal_keys(self.changed_pages@)[i as int] == page_num);
            assert(self.changed_pages@[i as int].0 == page_num);
            assert forall|a: int, b: int|
                0 <= a < b < self.changed_pages@.len() implies (
            #[trigger] self.changed_pages@[a]).0 < (#[trigger] self.changed_pages@[b]).0 by {
                if a < i && b > i {
                    assert(before[a].0 < before[b - 1].0);
                }
                if a == i && b > i {
                    assert(before[b - 1].0 >= before[i as int].0);
                }
            }
        }
    }

    /// The recorded page numbers, ascending.
    pub fn changed_page_nums(&self) -> (r: Vec<usize>)
        ensures
            r@ == spec_journal_keys(self.changed_pages@),
    {
        let mut out: Vec<usize> = Vec::new();
        let n = self.changed_pages.len();
        let mut i: usize = 0;
        while i < n
            invariant
                i <= n,
                n == self.changed_pages@.len(),
                out@.len() == i,
                forall|j: int| 0 <= j < i ==> out@[j] == (#[trigger] self.changed_pages@[j]).0,
            decreases n - i,
        {
            out.push(self.changed_pages[i].0);
            i += 1;
        }
        proof {
            assert(out@ =~= spec_journal_keys(self.changed_pages@));
        }
        out
    }
}

} // verus!
