//! A database: a catalog of named tables sharing one backing file. Opening
//! and closing the file itself is the caller's business; the catalog only
//! keeps names unique and finds tables by name.

use crate::columns::Columns;
use crate::table::Table;
use vstd::prelude::*;

verus! {

use vstd::utf8::encode_utf8;
use vstd::utf8::encode_utf8_decode_utf8;

/// Errors surfaced by catalog operations.
#[derive(Debug, Clone, Copy, PartialEq, Eq, Structural)]
pub enum DatabaseError {
    /// A table with this name already exists.
    DuplicateTable,
    /// No table with this name exists.
    TableDoesNotExist,
}

/// Compare two strings by contents.
pub fn str_eq(a: &str, b: &str) -> (r: bool)
    ensures
        r <==> a@ == b@,
{
    let ab = a.as_bytes();
    let bb = b.as_bytes();
    if ab.len() != bb.len() {
        proof {
            assert(a@ != b@);
        }
        return false;
    }
    let n = ab.len();
    let mut i: usize = 0;
    while i < n
        invariant
            i <= n,
            n == ab@.len() == bb@.len(),
            ab@ == encode_utf8(a@),
            bb@ == encode_utf8(b@),
            forall|j: int| 0 <= j < i ==> ab@[j] == bb@[j],
        decreases n - i,
    {
        if *vstd::slice::slice_index_get(ab, i) != *vstd::slice::slice_index_get(bb, i) {
            proof {
                assert(ab@[i as int] != bb@[i as int]);
                assert(a@ != b@);
            }
            return false;
        }
        i += 1;
    }
    proof {
        assert(ab@ =~= bb@);
        encode_utf8_decode_utf8(a@);
        encode_utf8_decode_utf8(b@);
    }
    true
}

/// The catalog: tables by name.
#[derive(Debug)]
pub struct Database {
    /// The tables, each under its name, in creation order.
    pub tables: Vec<(String, Table)>,
}

impl Database {
    /// Every table in the catalog is well formed.
    pub open spec fn inv(self) -> bool {
        forall|i: int| 0 <= i < self.tables@.len() ==> (#[trigger] self.tables@[i]).1.inv()
    }

    /// An empty catalog.
    pub fn new() -> (r: Database)
        ensures
            r.inv(),
            r.tables@.len() == 0,
    {
        Database { tables: Vec::new() }
    }

    /// The index of the table with this name, if any.
    pub fn find_table(&self, table_name: &str) -> (r: Option<usize>)
        ensures
            r matches Some(i) ==> i < self.tables@.len() && self.tables@[i as int].0@
                == table_name@,
            r is None ==> forall|j: int|
                0 <= j < self.tables@.len() ==> (#[trigger] self.tables@[j]).0@ != table_name@,
    {
        let n = self.tables.len();
        let mut i: usize = 0;
        while i < n
            invariant
                i <= n,
                n == self.tables@.len(),
                forall|j: int| 0 <= j < i ==> (#[trigger] self.tables@[j]).0@ != table_name@,
            decreases n - i,
        {
            if str_eq(self.tables[i].0.as_str(), table_name) {
                return Some(i);
            }
            i += 1;
        }
        None
    }

    /// Create a fresh table under this name; a name already in use is
    /// rejected and the catalog is unchanged.
    pub fn add_table(&mut self, table_name: &str, columns: Columns) -> (r: Result<
        (),
        DatabaseError,
    >)
        requires
            old(self).inv(),
        ensures
            final(self).inv(),
            (exists|j: int|
                0 <= j < old(self).tables@.len() && (#[trigger] old(self).tables@[j]).0@
                    == table_name@) ==> r == Err::<(), DatabaseError>(DatabaseError::DuplicateTable)
                && final(self).tables@ == old(self).tables@,
            r is Ok <==> !(exists|j: int|
                0 <= j < old(self).tables@.len() && (#[trigger] old(self).tables@[j]).0@
                    == table_name@),
            r is Ok ==> {
                &&& final(self).tables@.len() == old(self).tables@.len() + 1
                &&& final(self).tables@[old(self).tables@.len() as int].0@ == table_name@
            },
    {
        match self.find_table(table_name) {
            Some(_) => Err(DatabaseError::DuplicateTable),
            None => {
                let table = Table::new(table_name, columns);
                self.tables.push((table_name.to_owned(), table));
                Ok(())
            },
        }
    }
}

} // verus!
