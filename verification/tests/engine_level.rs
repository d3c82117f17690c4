//! Tests for rows, columns, the pager, tables and the catalog, including
//! the end-to-end insert/scan/reopen scenarios.

use slotdb::columns::{ColumnItemType, ColumnType, Columns, IntegerType, TextType};
use slotdb::cursor::DBCursor;
use slotdb::database::{Database, DatabaseError};
use slotdb::page::{PageError, PageType};
use slotdb::pager::{Pager, PagerError};
use slotdb::row::{Row, SQLType};
use slotdb::table::{Table, TableError};
use slotdb::TABLE_MAX_PAGES;

fn test_schema() -> Columns {
    Columns(vec![
        ("id".to_string(), ColumnItemType::Integer(IntegerType::UBigInt)),
        ("name".to_string(), ColumnItemType::Text(TextType::Varchar(16))),
    ])
}

fn named_row(id: u64, name: &str) -> Row {
    Row::new(
        id,
        vec![SQLType::UBigInt(id), SQLType::Text(name.to_string())],
    )
}

fn scan_keys(table: &mut Table) -> Vec<u64> {
    table
        .deserialize_rows()
        .unwrap()
        .iter()
        .map(|r| r.rowid)
        .collect()
}

#[test]
fn row_codec_exact_bytes() {
    let row = Row::new(1, vec![SQLType::UBigInt(2)]);
    let bytes = row.serialize().unwrap();
    assert_eq!(
        bytes,
        vec![0, 0, 0, 0, 0, 0, 0, 1, 0, 1, 1, 0, 0, 0, 0, 0, 0, 0, 2]
    );
}

#[test]
fn row_codec_round_trip_all_types() {
    let row = Row::new(
        42,
        vec![
            SQLType::UBigInt(u64::MAX),
            SQLType::Integer(-7),
            SQLType::Text("héllo wörld".to_string()),
        ],
    );
    let bytes = row.serialize().unwrap();
    let back = Row::deserialize(&bytes).unwrap();
    assert_eq!(back.rowid, 42);
    assert_eq!(back.attributes, row.attributes);
}

#[test]
fn row_codec_rejects_garbage() {
    assert!(Row::deserialize(&[]).is_err());
    assert!(Row::deserialize(&[0u8; 9]).is_err());
    // Count says one attribute but there is none.
    let row = Row::new(5, vec![]);
    let mut bytes = row.serialize().unwrap();
    bytes[9] = 1;
    assert!(Row::deserialize(&bytes).is_err());
    // Unknown attribute tag.
    let mut bytes = Row::new(5, vec![SQLType::UBigInt(1)]).serialize().unwrap();
    bytes[10] = 9;
    assert!(Row::deserialize(&bytes).is_err());
}

#[test]
fn integer_column_validation() {
    let int_col = IntegerType::Int;
    assert_eq!(int_col.validate("42"), Some(SQLType::Integer(42)));
    assert_eq!(int_col.validate("-7"), Some(SQLType::Integer(-7)));
    assert_eq!(int_col.validate("+13"), Some(SQLType::Integer(13)));
    assert_eq!(
        int_col.validate("2147483647"),
        Some(SQLType::Integer(i32::MAX))
    );
    assert_eq!(
        int_col.validate("-2147483648"),
        Some(SQLType::Integer(i32::MIN))
    );
    assert_eq!(int_col.validate("2147483648"), None);
    assert_eq!(int_col.validate("abc"), None);
    assert_eq!(int_col.validate(""), None);
    assert_eq!(int_col.validate("+"), None);
    assert_eq!(int_col.validate("-+1"), None);
}

#[test]
fn ubigint_column_validation() {
    let col = IntegerType::UBigInt;
    assert_eq!(
        col.validate("18446744073709551615"),
        Some(SQLType::UBigInt(u64::MAX))
    );
    assert_eq!(col.validate("18446744073709551616"), None);
    assert_eq!(col.validate("0"), Some(SQLType::UBigInt(0)));
    assert_eq!(col.validate("1x"), None);
}

#[test]
fn varchar_column_validation() {
    let col = TextType::Varchar(5);
    assert_eq!(
        col.validate("hello"),
        Some(SQLType::Text("hello".to_string()))
    );
    assert_eq!(col.validate("hello!"), None);
    assert_eq!(col.validate(""), Some(SQLType::Text(String::new())));
}

#[test]
fn columns_to_printable_lists_names() {
    let cols = test_schema();
    let names = cols.to_printable();
    assert_eq!(names, vec!["id".to_string(), "name".to_string()]);
}

#[test]
fn journal_records_each_page_once() {
    let mut journal = slotdb::journal::Journal::new();
    journal.log_page_change(5, None);
    journal.log_page_change(2, None);
    journal.log_page_change(5, None);
    journal.log_page_change(9, None);
    assert_eq!(journal.changed_page_nums(), vec![2, 5, 9]);
}

#[test]
fn pager_rejects_unallocated_pages() {
    let mut pager = Pager::new(0);
    let mut cursor = DBCursor::new(5);
    let res = pager.insert(&mut cursor, 1, &[1], None);
    assert_eq!(res, Err(PagerError::PageNonExistent));
    assert!(Pager::from_disk(Vec::new(), 1, 0).is_err());
}

#[test]
fn single_insert_scan_and_layout() {
    let mut table = Table::new("t", test_schema());
    let row = named_row(1, "a");
    let payload_len = row.serialize().unwrap().len();
    table.insert(row).unwrap();
    let rows = table.deserialize_rows().unwrap();
    assert_eq!(rows.len(), 1);
    assert_eq!(rows[0].rowid, 1);
    assert_eq!(
        rows[0].attributes,
        vec![SQLType::UBigInt(1), SQLType::Text("a".to_string())]
    );
    // The root is a leaf with one cell placed at the end of the page.
    let root = table.pager.pages()[0].as_ref().unwrap();
    assert_eq!(root.get_page_type(), PageType::Leaf);
    assert_eq!(root.num_cells, 1);
    assert_eq!(root.cells_start as usize, 4096 - 14 - payload_len);
}

#[test]
fn two_inserts_in_reverse_order() {
    let mut table = Table::new("t", test_schema());
    table.insert(named_row(2, "b")).unwrap();
    table.insert(named_row(1, "a")).unwrap();
    assert_eq!(scan_keys(&mut table), vec![1, 2]);
}

#[test]
fn duplicate_key_is_rejected_and_kept_once() {
    let mut table = Table::new("t", test_schema());
    table.insert(named_row(7, "x")).unwrap();
    let res = table.insert(named_row(7, "y"));
    assert_eq!(
        res,
        Err(TableError::RowInsertError(PagerError::PageRowInsertError(
            PageError::DuplicateKey(7)
        )))
    );
    assert_eq!(scan_keys(&mut table), vec![7]);
}

/// Insert ascending keys until the root leaf fills and splits; the root
/// must become an interior page and a scan must stay complete and sorted.
#[test]
fn leaf_fill_triggers_root_split() {
    let mut table = Table::new("t", test_schema());
    let mut n = 0u64;
    loop {
        n += 1;
        table.insert(named_row(n, "0123456789abcdef")).unwrap();
        let root_type = table.pager.pages()[0].as_ref().unwrap().get_page_type();
        if root_type == PageType::Interior {
            break;
        }
        assert!(n < 10_000, "the root leaf never filled");
    }
    let root = table.pager.pages()[0].as_ref().unwrap();
    assert_eq!(root.num_cells, 1);
    assert_ne!(root.right_pointer, slotdb::INVALID_PAGE_NUM);
    let keys = scan_keys(&mut table);
    let expected: Vec<u64> = (1..=n).collect();
    assert_eq!(keys, expected);
}

/// Keep inserting across many splits: each insert allocates at most one
/// page per split event (two on the very first, root, split), and the scan
/// stays complete and ascending throughout.
#[test]
fn repeated_splits_keep_scan_sorted() {
    let mut table = Table::new("t", test_schema());
    let mut root_splits = 0u32;
    let mut pages_before = table.pager.num_pages;
    for n in 1..=600u64 {
        let root_type_before = table.pager.pages()[0].as_ref().unwrap().get_page_type();
        table.insert(named_row(n, "0123456789abcdef")).unwrap();
        let root_type_after = table.pager.pages()[0].as_ref().unwrap().get_page_type();
        if root_type_before == PageType::Leaf && root_type_after == PageType::Interior {
            root_splits += 1;
        }
        assert!(table.pager.num_pages >= pages_before);
        pages_before = table.pager.num_pages;
    }
    assert_eq!(root_splits, 1);
    assert!(table.pager.num_pages > 3);
    let keys = scan_keys(&mut table);
    let expected: Vec<u64> = (1..=600).collect();
    assert_eq!(keys, expected);
}

/// Every interior page routes correctly: all keys reachable through a
/// cell's left child are at most the cell's key, and keys through the
/// right pointer are greater than all cell keys; no key appears twice.
#[test]
fn tree_ordering_and_key_uniqueness() {
    let mut table = Table::new("t", test_schema());
    for n in 1..=300u64 {
        // Insert in a shuffled order to exercise non-append paths.
        let key = (n * 7919) % 1000 + 1;
        match table.insert(named_row(key, "0123456789abcdef")) {
            Ok(()) => (),
            Err(TableError::RowInsertError(PagerError::PageRowInsertError(
                PageError::DuplicateKey(_),
            ))) => (),
            Err(e) => panic!("unexpected insert error: {:?}", e),
        }
    }
    // Force every page into the cache, then walk the tree from the root.
    let _ = table.deserialize_rows().unwrap();
    let pages = table.pager.pages();
    let mut all_keys: Vec<u64> = Vec::new();
    let mut stack: Vec<(u32, Option<u64>, Option<u64>)> = vec![(0, None, None)];
    while let Some((page_num, lower, upper)) = stack.pop() {
        let page = pages[page_num as usize].as_ref().unwrap();
        let keys = page.get_keys().unwrap();
        for &k in &keys {
            if let Some(lo) = lower {
                assert!(k > lo, "key {} at page {} violates lower bound {}", k, page_num, lo);
            }
            if let Some(hi) = upper {
                assert!(k <= hi, "key {} at page {} violates upper bound {}", k, page_num, hi);
            }
        }
        if page.get_page_type() == PageType::Interior {
            let mut lo = lower;
            for (i, &k) in keys.iter().enumerate() {
                let cell = page.decode_cell(i);
                stack.push((cell.left_child, lo, Some(k)));
                lo = Some(k);
            }
            stack.push((page.right_pointer, lo, upper));
        } else {
            all_keys.extend_from_slice(&keys);
        }
    }
    all_keys.sort();
    let mut deduped = all_keys.clone();
    deduped.dedup();
    assert_eq!(all_keys, deduped, "a key appears in two leaves");
}

/// Durability: flush, reopen the block image cold, and scan the same rows
/// in the same order.
#[test]
fn flush_and_reopen_preserves_rows() {
    let mut table = Table::new("t", test_schema());
    let mut n = 0u64;
    loop {
        n += 1;
        table.insert(named_row(n, "0123456789abcdef")).unwrap();
        if table.pager.pages()[0].as_ref().unwrap().get_page_type() == PageType::Interior {
            break;
        }
    }
    let rows_before = table.deserialize_rows().unwrap();
    table.flush().unwrap();
    let image = table.pager.disk.clone();
    let num_pages = table.pager.num_pages;
    let mut reopened = Table::from_image("t", test_schema(), image, num_pages).unwrap();
    let rows_after = reopened.deserialize_rows().unwrap();
    assert_eq!(rows_before.len(), rows_after.len());
    for (a, b) in rows_before.iter().zip(rows_after.iter()) {
        assert_eq!(a.rowid, b.rowid);
        assert_eq!(a.attributes, b.attributes);
    }
}

#[test]
fn table_fills_up_eventually() {
    let mut table = Table::new("t", test_schema());
    let big_text: String = "x".repeat(2000);
    let mut seen_full = false;
    for n in 1..(2 * TABLE_MAX_PAGES as u64) {
        let row = Row::new(n, vec![SQLType::Text(big_text.clone())]);
        match table.insert(row) {
            Ok(()) => (),
            Err(TableError::TableFull) => {
                seen_full = true;
                break;
            }
            Err(e) => panic!("unexpected error: {:?}", e),
        }
    }
    assert!(seen_full);
}

#[test]
fn reopen_from_corrupt_image_fails() {
    let mut disk = vec![vec![0u8; 4096]; TABLE_MAX_PAGES];
    disk[0][0] = 0xff;
    let mut table = Table::from_image("t", test_schema(), disk, 1).unwrap();
    assert!(table.deserialize_rows().is_err());
}

#[test]
fn database_catalog_keeps_names_unique() {
    let mut db = Database::new();
    db.add_table("alpha", test_schema()).unwrap();
    db.add_table("beta", test_schema()).unwrap();
    assert_eq!(
        db.add_table("alpha", test_schema()),
        Err(DatabaseError::DuplicateTable)
    );
    assert_eq!(db.find_table("beta"), Some(1));
    assert_eq!(db.find_table("gamma"), None);
    let idx = db.find_table("alpha").unwrap();
    let table = &mut db.tables[idx].1;
    table.insert(named_row(1, "a")).unwrap();
    assert_eq!(scan_keys(table), vec![1]);
}

#[test]
fn row_to_printable_renders_values() {
    let row = Row::new(
        1,
        vec![
            SQLType::UBigInt(0),
            SQLType::UBigInt(18446744073709551615),
            SQLType::Integer(-42),
            SQLType::Integer(i32::MIN),
            SQLType::Integer(7),
            SQLType::Text("héllo".to_string()),
        ],
    );
    assert_eq!(
        row.to_printable(),
        vec![
            "0".to_string(),
            "18446744073709551615".to_string(),
            "-42".to_string(),
            "-2147483648".to_string(),
            "7".to_string(),
            "héllo".to_string(),
        ]
    );
}
