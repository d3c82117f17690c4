//! Tests for the byte codec, the cell codec and the slotted page.

use slotdb::cell::{CellError, DBCell};
use slotdb::page::{Page, PageError, PageType};
use slotdb::{INVALID_PAGE_NUM, PAGE_HEADER_SIZE, PAGE_SIZE};

fn leaf_with_keys(keys: &[u64]) -> Page {
    let mut page = Page::new(PageType::Leaf);
    for &k in keys {
        page.insert(k, &[k as u8], None).unwrap();
    }
    page
}

#[test]
fn cell_codec_exact_bytes() {
    let cell = DBCell::new(7, b"abc", Some(3)).unwrap();
    let bytes = cell.to_bytes();
    assert_eq!(
        bytes,
        vec![0, 3, 0, 0, 0, 0, 0, 0, 0, 7, b'a', b'b', b'c', 0, 0, 0, 3]
    );
}

#[test]
fn cell_codec_round_trip() {
    let cell = DBCell::new(0xdeadbeefu64, b"payload", None).unwrap();
    let bytes = cell.to_bytes();
    let back = DBCell::from_bytes(&bytes).unwrap();
    assert_eq!(back.key, 0xdeadbeefu64);
    assert_eq!(back.payload, b"payload".to_vec());
    assert_eq!(back.left_child, INVALID_PAGE_NUM);
    assert_eq!(back.payload_size, 7);
}

#[test]
fn cell_codec_rejects_truncated() {
    assert_eq!(DBCell::from_bytes(&[0u8; 13]).unwrap_err(), CellError::Truncated);
    // Prefix says 5 payload bytes but only 14 bytes follow in total.
    let mut short = vec![0u8, 5];
    short.extend_from_slice(&[0u8; 12]);
    assert_eq!(DBCell::from_bytes(&short).unwrap_err(), CellError::Truncated);
}

#[test]
fn cell_id_from_slice() {
    let cell = DBCell::new(513, b"", None).unwrap();
    let bytes = cell.to_bytes();
    assert_eq!(DBCell::id_from_slice(&bytes), Ok(513));
    assert_eq!(DBCell::id_from_slice(&bytes[..9]), Err(()));
}

#[test]
fn fresh_page_layout() {
    let page = Page::new(PageType::Leaf);
    assert_eq!(page.num_cells, 0);
    assert_eq!(page.cells_start as usize, PAGE_SIZE);
    assert_eq!(page.right_pointer, INVALID_PAGE_NUM);
    let bytes = page.dump();
    assert_eq!(bytes.len(), PAGE_SIZE);
    assert_eq!(bytes[0], 0x0d);
    // Reserved header fields are written as zero.
    assert_eq!(bytes[1], 0);
    assert_eq!(bytes[2], 0);
    assert_eq!(bytes[7], 0);
    assert_eq!(&bytes[5..7], &[0x10, 0x00]);
    assert_eq!(&bytes[8..12], &[0, 0, 0, 100]);
}

#[test]
fn page_insert_keeps_keys_sorted() {
    let page = leaf_with_keys(&[5, 2, 9, 7]);
    assert_eq!(page.get_keys().unwrap(), vec![2, 5, 7, 9]);
    assert_eq!(page.get_first_key(), Ok(2));
    assert_eq!(page.get_last_key(), Ok(9));
}

#[test]
fn page_no_overlap_after_mutations() {
    let mut page = leaf_with_keys(&[1, 2, 3, 4, 5]);
    page.delete(2).unwrap();
    page.insert(9, &[0; 100], None).unwrap();
    let used = PAGE_HEADER_SIZE + 2 * page.num_cells as usize;
    assert!(page.cells_start as usize >= used);
}

#[test]
fn page_duplicate_key_leaves_page_byte_identical() {
    let mut page = leaf_with_keys(&[1, 5, 9]);
    let before = page.dump();
    let res = page.insert(5, b"x", None);
    assert_eq!(res, Err(PageError::DuplicateKey(5)));
    assert_eq!(page.dump(), before);
}

#[test]
fn page_full_reported_without_mutation() {
    let mut page = Page::new(PageType::Leaf);
    page.insert(1, &[0u8; 4000], None).unwrap();
    let before = page.dump();
    let res = page.insert(2, &[0u8; 4000], None);
    assert_eq!(res, Err(PageError::PageFull));
    assert_eq!(page.dump(), before);
}

#[test]
fn page_delete_middle_and_empty() {
    let mut page = leaf_with_keys(&[1, 2, 3]);
    page.delete(1).unwrap();
    assert_eq!(page.get_keys().unwrap(), vec![1, 3]);
    page.delete(1).unwrap();
    page.delete(0).unwrap();
    assert_eq!(page.get_keys().unwrap(), Vec::<u64>::new());
    assert_eq!(page.cells_start as usize, PAGE_SIZE);
    assert_eq!(page.delete(0), Err(PageError::DeleteFromEmpty));
}

#[test]
fn delete_lowest_rescans_cells_start() {
    let mut page = Page::new(PageType::Leaf);
    page.insert(1, &[0u8; 8], None).unwrap();
    page.insert(2, &[0u8; 4], None).unwrap();
    // Key 2's cell sits lowest; deleting it must move cells_start back up
    // to the lowest remaining offset (key 1's cell).
    let key1_offset = page.cell_pointer_array[0];
    page.delete(1).unwrap();
    assert_eq!(page.cells_start, key1_offset);
    // Deleting a cell that is not the lowest leaves cells_start alone.
    page.insert(2, &[0u8; 4], None).unwrap();
    let lowest = page.cells_start;
    page.delete(0).unwrap();
    assert_eq!(page.cells_start, lowest);
}

#[test]
fn page_update_same_size() {
    let mut page = leaf_with_keys(&[1, 2]);
    page.update_same_size(0, 1, &[42], None).unwrap();
    let cell = page.decode_cell(0);
    assert_eq!(cell.payload, vec![42]);
    assert_eq!(
        page.update_same_size(0, 7, &[1], None),
        Err(PageError::UpdateNotSameKey(7))
    );
    assert_eq!(
        page.update_same_size(0, 1, &[1, 2], None),
        Err(PageError::UpdateNotSameSize)
    );
}

#[test]
fn page_empty_key_lookups_fail() {
    let page = Page::new(PageType::Leaf);
    assert_eq!(page.get_first_key(), Err(PageError::CannotGetFirstOrLastKey));
    assert_eq!(page.get_last_key(), Err(PageError::CannotGetFirstOrLastKey));
}

#[test]
fn find_partition_points() {
    let page = leaf_with_keys(&[2, 5, 9]);
    assert_eq!(page.find_partition(1), Ok((0, Some(2))));
    assert_eq!(page.find_partition(5), Ok((1, Some(5))));
    assert_eq!(page.find_partition(6), Ok((2, Some(9))));
    assert_eq!(page.find_partition(10), Ok((3, None)));
}

#[test]
fn route_through_interior_page() {
    let mut page = Page::new(PageType::Interior);
    page.insert(10, &[], Some(1)).unwrap();
    page.insert(20, &[], Some(2)).unwrap();
    page.set_right_pointer(3);
    assert_eq!(page.get_next_page_pointer(5), Ok(1));
    assert_eq!(page.get_next_page_pointer(10), Ok(1));
    assert_eq!(page.get_next_page_pointer(15), Ok(2));
    assert_eq!(page.get_next_page_pointer(21), Ok(3));
}

#[test]
fn move_last_left_child_to_right_pointer() {
    let mut page = Page::new(PageType::Interior);
    page.insert(10, &[], Some(1)).unwrap();
    page.insert(20, &[], Some(2)).unwrap();
    page.set_right_pointer(9);
    page.move_last_left_child_to_right_pointer().unwrap();
    assert_eq!(page.get_keys().unwrap(), vec![10]);
    assert_eq!(page.right_pointer, 2);
}

#[test]
fn split_preserves_order_and_content() {
    let mut page = Page::new(PageType::Leaf);
    let mut k = 0u64;
    loop {
        k += 1;
        if page.insert(k, &[0u8; 100], None) == Err(PageError::PageFull) {
            break;
        }
    }
    let all_keys = page.get_keys().unwrap();
    let (left, right) = page.split_page().unwrap();
    let left_keys = left.get_keys().unwrap();
    let right_keys = right.get_keys().unwrap();
    assert!(left_keys.last().unwrap() < right_keys.first().unwrap());
    let mut together = left_keys.clone();
    together.extend_from_slice(&right_keys);
    assert_eq!(together, all_keys);
    assert_eq!(left_keys.len(), (all_keys.len() + 1) / 2);
    assert_eq!(left.right_pointer, INVALID_PAGE_NUM);
}

#[test]
fn dump_and_load_round_trip() {
    let page = leaf_with_keys(&[3, 1, 4, 1 + 4, 9]);
    let bytes = page.dump();
    let back = Page::new_from_read(&bytes).unwrap();
    assert_eq!(back.get_keys().unwrap(), page.get_keys().unwrap());
    assert_eq!(back.dump(), bytes);
}

#[test]
fn load_rejects_bad_images() {
    assert_eq!(
        Page::new_from_read(&[0u8; 100]).unwrap_err(),
        PageError::EndOfSliceWhileDeserializing
    );
    let zeros = vec![0u8; PAGE_SIZE];
    assert_eq!(
        Page::new_from_read(&zeros).unwrap_err(),
        PageError::InvalidPageType(0)
    );
    // A leaf that claims one cell pointing below the content area.
    let mut bad = Page::new(PageType::Leaf).dump();
    bad[3] = 0;
    bad[4] = 1; // num_cells = 1
    bad[12] = 0;
    bad[13] = 0; // pointer 0, inside the header
    assert_eq!(
        Page::new_from_read(&bad).unwrap_err(),
        PageError::CellPtrArrayReadError
    );
}

#[test]
fn children_iter_skips_absent() {
    let mut page = Page::new(PageType::Interior);
    page.insert(10, &[], Some(4)).unwrap();
    page.insert(20, &[], None).unwrap();
    page.set_right_pointer(7);
    assert_eq!(page.children_iter(), vec![4, 7]);
}
