use mysqlite::pager::{Pager, PAGE_SIZE};
use mysqlite::row::{Row, EMAIL_SIZE, USERNAME_SIZE};
use mysqlite::table::Table;

fn row(id: u32) -> Row {
    let mut u = format!("user{id}").into_bytes();
    u.resize(USERNAME_SIZE, 0);
    let mut e = format!("person{id}@example.com").into_bytes();
    e.resize(EMAIL_SIZE, 0);
    Row { id, username: u, email: e }
}

#[test]
fn open_derives_row_count_from_length() {
    assert_eq!(Table::new(Vec::new()).row_count(), 0);
    assert_eq!(Table::new(vec![0u8; 290]).row_count(), 0);
    assert_eq!(Table::new(vec![0u8; 291 * 3 + 5]).row_count(), 3);
}

#[test]
fn close_writes_only_the_used_part_of_the_last_page() {
    let mut table = Table::new(Vec::new());
    table.insert(&row(1)).unwrap();
    let writes = table.close();
    assert_eq!(writes.len(), 1);
    assert_eq!(writes[0].offset, 0);
    assert_eq!(writes[0].data.len(), 291);
    assert_eq!(&writes[0].data[0..4], &[1, 0, 0, 0]);
    assert_eq!(table.file().len(), 291);
}

#[test]
fn close_writes_whole_pages_then_the_tail() {
    let mut table = Table::new(Vec::new());
    for i in 0..16 {
        table.insert(&row(i)).unwrap();
    }
    let writes = table.close();
    assert_eq!(writes.len(), 2);
    assert_eq!((writes[0].offset, writes[0].data.len()), (0, 4096));
    assert_eq!((writes[1].offset, writes[1].data.len()), (4096, 2 * 291));
    let image = table.into_file();
    assert_eq!(image.len(), 4096 + 2 * 291);

    let mut reopened = Table::new(image);
    assert_eq!(reopened.row_count(), 16);
    let r = reopened.deserialize_row(15);
    assert_eq!(r.id, 15);
    assert_eq!(r.username_str(), "user15");
}

#[test]
fn close_skips_pages_never_loaded() {
    let mut table = Table::new(Vec::new());
    for i in 0..15 {
        table.insert(&row(i)).unwrap();
    }
    table.close();
    let image = table.into_file();
    let mut reopened = Table::new(image.clone());
    reopened.insert(&row(15)).unwrap();
    let writes = reopened.close();
    // only the second page was touched
    assert_eq!(writes.len(), 1);
    assert_eq!((writes[0].offset, writes[0].data.len()), (4096, 2 * 291));
    let after = reopened.into_file();
    assert_eq!(&after[..4096], &image[..4096]);
}

#[test]
fn reads_see_earlier_inserts_before_close() {
    let mut table = Table::new(Vec::new());
    table.insert(&row(5)).unwrap();
    assert!(table.file().is_empty());
    let r = table.deserialize_row(0);
    assert_eq!(r.email_str(), "person5@example.com");
}

#[test]
fn pager_loads_lazily_and_flushes_a_prefix() {
    let mut image = vec![0u8; 5000];
    image[4096] = 42;
    let mut pager = Pager::new(image);
    assert!(!pager.is_loaded(1));
    pager.get_page(1);
    assert!(pager.is_loaded(1));
    assert_eq!(pager.page(1)[0], 42);
    assert_eq!(pager.page(1).len(), PAGE_SIZE);
    assert_eq!(pager.page(1)[1000], 0);
    pager.write_page(1, 1, &[1, 2, 3]);
    // an unloaded page is not written
    pager.flush_page(0, PAGE_SIZE);
    assert_eq!(pager.file().len(), 5000);
    pager.flush_page(1, 4);
    assert_eq!(&pager.file()[4096..4100], &[42, 1, 2, 3]);
    assert_eq!(pager.file().len(), 5000);
}

#[test]
fn pager_grows_slots_and_fills_gaps_with_zeros() {
    let mut pager = Pager::new(vec![9u8; 10]);
    pager.get_page(3);
    assert!(!pager.is_loaded(2));
    pager.write_page(3, 0, &[7]);
    pager.flush_page(3, 1);
    let image = pager.into_file();
    assert_eq!(image.len(), 3 * 4096 + 1);
    assert_eq!(image[9], 9);
    assert_eq!(image[10], 0);
    assert_eq!(image[3 * 4096], 7);
}

#[test]
fn page_prefix_copies_bytes() {
    let mut pager = Pager::new(vec![1, 2, 3]);
    pager.get_page(0);
    assert_eq!(pager.page_prefix(0, 4), vec![1, 2, 3, 0]);
}

#[test]
fn fifteen_rows_close_to_two_pages() {
    let mut table = Table::new(Vec::new());
    for i in 0..15 {
        table.insert(&row(i)).unwrap();
    }
    let writes = table.close();
    assert_eq!(writes.len(), 2);
    let image = table.into_file();
    assert_eq!(image.len(), 4096 + 291);
    for i in 0..14u32 {
        let at = i as usize * 291;
        assert_eq!(image[at..at + 291].to_vec(), row(i).encode());
    }
    assert_eq!(image[4096..4387].to_vec(), row(14).encode());
    // the tail of the first page stays zero
    assert!(image[14 * 291..4096].iter().all(|&b| b == 0));
}

#[test]
fn insert_touches_only_its_slot() {
    let mut table = Table::new(Vec::new());
    for i in 0..14 {
        table.insert(&row(i)).unwrap();
    }
    let first = table.deserialize_row(0);
    table.insert(&row(14)).unwrap();
    assert_eq!(table.row_count(), 15);
    assert_eq!(table.deserialize_row(0).encode(), first.encode());
    assert_eq!(table.deserialize_row(14).encode(), row(14).encode());
}

#[test]
fn insert_succeeds_on_an_ordinary_table() {
    let mut table = Table::new(vec![0u8; 291 * 2]);
    assert!(table.insert(&row(7)).is_ok());
    assert_eq!(table.row_count(), 3);
    assert_eq!(table.deserialize_row(2).id, 7);
}
