use logfrog::bufferpool::Bufferpool;
use logfrog::capture::name_key;
use logfrog::disk::{Disk, PAGE_SIZE};
use logfrog::error::StoreError;
use logfrog::page::Page;
use logfrog::row::FieldType;

#[test]
fn basic_integration_test() {
    let mut bpool = Bufferpool::new(1);
    let mut disk = Disk::new();

    // Each page is 4KB on an x86-64 machine
    // Adding 4 pages, is 16KB or 16384 bytes
    bpool.set_page_limit(4);
    assert_eq!(bpool.page_limit(), 4);

    // Create 4KB of data
    let four_k_of_data: [u8; 4096] = [0; 4096];
    assert_eq!(std::mem::size_of_val(&four_k_of_data), 512 * 8);

    assert_eq!(bpool.size(), 0);
    assert!(bpool.empty());

    // Create a page of data
    let page_1_id = bpool.create_page(FieldType::Epoch(0)).unwrap();
    {
        let mut page_1 = Page::new(page_1_id, FieldType::Epoch(0));
        page_1.set_all_values(four_k_of_data);
        page_1.write_page(&mut disk);

        assert_eq!(page_1.size(), 0);
        assert_eq!(page_1.capacity(), PAGE_SIZE);

        let resident = bpool.page(page_1_id).unwrap();
        assert_eq!(resident.size(), 0);
        assert_eq!(resident.capacity(), PAGE_SIZE);
    }

    assert_eq!(bpool.size(), 1);
    assert!(!bpool.empty());
    assert!(!bpool.full());

    // Insert 3 more pages to fill the bufferpool
    let page_2_id = bpool.create_page(FieldType::Epoch(0)).unwrap();
    {
        let mut page_2 = Page::new(page_2_id, FieldType::Epoch(0));
        page_2.set_all_values(four_k_of_data);
        page_2.write_page(&mut disk);
    }

    let page_3_id = bpool.create_page(FieldType::Epoch(0)).unwrap();
    {
        let mut page_3 = Page::new(page_3_id, FieldType::Epoch(0));
        page_3.set_all_values(four_k_of_data);
        page_3.write_page(&mut disk);
    }

    let page_4_id = bpool.create_page(FieldType::Epoch(0)).unwrap();
    {
        let mut page_4 = Page::new(page_4_id, FieldType::Epoch(0));
        page_4.set_all_values(four_k_of_data);
        page_4.write_page(&mut disk);
    }

    assert_eq!(bpool.size(), 4);
    assert!(bpool.full());

    // Add another page after it's full
    let page_5_id = bpool.create_page(FieldType::Epoch(0)).unwrap();
    {
        let mut page_5 = Page::new(page_5_id, FieldType::Epoch(0));
        page_5.set_all_values(four_k_of_data);
        page_5.write_page(&mut disk);
    }

    // Since the limit is 4, it should have removed one page to allow space for this new one
    assert_eq!(bpool.size(), 4);
    assert!(bpool.full());

    bpool.insert(0, 0, &FieldType::Epoch(100)).unwrap();

    // Read the 0th value
    let val = bpool.fetch(0, 0, 16);

    // Read the first value
    assert_eq!(val, Some(FieldType::Epoch(100)));

    for x in 0..600 {
        bpool
            .insert(x + 1, 0, &FieldType::Epoch(2 * (x + 1) as u128))
            .unwrap();
    }

    assert_eq!(bpool.fetch(1, 0, 16), Some(FieldType::Epoch(2)));
    assert_eq!(bpool.fetch(2, 0, 16), Some(FieldType::Epoch(4)));
    assert_eq!(bpool.fetch(100, 0, 16), Some(FieldType::Epoch(200)));

    assert_eq!(bpool.fetch(500, 0, 16), Some(FieldType::Epoch(1000)));

    // Read after first page!
    assert_eq!(bpool.fetch(550, 0, 16), Some(FieldType::Epoch(1100)));
}

#[test]
fn created_pages_get_sequential_ids() {
    let mut bpool = Bufferpool::new(2);
    bpool.set_page_limit(8);
    assert_eq!(bpool.create_page(FieldType::Epoch(0)), Ok(0));
    assert_eq!(bpool.create_page(name_key("")), Ok(1));
    assert_eq!(bpool.create_page(FieldType::Epoch(0)), Ok(2));
    assert_eq!(bpool.size(), 3);
    assert_eq!(bpool.page(1).unwrap().pid(), 1);
    assert_eq!(bpool.page(1).unwrap().field_type_size(), 64);
    assert!(bpool.page(3).is_none());
    // Row 0 of column 1 lies in page 1: an empty page reads as zeros.
    assert_eq!(bpool.fetch(0, 1, 16), Some(FieldType::Epoch(0)));
}

#[test]
fn created_page_follows_the_pages_in_use() {
    let mut bpool = Bufferpool::new(4);
    bpool.set_page_limit(2);
    // Row 300 of column 2: page 1 of the column, id 1 * 4 + 2.
    bpool.insert(300, 2, &FieldType::Epoch(5)).unwrap();
    assert_eq!(bpool.locate(300, 2, 16), Some((6, (300 % 256) * 16)));
    assert_eq!(bpool.create_page(FieldType::Epoch(0)), Ok(7));
}

#[test]
fn locate_maps_rows_to_pages_and_offsets() {
    let bpool = Bufferpool::new(4);
    assert_eq!(bpool.column_count(), 4);
    // Names: 64 slots of 64 bytes per page.
    assert_eq!(bpool.locate(0, 0, 64), Some((0, 0)));
    assert_eq!(bpool.locate(63, 0, 64), Some((0, 63 * 64)));
    assert_eq!(bpool.locate(64, 0, 64), Some((4, 0)));
    assert_eq!(bpool.locate(130, 0, 64), Some((8, 2 * 64)));
    // Epochs: 256 slots of 16 bytes per page.
    assert_eq!(bpool.locate(0, 1, 16), Some((1, 0)));
    assert_eq!(bpool.locate(255, 3, 16), Some((3, 255 * 16)));
    assert_eq!(bpool.locate(256, 3, 16), Some((7, 0)));
    assert_eq!(bpool.locate(513, 2, 16), Some((10, 16)));
    // No such column, no such width.
    assert_eq!(bpool.locate(0, 4, 16), None);
    assert_eq!(bpool.locate(0, 0, 8), None);
    assert_eq!(bpool.locate(0, 0, 0), None);
    // The last row of all still has a page.
    assert_eq!(
        bpool.locate(usize::MAX, 3, 16),
        Some(((usize::MAX / 256) * 4 + 3, 255 * 16))
    );
    // A page id that does not fit.
    let wide = Bufferpool::new(usize::MAX);
    assert_eq!(wide.locate(255, 0, 16), Some((0, 255 * 16)));
    assert_eq!(wide.locate(255, 7, 16), Some((7, 255 * 16)));
    assert_eq!(wide.locate(256, 0, 16), None);
    assert_eq!(wide.locate(512, 0, 16), None);
}

#[test]
fn fetch_of_a_page_that_was_never_created_is_absent() {
    let mut bpool = Bufferpool::new(4);
    bpool.set_page_limit(2);
    assert_eq!(bpool.fetch(0, 0, 64), None);
    assert_eq!(bpool.fetch(12345, 2, 16), None);
    bpool.insert(0, 1, &FieldType::Epoch(1)).unwrap();
    // Another page of the same column, another column.
    assert_eq!(bpool.fetch(256, 1, 16), None);
    assert_eq!(bpool.fetch(0, 2, 16), None);
    assert_eq!(bpool.fetch(usize::MAX, 1, 16), None);
    assert_eq!(bpool.fetch(0, 9, 16), None);
    assert_eq!(bpool.fetch(0, 1, 3), None);
    // Nothing became resident on the way.
    assert_eq!(bpool.size(), 1);
}

#[test]
fn insert_beyond_the_pool_is_out_of_range() {
    let mut bpool = Bufferpool::new(4);
    assert_eq!(bpool.insert(0, 4, &FieldType::Epoch(1)), Err(StoreError::OutOfRange));
    assert_eq!(bpool.take_pending(), Vec::<usize>::new());
    let mut wide = Bufferpool::new(usize::MAX);
    assert_eq!(wide.insert(256, 0, &FieldType::Epoch(1)), Err(StoreError::OutOfRange));
    assert_eq!(wide.insert(64, 0, &name_key("n")), Err(StoreError::OutOfRange));
    assert_eq!(wide.insert(63, 0, &name_key("n")), Ok(()));
    let mut none = Bufferpool::new(0);
    assert_eq!(none.insert(0, 0, &FieldType::Epoch(1)), Err(StoreError::OutOfRange));
}

#[test]
fn every_insert_goes_to_the_disk_at_once() {
    let mut bpool = Bufferpool::new(4);
    bpool.set_page_limit(3);
    bpool.insert(0, 1, &FieldType::Epoch(77)).unwrap();
    assert_eq!(bpool.take_pending(), vec![1]);
    let block = bpool.stored_block(1).unwrap();
    assert_eq!(block[0], 77);
    assert!(block[1..].iter().all(|b| *b == 0));
    assert_eq!(bpool.page(1).unwrap().values(), block);
    bpool.insert(1, 1, &FieldType::Epoch(78)).unwrap();
    bpool.insert(0, 0, &name_key("f")).unwrap();
    bpool.insert(2, 1, &FieldType::Epoch(79)).unwrap();
    // A page that was written several times is listed once.
    assert_eq!(bpool.take_pending(), vec![1, 0]);
    assert_eq!(bpool.stored_block(1).unwrap()[16], 78);
    assert_eq!(bpool.stored_block(0).unwrap()[0], b'f');
    assert_eq!(bpool.stored_block(2), None);
}

#[test]
fn least_recently_used_page_leaves_first() {
    let mut bpool = Bufferpool::new(1);
    bpool.set_page_limit(2);
    bpool.insert(0, 0, &FieldType::Epoch(1)).unwrap(); // page 0
    bpool.insert(256, 0, &FieldType::Epoch(2)).unwrap(); // page 1
    assert!(bpool.full());
    // Page 0 is used again, so page 1 is the least recently used.
    assert_eq!(bpool.fetch(0, 0, 16), Some(FieldType::Epoch(1)));
    bpool.insert(512, 0, &FieldType::Epoch(3)).unwrap(); // page 2
    assert_eq!(bpool.size(), 2);
    assert!(bpool.page(0).is_some());
    assert!(bpool.page(1).is_none());
    assert!(bpool.page(2).is_some());
    // Page 1 comes back from the disk, and page 0 leaves.
    assert_eq!(bpool.fetch(256, 0, 16), Some(FieldType::Epoch(2)));
    assert!(bpool.page(0).is_none());
    assert!(bpool.page(1).is_some());
    assert!(bpool.page(2).is_some());
}

#[test]
fn rows_stay_fetchable_with_fewer_resident_pages_than_pages() {
    for limit in [0usize, 1, 2, 3] {
        let mut bpool = Bufferpool::new(4);
        bpool.set_page_limit(limit);
        let rows = 1000usize;
        for i in 0..rows {
            bpool.insert(i, 0, &name_key(&format!("fn_{}", i))).unwrap();
            bpool.insert(i, 1, &FieldType::Epoch(10 * i as u128 + 1)).unwrap();
            bpool.insert(i, 2, &FieldType::Epoch(10 * i as u128 + 5)).unwrap();
            bpool.insert(i, 3, &FieldType::Epoch(4)).unwrap();
            assert!(bpool.size() <= limit);
        }
        // 16 pages of names and 4 pages of each epoch column were created.
        for i in (0..rows).rev() {
            assert_eq!(bpool.fetch(i, 0, 64), Some(name_key(&format!("fn_{}", i))));
            assert_eq!(bpool.fetch(i, 1, 16), Some(FieldType::Epoch(10 * i as u128 + 1)));
            assert_eq!(bpool.fetch(i, 2, 16), Some(FieldType::Epoch(10 * i as u128 + 5)));
            assert_eq!(bpool.fetch(i, 3, 16), Some(FieldType::Epoch(4)));
            assert!(bpool.size() <= limit);
        }
    }
}

#[test]
fn lowering_the_limit_evicts_and_keeps_the_data() {
    let mut bpool = Bufferpool::new(1);
    bpool.set_page_limit(4);
    for p in 0..4usize {
        bpool.insert(p * 256, 0, &FieldType::Epoch(p as u128 + 1)).unwrap();
    }
    assert_eq!(bpool.size(), 4);
    bpool.set_page_limit(1);
    assert_eq!(bpool.size(), 1);
    assert!(bpool.page(3).is_some());
    for p in 0..4usize {
        assert_eq!(bpool.fetch(p * 256, 0, 16), Some(FieldType::Epoch(p as u128 + 1)));
    }
}

#[test]
fn created_page_is_written_when_it_is_evicted() {
    let mut bpool = Bufferpool::new(1);
    bpool.set_page_limit(1);
    assert_eq!(bpool.create_page(FieldType::Epoch(0)), Ok(0));
    // Not on the disk yet.
    assert_eq!(bpool.stored_block(0), None);
    assert_eq!(bpool.create_page(FieldType::Epoch(0)), Ok(1));
    assert_eq!(bpool.stored_block(0), Some([0u8; PAGE_SIZE]));
    assert_eq!(bpool.take_pending(), vec![0]);
    assert_eq!(bpool.fetch(5, 0, 16), Some(FieldType::Epoch(0)));
}

#[test]
fn block_from_a_file_is_taken_once() {
    let mut bpool = Bufferpool::new(1);
    bpool.set_page_limit(2);
    let mut block = [0u8; PAGE_SIZE];
    block[16] = 42;
    assert!(bpool.supply_block(3, block));
    assert_eq!(bpool.fetch(3 * 256 + 1, 0, 16), Some(FieldType::Epoch(42)));
    // What the pool has is newer than the file.
    bpool.insert(3 * 256 + 1, 0, &FieldType::Epoch(43)).unwrap();
    assert!(!bpool.supply_block(3, block));
    assert_eq!(bpool.fetch(3 * 256 + 1, 0, 16), Some(FieldType::Epoch(43)));
    assert!(!bpool.supply_block(usize::MAX, block));
    assert_eq!(bpool.create_page(FieldType::Epoch(0)), Ok(4));
}
