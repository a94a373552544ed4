use logfrog::capture::name_key;
use logfrog::database::{Average, Database};
use logfrog::disk::PAGE_SIZE;
use logfrog::error::StoreError;
use logfrog::queue::{LFQueue, DB_WRITE_BUFFER_SIZE};
use logfrog::row::{FieldType, Row};

fn mean(avg: Average) -> f64 {
    let sum = avg.sum_high as f64 * 340282366920938463463374607431768211456.0 + avg.sum_low as f64;
    sum / avg.count as f64
}

#[test]
fn average_test() {
    let mut db = Database::new();
    // Write as soon as anything waits.
    db.set_write_buffer_size(0);

    db.capture("hello".to_string(), vec![], 100, 200);
    db.capture("hello".to_string(), vec![], 300, 450);
    db.consume_capture();

    let name_str = "hello";

    let avg = db.average(name_str).map(mean);
    assert_eq!(avg, Some(125.0));

    db.capture("hello".to_string(), vec![], 100, 300);
    db.capture("hello".to_string(), vec![], 300, 452);
    db.consume_capture();

    let avg = db.average(name_str).map(mean).unwrap();
    assert_eq!(avg, 150.5);
}

#[test]
fn average_counts_and_sums_exactly() {
    let mut db = Database::new();
    db.set_write_buffer_size(0);
    db.capture("hello".to_string(), vec![], 100, 200);
    db.capture("other".to_string(), vec![], 1, 1000);
    db.capture("hello".to_string(), vec![], 300, 450);
    assert_eq!(db.consume_capture(), 3);
    assert_eq!(
        db.average("hello"),
        Some(Average { sum_high: 0, sum_low: 250, count: 2 })
    );
    assert_eq!(
        db.average("other"),
        Some(Average { sum_high: 0, sum_low: 999, count: 1 })
    );
}

#[test]
fn average_of_an_unknown_name_is_absent() {
    let mut db = Database::new();
    db.set_write_buffer_size(0);
    assert_eq!(db.average("hello"), None);
    db.capture("hello".to_string(), vec![], 100, 200);
    db.consume_capture();
    assert_eq!(db.average("hell"), None);
    assert_eq!(db.average(""), None);
}

#[test]
fn average_carries_into_the_high_part() {
    let mut db = Database::new();
    db.set_write_buffer_size(0);
    db.capture("big".to_string(), vec![], 1, 0); // wraps to u128::MAX
    db.capture("big".to_string(), vec![], 1, 0);
    db.capture("big".to_string(), vec![], 1, 4);
    db.consume_capture();
    // 2 * (2^128 - 1) + 3 = 2^128 + (2^128 + 1) = 2 * 2^128 + 1
    assert_eq!(
        db.average("big"),
        Some(Average { sum_high: 2, sum_low: 1, count: 3 })
    );
}

#[test]
fn average_skips_rows_that_fetch_does_not_show() {
    let mut db = Database::new();
    db.set_write_buffer_size(0);
    db.capture("f".to_string(), vec![], 0, 50);
    db.capture("f".to_string(), vec![], 10, 30);
    db.consume_capture();
    assert_eq!(db.average("f"), Some(Average { sum_high: 0, sum_low: 20, count: 1 }));
}

#[test]
fn average_looks_names_up_as_they_are_stored() {
    let mut db = Database::new();
    db.set_write_buffer_size(0);
    let long = "n".repeat(70);
    db.capture(long.clone(), vec![], 10, 30);
    db.consume_capture();
    assert_eq!(db.average(&long), Some(Average { sum_high: 0, sum_low: 20, count: 1 }));
    assert_eq!(
        db.average(&"n".repeat(64)),
        Some(Average { sum_high: 0, sum_low: 20, count: 1 })
    );
    assert_eq!(db.average(&"n".repeat(63)), None);
}

#[test]
fn drained_captures_are_fetched_unchanged() {
    let mut db = Database::new();
    db.set_page_limit(3);
    let n = DB_WRITE_BUFFER_SIZE + 1;
    for i in 0..n {
        db.capture(format!("call_{}", i), vec![], 1000 + i as u128, 2000 + 3 * i as u128);
    }
    assert_eq!(db.queued(), n);
    assert_eq!(db.consume_capture(), n);
    assert_eq!(db.queued(), 0);
    assert_eq!(db.len(), n);
    for i in 0..n {
        assert_eq!(
            db.fetch(i),
            Some(Row::new(
                i,
                vec![
                    name_key(&format!("call_{}", i)),
                    FieldType::Epoch(1000 + i as u128),
                    FieldType::Epoch(2000 + 3 * i as u128),
                    FieldType::Epoch(1000 + 2 * i as u128),
                ]
            ))
        );
    }
    assert_eq!(db.fetch(n), None);
    assert_eq!(db.fetch(usize::MAX), None);
}

#[test]
fn captures_wait_until_more_wait_than_the_threshold() {
    let mut db = Database::new();
    for i in 0..DB_WRITE_BUFFER_SIZE {
        db.capture("f".to_string(), vec![], 10 + i as u128, 20 + i as u128);
    }
    // Exactly as many as the threshold: nothing is written yet.
    assert_eq!(db.consume_capture(), 0);
    assert_eq!(db.queued(), DB_WRITE_BUFFER_SIZE);
    assert_eq!(db.len(), 0);
    assert_eq!(db.fetch(0), None);
    assert_eq!(db.average("f"), None);
    assert!(db.fetch_all().is_empty());

    db.capture("f".to_string(), vec![], 1, 2);
    assert_eq!(db.consume_capture(), DB_WRITE_BUFFER_SIZE + 1);
    assert_eq!(db.queued(), 0);
    assert_eq!(db.len(), DB_WRITE_BUFFER_SIZE + 1);
    // The rows came in the order of the captures.
    assert_eq!(db.fetch(0).unwrap().fields[1], FieldType::Epoch(10));
    assert_eq!(db.fetch(DB_WRITE_BUFFER_SIZE).unwrap().fields[1], FieldType::Epoch(1));
}

#[test]
fn row_ids_increase_across_drains() {
    let mut db = Database::new();
    db.set_write_buffer_size(1);
    let mut expected = 0usize;
    for round in 0..5u128 {
        for k in 0..3u128 {
            db.capture(format!("r{}k{}", round, k), vec![], 1 + round, 10 + k);
        }
        assert_eq!(db.consume_capture(), 3);
        expected += 3;
        assert_eq!(db.len(), expected);
    }
    let all = db.fetch_all();
    assert_eq!(all.len(), 15);
    for (i, row) in all.iter().enumerate() {
        assert_eq!(row.id, i);
        assert_eq!(row.fields[0], name_key(&format!("r{}k{}", i / 3, i % 3)));
    }
    for pair in all.windows(2) {
        assert!(pair[0].id < pair[1].id);
    }
}

#[test]
fn fetch_all_restarts_from_the_first_row() {
    let mut db = Database::new();
    db.set_write_buffer_size(0);
    db.set_page_limit(1);
    for i in 0..300u128 {
        db.capture("f".to_string(), vec![], i + 1, i + 2);
    }
    db.consume_capture();
    let first = db.fetch_all();
    let second = db.fetch_all();
    assert_eq!(first.len(), 300);
    assert_eq!(first, second);
    assert_eq!(first[299].fields[1], FieldType::Epoch(300));
}

#[test]
fn row_with_start_zero_reads_as_unwritten() {
    let mut db = Database::new();
    db.set_write_buffer_size(0);
    db.capture("a".to_string(), vec![], 5, 6);
    db.capture("zero".to_string(), vec![], 0, 6);
    db.capture("b".to_string(), vec![], 7, 9);
    assert_eq!(db.consume_capture(), 3);
    assert!(db.fetch(0).is_some());
    assert_eq!(db.fetch(1), None);
    assert!(db.fetch(2).is_some());
    // The scan stops at the first row that is not shown.
    assert_eq!(db.fetch_all().len(), 1);
}

#[test]
fn rows_survive_eviction_of_every_page() {
    let mut db = Database::new();
    db.set_write_buffer_size(0);
    // No page stays resident: every access loads its page again.
    db.set_page_limit(0);
    for i in 0..600u128 {
        db.capture(format!("fn{}", i % 7), vec![], 10 + i, 20 + 2 * i);
    }
    assert_eq!(db.consume_capture(), 600);
    for i in (0..600usize).step_by(37) {
        let row = db.fetch(i).unwrap();
        assert_eq!(row.fields[0], name_key(&format!("fn{}", i % 7)));
        assert_eq!(row.fields[1], FieldType::Epoch(10 + i as u128));
        assert_eq!(row.fields[2], FieldType::Epoch(20 + 2 * i as u128));
        assert_eq!(row.fields[3], FieldType::Epoch(10 + i as u128));
    }
    db.set_page_limit(2);
    assert_eq!(db.fetch(599).unwrap().fields[3], FieldType::Epoch(609));
    assert_eq!(db.fetch_all().len(), 600);
}

#[test]
fn written_pages_are_listed_for_the_backing_files() {
    let mut db = Database::new();
    db.set_write_buffer_size(0);
    db.capture("hello".to_string(), vec![], 100, 200);
    db.consume_capture();
    // One page per column: ids 0 to 3.
    assert_eq!(db.take_pending(), vec![0, 1, 2, 3]);
    assert_eq!(db.take_pending(), Vec::<usize>::new());
    let names = db.stored_block(0).unwrap();
    assert_eq!(&names[..5], b"hello");
    assert!(names[5..].iter().all(|b| *b == 0));
    let starts = db.stored_block(1).unwrap();
    assert_eq!(starts[0], 100);
    let ends = db.stored_block(2).unwrap();
    assert_eq!(ends[0], 200);
    let deltas = db.stored_block(3).unwrap();
    assert_eq!(deltas[0], 100);
    assert_eq!(db.stored_block(4), None);
    // Many rows in the same pages: each page is listed once.
    for i in 0..50u128 {
        db.capture("hello".to_string(), vec![], 100 + i, 200 + i);
    }
    assert_eq!(db.consume_capture(), 50);
    assert_eq!(db.take_pending(), vec![0, 1, 2, 3]);
}

#[test]
fn supplied_blocks_do_not_change_the_rows() {
    let mut db = Database::new();
    db.set_write_buffer_size(0);
    db.capture("hello".to_string(), vec![], 100, 200);
    db.consume_capture();
    assert!(!db.supply_block(1, [7u8; PAGE_SIZE]));
    assert!(db.supply_block(5, [7u8; PAGE_SIZE]));
    assert_eq!(db.fetch(0).unwrap().fields[1], FieldType::Epoch(100));
    assert_eq!(db.len(), 1);
}

#[test]
fn ingest_writes_captures_that_did_not_wait_in_the_queue() {
    let mut db = Database::new();
    let mut queue = LFQueue::new();
    queue.capture("a".to_string(), vec![], 5, 8);
    queue.capture("b".to_string(), vec![], 6, 10);
    let taken = queue.consume_capture(1);
    assert_eq!(db.ingest(&taken), 2);
    assert_eq!(db.len(), 2);
    assert_eq!(db.queued(), 0);
    assert_eq!(
        db.fetch(1),
        Some(Row::new(
            1,
            vec![
                name_key("b"),
                FieldType::Epoch(6),
                FieldType::Epoch(10),
                FieldType::Epoch(4)
            ]
        ))
    );
    assert_eq!(db.ingest(&Vec::new()), 0);
    assert_eq!(db.len(), 2);
}

#[test]
fn missing_data_directory_is_a_configuration_error() {
    assert_eq!(Database::check_for_data(true), Ok(()));
    assert_eq!(Database::check_for_data(false), Err(StoreError::Configuration));
    assert!(matches!(Database::new_reader(false), Err(StoreError::Configuration)));
    let mut db = Database::new_reader(true).unwrap();
    assert_eq!(db.len(), 0);
    assert_eq!(db.fetch(0), None);
    assert!(db.has_room());
}
