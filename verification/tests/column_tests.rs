use logfrog::bufferpool::Bufferpool;
use logfrog::capture::name_key;
use logfrog::column::Column;
use logfrog::error::StoreError;
use logfrog::row::FieldType;

#[test]
fn column_appends_and_fetches() {
    let mut bp = Bufferpool::new(2);
    bp.set_page_limit(2);
    let mut names = Column::new("name".to_string(), 0, name_key(""));
    let mut starts = Column::new("start".to_string(), 1, FieldType::Epoch(0));
    assert_eq!(names.current_index(), 0);
    assert_eq!(names.column_number(), 0);
    assert_eq!(starts.column_number(), 1);
    assert_eq!(starts.field_type(), FieldType::Epoch(0));

    for i in 0..300usize {
        assert_eq!(names.insert(&mut bp, &name_key(&format!("n{}", i))), Ok(()));
        assert_eq!(starts.insert(&mut bp, &FieldType::Epoch(i as u128 + 1)), Ok(()));
    }
    assert_eq!(names.current_index(), 300);
    assert_eq!(starts.current_index(), 300);
    for i in 0..300usize {
        assert_eq!(names.fetch(&mut bp, i), Some(name_key(&format!("n{}", i))));
        assert_eq!(starts.fetch(&mut bp, i), Some(FieldType::Epoch(i as u128 + 1)));
    }
}

#[test]
fn column_rejects_a_value_of_the_other_kind() {
    let mut bp = Bufferpool::new(2);
    let mut names = Column::new("name".to_string(), 0, name_key(""));
    let mut starts = Column::new("start".to_string(), 1, FieldType::Epoch(0));
    assert_eq!(names.insert(&mut bp, &FieldType::Epoch(5)), Err(StoreError::TypeMismatch));
    assert_eq!(starts.insert(&mut bp, &name_key("x")), Err(StoreError::TypeMismatch));
    // Nothing was written and no index moved.
    assert_eq!(names.current_index(), 0);
    assert_eq!(starts.current_index(), 0);
    assert_eq!(bp.take_pending(), Vec::<usize>::new());
    assert_eq!(names.fetch(&mut bp, 0), None);
}

#[test]
fn column_without_a_place_in_the_pool_is_out_of_range() {
    let mut bp = Bufferpool::new(2);
    let mut stray = Column::new("stray".to_string(), 2, FieldType::Epoch(0));
    assert_eq!(stray.insert(&mut bp, &FieldType::Epoch(5)), Err(StoreError::OutOfRange));
    assert_eq!(stray.current_index(), 0);
}

#[test]
fn column_fetch_past_its_end_is_absent() {
    let mut bp = Bufferpool::new(1);
    bp.set_page_limit(1);
    let mut starts = Column::new("start".to_string(), 0, FieldType::Epoch(0));
    starts.insert(&mut bp, &FieldType::Epoch(9)).unwrap();
    assert_eq!(starts.fetch(&mut bp, 0), Some(FieldType::Epoch(9)));
    // Row 1 lies in the same page, which exists, but was never written.
    assert_eq!(starts.fetch(&mut bp, 1), None);
    assert_eq!(starts.fetch(&mut bp, usize::MAX), None);
}

#[test]
fn column_reports_a_missing_page_as_absent() {
    let mut written = Bufferpool::new(1);
    let mut starts = Column::new("start".to_string(), 0, FieldType::Epoch(0));
    starts.insert(&mut written, &FieldType::Epoch(9)).unwrap();
    // Another pool does not have the page.
    let mut other = Bufferpool::new(1);
    assert_eq!(starts.fetch(&mut other, 0), None);
}
