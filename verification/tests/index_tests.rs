use logfrog::capture::name_key;
use logfrog::index::{place_of, Index, Place};
use logfrog::row::{FieldType, Row};

#[test]
fn basic_insert_test() {
    let mut index = Index::new();
    let mut rows: Vec<Row> = Vec::new();

    let row_1 = Row::new(0, vec![name_key("Jake")]);
    rows.push(row_1.clone());
    index.insert(row_1, 0);

    let fetched_rows: Option<Vec<Row>> = index
        .get(name_key("Jake"))
        .map(|ids| ids.iter().map(|id| rows[*id].clone()).collect());

    assert_eq!(fetched_rows.unwrap()[0].fields[0], name_key("Jake"));
}

#[test]
fn duplicate_insert_test() {
    let mut index = Index::new();
    let mut rows: Vec<Row> = vec![Row::new(0, vec![name_key("Jake")])];

    let row_2 = Row::new(1, vec![name_key("Foo")]);
    let row_3 = Row::new(2, vec![name_key("Foo")]);
    rows.push(row_2.clone());
    rows.push(row_3.clone());
    index.insert(row_2, 0);
    index.insert(row_3, 0);

    let fetched_rows_opt_2: Option<Vec<Row>> = index
        .get(name_key("Foo"))
        .map(|ids| ids.iter().map(|id| rows[*id].clone()).collect());
    let fetched_rows_2 = fetched_rows_opt_2.unwrap();

    println!("{:?}", index);

    assert_eq!(fetched_rows_2[0].fields[0], name_key("Foo"));

    assert_eq!(fetched_rows_2[1].fields[0], name_key("Foo"));
}

#[test]
fn index_lists_every_occurrence_in_ascending_order() {
    let mut index = Index::new();
    let names = ["b", "a", "c", "a", "b", "a", "d", "a"];
    for (id, name) in names.iter().enumerate() {
        index.insert(Row::new(id, vec![name_key(name), FieldType::Epoch(id as u128)]), 0);
    }
    assert_eq!(index.len(), 4);
    assert_eq!(index.get(name_key("a")), Some(&vec![1, 3, 5, 7]));
    assert_eq!(index.get(name_key("b")), Some(&vec![0, 4]));
    assert_eq!(index.get(name_key("c")), Some(&vec![2]));
    assert_eq!(index.get(name_key("d")), Some(&vec![6]));
    assert_eq!(index.get(name_key("e")), None);
    assert_eq!(index.get(name_key("")), None);
    assert_eq!(index.get(FieldType::Epoch(1)), None);
}

#[test]
fn index_on_another_column() {
    let mut index = Index::new();
    index.insert(Row::new(0, vec![name_key("x"), FieldType::Epoch(5)]), 1);
    index.insert(Row::new(1, vec![name_key("y"), FieldType::Epoch(3)]), 1);
    index.insert(Row::new(2, vec![name_key("z"), FieldType::Epoch(5)]), 1);
    assert_eq!(index.get(FieldType::Epoch(5)), Some(&vec![0, 2]));
    assert_eq!(index.get(FieldType::Epoch(3)), Some(&vec![1]));
    assert_eq!(index.get(FieldType::Epoch(4)), None);
    assert_eq!(index.get(name_key("x")), None);
}

#[test]
fn index_finds_each_of_many_keys() {
    let mut index = Index::new();
    // Insert in an order that is neither ascending nor descending.
    for i in 0..500usize {
        let k = (i * 7919) % 500;
        index.insert(Row::new(i, vec![name_key(&format!("name_{}", k))]), 0);
    }
    assert_eq!(index.len(), 500);
    for i in 0..500usize {
        let k = (i * 7919) % 500;
        assert_eq!(index.get(name_key(&format!("name_{}", k))), Some(&vec![i]));
    }
    assert_eq!(index.get(name_key("name_500")), None);
}

#[test]
fn keys_are_ordered_like_the_derived_order() {
    let keys = [
        name_key(""),
        name_key("a"),
        name_key("ab"),
        name_key("b"),
        name_key("\u{ff}"),
        FieldType::Epoch(0),
        FieldType::Epoch(1),
        FieldType::Epoch(u128::MAX),
    ];
    for (i, a) in keys.iter().enumerate() {
        for (j, b) in keys.iter().enumerate() {
            let expected = if i < j {
                Place::Before
            } else if i == j {
                Place::Same
            } else {
                Place::After
            };
            assert_eq!(place_of(a, b), expected);
            assert_eq!(a < b, i < j);
            assert_eq!(a == b, i == j);
        }
    }
}
