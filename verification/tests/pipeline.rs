use txn_encoder::catalog::{Catalog, normalize_category};
use txn_encoder::dataset::{Dataset, build_dataset, convert_entry_to_dataset};
use txn_encoder::entry::Entry;
use txn_encoder::feature::{Error, Feat};
use txn_encoder::partition::{partition, partition_seeded};

fn s(t: &str) -> String {
    t.to_string()
}

fn entry_with_category(desc: &str, cat: &str) -> Entry {
    Entry::new(s("01-02-2020"), s("01-02-2020"), s(desc), s(""), s("10,00"), s(cat))
}

#[test]
fn catalog_sorts_lexicographically() {
    let records = vec![
        entry_with_category("a", "A"),
        entry_with_category("b", "C"),
        entry_with_category("c", "B"),
    ];
    let cat = Catalog::build(&records);
    assert_eq!(cat.len(), 3);
    assert_eq!(cat.label(0).as_str(), "A");
    assert_eq!(cat.label(1).as_str(), "B");
    assert_eq!(cat.label(2).as_str(), "C");
}

#[test]
fn catalog_ignores_encounter_order_and_duplicates() {
    let forward = vec![
        entry_with_category("a", "A"),
        entry_with_category("b", "B"),
        entry_with_category("c", "C"),
    ];
    let scrambled = vec![
        entry_with_category("x", "C"),
        entry_with_category("y", "A"),
        entry_with_category("z", "B"),
        entry_with_category("w", "A"),
    ];
    let c1 = Catalog::build(&forward);
    let c2 = Catalog::build(&scrambled);
    assert_eq!(c1.len(), c2.len());
    for i in 0..c1.len() {
        assert_eq!(c1.label(i), c2.label(i));
    }
}

#[test]
fn catalog_of_no_records_is_empty() {
    let records: Vec<Entry> = vec![];
    let cat = Catalog::build(&records);
    assert_eq!(cat.len(), 0);
}

#[test]
fn one_hot_label() {
    let records = vec![
        entry_with_category("a", "FOOD"),
        entry_with_category("b", "RENT"),
    ];
    let cat = Catalog::build(&records);
    let v = normalize_category("RENT", &cat).unwrap();
    assert_eq!(v, vec![Feat { num: 0, den: 1 }, Feat { num: 1, den: 1 }]);
}

#[test]
fn unknown_category_is_refused() {
    let records = vec![entry_with_category("a", "FOOD")];
    let cat = Catalog::build(&records);
    assert_eq!(normalize_category("FUEL", &cat), Err(Error::UnknownCategory));
}

#[test]
fn dataset_push_and_get() {
    let records = vec![entry_with_category("a", "FOOD")];
    let cat = Catalog::build(&records);
    let mut data = Dataset::new();
    assert_eq!(data.size(), 0);
    convert_entry_to_dataset(&records[0], &cat, &mut data).unwrap();
    assert_eq!(data.size(), 1);
    let (input, label) = data.get(0);
    assert_eq!(input.len(), 29);
    assert_eq!(label.len(), 1);
    assert_eq!(label[0], Feat { num: 1, den: 1 });
}

#[test]
fn convert_leaves_dataset_unchanged_on_failure() {
    let records = vec![entry_with_category("a", "FOOD")];
    let cat = Catalog::build(&records);
    let stranger = entry_with_category("b", "FUEL");
    let mut data = Dataset::new();
    assert_eq!(convert_entry_to_dataset(&stranger, &cat, &mut data), Err(Error::UnknownCategory));
    assert_eq!(data.size(), 0);
}

#[test]
fn partition_counts() {
    for (n, want_train) in [(0usize, 0usize), (1, 0), (4, 3), (5, 4), (7, 5), (10, 8)] {
        let records: Vec<Entry> = (0..n)
            .map(|i| entry_with_category(&format!("r{i}"), "A"))
            .collect();
        let (train, held_out) = partition(records);
        assert_eq!(train.len(), want_train);
        assert_eq!(held_out.len(), n - want_train);
    }
}

#[test]
fn partition_covers_every_record_once() {
    let records: Vec<Entry> = (0..9)
        .map(|i| entry_with_category(&format!("r{i}"), "A"))
        .collect();
    let mut expected: Vec<String> = records.iter().map(|e| e.description.clone()).collect();
    let (train, held_out) = partition_seeded(records, 42);
    assert_eq!(train.len(), 7);
    assert_eq!(held_out.len(), 2);
    let mut seen: Vec<String> = train
        .iter()
        .chain(held_out.iter())
        .map(|e| e.description.clone())
        .collect();
    seen.sort();
    expected.sort();
    assert_eq!(seen, expected);
}

#[test]
fn partition_seeded_is_reproducible() {
    let make = || -> Vec<Entry> {
        (0..8).map(|i| entry_with_category(&format!("r{i}"), "A")).collect()
    };
    let (t1, h1) = partition_seeded(make(), 7);
    let (t2, h2) = partition_seeded(make(), 7);
    assert_eq!(t1, t2);
    assert_eq!(h1, h2);
}

#[test]
fn end_to_end_two_records() {
    let records = vec![
        Entry::new(s("01-02-2020"), s("01-02-2020"), s("X"), s(""), s("10,00"), s("FOOD")),
        Entry::new(s("01-02-2020"), s("01-02-2020"), s("Y"), s("3,50"), s(""), s("RENT")),
    ];
    let cat = Catalog::build(&records);
    assert_eq!(cat.len(), 2);
    let data = build_dataset(&records, &cat).unwrap();
    assert_eq!(data.size(), 2);
    let (i0, l0) = data.get(0);
    let (i1, l1) = data.get(1);
    assert_eq!(i0.len(), 29);
    assert_eq!(i1.len(), 29);
    assert_eq!(*l0, vec![Feat { num: 1, den: 1 }, Feat { num: 0, den: 1 }]);
    assert_eq!(*l1, vec![Feat { num: 0, den: 1 }, Feat { num: 1, den: 1 }]);
    // Credit of the first record: 10.00, unnormalized.
    assert_eq!(i0[28], Feat { num: 1000, den: 100 });
    // Debit of the second record.
    assert_eq!(i1[27], Feat { num: 350, den: 100 });
}

#[test]
fn build_dataset_fails_fast_on_first_offender() {
    let records = vec![
        entry_with_category("ok", "FOOD"),
        Entry::new(s("bad"), s("01-02-2020"), s("X"), s(""), s(""), s("FOOD")),
    ];
    let cat = Catalog::build(&records);
    assert!(matches!(build_dataset(&records, &cat), Err(Error::ParseError)));
}
