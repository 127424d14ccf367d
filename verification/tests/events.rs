use nodian::Ledger;

#[test]
fn open_is_idempotent_on_schema() {
    let l = Ledger::open(None);
    assert!(l.get_events(&String::from("2024-03-01")).is_empty());
    let mut l = Ledger::open(Some(l));
    l.add_event(
        String::from("Standup"),
        String::from("daily sync"),
        String::from("2024-03-01"),
    )
    .unwrap();
    // reopening keeps the rows exactly as they are
    let l = Ledger::open(Some(l));
    assert_eq!(l.get_events(&String::from("2024-03-01")).len(), 1);
}

#[test]
fn add_then_query_by_date() {
    let mut l = Ledger::open(None);
    l.add_event(
        String::from("Standup"),
        String::from("daily sync"),
        String::from("2024-03-01"),
    )
    .unwrap();
    let hits = l.get_events(&String::from("2024-03-01"));
    assert_eq!(hits.len(), 1);
    assert_eq!(hits[0].title, "Standup");
    assert_eq!(hits[0].description, "daily sync");
    assert_eq!(hits[0].date, "2024-03-01");
    assert!(l.get_events(&String::from("2024-03-02")).is_empty());
}

#[test]
fn ids_are_unique_and_stable() {
    let mut l = Ledger::open(None);
    l.add_event(String::from("a"), String::new(), String::from("d")).unwrap();
    l.add_event(String::from("b"), String::new(), String::from("d")).unwrap();
    l.add_event(String::from("c"), String::new(), String::from("d")).unwrap();
    let hits = l.get_events(&String::from("d"));
    assert_eq!(hits.len(), 3);
    assert!(hits[0].id != hits[1].id && hits[1].id != hits[2].id && hits[0].id != hits[2].id);
    let keep_b = hits[1].id;
    l.delete_event(hits[0].id).unwrap();
    let hits = l.get_events(&String::from("d"));
    assert_eq!(hits.len(), 2);
    // the surviving rows keep their ids
    assert_eq!(hits[0].id, keep_b);
}

#[test]
fn delete_of_missing_id_is_a_noop_success() {
    let mut l = Ledger::open(None);
    l.add_event(
        String::from("Standup"),
        String::from("daily sync"),
        String::from("2024-03-01"),
    )
    .unwrap();
    let stray_id = 424242;
    assert!(l.delete_event(stray_id).is_ok());
    let hits = l.get_events(&String::from("2024-03-01"));
    assert_eq!(hits.len(), 1);
    assert!(hits.iter().all(|e| e.id != stray_id));
}

#[test]
fn delete_removes_only_that_row() {
    let mut l = Ledger::open(None);
    l.add_event(String::from("one"), String::new(), String::from("2024-03-01")).unwrap();
    l.add_event(String::from("two"), String::new(), String::from("2024-03-01")).unwrap();
    let hits = l.get_events(&String::from("2024-03-01"));
    let gone = hits[0].id;
    l.delete_event(gone).unwrap();
    let hits = l.get_events(&String::from("2024-03-01"));
    assert_eq!(hits.len(), 1);
    assert_eq!(hits[0].title, "two");
    assert!(hits.iter().all(|e| e.id != gone));
}

#[test]
fn empty_title_is_allowed() {
    let mut l = Ledger::open(None);
    l.add_event(String::new(), String::new(), String::from("2024-03-01")).unwrap();
    let hits = l.get_events(&String::from("2024-03-01"));
    assert_eq!(hits.len(), 1);
    assert_eq!(hits[0].title, "");
}
