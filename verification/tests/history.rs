use bookmarks::catalog::Catalog;
use bookmarks::error::StoreError;
use bookmarks::history::{Event, History, HISTORY_PAGE};

fn trail_of(catalog: &Catalog) -> Vec<History> {
    History::search(catalog, None, None, Some("all")).unwrap()
}

#[test]
fn events_have_names() {
    assert_eq!(Event::CREATED.to_string(), "CREATED");
    assert_eq!(Event::UPDATED.to_string(), "UPDATED");
    assert_eq!(Event::DELETED.to_string(), "DELETED");
    assert_eq!(Event::SETTINGS.to_string(), "SETTINGS");
    assert_eq!(Event::SETTINGS.name(), "SETTINGS");
}

#[test]
fn events_are_found_by_their_names() {
    for event in [Event::CREATED, Event::UPDATED, Event::DELETED, Event::SETTINGS] {
        assert_eq!(Event::from_name(event.name()), Some(event));
    }
    assert_eq!(Event::from_name("created"), None);
    assert_eq!(Event::from_name(""), None);
    assert_eq!(Event::from_name("CREATED "), None);
}

#[test]
fn insert_appends_an_entry() {
    let mut catalog = Catalog::new(0);
    History::insert(&mut catalog, Event::SETTINGS, 50);
    History::insert(&mut catalog, Event::CREATED, 60);
    assert_eq!(
        trail_of(&catalog),
        vec![
            History { id: 1, event: Event::SETTINGS, datetime: 50 },
            History { id: 2, event: Event::CREATED, datetime: 60 },
        ]
    );
}

#[test]
fn the_four_recorders_write_their_kind() {
    let mut catalog = Catalog::new(0);
    History::created(&mut catalog);
    History::updated(&mut catalog);
    History::deleted(&mut catalog);
    History::settings(&mut catalog);
    let mut trail = trail_of(&catalog);
    trail.sort_by_key(|entry| entry.id);
    let kinds: Vec<(i64, Event)> = trail.iter().map(|entry| (entry.id, entry.event)).collect();
    assert_eq!(
        kinds,
        vec![(1, Event::CREATED), (2, Event::UPDATED), (3, Event::DELETED), (4, Event::SETTINGS)]
    );
    assert!(trail.iter().all(|entry| entry.datetime > 1_600_000_000_000));
}

#[test]
fn search_orders_by_time_and_then_by_identity() {
    let mut catalog = Catalog::new(0);
    History::insert(&mut catalog, Event::CREATED, 30);
    History::insert(&mut catalog, Event::UPDATED, 10);
    History::insert(&mut catalog, Event::DELETED, 30);
    History::insert(&mut catalog, Event::SETTINGS, 20);
    let ids: Vec<i64> = trail_of(&catalog).iter().map(|entry| entry.id).collect();
    assert_eq!(ids, vec![2, 4, 1, 3]);
}

#[test]
fn search_since_a_time_leaves_out_what_is_not_later() {
    let mut catalog = Catalog::new(0);
    for time in [10, 20, 30, 40] {
        History::insert(&mut catalog, Event::CREATED, time);
    }
    let times = |since: Option<i64>| -> Vec<i64> {
        History::search(&catalog, since, None, Some("all"))
            .unwrap()
            .iter()
            .map(|entry| entry.datetime)
            .collect()
    };
    assert_eq!(times(Some(20)), vec![30, 40]);
    assert_eq!(times(Some(40)), Vec::<i64>::new());
    assert_eq!(times(Some(0)), vec![10, 20, 30, 40]);
    assert_eq!(times(None), vec![10, 20, 30, 40]);
}

#[test]
fn search_cuts_the_trail_to_the_page() {
    let mut catalog = Catalog::new(0);
    for time in 0..30 {
        History::insert(&mut catalog, Event::UPDATED, time);
    }
    assert_eq!(HISTORY_PAGE, 20);
    assert_eq!(History::search(&catalog, None, None, None).unwrap().len(), 20);
    assert_eq!(History::search(&catalog, None, Some(25), None).unwrap().len(), 5);
    let window = History::search(&catalog, Some(9), Some(2), Some("3")).unwrap();
    let times: Vec<i64> = window.iter().map(|entry| entry.datetime).collect();
    assert_eq!(times, vec![12, 13, 14]);
    assert_eq!(History::search(&catalog, None, Some(7), Some("all")).unwrap().len(), 30);
}

#[test]
fn history_search_refuses_a_malformed_page() {
    let catalog = Catalog::new(0);
    assert_eq!(History::search(&catalog, None, None, Some("x")).err(), Some(StoreError::Validation));
    assert_eq!(History::search(&catalog, None, Some(-3), Some("1")).err(), Some(StoreError::Validation));
    assert_eq!(History::search(&catalog, None, Some(-3), None).err(), Some(StoreError::Validation));
}

#[test]
fn read_all_lists_the_trail_as_it_was_written() {
    let mut catalog = Catalog::new(0);
    History::insert(&mut catalog, Event::CREATED, 30);
    History::insert(&mut catalog, Event::UPDATED, 10);
    let ids: Vec<i64> = History::read_all(&catalog).unwrap().iter().map(|entry| entry.id).collect();
    assert_eq!(ids, vec![1, 2]);
}
