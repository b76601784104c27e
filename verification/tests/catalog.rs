use bookmarks::catalog::Catalog;
use bookmarks::error::StoreError;
use bookmarks::history::{Event, History};
use bookmarks::link::{Link, LinkWithTagsNew};
use bookmarks::link_tag::LinkTag;
use bookmarks::metatag::Metatag;
use bookmarks::short_url::encode;
use bookmarks::tag::Tag;

fn stored_link(id: i64, seed: usize) -> Link {
    Link {
        id,
        url: format!("https://example.org/{}", id),
        shorturl: encode(id as usize, seed),
        title: String::new(),
        description: String::new(),
        private: true,
        created: 0,
        updated: 0,
    }
}

fn stored_tag(id: i64, name: &str) -> Tag {
    Tag { id, name: name.to_string() }
}

fn filled() -> Catalog {
    let mut catalog = Catalog::new(1000);
    for (url, tags) in [("a", vec!["x", "y"]), ("b", vec!["y"]), ("c", vec![])] {
        let new = LinkWithTagsNew::new(
            url,
            Some(String::new()),
            Some(String::new()),
            Some(tags.iter().map(|tag| tag.to_string()).collect()),
            None,
            None,
            None,
        );
        Link::create_at(&mut catalog, &new, &Metatag::from_parts(url, "", None, None), 7).unwrap();
    }
    catalog
}

#[test]
fn a_new_catalog_is_empty() {
    let catalog = Catalog::new(5);
    assert_eq!(catalog.seed(), 5);
    assert!(Link::read_all(&catalog).unwrap().is_empty());
    assert!(Tag::read_all(&catalog).unwrap().is_empty());
    assert!(LinkTag::read_all(&catalog).unwrap().is_empty());
    assert!(History::search(&catalog, None, None, Some("all")).unwrap().is_empty());
}

#[test]
fn restore_takes_the_rows_of_a_catalog() {
    let catalog = filled();
    let links = Link::read_all(&catalog).unwrap();
    let tags = Tag::read_all(&catalog).unwrap();
    let rows = LinkTag::read_all(&catalog).unwrap();
    let trail = History::search(&catalog, None, None, Some("all")).unwrap();
    let mut copy = Catalog::restore(1000, links, tags, rows.clone(), trail.clone()).unwrap();
    assert_eq!(copy.seed(), 1000);
    assert_eq!(Link::read_all(&copy).unwrap().len(), 3);
    assert_eq!(Tag::read_all(&copy).unwrap(), Tag::read_all(&catalog).unwrap());
    assert_eq!(LinkTag::read_all(&copy).unwrap(), rows);
    assert_eq!(History::search(&copy, None, None, Some("all")).unwrap(), trail);
    assert_eq!(Tag::read(&copy, "y").unwrap().occurrences(), 2);
    let next = Link::create(&mut copy, "d", "").unwrap();
    assert_eq!(next.id(), 4);
    assert_eq!(Tag::create(&mut copy, "z").unwrap().id, 3);
    assert_eq!(LinkTag::create(&mut copy, 4, 3).unwrap().id, 4);
    History::insert(&mut copy, Event::SETTINGS, 9);
    assert_eq!(History::search(&copy, Some(8), None, Some("all")).unwrap()[0].id, 5);
}

#[test]
fn restore_of_no_rows_is_a_new_catalog() {
    let mut catalog = Catalog::restore(3, Vec::new(), Vec::new(), Vec::new(), Vec::new()).unwrap();
    assert_eq!(Link::create(&mut catalog, "u", "").unwrap().id(), 1);
}

#[test]
fn restore_refuses_links_out_of_order() {
    let links = vec![stored_link(2, 0), stored_link(1, 0)];
    assert_eq!(Catalog::restore(0, links, vec![], vec![], vec![]).err(), Some(StoreError::Validation));
    let links = vec![stored_link(1, 0), stored_link(1, 0)];
    assert_eq!(Catalog::restore(0, links, vec![], vec![], vec![]).err(), Some(StoreError::Validation));
    let links = vec![stored_link(0, 0)];
    assert_eq!(Catalog::restore(0, links, vec![], vec![], vec![]).err(), Some(StoreError::Validation));
    let mut last = stored_link(1, 0);
    last.id = i64::MAX;
    assert_eq!(Catalog::restore(0, vec![last], vec![], vec![], vec![]).err(), Some(StoreError::Validation));
}

#[test]
fn restore_refuses_an_alias_of_another_seed() {
    let links = vec![stored_link(1, 1000), stored_link(2, 1000)];
    assert!(Catalog::restore(1000, links, vec![], vec![], vec![]).is_ok());
    let links = vec![stored_link(1, 1000), stored_link(2, 1000)];
    assert_eq!(Catalog::restore(1001, links, vec![], vec![], vec![]).err(), Some(StoreError::Validation));
    let mut link = stored_link(1, 1000);
    link.shorturl = String::new();
    assert_eq!(Catalog::restore(1000, vec![link], vec![], vec![], vec![]).err(), Some(StoreError::Validation));
    let links = vec![stored_link(1, 0)];
    assert_eq!(Catalog::restore(usize::MAX, links, vec![], vec![], vec![]).err(), Some(StoreError::Validation));
}

#[test]
fn restore_refuses_tags_that_break_the_rules() {
    let twice = vec![stored_tag(1, "a"), stored_tag(2, "b"), stored_tag(3, "a")];
    assert_eq!(Catalog::restore(0, vec![], twice, vec![], vec![]).err(), Some(StoreError::Validation));
    let unordered = vec![stored_tag(2, "a"), stored_tag(1, "b")];
    assert_eq!(Catalog::restore(0, vec![], unordered, vec![], vec![]).err(), Some(StoreError::Validation));
    let negative = vec![stored_tag(-1, "a")];
    assert_eq!(Catalog::restore(0, vec![], negative, vec![], vec![]).err(), Some(StoreError::Validation));
    let fine = vec![stored_tag(3, "a"), stored_tag(9, "A")];
    assert!(Catalog::restore(0, vec![], fine, vec![], vec![]).is_ok());
}

#[test]
fn restore_refuses_associations_that_point_nowhere() {
    let links = || vec![stored_link(1, 0)];
    let tags = || vec![stored_tag(1, "a")];
    let row = |id, link_id, tag_id| LinkTag { id, link_id, tag_id };
    assert!(Catalog::restore(0, links(), tags(), vec![row(1, 1, 1), row(5, 1, 1)], vec![]).is_ok());
    for rows in [
        vec![row(1, 2, 1)],
        vec![row(1, 1, 2)],
        vec![row(0, 1, 1)],
        vec![row(2, 1, 1), row(2, 1, 1)],
        vec![row(2, 1, 1), row(1, 1, 1)],
        vec![row(i64::MAX, 1, 1)],
    ] {
        assert_eq!(
            Catalog::restore(0, links(), tags(), rows.clone(), vec![]).err(),
            Some(StoreError::Validation),
            "{:?}",
            rows
        );
    }
}

#[test]
fn restore_refuses_a_trail_out_of_order() {
    let entry = |id| History { id, event: Event::CREATED, datetime: 0 };
    assert!(Catalog::restore(0, vec![], vec![], vec![], vec![entry(1), entry(4)]).is_ok());
    for trail in [vec![entry(2), entry(1)], vec![entry(0)], vec![entry(3), entry(3)], vec![entry(i64::MAX)]] {
        assert_eq!(
            Catalog::restore(0, vec![], vec![], vec![], trail).err(),
            Some(StoreError::Validation)
        );
    }
}
