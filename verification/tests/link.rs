use bookmarks::catalog::Catalog;
use bookmarks::error::StoreError;
use bookmarks::history::{Event, History};
use bookmarks::link::{Link, LinkWithTags, LinkWithTagsNew};
use bookmarks::link_tag::LinkTag;
use bookmarks::metatag::Metatag;
use bookmarks::short_url::{decode, encode};
use bookmarks::tag::Tag;

const ATAREAO: &str = r#"<html><head><title>El atareao</title>
<meta name="description" content="Linux para legos">
<meta name="keywords" content="linux, rust, linux">
</head><body></body></html>"#;

fn link_setup() -> Catalog {
    Catalog::new(1000)
}

fn link_teardown(catalog: &mut Catalog) {
    let _result = Link::drop(catalog);
}

fn nothing_known(url: &str) -> Metatag {
    Metatag::from_parts(url, "", None, None)
}

fn submission(url: &str, tags: &[&str], private: bool) -> LinkWithTagsNew {
    LinkWithTagsNew::new(
        url,
        Some(format!("title of {}", url)),
        Some(format!("about {}", url)),
        Some(tags.iter().map(|tag| tag.to_string()).collect()),
        Some(private),
        Some(100),
        Some(200),
    )
}

fn submit(catalog: &mut Catalog, url: &str, tags: &[&str], private: bool) -> LinkWithTags {
    Link::create_at(catalog, &submission(url, tags, private), &nothing_known(url), 1).unwrap()
}

#[test]
fn link_create() {
    let mut catalog = link_setup();
    let new_link = LinkWithTagsNew::new("https://atareao.es", None, None, None, None, None, None);

    let url = "https://atareao.es";
    match Link::create(&mut catalog, url, ATAREAO) {
        Ok(link) => {
            assert_eq!(link.url(), new_link.url());
        },
        Err(_) => assert!(false),
    }
    link_teardown(&mut catalog);
}

#[test]
fn link_read_one() {
    let mut catalog = link_setup();
    match Link::create(&mut catalog, "https://atareao.es", ATAREAO) {
        Ok(link) => {
            let test = Link::read(&catalog, link.id()).unwrap();
            assert_eq!(test.id, link.id());
        },
        Err(_) => assert!(false),
    }
    link_teardown(&mut catalog);
}

#[test]
fn link_read_all() {
    let mut catalog = link_setup();
    let _ = Link::create(&mut catalog, "https://atareao.es", "");
    let _ = Link::create(&mut catalog, "https://google.es", "");
    let _ = Link::create(&mut catalog, "https://github.com", "");
    let links = Link::read_all(&catalog).unwrap();
    assert_eq!(links.len(), 3);
    link_teardown(&mut catalog);
}

#[test]
fn link_delete() {
    let mut catalog = link_setup();
    let link = Link::create(&mut catalog, "etiqueta 4", "").unwrap();
    let _ = Link::delete(&mut catalog, link.id());
    let tags = Link::read_all(&catalog).unwrap();
    assert_eq!(tags.len(), 0);
    link_teardown(&mut catalog);
}

#[test]
fn create_fills_the_open_fields_from_the_page() {
    let mut catalog = link_setup();
    let link = Link::create(&mut catalog, "https://example.org", ATAREAO).unwrap();
    assert_eq!(link.url(), "https://example.org");
    assert_eq!(link.title(), "El atareao");
    assert_eq!(link.description(), "Linux para legos");
    assert_eq!(link.tags(), &vec!["linux".to_string(), "rust".to_string()]);
    assert!(link.private());
    assert_eq!(link.created(), link.updated());
    assert_eq!(link.id(), 1);
    assert_eq!(link.shorturl(), "fF");
    assert!(!link.shorturl().is_empty());
}

#[test]
fn create_from_a_page_that_says_nothing_leaves_the_fields_empty() {
    let mut catalog = link_setup();
    let link = Link::create(&mut catalog, "https://example.org", "<html></html>").unwrap();
    assert_eq!(link.title(), "");
    assert_eq!(link.description(), "");
    assert!(link.tags().is_empty());
    assert!(!link.shorturl().is_empty());
    let other = Link::create(&mut catalog, "https://example.org", "<html></html>").unwrap();
    assert_ne!(link.shorturl(), other.shorturl());
    assert_ne!(link.id(), other.id());
}

#[test]
fn create_from_post_reads_the_page_only_for_open_fields() {
    let mut catalog = link_setup();
    let new = LinkWithTagsNew::new(
        "https://example.org",
        Some("mine".to_string()),
        None,
        None,
        Some(false),
        None,
        None,
    );
    assert!(new.needs_metadata());
    let metatag = Metatag::new("https://example.org", ATAREAO);
    let link = Link::create_from_post(&mut catalog, &new, &metatag).unwrap();
    assert_eq!(link.title(), "mine");
    assert_eq!(link.description(), "Linux para legos");
    assert_eq!(link.tags(), &vec!["linux".to_string(), "rust".to_string()]);
    assert!(!link.private());
    assert!(!submission("u", &[], true).needs_metadata());
}

#[test]
fn create_at_uses_the_given_time_for_open_timestamps() {
    let mut catalog = link_setup();
    let new = LinkWithTagsNew::new("u", None, None, None, None, None, None);
    let link = Link::create_at(&mut catalog, &new, &nothing_known("u"), 1234).unwrap();
    assert_eq!((link.created(), link.updated()), (1234, 1234));
    let new = LinkWithTagsNew::new("u", None, None, None, None, Some(5), None);
    let link = Link::create_at(&mut catalog, &new, &nothing_known("u"), 1234).unwrap();
    assert_eq!((link.created(), link.updated()), (5, 1234));
    let new = LinkWithTagsNew::new("u", None, None, None, None, None, Some(7));
    let link = Link::create_at(&mut catalog, &new, &nothing_known("u"), 1234).unwrap();
    assert_eq!((link.created(), link.updated()), (1234, 7));
    let trail = History::search(&catalog, None, None, Some("all")).unwrap();
    assert_eq!(trail.len(), 3);
    assert!(trail.iter().all(|entry| entry.event == Event::CREATED && entry.datetime == 1234));
}

#[test]
fn the_alias_is_the_code_of_the_identity() {
    let mut catalog = Catalog::new(77);
    for n in 1..=70usize {
        let link = submit(&mut catalog, "u", &[], true);
        assert_eq!(link.id(), n as i64);
        assert_eq!(link.shorturl(), encode(n, 77));
        assert_eq!(decode(link.shorturl(), catalog.seed()), Ok(n));
    }
}

#[test]
fn a_tag_named_twice_is_filed_once() {
    let mut catalog = link_setup();
    let link = submit(&mut catalog, "u", &["a", "b", "a", "a", "b"], true);
    assert_eq!(link.tags(), &vec!["a".to_string(), "b".to_string()]);
    assert_eq!(LinkTag::read_all(&catalog).unwrap().len(), 2);
    assert_eq!(Tag::read_all(&catalog).unwrap().len(), 2);
    assert_eq!(Tag::read(&catalog, "a").unwrap().occurrences(), 1);
}

#[test]
fn links_share_tags() {
    let mut catalog = link_setup();
    let first = submit(&mut catalog, "u1", &["a", "b"], true);
    let second = submit(&mut catalog, "u2", &["b", "c"], true);
    assert_eq!(Tag::read_all(&catalog).unwrap().len(), 3);
    assert_eq!(Tag::read(&catalog, "b").unwrap().occurrences(), 2);
    assert_eq!(Tag::read_tags_for_link(&catalog, first.id()).unwrap(), vec!["a", "b"]);
    assert_eq!(Tag::read_tags_for_link(&catalog, second.id()).unwrap(), vec!["b", "c"]);
}

#[test]
fn read_refuses_a_missing_link() {
    let mut catalog = link_setup();
    assert_eq!(Link::read(&catalog, 1).err(), Some(StoreError::NotFound));
    let link = submit(&mut catalog, "u", &[], false);
    let read = Link::read(&catalog, link.id()).unwrap();
    assert_eq!(read.url, "u");
    assert_eq!(read.title, "title of u");
    assert_eq!(read.description, "about u");
    assert_eq!(read.shorturl, link.shorturl());
    assert!(!read.private);
    assert_eq!((read.created, read.updated), (100, 200));
    assert_eq!(Link::read(&catalog, 2).err(), Some(StoreError::NotFound));
    assert_eq!(Link::read(&catalog, -1).err(), Some(StoreError::NotFound));
}

#[test]
fn update_replaces_the_fields_that_are_named() {
    let mut catalog = link_setup();
    let link = submit(&mut catalog, "u", &["a"], true);
    let change = LinkWithTagsNew::new("v", None, Some("new".to_string()), None, Some(false), None, Some(9));
    let changed = Link::update(&mut catalog, link.id(), &change).unwrap();
    assert_eq!(changed.id, link.id());
    assert_eq!(changed.shorturl, link.shorturl());
    assert_eq!(changed.url, "v");
    assert_eq!(changed.title, "title of u");
    assert_eq!(changed.description, "new");
    assert!(!changed.private);
    assert_eq!((changed.created, changed.updated), (100, 9));
    let read = Link::read(&catalog, link.id()).unwrap();
    assert_eq!(read.description, "new");
    assert_eq!(read.url, "v");
    assert_eq!(Tag::read_tags_for_link(&catalog, link.id()).unwrap(), vec!["a"]);
}

#[test]
fn update_replaces_the_tags_where_they_are_named() {
    let mut catalog = link_setup();
    let link = submit(&mut catalog, "u", &["a", "b"], true);
    let other = submit(&mut catalog, "w", &["a"], true);
    let change = LinkWithTagsNew::new(
        "u",
        None,
        None,
        Some(vec!["b".to_string(), "c".to_string()]),
        None,
        None,
        None,
    );
    Link::update(&mut catalog, link.id(), &change).unwrap();
    assert_eq!(Tag::read_tags_for_link(&catalog, link.id()).unwrap(), vec!["b", "c"]);
    assert_eq!(Tag::read_tags_for_link(&catalog, other.id()).unwrap(), vec!["a"]);
    assert_eq!(Tag::read(&catalog, "a").unwrap().occurrences(), 1);
    assert_eq!(Tag::read(&catalog, "b").unwrap().occurrences(), 1);
    assert_eq!(Tag::read(&catalog, "c").unwrap().occurrences(), 1);
}

#[test]
fn update_refuses_a_missing_link() {
    let mut catalog = link_setup();
    let change = LinkWithTagsNew::new("v", None, None, None, None, None, None);
    assert_eq!(Link::update(&mut catalog, 1, &change).err(), Some(StoreError::NotFound));
    assert!(History::search(&catalog, None, None, Some("all")).unwrap().is_empty());
}

#[test]
fn delete_removes_the_link_and_its_associations() {
    let mut catalog = link_setup();
    let keep = submit(&mut catalog, "keep", &["a"], true);
    let before_a = Tag::read(&catalog, "a").unwrap().occurrences();
    let link = submit(&mut catalog, "u", &["a", "b"], true);
    assert_eq!(Tag::read(&catalog, "a").unwrap().occurrences(), before_a + 1);
    assert_eq!(Tag::read(&catalog, "b").unwrap().occurrences(), 1);
    let removed = Link::delete(&mut catalog, link.id()).unwrap();
    assert_eq!(removed.id, link.id());
    assert_eq!(removed.url, "u");
    assert_eq!(Tag::read(&catalog, "a").unwrap().occurrences(), before_a);
    assert_eq!(Tag::read(&catalog, "b").unwrap().occurrences(), 0);
    assert!(LinkTag::read_all(&catalog).unwrap().iter().all(|row| row.link_id == keep.id()));
    assert_eq!(Link::read(&catalog, link.id()).err(), Some(StoreError::NotFound));
    assert_eq!(Link::delete(&mut catalog, link.id()).err(), Some(StoreError::NotFound));
    assert_eq!(Link::read_all(&catalog).unwrap().len(), 1);
}

#[test]
fn identities_are_never_used_again() {
    let mut catalog = link_setup();
    let first = submit(&mut catalog, "u", &[], true);
    Link::delete(&mut catalog, first.id()).unwrap();
    let second = submit(&mut catalog, "u", &[], true);
    assert_eq!((first.id(), second.id()), (1, 2));
    assert_ne!(first.shorturl(), second.shorturl());
    Link::drop(&mut catalog).unwrap();
    let third = submit(&mut catalog, "u", &[], true);
    assert_eq!(third.id(), 3);
}

#[test]
fn link_changes_are_written_to_the_trail() {
    let mut catalog = link_setup();
    let link = submit(&mut catalog, "u", &["a"], true);
    let change = LinkWithTagsNew::new("v", None, None, None, None, None, None);
    Link::update(&mut catalog, link.id(), &change).unwrap();
    Link::delete(&mut catalog, link.id()).unwrap();
    let trail = History::search(&catalog, None, None, Some("all")).unwrap();
    let mut events: Vec<(i64, Event)> = trail.iter().map(|entry| (entry.id, entry.event)).collect();
    events.sort_by_key(|pair| pair.0);
    assert_eq!(events, vec![(1, Event::CREATED), (2, Event::UPDATED), (3, Event::DELETED)]);
}

#[test]
fn drop_removes_links_and_associations() {
    let mut catalog = link_setup();
    submit(&mut catalog, "u1", &["a"], true);
    submit(&mut catalog, "u2", &["a", "b"], true);
    assert_eq!(Link::drop(&mut catalog), Ok(2));
    assert!(Link::read_all(&catalog).unwrap().is_empty());
    assert!(LinkTag::read_all(&catalog).unwrap().is_empty());
    assert_eq!(Tag::read_all(&catalog).unwrap().len(), 2);
    assert_eq!(Tag::read(&catalog, "a").unwrap().occurrences(), 0);
}

#[test]
fn links_are_the_same_by_identity() {
    let mut catalog = link_setup();
    let link = submit(&mut catalog, "u", &[], true);
    let before = Link::read(&catalog, link.id()).unwrap();
    let change = LinkWithTagsNew::new("v", None, None, None, None, None, None);
    let after = Link::update(&mut catalog, link.id(), &change).unwrap();
    assert_eq!(before, after);
    let other = submit(&mut catalog, "u", &[], true);
    assert_ne!(before, Link::read(&catalog, other.id()).unwrap());
}

#[test]
fn a_catalog_without_room_for_the_alias_is_full() {
    let mut catalog = Catalog::new(usize::MAX);
    let new = LinkWithTagsNew::new("u", None, None, None, None, None, None);
    let made = Link::create_at(&mut catalog, &new, &nothing_known("u"), 0);
    assert_eq!(made.err(), Some(StoreError::Full));
    assert!(Link::read_all(&catalog).unwrap().is_empty());
    assert!(History::search(&catalog, None, None, Some("all")).unwrap().is_empty());
    let mut catalog = Catalog::new(usize::MAX - 1);
    assert!(Link::create_at(&mut catalog, &new, &nothing_known("u"), 0).is_ok());
    assert_eq!(Link::create_at(&mut catalog, &new, &nothing_known("u"), 0).err(), Some(StoreError::Full));
}
