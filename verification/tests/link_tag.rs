use bookmarks::catalog::Catalog;
use bookmarks::error::StoreError;
use bookmarks::link::{Link, LinkWithTagsNew};
use bookmarks::link_tag::LinkTag;
use bookmarks::metatag::Metatag;
use bookmarks::tag::Tag;

fn link_tag_setup() -> Catalog {
    let mut catalog = Catalog::new(1000);
    let new = LinkWithTagsNew::new(
        "https://atareao.es",
        Some(String::new()),
        Some(String::new()),
        Some(Vec::new()),
        None,
        None,
        None,
    );
    let metatag = Metatag::from_parts("https://atareao.es", "", None, None);
    Link::create_at(&mut catalog, &new, &metatag, 0).unwrap();
    for name in ["uno", "dos", "tres"] {
        Tag::create(&mut catalog, name).unwrap();
    }
    catalog
}

fn link_tag_teardown(catalog: &mut Catalog) {
    let _result = LinkTag::drop(catalog);
}

#[test]
fn link_tag_create() {
    let mut catalog = link_tag_setup();
    match LinkTag::create(&mut catalog, 1, 1) {
        Ok(linktag) => {
            assert_eq!(linktag.link_id, 1);
            assert_eq!(linktag.tag_id, 1);
        },
        Err(_) => assert!(false),
    }
    link_tag_teardown(&mut catalog);
}

#[test]
fn link_tag_read_one() {
    let mut catalog = link_tag_setup();
    match LinkTag::create(&mut catalog, 1, 1) {
        Ok(linktag) => {
            let test = LinkTag::read(&catalog, linktag.id).unwrap();
            assert_eq!(test, linktag);
        },
        Err(_) => assert!(false),
    }
    link_tag_teardown(&mut catalog);
}

#[test]
fn link_tag_read_all() {
    let mut catalog = link_tag_setup();
    let _ = LinkTag::create(&mut catalog, 1, 1);
    let _ = LinkTag::create(&mut catalog, 1, 2);
    let _ = LinkTag::create(&mut catalog, 1, 3);
    let links_tags = LinkTag::read_all(&catalog).unwrap();
    assert_eq!(links_tags.len(), 3);
    link_tag_teardown(&mut catalog);
}

#[test]
fn link_tag_delete() {
    let mut catalog = link_tag_setup();
    let link_tag = LinkTag::create(&mut catalog, 1, 1).unwrap();
    let _ = LinkTag::delete(&mut catalog, link_tag.id);
    let links_tags = LinkTag::read_all(&catalog).unwrap();
    assert_eq!(links_tags.len(), 0);
    link_tag_teardown(&mut catalog);
}

#[test]
fn create_needs_the_link_and_the_tag() {
    let mut catalog = link_tag_setup();
    assert_eq!(LinkTag::create(&mut catalog, 2, 1), Err(StoreError::NotFound));
    assert_eq!(LinkTag::create(&mut catalog, 1, 4), Err(StoreError::NotFound));
    assert_eq!(LinkTag::create(&mut catalog, 0, 0), Err(StoreError::NotFound));
    assert!(LinkTag::read_all(&catalog).unwrap().is_empty());
}

#[test]
fn a_pair_can_be_associated_twice() {
    let mut catalog = link_tag_setup();
    let first = LinkTag::create(&mut catalog, 1, 2).unwrap();
    let second = LinkTag::create(&mut catalog, 1, 2).unwrap();
    assert_eq!(first, LinkTag { id: 1, link_id: 1, tag_id: 2 });
    assert_eq!(second, LinkTag { id: 2, link_id: 1, tag_id: 2 });
    assert_eq!(Tag::read(&catalog, "dos").unwrap().occurrences(), 2);
    assert_eq!(Tag::read_tags_for_link(&catalog, 1).unwrap(), vec!["dos", "dos"]);
}

#[test]
fn update_points_an_association_elsewhere() {
    let mut catalog = link_tag_setup();
    let row = LinkTag::create(&mut catalog, 1, 1).unwrap();
    let changed = LinkTag::update(&mut catalog, row.id, 1, 3).unwrap();
    assert_eq!(changed, LinkTag { id: row.id, link_id: 1, tag_id: 3 });
    assert_eq!(LinkTag::read(&catalog, row.id), Ok(changed));
    assert_eq!(Tag::read_tags_for_link(&catalog, 1).unwrap(), vec!["tres"]);
    assert_eq!(LinkTag::update(&mut catalog, row.id, 1, 9), Err(StoreError::NotFound));
    assert_eq!(LinkTag::update(&mut catalog, row.id, 9, 1), Err(StoreError::NotFound));
    assert_eq!(LinkTag::update(&mut catalog, 77, 1, 1), Err(StoreError::NotFound));
    assert_eq!(LinkTag::read(&catalog, row.id), Ok(changed));
}

#[test]
fn delete_hands_the_association_back() {
    let mut catalog = link_tag_setup();
    let a = LinkTag::create(&mut catalog, 1, 1).unwrap();
    let b = LinkTag::create(&mut catalog, 1, 2).unwrap();
    assert_eq!(LinkTag::delete(&mut catalog, a.id), Ok(a));
    assert_eq!(LinkTag::delete(&mut catalog, a.id), Err(StoreError::NotFound));
    assert_eq!(LinkTag::read(&catalog, a.id), Err(StoreError::NotFound));
    assert_eq!(LinkTag::read_all(&catalog).unwrap(), vec![b]);
    let c = LinkTag::create(&mut catalog, 1, 3).unwrap();
    assert_eq!(c.id, 3);
}

#[test]
fn drop_counts_what_it_removes() {
    let mut catalog = link_tag_setup();
    LinkTag::create(&mut catalog, 1, 1).unwrap();
    LinkTag::create(&mut catalog, 1, 2).unwrap();
    assert_eq!(LinkTag::drop(&mut catalog), Ok(2));
    assert_eq!(LinkTag::drop(&mut catalog), Ok(0));
    assert_eq!(Tag::read_all(&catalog).unwrap().len(), 3);
}
