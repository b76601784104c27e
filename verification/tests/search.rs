use bookmarks::catalog::Catalog;
use bookmarks::error::StoreError;
use bookmarks::link::{Link, LinkWithTagsNew};
use bookmarks::link_store::LINKS_PAGE;
use bookmarks::metatag::Metatag;
use bookmarks::search::{LinkFilter, Page, Visibility};

fn shelf() -> Catalog {
    let mut catalog = Catalog::new(1000);
    let rows: [(&str, &str, &str, &[&str], bool); 5] = [
        ("https://rust-lang.org", "Rust", "A language empowering everyone", &["rust", "lang"], false),
        ("https://verus.example", "Verus", "Verified Rust for low-level systems", &["rust", "proof"], true),
        ("https://z3.example", "Z3", "An SMT solver", &["proof"], false),
        ("https://sqlite.org", "SQLite", "A small database", &[], true),
        ("https://example.org", "Example", "Nothing about rust", &["misc"], false),
    ];
    for (url, title, description, tags, private) in rows {
        let new = LinkWithTagsNew::new(
            url,
            Some(title.to_string()),
            Some(description.to_string()),
            Some(tags.iter().map(|tag| tag.to_string()).collect()),
            Some(private),
            Some(0),
            Some(0),
        );
        Link::create_at(&mut catalog, &new, &Metatag::from_parts(url, "", None, None), 0).unwrap();
    }
    catalog
}

fn ids(found: Result<Vec<Link>, StoreError>) -> Vec<i64> {
    found.unwrap().iter().map(|link| link.id).collect()
}

#[test]
fn page_parse_reads_offset_and_limit() {
    assert_eq!(Page::parse(None, None, 20), Ok(Page::Window { offset: 0, limit: 20 }));
    assert_eq!(Page::parse(Some(3), Some("7"), 20), Ok(Page::Window { offset: 3, limit: 7 }));
    assert_eq!(Page::parse(Some(3), Some("all"), 20), Ok(Page::All));
    assert_eq!(Page::parse(Some(-3), Some("all"), 20), Ok(Page::All));
    assert_eq!(Page::parse(None, Some("0"), 20), Ok(Page::Window { offset: 0, limit: 0 }));
    assert_eq!(Page::parse(Some(i32::MAX), None, 1), Ok(Page::Window { offset: 2147483647, limit: 1 }));
}

#[test]
fn page_parse_refuses_malformed_parameters() {
    for limit in ["", "ALL", "All", "ten", "-1", "1.0", " 5", "5 rows"] {
        assert_eq!(Page::parse(None, Some(limit), 20), Err(StoreError::Validation), "{:?}", limit);
    }
    assert_eq!(Page::parse(Some(-1), None, 20), Err(StoreError::Validation));
    assert_eq!(Page::parse(Some(-1), Some("5"), 20), Err(StoreError::Validation));
    assert_eq!(Page::parse(Some(i32::MIN), Some("5"), 20), Err(StoreError::Validation));
}

#[test]
fn page_cut_shows_the_window() {
    let rows = vec![10, 11, 12, 13, 14];
    assert_eq!(Page::All.cut(rows.clone()), rows);
    assert_eq!(Page::Window { offset: 1, limit: 2 }.cut(rows.clone()), vec![11, 12]);
    assert_eq!(Page::Window { offset: 3, limit: 9 }.cut(rows.clone()), vec![13, 14]);
    assert_eq!(Page::Window { offset: 5, limit: 9 }.cut(rows.clone()), Vec::<i32>::new());
    assert_eq!(Page::Window { offset: 6, limit: 1 }.cut(rows.clone()), Vec::<i32>::new());
    assert_eq!(Page::Window { offset: 0, limit: 0 }.cut(rows.clone()), Vec::<i32>::new());
    assert_eq!(Page::Window { offset: 1, limit: usize::MAX }.cut(rows.clone()), vec![11, 12, 13, 14]);
    assert_eq!(Page::Window { offset: usize::MAX, limit: usize::MAX }.cut(rows), Vec::<i32>::new());
}

#[test]
fn visibility_parse_knows_two_words() {
    assert_eq!(Visibility::parse(Some("private")), Visibility::Private);
    assert_eq!(Visibility::parse(Some("public")), Visibility::Public);
    assert_eq!(Visibility::parse(Some("all")), Visibility::All);
    assert_eq!(Visibility::parse(None), Visibility::All);
    for word in ["", "Private", "PUBLIC", "secret", "privat", "public "] {
        assert_eq!(Visibility::parse(Some(word)), Visibility::All, "{:?}", word);
    }
}

#[test]
fn visibility_admits_links_by_their_flag() {
    assert!(Visibility::All.covers(true) && Visibility::All.covers(false));
    assert!(Visibility::Private.covers(true) && !Visibility::Private.covers(false));
    assert!(!Visibility::Public.covers(true) && Visibility::Public.covers(false));
}

#[test]
fn search_with_no_parameters_but_all_lists_every_link() {
    let catalog = shelf();
    assert_eq!(ids(Link::search(&catalog, None, Some("all"), None, None, None)), vec![1, 2, 3, 4, 5]);
}

#[test]
fn search_by_visibility() {
    let catalog = shelf();
    let by = |visibility: Option<&str>| ids(Link::search(&catalog, None, Some("all"), None, None, visibility));
    assert_eq!(by(Some("all")), vec![1, 2, 3, 4, 5]);
    assert_eq!(by(Some("private")), vec![2, 4]);
    assert_eq!(by(Some("public")), vec![1, 3, 5]);
    assert_eq!(by(Some("whatever")), by(Some("all")));
    assert_eq!(by(Some("")), by(Some("all")));
    assert_eq!(by(None), by(Some("all")));
    for link in Link::search(&catalog, None, Some("all"), None, None, Some("private")).unwrap() {
        assert!(link.private);
    }
}

#[test]
fn search_by_term_looks_at_title_and_description() {
    let catalog = shelf();
    let by = |term: &str| ids(Link::search(&catalog, None, Some("all"), Some(term), None, None));
    assert_eq!(by("Rust"), vec![1, 2]);
    assert_eq!(by("rust"), vec![5]);
    assert_eq!(by("SMT"), vec![3]);
    assert_eq!(by("SQLite"), vec![4]);
    assert_eq!(by(""), vec![1, 2, 3, 4, 5]);
    assert_eq!(by("%"), Vec::<i64>::new());
    assert_eq!(by("no such text"), Vec::<i64>::new());
}

#[test]
fn search_by_tags_selects_links_with_any_of_them() {
    let catalog = shelf();
    let by = |tags: &str| ids(Link::search(&catalog, None, Some("all"), None, Some(tags), None));
    assert_eq!(by("rust"), vec![1, 2]);
    assert_eq!(by("proof"), vec![2, 3]);
    assert_eq!(by("rust+proof"), vec![1, 2, 3]);
    assert_eq!(by(" lang + misc "), vec![1, 5]);
    assert_eq!(by("nothing"), Vec::<i64>::new());
    assert_eq!(by(""), Vec::<i64>::new());
    assert_eq!(by("Rust"), Vec::<i64>::new());
}

#[test]
fn search_combines_its_parts_with_and() {
    let catalog = shelf();
    assert_eq!(
        ids(Link::search(&catalog, None, Some("all"), Some("Rust"), Some("proof"), None)),
        vec![2]
    );
    assert_eq!(
        ids(Link::search(&catalog, None, Some("all"), Some("Rust"), Some("rust+proof"), Some("public"))),
        vec![1]
    );
    assert_eq!(
        ids(Link::search(&catalog, None, Some("all"), Some("solver"), Some("proof"), Some("private"))),
        Vec::<i64>::new()
    );
}

#[test]
fn search_with_limit_all_ignores_the_offset() {
    let catalog = shelf();
    for offset in [None, Some(0), Some(2), Some(100), Some(-7)] {
        assert_eq!(ids(Link::search(&catalog, offset, Some("all"), None, None, None)), vec![1, 2, 3, 4, 5]);
        assert_eq!(ids(Link::search(&catalog, offset, Some("all"), None, None, Some("public"))), vec![1, 3, 5]);
    }
}

#[test]
fn search_with_a_limit_shows_at_most_that_many_from_the_offset() {
    let catalog = shelf();
    let page = |offset: Option<i32>, limit: &str| ids(Link::search(&catalog, offset, Some(limit), None, None, None));
    assert_eq!(page(None, "2"), vec![1, 2]);
    assert_eq!(page(Some(2), "2"), vec![3, 4]);
    assert_eq!(page(Some(4), "2"), vec![5]);
    assert_eq!(page(Some(5), "2"), Vec::<i64>::new());
    assert_eq!(page(Some(1), "100"), vec![2, 3, 4, 5]);
    assert_eq!(page(None, "0"), Vec::<i64>::new());
    assert_eq!(
        ids(Link::search(&catalog, Some(1), Some("1"), None, None, Some("public"))),
        vec![3]
    );
}

#[test]
fn search_without_a_limit_shows_nothing() {
    let catalog = shelf();
    assert_eq!(LINKS_PAGE, 0);
    assert_eq!(ids(Link::search(&catalog, None, None, None, None, None)), Vec::<i64>::new());
}

#[test]
fn link_search_refuses_a_malformed_page() {
    let catalog = shelf();
    assert_eq!(Link::search(&catalog, None, Some("x"), None, None, None).err(), Some(StoreError::Validation));
    assert_eq!(Link::search(&catalog, Some(-1), Some("3"), None, None, None).err(), Some(StoreError::Validation));
    assert_eq!(Link::search(&catalog, Some(-1), None, Some("Rust"), None, None).err(), Some(StoreError::Validation));
}

#[test]
fn a_filter_selects_on_its_own() {
    let catalog = shelf();
    let link = Link::read(&catalog, 2).unwrap();
    let tags = vec!["rust".to_string(), "proof".to_string()];
    assert!(LinkFilter::compile(None, None, None).selects(&link, &tags));
    assert!(LinkFilter::compile(Some("Verified"), Some("x+proof"), Some("private")).selects(&link, &tags));
    assert!(!LinkFilter::compile(Some("verified"), None, None).selects(&link, &tags));
    assert!(!LinkFilter::compile(None, Some("x+y"), None).selects(&link, &tags));
    assert!(!LinkFilter::compile(None, None, Some("public")).selects(&link, &tags));
    assert!(!LinkFilter::compile(None, Some("rust"), None).selects(&link, &Vec::new()));
}
