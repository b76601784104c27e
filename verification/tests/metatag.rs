use bookmarks::metatag::{search_for_meta, search_for_title, Metatag};

const PAGE: &str = r#"<!DOCTYPE html>
<html lang="es">
<head>
<meta charset="utf-8">
<title>El atareao - Linux para legos</title>
<meta name="description" content="Tutoriales de Linux, por y para legos">
<meta name="keywords"  content="linux, ubuntu ,docker,  rust" />
</head>
<body><h1>Hola</h1></body>
</html>"#;

#[test]
fn title_is_the_inner_text_of_the_first_title_element() {
    assert_eq!(search_for_title("<title>", "</title>", PAGE), "El atareao - Linux para legos");
    assert_eq!(search_for_title("<title>", "</title>", "<title>a</title><title>b</title>"), "a");
    assert_eq!(search_for_title("<title>", "</title>", "<title lang=\"en\">Hi</title>"), "Hi");
    assert_eq!(search_for_title("<title>", "</title>", "<title></title>"), "");
    assert_eq!(search_for_title("<h1>", "</h1>", PAGE), "Hola");
}

#[test]
fn title_is_empty_where_the_element_is_missing() {
    assert_eq!(search_for_title("<title>", "</title>", ""), "");
    assert_eq!(search_for_title("<title>", "</title>", "<html><body>text</body></html>"), "");
}

#[test]
fn title_is_empty_where_the_close_tag_is_missing() {
    assert_eq!(search_for_title("<title>", "</title>", "<title>never closed"), "");
    assert_eq!(search_for_title("<title>", "</title>", "<title>a<title>b</title>"), "");
}

#[test]
fn title_is_empty_where_the_open_tag_never_ends() {
    assert_eq!(search_for_title("<title>", "</title>", "<title lang"), "");
    assert_eq!(search_for_title("<title>", "</title>", "<title"), "");
}

#[test]
fn meta_values_are_found_by_name() {
    assert_eq!(
        search_for_meta("description", PAGE),
        Some("Tutoriales de Linux, por y para legos".to_string())
    );
    assert_eq!(search_for_meta("keywords", PAGE), Some("linux, ubuntu ,docker,  rust".to_string()));
    assert_eq!(search_for_meta("author", PAGE), None);
    assert_eq!(search_for_meta("description", ""), None);
    assert_eq!(
        search_for_meta("description", r#"<meta name = "description"   content= "" >"#),
        Some(String::new())
    );
}

#[test]
fn meta_search_takes_the_first_element() {
    let markup = r#"<meta name="keywords" content="a"><meta name="keywords" content="b">"#;
    assert_eq!(search_for_meta("keywords", markup), Some("a".to_string()));
}

#[test]
fn meta_name_that_makes_no_pattern_finds_nothing() {
    assert_eq!(search_for_meta("(", PAGE), None);
    assert_eq!(search_for_meta("[a-", PAGE), None);
}

#[test]
fn metatag_of_a_page() {
    let metatag = Metatag::new("https://atareao.es", PAGE);
    assert_eq!(metatag.url(), "https://atareao.es");
    assert_eq!(metatag.title, "El atareao - Linux para legos");
    assert_eq!(metatag.description, "Tutoriales de Linux, por y para legos");
    assert_eq!(metatag.tags, vec!["linux", "ubuntu", "docker", "rust"]);
}

#[test]
fn metatag_of_a_page_that_says_nothing() {
    let metatag = Metatag::new("https://example.org", "<html><body></body></html>");
    assert_eq!(metatag.url(), "https://example.org");
    assert_eq!(metatag.title(), "");
    assert_eq!(metatag.description(), "");
    assert!(metatag.tags().is_empty());
}

#[test]
fn metatag_fields_degrade_one_by_one() {
    let only_title = Metatag::new("u", "<title>T</title>");
    assert_eq!(only_title.title, "T");
    assert_eq!(only_title.description, "");
    assert!(only_title.tags.is_empty());
    let only_keywords = Metatag::new("u", r#"<meta name="keywords" content="">"#);
    assert_eq!(only_keywords.title, "");
    assert_eq!(only_keywords.tags, vec![""]);
}

#[test]
fn metatag_from_parts() {
    let metatag = Metatag::from_parts("u", "t", None, Some(" a , b ".to_string()));
    assert_eq!(metatag.description, "");
    assert_eq!(metatag.tags, vec!["a", "b"]);
    let metatag = Metatag::from_parts("u", "t", Some("d".to_string()), None);
    assert_eq!(metatag.description, "d");
    assert!(metatag.tags.is_empty());
}

#[test]
fn check_new() {
    let metatag = Metatag::new("https://atareao.es", PAGE);
    println!("atareao: {}", metatag.to_string());
}
