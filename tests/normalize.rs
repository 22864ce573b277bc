use crawler::url::domain_of;
use crawler::parser::{absolute_link, extension, hrefs_of_groups, links_from_hrefs, Parser, StaticParser};
use crawler::http::{canonical_url, is_html, Page};

#[test]
fn normalization_table() {
    assert_eq!(domain_of("a.b.example.com"), "example.com");
    assert_eq!(domain_of("example.co.uk"), "example.co.uk");
    assert_eq!(domain_of("sub.example.co.uk/path"), "example.co.uk");
    assert_eq!(domain_of("localhost"), "localhost");
    assert_eq!(domain_of("a.io"), "a.io");
}

#[test]
fn normalization_strips_scheme_and_path() {
    assert_eq!(domain_of("https://www.rust-lang.org/learn?x=1"), "rust-lang.org");
    assert_eq!(domain_of("http://docs.example.com#top"), "example.com");
    assert_eq!(domain_of("https://news.bbc.co.uk/sport"), "bbc.co.uk");
    assert_eq!(domain_of("example.com:8080/x"), "example.com:8080");
    assert_eq!(domain_of(""), "");
    assert_eq!(domain_of("https://"), "");
}

#[test]
fn second_label_measured_in_bytes() {
    assert_eq!(domain_of("a.\u{e9}\u{e9}.com"), "\u{e9}\u{e9}.com");
    assert_eq!(domain_of("a.\u{e9}.com"), "a.\u{e9}.com");
    assert_eq!(domain_of("x.abc.com"), "x.abc.com");
}

#[test]
fn extension_of_paths() {
    assert_eq!(extension("https://a.com/index.html"), Some(String::from("html")));
    assert_eq!(extension("https://a.com/img/logo.png?v=2"), Some(String::from("png")));
    assert_eq!(extension("https://a.com/dir/"), None);
    assert_eq!(extension("a.com"), None);
    assert_eq!(extension("/x/page.php#frag"), Some(String::from("php")));
    assert_eq!(extension("/x/readme"), None);
    assert_eq!(extension("https://http://a.b"), None);
    assert_eq!(extension("https://https://a.com/p.htm"), Some(String::from("htm")));
}

#[test]
fn absolute_links() {
    assert_eq!(absolute_link("https://a.com/dir/page.html", "other.html"), "https://a.com/dir/other.html");
    assert_eq!(absolute_link("https://a.com/dir/", "/x"), "https://a.com/dir/x");
    assert_eq!(absolute_link("https://a.com/dir/", "http://b.org/"), "http://b.org/");
    assert_eq!(absolute_link("https://a.com/", "//c"), "https://a.com/c");
    assert_eq!(absolute_link("nobase", "https://b.com/x"), "https://b.com/x");
}

#[test]
fn groups_to_hrefs() {
    let groups = vec![Some(String::from("a.html")), None, Some(String::from("b"))];
    assert_eq!(hrefs_of_groups(&groups), vec![String::from("a.html"), String::from("b")]);
}

#[test]
fn hrefs_filtered_and_deduplicated() {
    let hrefs = vec![
        String::from("mailto:me@a.com"),
        String::from("https://b.com/{{x}}"),
        String::from("https://b.com/logo.png"),
        String::from("https://b.com/index.html"),
        String::from("page.php"),
        String::from("https://b.com/index.html"),
        String::from("https://c.org"),
    ];
    let r = links_from_hrefs("https://a.com/dir/", &hrefs);
    assert_eq!(
        r,
        vec![
            String::from("https://b.com/index.html"),
            String::from("https://a.com/dir/page.php"),
            String::from("https://c.org"),
        ]
    );
}

#[test]
fn static_parser_reads_anchor_hrefs() {
    let parser = StaticParser::new().unwrap();
    let page = Page {
        url: String::from("https://a.com/start/"),
        domain: String::from("a.com"),
        body: String::from(
            "<html><a href=\"https://b.com/\">b</a> <a class=\"x\" href=\"rel.html\">r</a> <a href=\"mailto:x@y\">m</a> <img src=\"i.png\"></html>",
        ),
    };
    let links = parser.links(&page);
    assert_eq!(links, vec![String::from("https://b.com/"), String::from("https://a.com/start/rel.html")]);
    assert_eq!(parser.page_links(&page), links);
}

#[test]
fn canonical_urls() {
    assert_eq!(canonical_url("example.com"), "https://example.com");
    assert_eq!(canonical_url("http://example.com"), "http://example.com");
    assert_eq!(canonical_url("https://example.com/a"), "https://example.com/a");
}

#[test]
fn html_content_types() {
    assert!(is_html("text/html; charset=utf-8"));
    assert!(is_html("text/html"));
    assert!(!is_html("application/json"));
    assert!(!is_html("text/plain"));
}
