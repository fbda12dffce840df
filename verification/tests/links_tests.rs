use sprout::links::count_links;

#[test]
fn test_wiki_links() {
    let body = "See [[note1]] and [[note2|Display Name]].";
    assert_eq!(count_links(body.as_bytes()), 2);
}

#[test]
fn test_markdown_links() {
    let body = "See [link](path/to/note.md) and [other](another.md).";
    assert_eq!(count_links(body.as_bytes()), 2);
}

#[test]
fn test_deduplication() {
    let body = "See [[note1]] and [[note1]] again, plus [[note1|alias]].";
    assert_eq!(count_links(body.as_bytes()), 1);
}

#[test]
fn test_exclude_external_urls() {
    let body = "See [google](https://google.com) and [[https://example.com]].";
    assert_eq!(count_links(body.as_bytes()), 0);
}

#[test]
fn test_exclude_images() {
    let body = "![alt](image.png) but [link](note.md)";
    assert_eq!(count_links(body.as_bytes()), 1);
}

#[test]
fn test_mixed_links() {
    let body = "[[wiki]] and [md](path.md) and ![img](pic.png) and [ext](https://x.com)";
    assert_eq!(count_links(body.as_bytes()), 2);
}

#[test]
fn test_no_links() {
    assert_eq!(count_links(b"No links here at all."), 0);
}

#[test]
fn test_empty_body() {
    assert_eq!(count_links(b""), 0);
}

#[test]
fn test_multiline_links() {
    let body = "First [[note1]]\nSecond [[note2]]\nThird [link](path.md)\n";
    assert_eq!(count_links(body.as_bytes()), 3);
}

#[test]
fn test_wiki_link_with_heading() {
    let body = "See [[note#heading]].";
    assert_eq!(count_links(body.as_bytes()), 1);
}

#[test]
fn test_mixed_deduplication() {
    // Same target via wiki-link and markdown link should count as separate
    // (wiki target = "note", md target = "note.md")
    let body = "[[note]] and [link](note.md)";
    assert_eq!(count_links(body.as_bytes()), 2);
}

#[test]
fn test_http_wiki_link_excluded() {
    let body = "[[http://example.com]]";
    assert_eq!(count_links(body.as_bytes()), 0);
}

#[test]
fn test_image_at_start_of_line() {
    let body = "![alt](image.png)";
    assert_eq!(count_links(body.as_bytes()), 0);
}
