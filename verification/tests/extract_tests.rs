use dirscan::extract::extract_links;

#[test]
fn anchors_in_document_order() {
    let body = "<html><body><a href=\"a.png\">a</a><p>x</p><a href=\"sub/\">sub</a></body></html>";
    let links = extract_links(body);
    assert_eq!(links.len(), 2);
    assert_eq!(links[0].href, "a.png");
    assert_eq!(links[0].size_text, None);
    assert_eq!(links[1].href, "sub/");
}

#[test]
fn anchors_without_href_yield_nothing() {
    let body = "<html><a name=\"top\">t</a><a href=\"only.txt\">f</a></html>";
    let links = extract_links(body);
    assert_eq!(links.len(), 1);
    assert_eq!(links[0].href, "only.txt");
}

#[test]
fn empty_body_has_no_links() {
    assert!(extract_links("").is_empty());
}
