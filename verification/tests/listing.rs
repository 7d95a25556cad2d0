use staticserve::handler::{handle_folder, handle_request, Body, Probe, Status};
use staticserve::render::{lex_le_bytes, sort_names};

fn segs(parts: &[&str]) -> Vec<Vec<u8>> {
    parts.iter().map(|p| p.as_bytes().to_vec()).collect()
}

fn body_bytes(body: Body) -> Vec<u8> {
    match body {
        Body::Bytes(b) => b,
        _ => panic!("expected a materialized body"),
    }
}

#[test]
fn listing_order_is_up_then_lexicographic() {
    let response = handle_folder(&segs(&[]), Some(segs(&["banana", "Apple", "cherry"])));
    assert_eq!(response.status, Status::Okay);
    let expected = b"<a href=\"/\">..</a>\
        <br><a href=\"/Apple\">Apple</a>\
        <br><a href=\"/banana\">banana</a>\
        <br><a href=\"/cherry\">cherry</a>"
        .to_vec();
    assert_eq!(body_bytes(response.body), expected);
}

#[test]
fn empty_root_listing_has_only_up_link() {
    let response = handle_request(&b"".to_vec(), Probe::IsDir, Some(segs(&[])), None);
    assert_eq!(response.status, Status::Okay);
    assert_eq!(body_bytes(response.body), b"<a href=\"/\">..</a>".to_vec());
}

#[test]
fn entry_hrefs_are_root_relative_without_double_slashes() {
    let response = handle_folder(&segs(&["sub"]), Some(segs(&["file.txt"])));
    let bytes = body_bytes(response.body);
    let expected = b"<a href=\"/\">..</a><br><a href=\"/sub/file.txt\">file.txt</a>".to_vec();
    assert_eq!(bytes, expected);
    assert!(!bytes.windows(2).any(|w| w == b"//"));
    assert!(!bytes.windows(8).any(|w| w == b"/srv/www"));
}

#[test]
fn up_link_points_to_parent() {
    let response = handle_folder(&segs(&["a", "b"]), Some(segs(&[])));
    assert_eq!(body_bytes(response.body), b"<a href=\"/a\">..</a>".to_vec());
}

#[test]
fn names_are_escaped_in_label_and_href() {
    let response = handle_folder(&segs(&[]), Some(vec![b"a<b>&\"c".to_vec()]));
    let expected = b"<a href=\"/\">..</a>\
        <br><a href=\"/a&lt;b&gt;&amp;&quot;c\">a&lt;b&gt;&amp;&quot;c</a>"
        .to_vec();
    assert_eq!(body_bytes(response.body), expected);
}

#[test]
fn duplicate_names_are_kept() {
    let response = handle_folder(&segs(&[]), Some(segs(&["a", "a"])));
    let expected = b"<a href=\"/\">..</a>\
        <br><a href=\"/a\">a</a>\
        <br><a href=\"/a\">a</a>"
        .to_vec();
    assert_eq!(body_bytes(response.body), expected);
}

#[test]
fn sort_names_orders_by_bytes() {
    let sorted = sort_names(&segs(&["banana", "Apple", "cherry", "Apple"]));
    assert_eq!(sorted, segs(&["Apple", "Apple", "banana", "cherry"]));
}

#[test]
fn lexicographic_order_on_bytes() {
    assert!(lex_le_bytes(&b"a".to_vec(), &b"ab".to_vec()));
    assert!(!lex_le_bytes(&b"ab".to_vec(), &b"a".to_vec()));
    assert!(lex_le_bytes(&b"Apple".to_vec(), &b"apple".to_vec()));
    assert!(lex_le_bytes(&b"abc".to_vec(), &b"abc".to_vec()));
    assert!(!lex_le_bytes(&b"b".to_vec(), &b"ab".to_vec()));
}
