use identicon::cache::MemoizingCache;
use identicon::pipeline::load;
use identicon::canvas::EncodeError;
use identicon::server::{
    answer, answer_with_headers, entity_tag_of, gen_image, handle_error, is_current, is_favicon,
    not_found, respond, respond_with_headers, same_text, Body, Failure, Reply, FAVICON,
};
use identicon::utils::fingerprint;
use std::sync::Arc;

fn header<'a>(reply: &'a Reply, name: &str) -> Option<&'a str> {
    reply.headers.iter().find(|(n, _)| n == name).map(|(_, v)| v.as_str())
}

fn image_of(reply: &Reply) -> Vec<u8> {
    match &reply.body {
        Body::Image(entry) => entry.image.clone(),
        other => panic!("expected a picture, got {:?}", other),
    }
}

#[test]
fn same_text_compares_contents() {
    assert!(same_text("", ""));
    assert!(same_text("favicon.ico", "favicon.ico"));
    assert!(!same_text("favicon.ico", "favicon.icon"));
    assert!(!same_text("\u{e9}", "e"));
    assert!(same_text("\u{e9}t\u{e9}", "\u{e9}t\u{e9}"));
}

#[test]
fn only_the_favicon_is_reserved() {
    assert_eq!(FAVICON, "favicon.ico");
    assert!(is_favicon("favicon.ico"));
    assert!(!is_favicon("favicon"));
    assert!(!is_favicon("Favicon.ico"));
    assert!(!is_favicon(""));
    assert!(!is_favicon("alice"));
}

#[test]
fn not_found_reply() {
    let reply = not_found();
    assert_eq!(reply.status, 404);
    assert!(reply.headers.is_empty());
    assert_eq!(reply.body, Body::Text(String::from("nothing to see here")));
}

#[test]
fn timeout_reply() {
    let reply = handle_error(&Failure::Timeout);
    assert_eq!(reply.status, 408);
    assert!(reply.headers.is_empty());
    assert_eq!(reply.body, Body::Text(String::from("request timed out")));
}

#[test]
fn overload_reply() {
    let reply = handle_error(&Failure::Overloaded);
    assert_eq!(reply.status, 503);
    assert!(reply.headers.is_empty());
    assert_eq!(reply.body, Body::Text(String::from("service is overloaded, try again later")));
}

#[test]
fn internal_failure_reply() {
    let reply = handle_error(&Failure::Internal(String::from("disk on fire")));
    assert_eq!(reply.status, 500);
    assert!(reply.headers.is_empty());
    assert_eq!(reply.body, Body::Text(String::from("unhandled internal error: disk on fire")));
}

#[test]
fn picture_reply() {
    let entry = Arc::new(load(b"alice").unwrap());
    let reply = respond(entry.clone(), None);
    assert_eq!(reply.status, 200);
    assert_eq!(
        reply.headers,
        vec![
            (String::from("content-type"), String::from("image/png")),
            (String::from("cache-control"), String::from("public, max-age=30672000")),
            (String::from("etag"), format!("\"{}\"", entry.etag)),
        ]
    );
    assert_eq!(reply.body, Body::Image(entry));
}

#[test]
fn entity_tag_is_the_fingerprint_in_double_quotes() {
    assert_eq!(entity_tag_of("abc"), "\"abc\"");
    assert_eq!(entity_tag_of(""), "\"\"");
    assert_eq!(
        entity_tag_of("d41d8cd98f00b204e9800998ecf8427e"),
        "\"d41d8cd98f00b204e9800998ecf8427e\""
    );
}

#[test]
fn validators_that_are_good() {
    let entry = load(b"alice").unwrap();
    let sent = entity_tag_of(&entry.etag);
    assert!(is_current(&entry, Some(sent.as_str())));
    assert!(is_current(&entry, Some(entry.etag.as_str())));
    assert!(!is_current(&entry, None));
    assert!(!is_current(&entry, Some("")));
    assert!(!is_current(&entry, Some("\"\"")));
    let half_quoted = format!("\"{}", entry.etag);
    assert!(!is_current(&entry, Some(half_quoted.as_str())));
    let twice_quoted = format!("\"{}\"", sent);
    assert!(!is_current(&entry, Some(twice_quoted.as_str())));
    let other = load(b"bob").unwrap();
    assert!(!is_current(&entry, Some(other.etag.as_str())));
    assert!(!is_current(&entry, Some(entity_tag_of(&other.etag).as_str())));
}

#[test]
fn validator_that_matches() {
    let entry = Arc::new(load(b"alice").unwrap());
    let sent = format!("\"{}\"", entry.etag);
    for tag in [sent.as_str(), entry.etag.as_str()] {
        let reply = respond(entry.clone(), Some(tag));
        assert_eq!(reply.status, 304);
        assert!(reply.headers.is_empty());
        assert_eq!(reply.body, Body::Empty);
    }
}

#[test]
fn fuller_reply_carries_the_headers_with_a_304() {
    let entry = Arc::new(load(b"alice").unwrap());
    let sent = format!("\"{}\"", entry.etag);
    let full = respond_with_headers(entry.clone(), None);
    assert_eq!(full, respond(entry.clone(), None));
    for tag in [sent.as_str(), entry.etag.as_str()] {
        let reply = respond_with_headers(entry.clone(), Some(tag));
        assert_eq!(reply.status, 304);
        assert_eq!(reply.body, Body::Empty);
        assert_eq!(reply.headers, full.headers);
        assert_eq!(header(&reply, "etag"), Some(sent.as_str()));
    }
    assert_eq!(respond_with_headers(entry.clone(), Some("stale")), full);
    assert_eq!(
        answer_with_headers(Ok(entry.clone()), Some(sent.as_str())),
        respond_with_headers(entry.clone(), Some(sent.as_str()))
    );
    assert_eq!(
        answer_with_headers(Err(EncodeError { message: String::from("no room") }), None),
        handle_error(&Failure::Internal(String::from("no room")))
    );
}

#[test]
fn validator_that_does_not_match() {
    let entry = Arc::new(load(b"alice").unwrap());
    for tag in ["", "*", "0", "d41d8cd98f00b204e9800998ecf8427e"] {
        let reply = respond(entry.clone(), Some(tag));
        assert_eq!(reply.status, 200);
        assert_eq!(image_of(&reply), entry.image);
    }
    let weak = format!("W/\"{}\"", entry.etag);
    assert_eq!(respond(entry.clone(), Some(weak.as_str())).status, 200);
    let upper = entry.etag.to_uppercase();
    if upper != entry.etag {
        assert_eq!(respond(entry.clone(), Some(upper.as_str())).status, 200);
    }
}

#[test]
fn answer_to_a_picture_and_to_a_failure() {
    let entry = Arc::new(load(b"alice").unwrap());
    assert_eq!(answer(Ok(entry.clone()), None), respond(entry.clone(), None));
    assert_eq!(
        answer(Ok(entry.clone()), Some(entry.etag.as_str())),
        respond(entry.clone(), Some(entry.etag.as_str()))
    );
    let failed = answer(Err(EncodeError { message: String::from("no room") }), None);
    assert_eq!(failed, handle_error(&Failure::Internal(String::from("no room"))));
    assert_eq!(failed.status, 500);
    assert_eq!(failed.body, Body::Text(String::from("unhandled internal error: no room")));
}

#[test]
fn first_request_for_an_identifier() {
    let mut cache = MemoizingCache::new(4).unwrap();
    let reply = gen_image(&mut cache, "alice", None);
    assert_eq!(reply.status, 200);
    let body = image_of(&reply);
    assert_eq!(body, load(b"alice").unwrap().image);
    assert_eq!(header(&reply, "content-type"), Some("image/png"));
    assert_eq!(header(&reply, "cache-control"), Some("public, max-age=30672000"));
    assert_eq!(header(&reply, "etag"), Some(format!("\"{}\"", fingerprint(&body)).as_str()));
    assert_eq!(reply.headers.len(), 3);
    assert!(cache.contains(b"alice"));
    assert_eq!(cache.len(), 1);
}

#[test]
fn conditional_response() {
    let mut cache = MemoizingCache::new(4).unwrap();
    let first = gen_image(&mut cache, "alice", None);
    assert_eq!(first.status, 200);
    let etag = header(&first, "etag").unwrap().to_owned();

    let second = gen_image(&mut cache, "alice", Some(etag.as_str()));
    assert_eq!(second.status, 304);
    assert_eq!(second.body, Body::Empty);

    let other = gen_image(&mut cache, "bob", Some(etag.as_str()));
    assert_eq!(other.status, 200);
    let bob = load(b"bob").unwrap();
    assert_eq!(image_of(&other), bob.image);
    assert_eq!(header(&other, "content-type"), Some("image/png"));
    assert_eq!(header(&other, "cache-control"), Some("public, max-age=30672000"));
    assert_eq!(header(&other, "etag"), Some(format!("\"{}\"", bob.etag).as_str()));
    assert_ne!(header(&other, "etag"), Some(etag.as_str()));
}

#[test]
fn conditional_response_to_the_bare_fingerprint() {
    let mut cache = MemoizingCache::new(4).unwrap();
    let first = gen_image(&mut cache, "alice", None);
    let etag = header(&first, "etag").unwrap().to_owned();
    assert!(etag.starts_with('"') && etag.ends_with('"') && etag.len() == 34);
    let bare = &etag[1..33];
    assert_eq!(bare, load(b"alice").unwrap().etag);
    assert_eq!(gen_image(&mut cache, "alice", Some(bare)).status, 304);
    assert_eq!(gen_image(&mut cache, "bob", Some(bare)).status, 200);
}

#[test]
fn conditional_request_for_an_identifier_not_yet_held() {
    let mut cache = MemoizingCache::new(4).unwrap();
    let etag = load(b"alice").unwrap().etag;
    let reply = gen_image(&mut cache, "alice", Some(etag.as_str()));
    assert_eq!(reply.status, 304);
    assert!(cache.contains(b"alice"));
}

#[test]
fn routing_edge_case() {
    let mut cache = MemoizingCache::new(4).unwrap();
    let reply = gen_image(&mut cache, "favicon.ico", None);
    assert_eq!(reply, not_found());
    assert_eq!(reply.status, 404);
    assert_eq!(cache.len(), 0);
    assert!(!cache.contains(b"favicon.ico"));
    assert!(!cache.is_pending(b"favicon.ico"));
    let again = gen_image(&mut cache, "favicon.ico", Some("anything"));
    assert_eq!(again.status, 404);
    assert_eq!(cache.len(), 0);
}

#[test]
fn requests_share_the_cached_picture() {
    let mut cache = MemoizingCache::new(4).unwrap();
    let first = gen_image(&mut cache, "alice", None);
    let second = gen_image(&mut cache, "alice", None);
    match (&first.body, &second.body) {
        (Body::Image(a), Body::Image(b)) => assert!(Arc::ptr_eq(a, b)),
        other => panic!("expected two pictures, got {:?}", other),
    }
    assert_eq!(first, second);
    assert_eq!(cache.len(), 1);
}

#[test]
fn requests_refresh_recency() {
    let mut cache = MemoizingCache::new(2).unwrap();
    gen_image(&mut cache, "a", None);
    gen_image(&mut cache, "b", None);
    gen_image(&mut cache, "a", Some("stale"));
    gen_image(&mut cache, "c", None);
    assert!(cache.contains(b"a"));
    assert!(!cache.contains(b"b"));
    assert!(cache.contains(b"c"));
}

#[test]
fn identifiers_are_the_bytes_of_the_path_segment() {
    let mut cache = MemoizingCache::new(2).unwrap();
    let reply = gen_image(&mut cache, "\u{e9}t\u{e9}", None);
    assert_eq!(image_of(&reply), load("\u{e9}t\u{e9}".as_bytes()).unwrap().image);
    assert!(cache.contains(&[0xC3, 0xA9, b't', 0xC3, 0xA9]));
}
