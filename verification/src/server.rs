//! What the service answers: routing by the one path segment, the
//! conditional reply, and the replies to failures. Nothing here touches a
//! socket; a reply is a status, headers and a body as plain values.

use crate::cache::MemoizingCache;
use crate::canvas::EncodeError;
use crate::pipeline::{entry_for, fails_for};
use crate::table::{entry_of, holds, pushed, touched, CacheEntry, EntryView};
use crate::utils::{fingerprint_of, lemma_hex_lower_has_no_quote, md5_digest, same_bytes};
use std::sync::Arc;
use vstd::prelude::*;
use vstd::string::StringExecFns;
use vstd::utf8::{encode_utf8, encode_utf8_decode_utf8};

verus! {

/// The path segment that is never an identifier.
pub const FAVICON: &'static str = "favicon.ico";

/// The body of every reply to an unknown route.
pub const NOT_FOUND_TEXT: &'static str = "nothing to see here";

/// The body of the reply to a request that ran out of time.
pub const TIMEOUT_TEXT: &'static str = "request timed out";

/// The body of the reply to a request turned away under load.
pub const OVERLOADED_TEXT: &'static str = "service is overloaded, try again later";

/// What the body of the reply to any other failure begins with.
pub const INTERNAL_PREFIX: &'static str = "unhandled internal error: ";

/// The media type of a picture.
pub const IMAGE_TYPE: &'static str = "image/png";

/// How long a picture may be kept by whoever fetched it.
pub const IMAGE_CACHING: &'static str = "public, max-age=30672000";

/// The body of a reply.
#[derive(Debug, Clone, PartialEq, Eq)]
pub enum Body {
    /// No body at all.
    Empty,
    /// Plain text.
    Text(String),
    /// The encoded picture of an entry, shared with the cache.
    Image(Arc<CacheEntry>),
}

/// What a `Body` holds.
pub enum BodyView {
    Empty,
    Text(Seq<char>),
    Image(Seq<u8>),
}

impl View for Body {
    type V = BodyView;

    open spec fn view(&self) -> BodyView {
        match self {
            Body::Empty => BodyView::Empty,
            Body::Text(text) => BodyView::Text(text@),
            Body::Image(entry) => BodyView::Image(entry@.image),
        }
    }
}

/// A reply: status code, headers in order, body.
#[derive(Debug, Clone, PartialEq, Eq)]
pub struct Reply {
    /// The status code.
    pub status: u16,
    /// The headers as pairs of name and value, in order.
    pub headers: Vec<(String, String)>,
    /// The body.
    pub body: Body,
}

/// What a `Reply` holds.
pub struct ReplyView {
    /// The status code.
    pub status: u16,
    /// The headers as pairs of name and value, in order.
    pub headers: Seq<(Seq<char>, Seq<char>)>,
    /// The body.
    pub body: BodyView,
}

/// The views of a list of headers.
pub open spec fn header_views(headers: Seq<(String, String)>) -> Seq<(Seq<char>, Seq<char>)> {
    Seq::new(headers.len(), |i: int| (headers[i].0@, headers[i].1@))
}

impl View for Reply {
    type V = ReplyView;

    open spec fn view(&self) -> ReplyView {
        ReplyView { status: self.status, headers: header_views(self.headers@), body: self.body@ }
    }
}

/// A reply of plain text without headers.
pub open spec fn text_reply(status: u16, text: Seq<char>) -> ReplyView {
    ReplyView { status, headers: Seq::empty(), body: BodyView::Text(text) }
}

/// The reply to an unknown route: 404.
pub open spec fn not_found_reply() -> ReplyView {
    text_reply(404, NOT_FOUND_TEXT@)
}

/// An entity tag as it is sent: the fingerprint between double quotes.
pub open spec fn entity_tag(fingerprint: Seq<char>) -> Seq<char> {
    seq!['"'] + fingerprint + seq!['"']
}

/// The headers that go with a picture: its media type, its caching policy
/// and its entity tag.
pub open spec fn image_headers(entry: EntryView) -> Seq<(Seq<char>, Seq<char>)> {
    seq![
        ("content-type"@, IMAGE_TYPE@),
        ("cache-control"@, IMAGE_CACHING@),
        ("etag"@, entity_tag(entry.etag)),
    ]
}

/// The reply that carries a picture: 200, with the picture's headers.
pub open spec fn image_reply(entry: EntryView) -> ReplyView {
    ReplyView { status: 200, headers: image_headers(entry), body: BodyView::Image(entry.image) }
}

/// The reply to a request whose validator is still good: 304, nothing else.
pub open spec fn not_modified_reply() -> ReplyView {
    ReplyView { status: 304, headers: Seq::empty(), body: BodyView::Empty }
}

/// Whether the validator a client sent is good for `entry`: it is when it
/// is the entity tag as sent with the picture, and also when it is the
/// fingerprint itself.
pub open spec fn validates(entry: EntryView, if_none_match: Option<Seq<char>>) -> bool {
    if_none_match == Some(entity_tag(entry.etag)) || if_none_match == Some(entry.etag)
}

/// The conditional reply: no body when the validator the client sent is
/// good, the picture otherwise.
pub open spec fn respond_to(entry: EntryView, if_none_match: Option<Seq<char>>) -> ReplyView {
    if validates(entry, if_none_match) {
        not_modified_reply()
    } else {
        image_reply(entry)
    }
}

/// The conditional reply in its fuller form: as `respond_to`, but the 304
/// carries the headers that the picture would have carried.
pub open spec fn respond_with_headers_to(
    entry: EntryView,
    if_none_match: Option<Seq<char>>,
) -> ReplyView {
    if validates(entry, if_none_match) {
        ReplyView { status: 304, headers: image_headers(entry), body: BodyView::Empty }
    } else {
        image_reply(entry)
    }
}

/// The conditional reply for an entry that is there.
pub open spec fn served(entry: Option<EntryView>, if_none_match: Option<Seq<char>>) -> Option<
    ReplyView,
> {
    match entry {
        Some(entry) => Some(respond_to(entry, if_none_match)),
        None => None,
    }
}

/// A request that carries the entity tag of an earlier reply for the same
/// picture, as it was sent or without its quotes, is answered with 304 and
/// no body; with any other validator, or none, the picture is sent again
/// under the same entity tag.
pub proof fn lemma_conditional_reply(entry: EntryView, if_none_match: Option<Seq<char>>)
    ensures
        image_reply(entry).headers[2] == ("etag"@, seq!['"'] + entry.etag + seq!['"']),
        respond_to(entry, Some(image_reply(entry).headers[2].1)) == not_modified_reply(),
        respond_to(entry, Some(entry.etag)) == not_modified_reply(),
        !validates(entry, if_none_match) ==> respond_to(entry, if_none_match) == image_reply(
            entry,
        ),
        not_modified_reply().status == 304 && not_modified_reply().body == BodyView::Empty,
        image_reply(entry).status == 200 && image_reply(entry).body == BodyView::Image(
            entry.image,
        ),
        respond_with_headers_to(entry, if_none_match).status == respond_to(
            entry,
            if_none_match,
        ).status,
        respond_with_headers_to(entry, if_none_match).body == respond_to(
            entry,
            if_none_match,
        ).body,
        respond_with_headers_to(entry, if_none_match).headers == image_headers(entry),
{
}

/// An entity tag tells its fingerprint: different fingerprints are sent as
/// different entity tags.
pub proof fn lemma_entity_tag_injective(a: Seq<char>, b: Seq<char>)
    requires
        entity_tag(a) == entity_tag(b),
    ensures
        a == b,
{
    assert(entity_tag(a).len() == a.len() + 2);
    assert(entity_tag(b).len() == b.len() + 2);
    assert forall|i: int| 0 <= i < a.len() implies a[i] == b[i] by {
        assert(entity_tag(a)[i + 1] == a[i]);
        assert(entity_tag(b)[i + 1] == b[i]);
    }
    assert(a =~= b);
}

/// The validator of one picture is not good for a picture with another
/// fingerprint, whether it is sent with its quotes or without: the other
/// picture is sent in full.
pub proof fn lemma_stale_validator(entry: EntryView, other: EntryView)
    requires
        entry.etag == fingerprint_of(entry.image),
        other.etag == fingerprint_of(other.image),
        entry.etag != other.etag,
    ensures
        respond_to(other, Some(entity_tag(entry.etag))) == image_reply(other),
        respond_to(other, Some(entry.etag)) == image_reply(other),
        image_reply(other).headers[2].1 == entity_tag(other.etag),
        image_reply(other).headers[2].1 != entity_tag(entry.etag),
{
    if entity_tag(entry.etag) == entity_tag(other.etag) {
        lemma_entity_tag_injective(entry.etag, other.etag);
    }
    if entity_tag(entry.etag) == other.etag {
        assert(entity_tag(entry.etag)[0] == '"');
        lemma_hex_lower_has_no_quote(md5_digest(other.image), 0);
    }
    if entry.etag == entity_tag(other.etag) {
        assert(entity_tag(other.etag)[0] == '"');
        lemma_hex_lower_has_no_quote(md5_digest(entry.image), 0);
    }
}

/// A failure on the way to a reply.
#[derive(Debug, Clone, PartialEq, Eq)]
pub enum Failure {
    /// The request ran out of time.
    Timeout,
    /// The request was turned away because too many were under way.
    Overloaded,
    /// Anything else, with what is known about it.
    Internal(String),
}

/// What a `Failure` holds.
pub enum FailureValue {
    Timeout,
    Overloaded,
    Internal(Seq<char>),
}

impl View for Failure {
    type V = FailureValue;

    open spec fn view(&self) -> FailureValue {
        match self {
            Failure::Timeout => FailureValue::Timeout,
            Failure::Overloaded => FailureValue::Overloaded,
            Failure::Internal(detail) => FailureValue::Internal(detail@),
        }
    }
}

/// The reply to a failure: 408 for a timeout, 503 under overload, 500 with
/// a diagnostic text for anything else.
pub open spec fn failure_reply(failure: FailureValue) -> ReplyView {
    match failure {
        FailureValue::Timeout => text_reply(408, TIMEOUT_TEXT@),
        FailureValue::Overloaded => text_reply(503, OVERLOADED_TEXT@),
        FailureValue::Internal(detail) => text_reply(500, INTERNAL_PREFIX@ + detail),
    }
}

/// What is answered once the pipeline has answered: the conditional reply
/// for a picture, the reply to an internal failure otherwise.
pub open spec fn answer_to(
    outcome: Result<EntryView, Seq<char>>,
    if_none_match: Option<Seq<char>>,
) -> ReplyView {
    match outcome {
        Ok(entry) => respond_to(entry, if_none_match),
        Err(message) => failure_reply(FailureValue::Internal(message)),
    }
}

/// As `answer_to`, with the conditional reply in its fuller form.
pub open spec fn answer_with_headers_to(
    outcome: Result<EntryView, Seq<char>>,
    if_none_match: Option<Seq<char>>,
) -> ReplyView {
    match outcome {
        Ok(entry) => respond_with_headers_to(entry, if_none_match),
        Err(message) => failure_reply(FailureValue::Internal(message)),
    }
}

/// What a validator sent by a client holds.
pub open spec fn validator_view(if_none_match: Option<&str>) -> Option<Seq<char>> {
    match if_none_match {
        Some(tag) => Some(tag@),
        None => None,
    }
}

/// What the outcome of the pipeline holds.
pub open spec fn result_view(outcome: Result<Arc<CacheEntry>, EncodeError>) -> Result<
    EntryView,
    Seq<char>,
> {
    match outcome {
        Ok(entry) => Ok(entry@),
        Err(error) => Err(error.message@),
    }
}

/// The identifier that a path segment stands for: its bytes.
pub open spec fn identifier_of(name: Seq<char>) -> Seq<u8> {
    encode_utf8(name)
}

/// Whether two texts are the same.
pub fn same_text(a: &str, b: &str) -> (same: bool)
    ensures
        same == (a@ == b@),
{
    let same = same_bytes(a.as_bytes(), b.as_bytes());
    proof {
        encode_utf8_decode_utf8(a@);
        encode_utf8_decode_utf8(b@);
    }
    same
}

/// A reply of plain text without headers.
fn plain(status: u16, content: String) -> (reply: Reply)
    ensures
        reply@ == text_reply(status, content@),
{
    let reply = Reply { status, headers: Vec::new(), body: Body::Text(content) };
    assert(header_views(reply.headers@) =~= Seq::empty());
    reply
}

/// The reply to every route that leads nowhere.
pub fn not_found() -> (reply: Reply)
    ensures
        reply@ == not_found_reply(),
{
    plain(404, String::from_str(NOT_FOUND_TEXT))
}

/// Turns a failure into the reply that reports it.
pub fn handle_error(failure: &Failure) -> (reply: Reply)
    ensures
        reply@ == failure_reply(failure@),
{
    match failure {
        Failure::Timeout => plain(408, String::from_str(TIMEOUT_TEXT)),
        Failure::Overloaded => plain(503, String::from_str(OVERLOADED_TEXT)),
        Failure::Internal(detail) => plain(
            500,
            String::from_str(INTERNAL_PREFIX).concat(detail.as_str()),
        ),
    }
}

/// Whether a path segment is the one that is never served.
pub fn is_favicon(name: &str) -> (reserved: bool)
    ensures
        reserved == (name@ == FAVICON@),
{
    same_text(name, FAVICON)
}

/// The entity tag for a fingerprint, as it is sent: between double quotes.
pub fn entity_tag_of(fingerprint: &str) -> (tag: String)
    ensures
        tag@ == entity_tag(fingerprint@),
{
    proof {
        reveal_strlit("\"");
    }
    let tag = String::from_str("\"").concat(fingerprint).concat("\"");
    assert("\""@ =~= seq!['"']);
    assert(tag@ =~= entity_tag(fingerprint@));
    tag
}

/// Whether the validator a client sent is good for `entry`.
pub fn is_current(entry: &CacheEntry, if_none_match: Option<&str>) -> (current: bool)
    ensures
        current == validates(entry@, validator_view(if_none_match)),
{
    match if_none_match {
        Some(tag) => {
            let sent = entity_tag_of(entry.etag.as_str());
            same_text(tag, sent.as_str()) || same_text(tag, entry.etag.as_str())
        },
        None => false,
    }
}

/// The headers that go with the picture of `entry`.
fn headers_of(entry: &CacheEntry) -> (headers: Vec<(String, String)>)
    ensures
        header_views(headers@) == image_headers(entry@),
{
    let mut headers: Vec<(String, String)> = Vec::new();
    headers.push((String::from_str("content-type"), String::from_str(IMAGE_TYPE)));
    headers.push((String::from_str("cache-control"), String::from_str(IMAGE_CACHING)));
    headers.push((String::from_str("etag"), entity_tag_of(entry.etag.as_str())));
    assert(header_views(headers@) =~= image_headers(entry@));
    headers
}

/// The conditional reply for a picture: 304 without a body when the client
/// already holds the picture with this fingerprint, the picture otherwise.
pub fn respond(entry: Arc<CacheEntry>, if_none_match: Option<&str>) -> (reply: Reply)
    ensures
        reply@ == respond_to(entry@, validator_view(if_none_match)),
{
    if is_current(&entry, if_none_match) {
        let reply = Reply { status: 304, headers: Vec::new(), body: Body::Empty };
        assert(header_views(reply.headers@) =~= Seq::empty());
        return reply;
    }
    let headers = headers_of(&entry);
    Reply { status: 200, headers, body: Body::Image(entry) }
}

/// The conditional reply in its fuller form: the 304 carries the headers
/// that the picture would have carried.
pub fn respond_with_headers(entry: Arc<CacheEntry>, if_none_match: Option<&str>) -> (reply: Reply)
    ensures
        reply@ == respond_with_headers_to(entry@, validator_view(if_none_match)),
{
    let headers = headers_of(&entry);
    if is_current(&entry, if_none_match) {
        Reply { status: 304, headers, body: Body::Empty }
    } else {
        Reply { status: 200, headers, body: Body::Image(entry) }
    }
}

/// The reply once the pipeline has answered for an identifier.
pub fn answer(outcome: Result<Arc<CacheEntry>, EncodeError>, if_none_match: Option<&str>) -> (reply:
    Reply)
    ensures
        reply@ == answer_to(result_view(outcome), validator_view(if_none_match)),
{
    match outcome {
        Ok(entry) => respond(entry, if_none_match),
        Err(error) => handle_error(&Failure::Internal(error.message)),
    }
}

/// As `answer`, with the conditional reply in its fuller form.
pub fn answer_with_headers(
    outcome: Result<Arc<CacheEntry>, EncodeError>,
    if_none_match: Option<&str>,
) -> (reply: Reply)
    ensures
        reply@ == answer_with_headers_to(result_view(outcome), validator_view(if_none_match)),
{
    match outcome {
        Ok(entry) => respond_with_headers(entry, if_none_match),
        Err(error) => handle_error(&Failure::Internal(error.message)),
    }
}

/// Serves one request for the path segment `name`, from start to finish,
/// for a caller that has the cache to itself.
///
/// The reserved segment is answered with 404 and never reaches the cache.
/// Any other segment is an identifier: its picture is taken from the cache
/// or computed and stored, and the reply is the conditional one. Only where
/// the encoder turns the identifier's picture down is the reply a 500, and
/// the cache is then as it was.
pub fn gen_image(cache: &mut MemoizingCache, name: &str, if_none_match: Option<&str>) -> (reply:
    Reply)
    requires
        old(cache).wf(),
    ensures
        final(cache).wf(),
        final(cache)@.capacity == old(cache)@.capacity,
        final(cache)@.flights == old(cache)@.flights,
        name@ == FAVICON@ ==> reply@ == not_found_reply() && final(cache)@ == old(cache)@,
        name@ != FAVICON@ && holds(old(cache)@.entries, identifier_of(name@)) ==> ({
            &&& Some(reply@) == served(
                entry_of(old(cache)@.entries, identifier_of(name@)),
                validator_view(if_none_match),
            )
            &&& final(cache)@.entries == touched(old(cache)@.entries, identifier_of(name@))
        }),
        name@ != FAVICON@ && !holds(old(cache)@.entries, identifier_of(name@)) && !fails_for(
            identifier_of(name@),
        ) ==> ({
            &&& reply@ == respond_to(entry_for(identifier_of(name@)), validator_view(if_none_match))
            &&& final(cache)@.entries == pushed(
                old(cache)@.entries,
                old(cache)@.capacity,
                identifier_of(name@),
                entry_for(identifier_of(name@)),
            )
        }),
        name@ != FAVICON@ && !holds(old(cache)@.entries, identifier_of(name@)) && fails_for(
            identifier_of(name@),
        ) ==> ({
            &&& exists|message: Seq<char>| reply@ == failure_reply(FailureValue::Internal(message))
            &&& final(cache)@.entries == old(cache)@.entries
        }),
{
    if is_favicon(name) {
        return not_found();
    }
    let outcome = cache.get_or_compute(name.as_bytes());
    proof {
        if outcome is Err {
            assert(answer_to(result_view(outcome), validator_view(if_none_match))
                == failure_reply(FailureValue::Internal(outcome->Err_0.message@)));
        }
    }
    answer(outcome, if_none_match)
}

} // verus!
