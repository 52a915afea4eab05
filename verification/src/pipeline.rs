//! The pipeline from an identifier to a cache entry: digest, pattern,
//! picture, encoded bytes, fingerprint.

use crate::canvas::{encode, encodes_only, png_encoding, png_fails, Canvas, EncodeError};
use crate::table::{CacheEntry, EntryView};
use crate::utils::{
    fingerprint, fingerprint_of, lemma_fingerprint_follows_digest, md5_digest,
};
use crate::{gen, identicon_rows};
use vstd::prelude::*;

verus! {

/// The picture of an identifier.
pub open spec fn picture_for(id: Seq<u8>) -> Seq<Seq<(u8, u8, u8)>> {
    identicon_rows(md5_digest(id))
}

/// Whether the pipeline fails for an identifier: it does where the encoder
/// turns the identifier's picture down, and nowhere else.
pub open spec fn fails_for(id: Seq<u8>) -> bool {
    png_fails(picture_for(id))
}

/// The encoded picture of an identifier.
pub open spec fn image_for(id: Seq<u8>) -> Seq<u8>
    recommends
        !fails_for(id),
{
    png_encoding(picture_for(id))
}

/// The entry that belongs to an identifier: its encoded picture and the
/// fingerprint of those bytes.
pub open spec fn entry_for(id: Seq<u8>) -> EntryView {
    EntryView { image: image_for(id), etag: fingerprint_of(image_for(id)) }
}

/// Wraps encoded bytes with their fingerprint.
pub fn seal(image: Vec<u8>) -> (entry: CacheEntry)
    ensures
        entry@ == (EntryView { image: image@, etag: fingerprint_of(image@) }),
{
    let etag = fingerprint(image.as_slice());
    CacheEntry { image, etag }
}

/// Runs the whole pipeline for one identifier: digest, pattern, picture,
/// encoding, fingerprint. It fails exactly where the encoder turns the
/// identifier's picture down. Otherwise the entry is the one that belongs
/// to the identifier, so the same identifier always gives the same bytes,
/// and its bytes are those of this picture and of no other.
pub fn load(name: &[u8]) -> (out: Result<CacheEntry, EncodeError>)
    ensures
        out is Err <==> fails_for(name@),
        out matches Ok(entry) ==> entry@ == entry_for(name@) && encodes_only(
            entry@.image,
            picture_for(name@),
        ),
{
    // Whether there are bytes is for the encoder to decide; what becomes
    // of its answer is for `sealed` to say.
    let image = gen(name);
    let encoded = encode(&image);
    sealed(encoded)
}

/// What `load` answers once the encoder has answered: its bytes sealed with
/// their fingerprint, or else its failure, handed on as it is.
pub fn sealed(encoded: Result<Vec<u8>, EncodeError>) -> (out: Result<CacheEntry, EncodeError>)
    ensures
        (match encoded {
            Ok(bytes) => out matches Ok(entry) && entry@ == (EntryView {
                image: bytes@,
                etag: fingerprint_of(bytes@),
            }),
            Err(error) => out == Err::<CacheEntry, EncodeError>(error),
        }),
{
    match encoded {
        Ok(bytes) => Ok(seal(bytes)),
        Err(error) => Err(error),
    }
}

/// Determinism: whenever and wherever the pipeline is run on the same
/// identifier, every run that succeeds gives the same bytes and the same
/// fingerprint, namely those that belong to the identifier.
pub proof fn lemma_load_is_deterministic(
    name: &[u8],
    again: &[u8],
    first: Result<CacheEntry, EncodeError>,
    second: Result<CacheEntry, EncodeError>,
)
    requires
        name@ == again@,
        load.ensures((name,), first),
        load.ensures((again,), second),
    ensures
        first is Ok <==> second is Ok,
        first matches Ok(x) ==> x@ == entry_for(name@),
        first matches Ok(x) ==> (second matches Ok(y) ==> x@.image == y@.image && x@.etag
            == y@.etag),
{
}

/// Two identifiers whose pictures differ in a pixel never get the same
/// bytes, and get the same fingerprint only where the digests of their
/// bytes agree.
pub proof fn lemma_pictures_apart(
    name: &[u8],
    other: &[u8],
    first: Result<CacheEntry, EncodeError>,
    second: Result<CacheEntry, EncodeError>,
)
    requires
        picture_for(name@) != picture_for(other@),
        load.ensures((name,), first),
        load.ensures((other,), second),
    ensures
        first matches Ok(x) ==> (second matches Ok(y) ==> x@.image != y@.image),
        first matches Ok(x) ==> (second matches Ok(y) ==> (x@.etag == y@.etag <==> md5_digest(
            x@.image,
        ) == md5_digest(y@.image))),
{
    if first is Ok && second is Ok {
        let x = first->Ok_0@;
        let y = second->Ok_0@;
        if x.image == y.image {
            assert(encodes_only(x.image, picture_for(name@)));
            assert(encodes_only(y.image, picture_for(other@)));
        }
        lemma_fingerprint_follows_digest(x.image, y.image);
    }
}

/// Fingerprint stability: two canvases with the same pixels encode to the
/// same bytes whenever both encodings succeed, and so carry the same
/// fingerprint.
pub proof fn lemma_fingerprint_is_stable(
    a: &Canvas,
    b: &Canvas,
    first: Result<Vec<u8>, EncodeError>,
    second: Result<Vec<u8>, EncodeError>,
)
    requires
        a@ == b@,
        encode.ensures((a,), first),
        encode.ensures((b,), second),
    ensures
        first is Ok <==> second is Ok,
        first matches Ok(x) ==> (second matches Ok(y) ==> x@ == y@ && fingerprint_of(x@)
            == fingerprint_of(y@)),
{
}

/// Two canvases that differ in a pixel never encode to the same bytes.
pub proof fn lemma_encodings_apart(
    a: &Canvas,
    b: &Canvas,
    first: Result<Vec<u8>, EncodeError>,
    second: Result<Vec<u8>, EncodeError>,
)
    requires
        a@ != b@,
        encode.ensures((a,), first),
        encode.ensures((b,), second),
    ensures
        first matches Ok(x) ==> (second matches Ok(y) ==> x@ != y@),
{
}

} // verus!
