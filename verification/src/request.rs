//! Checks on what a web server hands to the recognizer.

use crate::text::{chars_of, find_text, show_usize, slice_of, string_of, trimmed};
use base64::Engine;
use vstd::prelude::*;
use vstd::string::StringExecFns;

#[allow(unused_imports)]
use crate::text::{
    all_white, decimal, first_match, is_white, lemma_first_match, lemma_first_match_exists,
    lemma_trim_around, occurs_at, trim,
};
#[allow(unused_imports)]
use vstd::utf8::encode_utf8;

verus! {

/// Upper bound on the input image size (in bytes). A captcha is a small image;
/// this limit rejects attempts to feed a huge input to a web server.
pub const MAX_INPUT_BYTES: usize = 8_388_608;

/// What stands before the payload of a data-URL.
pub const BASE64_MARKER: &'static str = ";base64,";

/// A reason why a text is no base64.
#[verifier::external_type_specification]
#[verifier::external_body]
pub struct ExDecodeError(base64::DecodeError);

/// What a text decodes to in the standard base64 alphabet with padding.
pub uninterp spec fn base64_decoded(payload: Seq<char>) -> Result<Seq<u8>, base64::DecodeError>;

/// The text of a base64 error.
pub uninterp spec fn base64_error_text(e: base64::DecodeError) -> Seq<char>;

/// `base64::Engine::decode` of `base64::engine::general_purpose::STANDARD` is a
/// function of the text, and fills no more than three bytes for each four bytes
/// of it that have been started.
#[verifier::external_body]
fn decode_base64(payload: &str) -> (r: Result<Vec<u8>, base64::DecodeError>)
    ensures
        match r {
            Ok(bytes) => base64_decoded(payload@) == Ok::<Seq<u8>, base64::DecodeError>(bytes@)
                && bytes@.len() <= (encode_utf8(payload@).len() + 3) / 4 * 3,
            Err(e) => base64_decoded(payload@) == Err::<Seq<u8>, base64::DecodeError>(e),
        },
{
    base64::engine::general_purpose::STANDARD.decode(payload)
}

/// `Display` of `base64::DecodeError` is a function of the error.
#[verifier::external_body]
fn base64_message(e: &base64::DecodeError) -> (r: String)
    ensures
        r@ == base64_error_text(*e),
{
    format!("{e}")
}

/// Accept image bytes, unless there are too many.
pub fn check_bytes(bytes: &[u8]) -> (r: Result<(), String>)
    ensures
        match r {
            Ok(_) => bytes@.len() <= MAX_INPUT_BYTES,
            Err(e) => bytes@.len() > MAX_INPUT_BYTES && e@ == "image too large: "@ + decimal(
                bytes@.len(),
            ) + " bytes (max "@ + decimal(MAX_INPUT_BYTES as nat) + ")"@,
        },
{
    let n: usize = bytes.len();
    if n > MAX_INPUT_BYTES {
        let mut e = String::from_str("image too large: ");
        e.append(show_usize(n).as_str());
        e.append(" bytes (max ");
        e.append(show_usize(MAX_INPUT_BYTES).as_str());
        e.append(")");
        return Err(e);
    }
    Ok(())
}

/// The base64 payload of a text: what follows the first marker of a data-URL, or
/// else the whole text, without white space at its ends.
pub open spec fn payload_of(data: Seq<char>) -> Seq<char> {
    match first_match(data, BASE64_MARKER@) {
        Some(i) => trim(data.skip(i + BASE64_MARKER@.len() as int)),
        None => trim(data),
    }
}

/// Whether a payload is too large, judged by its length before decoding.
pub open spec fn is_too_large(payload: Seq<char>) -> bool {
    encode_utf8(payload).len() / 4 * 3 > MAX_INPUT_BYTES
}

/// Find the payload of a raw base64 text or of a data-URL like
/// `data:image/png;base64,iVBORw0...`, and reject a huge one before decoding it.
pub fn base64_payload(data: &str) -> (r: Result<String, String>)
    ensures
        match r {
            Ok(payload) => payload@ == payload_of(data@) && !is_too_large(payload_of(data@)),
            Err(e) => is_too_large(payload_of(data@)) && e@ == "image too large (max "@ + decimal(
                MAX_INPUT_BYTES as nat,
            ) + " bytes)"@,
        },
{
    let chars = chars_of(data);
    let marker = chars_of(BASE64_MARKER);
    let end: usize = chars.len();
    let payload = match find_text(&chars, &marker) {
        Some(i) => {
            let b64 = slice_of(&chars, i + marker.len(), end);
            assert(b64@ == chars@.skip(i + marker@.len()));
            trimmed(&b64)
        },
        None => trimmed(&chars),
    };
    let text = string_of(&payload);
    let len: usize = text.as_str().as_bytes().len();
    // Estimate the decoded size (~3/4 of the base64 length) to reject a huge
    // input before actually decoding it.
    if len / 4 > MAX_INPUT_BYTES / 3 {
        let mut e = String::from_str("image too large (max ");
        e.append(show_usize(MAX_INPUT_BYTES).as_str());
        e.append(" bytes)");
        return Err(e);
    }
    Ok(text)
}

/// Decode an image from a base64 text. Both raw base64 and a data-URL like
/// `data:image/png;base64,iVBORw0...` are supported. An accepted image exceeds
/// the upper bound on the input size by one byte at most.
pub fn base64_image(data: &str) -> (r: Result<Vec<u8>, String>)
    ensures
        match r {
            Ok(bytes) => !is_too_large(payload_of(data@)) && base64_decoded(payload_of(data@))
                == Ok::<Seq<u8>, base64::DecodeError>(bytes@) && bytes@.len() <= MAX_INPUT_BYTES
                + 1,
            Err(e) => if is_too_large(payload_of(data@)) {
                e@ == "image too large (max "@ + decimal(MAX_INPUT_BYTES as nat) + " bytes)"@
            } else {
                base64_decoded(payload_of(data@)) matches Err(why) && e@ == "invalid base64: "@
                    + base64_error_text(why)
            },
        },
{
    match base64_payload(data) {
        Ok(payload) => match decode_base64(payload.as_str()) {
            Ok(bytes) => Ok(bytes),
            Err(why) => {
                let mut e = String::from_str("invalid base64: ");
                e.append(base64_message(&why).as_str());
                Err(e)
            },
        },
        Err(e) => Err(e),
    }
}

/// A data-URL stands for the same image as its bare payload, whatever media type
/// and parameters come before the marker.
pub proof fn law_data_url_is_its_payload(media: Seq<char>, payload: Seq<char>)
    requires
        forall|j: int|
            0 <= j < media.len() ==> !occurs_at(media + BASE64_MARKER@, BASE64_MARKER@, j),
        first_match(payload, BASE64_MARKER@) is None,
    ensures
        payload_of(media + BASE64_MARKER@ + payload) == payload_of(payload),
{
    lemma_behind_marker(media, payload);
}

/// The payload is what stands behind the first `;base64,`, or the whole text where
/// there is none, without white space at its ends. It is too large when three
/// bytes for every four of it are more than 8 MiB.
pub proof fn law_payload_stands_behind_the_marker(data: Seq<char>, i: int)
    ensures
        (forall|j: int| !occurs_at(data, ";base64,"@, j)) ==> payload_of(data) == trim(data),
        occurs_at(data, ";base64,"@, i) && (forall|j: int|
            j < i ==> !occurs_at(data, ";base64,"@, j)) ==> payload_of(data) == trim(
            data.skip(i + 8),
        ),
        is_too_large(data) <==> encode_utf8(data).len() / 4 * 3 > 8 * 1024 * 1024,
        MAX_INPUT_BYTES == 8 * 1024 * 1024,
{
    reveal_strlit(";base64,");
    if occurs_at(data, ";base64,"@, i) && (forall|j: int|
        j < i ==> !occurs_at(data, ";base64,"@, j)) {
        lemma_first_match(data, BASE64_MARKER@, i);
    }
}

/// The marker holds no white space, so white space around a text neither makes
/// nor hides an occurrence of it.
proof fn lemma_marker_within(before: Seq<char>, s: Seq<char>, after: Seq<char>, j: int)
    requires
        all_white(before),
        all_white(after),
    ensures
        occurs_at(before + s + after, BASE64_MARKER@, j) <==> occurs_at(
            s,
            BASE64_MARKER@,
            j - before.len(),
        ),
{
    reveal_strlit(";base64,");
    let data = before + s + after;
    let marker = BASE64_MARKER@;
    let n = marker.len() as int;
    let k = j - before.len();
    if occurs_at(data, marker, j) {
        let part = data.subrange(j, j + n);
        assert(part[0] == ';' && part[n - 1] == ',');
        assert(data[j] == ';' && data[j + n - 1] == ',');
        if j < before.len() {
            assert(data[j] == before[j]);
            assert(is_white(before[j]));
        }
        if k + n > s.len() {
            assert(data[j + n - 1] == after[k + n - 1 - s.len()]);
            assert(is_white(after[k + n - 1 - s.len()]));
        }
        assert(s.subrange(k, k + n) =~= part);
    }
    if occurs_at(s, marker, k) {
        assert(data.subrange(j, j + n) =~= s.subrange(k, k + n));
    }
}

/// White space around a text does not matter, be it a bare payload or a whole
/// data-URL.
pub proof fn law_surrounding_white_space_is_ignored(
    before: Seq<char>,
    data: Seq<char>,
    after: Seq<char>,
)
    requires
        all_white(before),
        all_white(after),
    ensures
        payload_of(before + data + after) == payload_of(data),
{
    let whole = before + data + after;
    let marker = BASE64_MARKER@;
    assert forall|j: int|
        #[trigger] occurs_at(whole, marker, j) <==> occurs_at(data, marker, j - before.len()) by {
        lemma_marker_within(before, data, after, j);
    }
    if exists|i: int| occurs_at(data, marker, i) {
        let i = choose|i: int| occurs_at(data, marker, i);
        lemma_first_match_exists(data, marker, i);
        let k = first_match(data, marker)->0;
        assert(occurs_at(whole, marker, k + before.len()) <==> occurs_at(
            data,
            marker,
            k + before.len() - before.len(),
        ));
        lemma_first_match(whole, marker, k + before.len());
        let rest = data.skip(k + marker.len());
        assert(whole.skip(k + before.len() + marker.len()) =~= Seq::empty() + rest + after);
        lemma_trim_around(Seq::empty(), rest, after);
    } else {
        lemma_trim_around(before, data, after);
    }
}

/// White space around the payload behind the marker of a data-URL does not
/// matter either.
pub proof fn law_white_space_in_data_url_is_ignored(
    media: Seq<char>,
    before: Seq<char>,
    payload: Seq<char>,
    after: Seq<char>,
)
    requires
        forall|j: int|
            0 <= j < media.len() ==> !occurs_at(media + BASE64_MARKER@, BASE64_MARKER@, j),
        all_white(before),
        all_white(after),
    ensures
        payload_of(media + BASE64_MARKER@ + (before + payload + after)) == payload_of(
            media + BASE64_MARKER@ + payload,
        ),
{
    lemma_behind_marker(media, before + payload + after);
    lemma_behind_marker(media, payload);
    lemma_trim_around(before, payload, after);
}

/// What stands behind the first marker is the payload.
proof fn lemma_behind_marker(media: Seq<char>, rest: Seq<char>)
    requires
        forall|j: int|
            0 <= j < media.len() ==> !occurs_at(media + BASE64_MARKER@, BASE64_MARKER@, j),
    ensures
        payload_of(media + BASE64_MARKER@ + rest) == trim(rest),
{
    let data = media + BASE64_MARKER@ + rest;
    let n = media.len() as int;
    assert(data.subrange(n, n + BASE64_MARKER@.len()) =~= BASE64_MARKER@);
    assert(occurs_at(data, BASE64_MARKER@, n));
    assert forall|j: int| j < n implies !occurs_at(data, BASE64_MARKER@, j) by {
        let head = media + BASE64_MARKER@;
        if occurs_at(data, BASE64_MARKER@, j) {
            assert(head.subrange(j, j + BASE64_MARKER@.len()) =~= data.subrange(
                j,
                j + BASE64_MARKER@.len(),
            ));
            assert(occurs_at(head, BASE64_MARKER@, j));
        }
    }
    lemma_first_match(data, BASE64_MARKER@, n);
    assert(data.skip(n + BASE64_MARKER@.len()) =~= rest);
}

} // verus!
