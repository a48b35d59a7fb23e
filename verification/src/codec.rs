//! The cursor codec: a cursor payload is CBOR-encoded and then wrapped in
//! URL-safe base64. The two outside encodings are functions of the payload
//! alone, so their results carry names here; everything downstream speaks of
//! those names.

use vstd::prelude::*;

use crate::EventCursor;
use crate::cursor::Value;

verus! {

/// The CBOR encoding of a `(timestamp, version, id)` triple.
pub uninterp spec fn cbor_of_triple(t: u64, v: u16, i: u128) -> Seq<u8>;

/// The triple a byte string CBOR-decodes to, if any.
pub uninterp spec fn cbor_triple_decoding(bytes: Seq<u8>) -> Option<(u64, u16, u128)>;

/// The URL-safe, padded base64 encoding of a byte string.
pub uninterp spec fn b64_of(bytes: Seq<u8>) -> Seq<char>;

/// The bytes a string base64-decodes to, if any.
pub uninterp spec fn b64_decoding(s: Seq<char>) -> Option<Seq<u8>>;

/// The opaque string form of a cursor payload.
pub open spec fn cursor_encoding(k: EventCursor) -> Seq<char> {
    b64_of(cbor_of_triple(k.t, k.v, k.i))
}

/// The cursor payload an opaque string decodes to, if any: both decoders are
/// deterministic, so decoding is a function of the string alone, and a
/// malformed string can only be refused, never turned into a payload at will.
pub open spec fn cursor_decoding(s: Seq<char>) -> Option<EventCursor> {
    match b64_decoding(s) {
        Some(b) => match cbor_triple_decoding(b) {
            Some((t, v, i)) => Some(EventCursor { t, v, i }),
            None => None,
        },
        None => None,
    }
}

/// Relies on `ciborium::into_writer`: the CBOR bytes of a plain integer
/// triple are a function of the triple alone, writing into a fresh `Vec<u8>`
/// cannot fail, and `ciborium::from_reader` decodes the result back to the
/// triple.
#[verifier::external_body]
fn cbor_encode_triple(t: u64, v: u16, i: u128) -> (r: Vec<u8>)
    ensures
        r@ == cbor_of_triple(t, v, i),
        cbor_triple_decoding(r@) == Some((t, v, i)),
{
    let mut out: Vec<u8> = Vec::new();
    match ciborium::into_writer(&(t, v, i), &mut out) {
        _ => out,
    }
}

/// Relies on `ciborium::from_reader`: deserialization is deterministic — a
/// function of the bytes alone — and deserializing the CBOR encoding of a
/// plain integer triple returns that triple.
#[verifier::external_body]
fn cbor_decode_triple(bytes: &[u8]) -> (r: Option<(u64, u16, u128)>)
    ensures
        r == cbor_triple_decoding(bytes@),
        forall|t: u64, v: u16, i: u128| bytes@ == cbor_of_triple(t, v, i) ==> r == Some((t, v, i)),
{
    ciborium::from_reader(bytes).ok()
}

/// Relies on `base64`'s `URL_SAFE` engine: the encoding is a function of the
/// input bytes alone, and the same engine decodes it back to those bytes.
#[verifier::external_body]
fn b64_encode(bytes: &[u8]) -> (r: String)
    ensures
        r@ == b64_of(bytes@),
        b64_decoding(r@) == Some(bytes@),
{
    base64::Engine::encode(&base64::engine::general_purpose::URL_SAFE, bytes)
}

/// Relies on `base64`'s `URL_SAFE` engine: decoding is deterministic — a
/// function of the string alone — and inverts encoding.
#[verifier::external_body]
fn b64_decode(s: &str) -> (r: Option<Vec<u8>>)
    ensures
        r.deep_view() == b64_decoding(s@),
        forall|b: Seq<u8>| s@ == b64_of(b) ==> r.deep_view() == Some(b),
{
    base64::Engine::decode(&base64::engine::general_purpose::URL_SAFE, s).ok()
}

/// Encode a cursor payload into its opaque string form.
pub fn encode_cursor(k: &EventCursor) -> (r: Value)
    ensures
        r@ == cursor_encoding(*k),
        cursor_decoding(r@) == Some(*k),
{
    let bytes = cbor_encode_triple(k.t, k.v, k.i);
    Value(b64_encode(bytes.as_slice()))
}

/// Decode an opaque cursor string back into its payload: exactly
/// [`cursor_decoding`] of the string, so every string produced by
/// [`encode_cursor`] decodes to the payload it was made from, and any other
/// string maps to one fixed answer — `None` on a base64 or CBOR decode error.
pub fn decode_cursor(value: &Value) -> (r: Option<EventCursor>)
    ensures
        r == cursor_decoding(value@),
        forall|k: EventCursor| value@ == cursor_encoding(k) ==> r == Some(k),
{
    let decoded = b64_decode(value.0.as_str());
    match decoded {
        None => {
            proof {
                assert forall|k: EventCursor| value@ == cursor_encoding(k) implies false by {
                    assert(value@ == b64_of(cbor_of_triple(k.t, k.v, k.i)));
                    assert(decoded.deep_view() == Some(cbor_of_triple(k.t, k.v, k.i)));
                }
            }
            None
        },
        Some(bytes) => {
            proof {
                assert(bytes.deep_view() =~= bytes@);
            }
            let inner = cbor_decode_triple(bytes.as_slice());
            match inner {
                None => {
                    proof {
                        assert forall|k: EventCursor| value@ == cursor_encoding(k) implies false by {
                            assert(bytes@ == cbor_of_triple(k.t, k.v, k.i));
                            assert(inner == Some((k.t, k.v, k.i)));
                        }
                    }
                    None
                },
                Some((t, v, i)) => {
                    let r = Some(EventCursor { t, v, i });
                    proof {
                        assert forall|k: EventCursor| value@ == cursor_encoding(k) implies r
                            == Some(k) by {
                            assert(bytes@ == cbor_of_triple(k.t, k.v, k.i));
                            assert(inner == Some((k.t, k.v, k.i)));
                        }
                    }
                    r
                },
            }
        },
    }
}

} // verus!
