//! Unguessable identifiers: endpoints and request ids both come from a
//! random UUID-backed generator. Request ids are never reused for the
//! life of the process; the correlator's pairing guarantee rests on
//! that.

use unique_id::Generator;
use vstd::prelude::*;

verus! {

/// A byte of the url-safe base64 alphabet: letters, digits, `-`, `_`.
pub open spec fn is_id_byte(b: u8) -> bool {
    ||| 65 <= b <= 90
    ||| 97 <= b <= 122
    ||| 48 <= b <= 57
    ||| b == 45
    ||| b == 95
}

/// The shape of every generated id: 22 bytes of the url-safe base64
/// alphabet. In particular an id is never empty and holds no `/`, no
/// `:` and no newline, so it passes untouched through the wire framing
/// and the path routing.
pub open spec fn is_wire_id(s: Seq<u8>) -> bool {
    s.len() == 22 && forall|i: int| 0 <= i < s.len() ==> is_id_byte(#[trigger] s[i])
}

/// Relies on unique_id's `StringGenerator::next_id`, which returns
/// `blob_uuid::random_blob()`: the url-safe base64 form, unpadded, of a
/// random 16-byte UUID — 22 bytes of the url-safe alphabet. The
/// generator's promise that ids never repeat over the process lifetime
/// cannot be stated here and is not.
#[verifier::external_body]
pub(crate) fn fresh_id() -> (r: Vec<u8>)
    ensures
        is_wire_id(r@),
{
    unique_id::string::StringGenerator::default().next_id().into_bytes()
}

} // verus!
