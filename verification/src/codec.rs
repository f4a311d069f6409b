//! Text as bytes: JSON strings as `serde_json` writes them, UTF-8 as the
//! standard library reads it, and copies of runs of bytes and numbers.

use vstd::prelude::*;

verus! {

/// A text as a JSON string, as `serde_json` writes it.
pub uninterp spec fn json_text(text: Seq<char>) -> Seq<u8>;

/// The text that bytes stand for in UTF-8, where they stand for one, as
/// `String::from_utf8` reads them.
pub uninterp spec fn utf8_text(bytes: Seq<u8>) -> Option<Seq<char>>;

/// The value of a string that may be missing.
pub open spec fn text_model(s: Option<String>) -> Option<Seq<char>> {
    match s {
        Some(s) => Some(s@),
        None => None,
    }
}

/// Writes a text as a JSON string with `serde_json::to_vec`. The bytes are
/// whatever `serde_json` makes of the text; nothing is claimed of them but
/// that they depend on the text alone.
#[verifier::external_body]
pub(crate) fn json_of(text: &String) -> (r: Vec<u8>)
    ensures
        r@ == json_text(text@),
{
    serde_json::to_vec(&serde_json::Value::String(text.clone())).unwrap_or_default()
}

/// Reads bytes as UTF-8 with `String::from_utf8`; bytes that are no UTF-8
/// give `None`.
#[verifier::external_body]
pub(crate) fn text_of(bytes: &Vec<u8>) -> (r: Option<String>)
    ensures
        text_model(r) == utf8_text(bytes@),
{
    String::from_utf8(bytes.clone()).ok()
}

/// Copies a run of bytes.
pub fn copy_bytes(v: &[u8]) -> (r: Vec<u8>)
    ensures
        r@ == v@,
{
    let mut r: Vec<u8> = Vec::new();
    let mut i: usize = 0;
    while i < v.len()
        invariant
            i <= v.len(),
            r@ == v@.subrange(0, i as int),
        decreases v.len() - i,
    {
        r.push(v[i]);
        i += 1;
        assert(r@ =~= v@.subrange(0, i as int));
    }
    assert(r@ =~= v@);
    r
}

/// Copies a run of numbers.
pub fn copy_u64s(v: &[u64]) -> (r: Vec<u64>)
    ensures
        r@ == v@,
{
    let mut r: Vec<u64> = Vec::new();
    let mut i: usize = 0;
    while i < v.len()
        invariant
            i <= v.len(),
            r@ == v@.subrange(0, i as int),
        decreases v.len() - i,
    {
        r.push(v[i]);
        i += 1;
        assert(r@ =~= v@.subrange(0, i as int));
    }
    assert(r@ =~= v@);
    r
}

} // verus!
