//! Text values as contracts see them, and small constructors for them.
use vstd::prelude::*;

verus! {

/// The characters of a text that may be missing.
pub open spec fn opt_text(text: Option<String>) -> Option<Seq<char>> {
    match text {
        Some(s) => Some(s@),
        None => None,
    }
}

/// The characters of each text of a list.
pub open spec fn texts(list: Seq<String>) -> Seq<Seq<char>> {
    Seq::new(list.len(), |i: int| list[i]@)
}

/// A name that may be missing, with the stand-in for one that is.
pub open spec fn named(name: Option<Seq<char>>) -> Seq<char> {
    match name {
        Some(s) => s,
        None => "unknown"@,
    }
}

/// The name, or `unknown` where it is missing.
pub fn or_unknown(name: Option<String>) -> (r: String)
    ensures
        r@ == named(opt_text(name)),
{
    match name {
        Some(s) => s,
        None => "unknown".to_owned(),
    }
}

/// Whether two byte strings are equal.
pub fn same_bytes(a: &[u8], b: &[u8]) -> (same: bool)
    ensures
        same == (a@ == b@),
{
    if a.len() != b.len() {
        return false;
    }
    let mut i: usize = 0;
    while i < a.len()
        invariant
            i <= a@.len(),
            a@.len() == b@.len(),
            forall|k: int| 0 <= k < i ==> a@[k] == b@[k],
        decreases a@.len() - i,
    {
        if a[i] != b[i] {
            return false;
        }
        i = i + 1;
    }
    assert(a@ =~= b@);
    true
}

/// Whether two texts hold the same characters.
pub fn same_text(a: &str, b: &str) -> (same: bool)
    ensures
        same == (a@ == b@),
{
    proof {
        vstd::utf8::encode_utf8_decode_utf8(a@);
        vstd::utf8::encode_utf8_decode_utf8(b@);
    }
    same_bytes(a.as_bytes(), b.as_bytes())
}

/// Clones a text that may be missing.
pub fn clone_text(text: &Option<String>) -> (r: Option<String>)
    ensures
        r == *text,
{
    match text {
        Some(s) => Some(s.clone()),
        None => None,
    }
}

/// Texts are seen by their characters, and a missing one as missing. A name that is missing stands
/// as `unknown`.
pub proof fn law_texts_are_seen_whole(text: String, list: Seq<String>, name: Seq<char>)
    ensures
        opt_text(Some(text)) == Some(text@),
        opt_text(None) == None::<Seq<char>>,
        texts(list).len() == list.len(),
        forall|i: int| 0 <= i < list.len() ==> #[trigger] texts(list)[i] == list[i]@,
        named(Some(name)) == name,
        named(None) == "unknown"@,
{
}

} // verus!
