//! Content stamps for the semantic authoring adapters.
//!
//! An editor query hands out a view token of the document it showed; an
//! edit names the token it was made against, and is refused when the
//! document has changed since. The token is a 64-bit FNV-1a hash of the
//! document's UTF-8 bytes, written as `view:` and sixteen lower-case hex
//! digits. It detects concurrent edits; it authenticates nothing.

use vstd::prelude::*;
use vstd::string::StringSliceAdditionalSpecFns;
use crate::text::compose::Composer;
use crate::text::encoding::str_equals;

verus! {

/// The FNV-1a 64-bit offset basis.
pub const FNV_OFFSET: u64 = 0xcbf29ce484222325;

/// The FNV-1a 64-bit prime.
pub const FNV_PRIME: u64 = 0x100000001b3;

/// The FNV-1a 64-bit hash of `bytes`: each byte is xored into the state,
/// which is then multiplied by the prime, wrapping.
pub open spec fn fnv1a(bytes: Seq<u8>) -> u64
    decreases bytes.len(),
{
    if bytes.len() == 0 {
        FNV_OFFSET
    } else {
        (fnv1a(bytes.drop_last()) ^ (bytes.last() as u64)).wrapping_mul(FNV_PRIME)
    }
}

/// The lower-case hex digit of `d`, for `d` below sixteen.
pub open spec fn hex_char(d: u64) -> char {
    if d < 10 {
        (('0' as u64) + d) as char
    } else {
        (('a' as u64) + d - 10) as char
    }
}

/// `h` in lower-case hex, zero-padded to sixteen digits, most significant
/// first.
pub open spec fn hex16(h: u64) -> Seq<char> {
    Seq::new(16, |i: int| hex_char((h >> ((60 - 4 * i) as u64)) & 0xf))
}

/// The text of a view token for a hash: `view:` and the hash in hex.
pub open spec fn token_text(hash: u64) -> Seq<char> {
    seq!['v', 'i', 'e', 'w', ':'] + hex16(hash)
}

/// The lower-case hex digit of `d`.
fn hex_digit(d: u64) -> (c: char)
    requires
        d < 16,
    ensures
        c == hex_char(d),
{
    if d < 10 {
        ((48 + d) as u8) as char
    } else {
        ((87 + d) as u8) as char
    }
}

/// The text of the view token for `hash`: `view:` and the hash in
/// lower-case hex, zero-padded to sixteen digits.
fn format_token(hash: u64) -> (s: String)
    ensures
        s@ == token_text(hash),
{
    proof {
        reveal_strlit("view:");
    }
    let mut c = Composer::new().push_str("view:");
    assert(Seq::<char>::empty() + "view:"@ =~= seq!['v', 'i', 'e', 'w', ':']);
    let mut i: u64 = 0;
    while i < 16
        invariant
            i <= 16,
            c@ == seq!['v', 'i', 'e', 'w', ':'] + hex16(hash).take(i as int),
        decreases 16 - i,
    {
        let shift = 60 - 4 * i;
        let d = (hash >> shift) & 0xf;
        assert(d < 16) by (bit_vector)
            requires
                d == (hash >> shift) & 0xf,
        ;
        c = c.push_char(hex_digit(d));
        assert(hex16(hash)[i as int] == hex_char(d));
        assert(hex16(hash).take(i + 1) =~= hex16(hash).take(i as int).push(hex16(hash)[i as int]));
        i = i + 1;
    }
    assert(hex16(hash).take(16) =~= hex16(hash));
    c.finish()
}

/// The FNV-1a hash of `bytes`.
pub fn fnv1a_hash(bytes: &[u8]) -> (h: u64)
    ensures
        h == fnv1a(bytes@),
{
    let mut h: u64 = FNV_OFFSET;
    let mut i: usize = 0;
    while i < bytes.len()
        invariant
            i <= bytes@.len(),
            h == fnv1a(bytes@.take(i as int)),
        decreases bytes@.len() - i,
    {
        proof {
            assert(bytes@.take(i as int + 1).drop_last() =~= bytes@.take(i as int));
        }
        h = (h ^ (bytes[i] as u64)).wrapping_mul(FNV_PRIME);
        i = i + 1;
    }
    proof {
        assert(bytes@.take(i as int) =~= bytes@);
    }
    h
}

/// Stable content stamp for detecting concurrent edits, not an
/// authentication token.
pub fn view_token(document: &str) -> (token: String)
    ensures
        token@ == token_text(fnv1a(document.spec_bytes())),
{
    let hash = fnv1a_hash(document.as_bytes());
    format_token(hash)
}

/// The answer to an edit made against a stale view.
pub open spec fn conflict_text() -> Seq<char> {
    "document_conflict: refresh the editor query; a designer changed this document"@
}

/// Check an edit's expected view token against the document as it stands:
/// `Ok` when the token is the document's own, and the conflict refusal when
/// the document has changed since the token was handed out.
pub fn check_view(expected: &str, document: &str) -> (r: Result<(), String>)
    ensures
        r is Ok <==> expected@ == token_text(fnv1a(document.spec_bytes())),
        r matches Err(e) ==> e@ == conflict_text(),
{
    let token = view_token(document);
    if str_equals(expected, token.as_str()) {
        Ok(())
    } else {
        Err(String::from_str("document_conflict: refresh the editor query; a designer changed this document"))
    }
}

/// Documents with the same text get the same token.
pub proof fn lemma_view_token_is_stable(a: &str, b: &str)
    requires
        a@ == b@,
    ensures
        token_text(fnv1a(a.spec_bytes())) == token_text(fnv1a(b.spec_bytes())),
{
    assert(a.spec_bytes() == b.spec_bytes());
}

/// A token is `view:` and sixteen lower-case hex digits.
pub proof fn lemma_token_shape(hash: u64)
    ensures
        token_text(hash).len() == 21,
        token_text(hash).take(5) == seq!['v', 'i', 'e', 'w', ':'],
        forall|i: int|
            5 <= i < 21 ==> {
                let c = #[trigger] token_text(hash)[i];
                ('0' <= c <= '9') || ('a' <= c <= 'f')
            },
{
    assert(token_text(hash).take(5) =~= seq!['v', 'i', 'e', 'w', ':']);
    assert forall|i: int| 5 <= i < 21 implies {
        let c = #[trigger] token_text(hash)[i];
        ('0' <= c <= '9') || ('a' <= c <= 'f')
    } by {
        let shift = (60 - 4 * (i - 5)) as u64;
        assert((hash >> shift) & 0xf <= 15) by (bit_vector);
    }
}

} // verus!
