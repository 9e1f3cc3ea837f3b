//! Composing messages as UTF-8 text.
//!
//! A message is built from pieces of text and decimal numbers, as bytes,
//! and turned into a `String` once at the end. The characters it holds are
//! tracked alongside, so a message's contract can say what it reads.

use std::string::FromUtf8Error;
use vstd::prelude::*;
use vstd::string::StringSliceAdditionalSpecFns;
use vstd::utf8::{decode_utf8, encode_scalar, encode_utf8, encode_utf8_decode_utf8, encode_utf8_valid_utf8, valid_utf8};
use crate::text::encoding::{lemma_encode_utf8_append, lemma_encode_utf8_push};

verus! {

broadcast use vstd::utf8::char_is_scalar;

#[verifier::external_type_specification]
#[verifier::external_body]
pub struct ExFromUtf8Error(FromUtf8Error);

/// `String::from_utf8`: text made of exactly the given bytes, and always
/// that when the bytes are UTF-8, as its documentation says. Nothing is
/// claimed of the error for other bytes.
#[verifier::external_body]
fn string_from_utf8(bytes: Vec<u8>) -> (r: Result<String, FromUtf8Error>)
    ensures
        r is Ok || !valid_utf8(bytes@),
        r matches Ok(s) ==> encode_utf8(s@) == bytes@,
{
    String::from_utf8(bytes)
}

/// The character of a decimal digit.
pub open spec fn digit_char(d: nat) -> char {
    if d == 0 {
        '0'
    } else if d == 1 {
        '1'
    } else if d == 2 {
        '2'
    } else if d == 3 {
        '3'
    } else if d == 4 {
        '4'
    } else if d == 5 {
        '5'
    } else if d == 6 {
        '6'
    } else if d == 7 {
        '7'
    } else if d == 8 {
        '8'
    } else {
        '9'
    }
}

/// A digit's character is the one byte `0x30 + d` in UTF-8.
proof fn lemma_digit_encoding(d: u8)
    requires
        d < 10,
    ensures
        encode_scalar(digit_char(d as nat) as u32) == seq![(48 + d) as u8],
{
    let u = (48 + d) as u32;
    assert(digit_char(d as nat) as u32 == u);
    assert(u <= 0x7F);
    assert((u & 0x7F) as u8 == (48 + d) as u8) by (bit_vector)
        requires
            u == (48 + d) as u32,
            d < 10,
    ;
    assert(encode_scalar(u) =~= seq![(48 + d) as u8]);
}

/// `n` in decimal: no sign, no padding, at least one digit.
pub open spec fn decimal(n: nat) -> Seq<char>
    decreases n,
{
    if n < 10 {
        seq![digit_char(n)]
    } else {
        decimal(n / 10).push(digit_char(n % 10))
    }
}

/// Text being composed.
pub struct Composer {
    bytes: Vec<u8>,
    chars: Ghost<Seq<char>>,
}

impl View for Composer {
    type V = Seq<char>;

    closed spec fn view(&self) -> Seq<char> {
        self.chars@
    }
}

impl Composer {
    #[verifier::type_invariant]
    spec fn encodes_its_text(&self) -> bool {
        self.bytes@ == encode_utf8(self.chars@)
    }

    /// Nothing composed yet.
    pub fn new() -> (c: Self)
        ensures
            c@ == Seq::<char>::empty(),
    {
        let c = Composer { bytes: Vec::new(), chars: Ghost(Seq::empty()) };
        assert(c.bytes@ =~= encode_utf8(Seq::<char>::empty()));
        c
    }

    /// `self` followed by `s`.
    pub fn push_str(self, s: &str) -> (c: Self)
        ensures
            c@ == self@ + s@,
    {
        proof {
            use_type_invariant(&self);
            lemma_encode_utf8_append(self.chars@, s@);
        }
        let Composer { mut bytes, chars } = self;
        let ghost before = bytes@;
        bytes.extend_from_slice(s.as_bytes());
        assert(bytes@ =~= before + s.spec_bytes());
        Composer { bytes, chars: Ghost(chars@ + s@) }
    }

    /// `self` followed by one decimal digit.
    fn push_digit(self, d: u8) -> (c: Self)
        requires
            d < 10,
        ensures
            c@ == self@.push(digit_char(d as nat)),
    {
        proof {
            use_type_invariant(&self);
            lemma_encode_utf8_push(self.chars@, digit_char(d as nat));
            lemma_digit_encoding(d);
        }
        let Composer { mut bytes, chars } = self;
        let ghost before = bytes@;
        bytes.push(48 + d);
        assert(bytes@ =~= before + seq![(48 + d) as u8]);
        Composer { bytes, chars: Ghost(chars@.push(digit_char(d as nat))) }
    }

    /// `self` followed by `n` in decimal.
    pub fn push_number(self, n: u64) -> (c: Self)
        ensures
            c@ == self@ + decimal(n as nat),
        decreases n,
    {
        let ghost start = self@;
        if n >= 10 {
            let c = self.push_number(n / 10).push_digit((n % 10) as u8);
            assert(start + decimal(n as nat) =~= start + decimal((n / 10) as nat) + seq![
                digit_char((n % 10) as nat),
            ]);
            c
        } else {
            let c = self.push_digit(n as u8);
            assert(start + decimal(n as nat) =~= start.push(digit_char(n as nat)));
            c
        }
    }


    /// How many bytes the text takes in UTF-8.
    pub fn len(&self) -> (n: usize)
        ensures
            n == encode_utf8(self@).len(),
    {
        proof {
            use_type_invariant(self);
        }
        self.bytes.len()
    }

    /// `self` followed by `ch`.
    pub fn push_char(self, ch: char) -> (c: Self)
        ensures
            c@ == self@.push(ch),
    {
        proof {
            use_type_invariant(&self);
            lemma_encode_utf8_push(self.chars@, ch);
        }
        let Composer { mut bytes, chars } = self;
        let ghost before = bytes@;
        let v = ch as u32;
        if v <= 0x7F {
            bytes.push((v & 0x7F) as u8);
        } else if v <= 0x7FF {
            bytes.push(0xC0 | ((v >> 6) & 0x1F) as u8);
            bytes.push(0x80 | (v & 0x3F) as u8);
        } else if v <= 0xFFFF {
            bytes.push(0xE0 | ((v >> 12) & 0x0F) as u8);
            bytes.push(0x80 | ((v >> 6) & 0x3F) as u8);
            bytes.push(0x80 | (v & 0x3F) as u8);
        } else {
            bytes.push(0xF0 | ((v >> 18) & 0x7) as u8);
            bytes.push(0x80 | ((v >> 12) & 0x3F) as u8);
            bytes.push(0x80 | ((v >> 6) & 0x3F) as u8);
            bytes.push(0x80 | (v & 0x3F) as u8);
        }
        assert(bytes@ =~= before + encode_scalar(v));
        Composer { bytes, chars: Ghost(chars@.push(ch)) }
    }

    /// `self` followed by `text[lo..hi]`.
    pub fn push_chars(self, text: &Vec<char>, lo: usize, hi: usize) -> (c: Self)
        requires
            lo <= hi <= text@.len(),
        ensures
            c@ == self@ + text@.subrange(lo as int, hi as int),
    {
        let ghost start = self@;
        let mut c = self;
        let mut k = lo;
        while k < hi
            invariant
                lo <= k <= hi <= text@.len(),
                c@ == start + text@.subrange(lo as int, k as int),
            decreases hi - k,
        {
            c = c.push_char(text[k]);
            assert(start + text@.subrange(lo as int, k + 1) =~= (start + text@.subrange(lo as int, k as int)).push(
                text@[k as int],
            ));
            k = k + 1;
        }
        c
    }

    /// The composed text.
    pub fn finish(self) -> (s: String)
        ensures
            s@ == self@,
    {
        proof {
            use_type_invariant(&self);
            encode_utf8_valid_utf8(self.chars@);
        }
        let Composer { bytes, chars } = self;
        match string_from_utf8(bytes) {
            Ok(s) => {
                proof {
                    encode_utf8_decode_utf8(s@);
                    encode_utf8_decode_utf8(chars@);
                }
                s
            },
            Err(_) => {
                proof {
                    assert(false);
                }
                String::new()
            },
        }
    }
}

} // verus!
