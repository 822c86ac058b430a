//! Text utilities: character access, case folding, byte/char equality and
//! containment, plus the trusted bridges to `encoding_rs`, `chardetng` and
//! std's hasher that the engine's contracts are stated over.

use core::hash::Hasher;
use vstd::prelude::*;
use vstd::std_specs::iter::IteratorSpec;
use vstd::string::StringSliceAdditionalSpecFns;

verus! {

broadcast use vstd::string::axiom_spec_iter, vstd::string::next_postcondition;

/// The characters of a string as a vector, in order.
pub fn chars_vec(s: &str) -> (r: Vec<char>)
    ensures
        r@ == s@,
{
    let mut it = s.chars();
    let mut out: Vec<char> = Vec::new();
    assert(out@ + it.remaining() =~= s@);
    loop
        invariant
            IteratorSpec::obeys_prophetic_iter_laws(&it),
            IteratorSpec::decrease(&it) is Some,
            out@ + IteratorSpec::remaining(&it) == s@,
        ensures
            out@ == s@,
        decreases IteratorSpec::decrease(&it)->0,
    {
        let ghost pre_out = out@;
        let ghost pre_rem = IteratorSpec::remaining(&it);
        match it.next() {
            Some(c) => {
                out.push(c);
                proof {
                    assert(out@ + IteratorSpec::remaining(&it) =~= pre_out + pre_rem);
                }
            },
            None => {
                proof {
                    assert(pre_rem.len() == 0);
                    assert(out@ =~= out@ + pre_rem);
                }
                break ;
            },
        }
    }
    out
}

/// Two byte slices hold the same bytes.
pub fn eq_bytes(a: &[u8], b: &[u8]) -> (r: bool)
    ensures
        r == (a@ == b@),
{
    if a.len() != b.len() {
        assert(a@.len() != b@.len());
        return false;
    }
    let mut i: usize = 0;
    while i < a.len()
        invariant
            0 <= i <= a@.len(),
            a@.len() == b@.len(),
            forall|k: int| 0 <= k < i ==> a@[k] == b@[k],
        decreases a@.len() - i,
    {
        if a[i] != b[i] {
            return false;
        }
        i = i + 1;
    }
    proof {
        assert(a@ =~= b@);
    }
    true
}

/// Two character vectors hold the same characters.
pub fn eq_chars(a: &Vec<char>, b: &Vec<char>) -> (r: bool)
    ensures
        r == (a@ == b@),
{
    if a.len() != b.len() {
        assert(a@.len() != b@.len());
        return false;
    }
    let mut i: usize = 0;
    while i < a.len()
        invariant
            0 <= i <= a@.len(),
            a@.len() == b@.len(),
            forall|k: int| 0 <= k < i ==> a@[k] == b@[k],
        decreases a@.len() - i,
    {
        if a[i] != b[i] {
            return false;
        }
        i = i + 1;
    }
    proof {
        assert(a@ =~= b@);
    }
    true
}

/// `needle` occurs as a contiguous run inside `hay`.
pub open spec fn contains_seq(hay: Seq<char>, needle: Seq<char>) -> bool {
    exists|k: int|
        0 <= k <= hay.len() - needle.len() && #[trigger] hay.subrange(k, k + needle.len())
            == needle
}

/// Whether `needle` occurs inside `hay`, by direct comparison at every
/// starting position.
pub fn contains_chars(hay: &Vec<char>, needle: &Vec<char>) -> (r: bool)
    ensures
        r == contains_seq(hay@, needle@),
{
    if needle.len() > hay.len() {
        return false;
    }
    if needle.len() == 0 {
        assert(hay@.subrange(0, 0 + needle@.len() as int) =~= needle@);
        return true;
    }
    let mut k: usize = 0;
    while k <= hay.len() - needle.len()
        invariant
            hay@.len() <= usize::MAX,
            1 <= needle@.len() <= hay@.len(),
            0 <= k <= hay@.len() - needle@.len() + 1,
            forall|j: int|
                0 <= j < k ==> #[trigger] hay@.subrange(j, j + needle@.len()) != needle@,
        decreases hay@.len() - needle@.len() + 1 - k,
    {
        let mut i: usize = 0;
        let mut hit = true;
        loop
            invariant_except_break
                hay@.len() <= usize::MAX,
                needle@.len() <= hay@.len(),
                0 <= k <= hay@.len() - needle@.len(),
                0 <= i <= needle@.len(),
                hit,
                forall|j: int| 0 <= j < i ==> hay@[k + j] == needle@[j],
            ensures
                hit == (hay@.subrange(k as int, k + needle@.len()) == needle@),
            decreases needle@.len() - i,
        {
            if i == needle.len() {
                assert(hay@.subrange(k as int, k + needle@.len()) =~= needle@);
                break ;
            }
            if hay[k + i] != needle[i] {
                hit = false;
                assert(hay@.subrange(k as int, k + needle@.len())[i as int] == hay@[k + i]);
                break ;
            }
            i = i + 1;
        }
        if hit {
            return true;
        }
        k = k + 1;
    }
    false
}

/// What `str::to_lowercase` returns: a function of the characters alone.
pub uninterp spec fn lower_of(s: Seq<char>) -> Seq<char>;

/// Relies on `str::to_lowercase`: Unicode lowercasing, determined by the
/// input characters alone; an empty input stays empty.
#[verifier::external_body]
pub fn to_lowercase(s: &str) -> (r: String)
    ensures
        r@ == lower_of(s@),
        s@.len() == 0 ==> r@.len() == 0,
{
    s.to_lowercase()
}

/// What `char::is_alphabetic` returns for a character.
pub uninterp spec fn alphabetic_of(c: char) -> bool;

/// Relies on `char::is_alphabetic`: a property of the character alone.
#[verifier::external_body]
pub fn char_is_alphabetic(c: char) -> (r: bool)
    ensures
        r == alphabetic_of(c),
{
    c.is_alphabetic()
}

/// Relies on `str::from_utf8`: succeeds exactly on valid UTF-8 and returns
/// a view of the same bytes.
#[verifier::external_body]
pub fn utf8_str(bytes: &[u8]) -> (r: Option<&str>)
    ensures
        r is Some <==> vstd::utf8::valid_utf8(bytes@),
        r matches Option::Some(s) ==> s@ == vstd::utf8::decode_utf8(bytes@),
{
    match core::str::from_utf8(bytes) {
        Ok(s) => Some(s),
        Err(_) => None,
    }
}

/// Two string slices hold the same characters.
pub fn str_eq(a: &str, b: &str) -> (r: bool)
    ensures
        r == (a@ == b@),
{
    let r = eq_bytes(a.as_bytes(), b.as_bytes());
    proof {
        if a.spec_bytes() == b.spec_bytes() {
            vstd::utf8::encode_utf8_decode_utf8(a@);
            vstd::utf8::encode_utf8_decode_utf8(b@);
        }
    }
    r
}

/// Relies on `String::from` for a char: the one-character string.
#[verifier::external_body]
pub fn char_string(c: char) -> (r: String)
    ensures
        r@ == seq![c],
{
    String::from(c)
}

/// What `encoding_rs::Encoding::for_label` resolves a label to: the
/// canonical name of the encoding, or nothing for an unknown label.
pub uninterp spec fn label_canon(label: Seq<char>) -> Option<Seq<char>>;

/// Relies on `encoding_rs::Encoding::for_label` and `Encoding::name`:
/// label resolution is a function of the label alone.
#[verifier::external_body]
pub fn encoding_for_label(label: &str) -> (r: Option<String>)
    ensures
        match (r, label_canon(label@)) {
            (Option::None, Option::None) => true,
            (Option::Some(a), Option::Some(b)) => a@ == b,
            _ => false,
        },
{
    match encoding_rs::Encoding::for_label(label.as_bytes()) {
        Some(enc) => Some(String::from_str(enc.name())),
        None => None,
    }
}

/// What `encoding_rs` decoding yields for an encoding label and input bytes:
/// the decoded characters and whether any byte sequence was malformed.
pub uninterp spec fn decoded_of(label: Seq<char>, bytes: Seq<u8>) -> (Seq<char>, bool);

/// The decoded characters alone.
pub open spec fn decoded_text(label: Seq<char>, bytes: Seq<u8>) -> Seq<char> {
    decoded_of(label, bytes).0
}

/// Whether decoding reported malformed input.
pub open spec fn decode_had_errors(label: Seq<char>, bytes: Seq<u8>) -> bool {
    decoded_of(label, bytes).1
}

/// Relies on `encoding_rs::Encoding::for_label` and `Encoding::decode`:
/// the label picks an encoding (UTF-8 when the label is unknown), and
/// decoding is a function of the label and the bytes alone; empty input
/// decodes to empty text without errors.
#[verifier::external_body]
pub fn decode_field(label: &str, bytes: &[u8]) -> (r: (String, bool))
    ensures
        (r.0@, r.1) == decoded_of(label@, bytes@),
        bytes@.len() == 0 ==> r.0@.len() == 0 && !r.1,
{
    let encoding = encoding_rs::Encoding::for_label(label.as_bytes()).unwrap_or(encoding_rs::UTF_8);
    let (text, _, had_errors) = encoding.decode(bytes);
    (text.into_owned(), had_errors)
}

/// What std's `DefaultHasher` yields for a byte string.
pub uninterp spec fn sip_hash_of(bytes: Seq<u8>) -> u64;

/// Relies on `std::collections::hash_map::DefaultHasher`: hashers made by
/// `new` are all identical, so the digest is a function of the bytes alone.
#[verifier::external_body]
pub fn sip_hash(bytes: &[u8]) -> (r: u64)
    ensures
        r == sip_hash_of(bytes@),
{
    let mut hasher = std::collections::hash_map::DefaultHasher::new();
    hasher.write(bytes);
    hasher.finish()
}

} // verus!
