//! Names folded so that two spellings of one name meet: marks taken off,
//! compatibility forms decomposed, letters lowered.
use vstd::prelude::*;

use unicode_normalization::UnicodeNormalization;

use crate::text::{append_chars, chars_of, folded, folded_chars, lowercase, lowercase_of, string_of};

verus! {

/// The compatibility decomposition (NFKD) of a character.
pub uninterp spec fn nfkd(c: char) -> Seq<char>;

/// Whether a character is a combining mark.
pub uninterp spec fn combining(c: char) -> bool;

/// `UnicodeNormalization::nfkd` of `unicode_normalization`, on one
/// character, collected; the contract names the decomposition Unicode's
/// tables give and says no more of it.
#[verifier::external_body]
pub(crate) fn decomposed(c: char) -> (r: Vec<char>)
    ensures
        r@ == nfkd(c),
{
    c.nfkd().collect()
}

/// `unicode_normalization::char::is_combining_mark`; the contract names the
/// property Unicode's tables give the character and says no more of it.
#[verifier::external_body]
pub(crate) fn is_combining(c: char) -> (r: bool)
    ensures
        r == combining(c),
{
    unicode_normalization::char::is_combining_mark(c)
}

/// A letter written with a stroke or a bar, which no decomposition takes
/// apart, as the plain letter under it.
pub open spec fn unstroked(c: char) -> char {
    if c == 'ł' {
        'l'
    } else if c == 'Ł' {
        'L'
    } else if c == 'ø' {
        'o'
    } else if c == 'Ø' {
        'O'
    } else if c == 'đ' {
        'd'
    } else if c == 'Đ' {
        'D'
    } else if c == 'ħ' {
        'h'
    } else if c == 'Ħ' {
        'H'
    } else if c == 'ı' {
        'i'
    } else if c == 'ŧ' {
        't'
    } else if c == 'Ŧ' {
        'T'
    } else {
        c
    }
}

pub fn unstroked_of(c: char) -> (r: char)
    ensures
        r == unstroked(c),
{
    if c == 'ł' {
        'l'
    } else if c == 'Ł' {
        'L'
    } else if c == 'ø' {
        'o'
    } else if c == 'Ø' {
        'O'
    } else if c == 'đ' {
        'd'
    } else if c == 'Đ' {
        'D'
    } else if c == 'ħ' {
        'h'
    } else if c == 'Ħ' {
        'H'
    } else if c == 'ı' {
        'i'
    } else if c == 'ŧ' {
        't'
    } else if c == 'Ŧ' {
        'T'
    } else {
        c
    }
}

/// The pieces of a decomposition kept once its marks are dropped, each
/// unstroked and lowered.
pub open spec fn kept_pieces(d: Seq<char>) -> Seq<char>
    decreases d.len(),
{
    if d.len() == 0 {
        seq![]
    } else {
        kept_pieces(d.drop_last()) + (if combining(d.last()) {
            seq![]
        } else {
            lowercase(unstroked(d.last()))
        })
    }
}

/// A text folded to the letters it spells: each character decomposed, its
/// marks dropped, a stroke taken off, and lowered. White space and
/// punctuation stay where they stand.
pub open spec fn folded_letters_of(s: Seq<char>) -> Seq<char>
    decreases s.len(),
{
    if s.len() == 0 {
        seq![]
    } else {
        folded_letters_of(s.drop_last()) + kept_pieces(nfkd(s.last()))
    }
}

fn kept_pieces_exec(d: &[char]) -> (r: Vec<char>)
    ensures
        r@ == kept_pieces(d@),
{
    let mut r: Vec<char> = Vec::new();
    let mut i: usize = 0;
    while i < d.len()
        invariant
            i <= d@.len(),
            r@ == kept_pieces(d@.subrange(0, i as int)),
        decreases d@.len() - i,
    {
        assert(d@.subrange(0, i + 1).drop_last() =~= d@.subrange(0, i as int));
        if !is_combining(d[i]) {
            let low = lowercase_of(unstroked_of(d[i]));
            append_chars(&mut r, &low);
        }
        i = i + 1;
        assert(r@ =~= kept_pieces(d@.subrange(0, i as int)));
    }
    assert(d@.subrange(0, d@.len() as int) =~= d@);
    r
}

/// The characters folded to the letters they spell.
pub fn folded_letters_chars(v: &[char]) -> (r: Vec<char>)
    ensures
        r@ == folded_letters_of(v@),
{
    let mut r: Vec<char> = Vec::new();
    let mut i: usize = 0;
    while i < v.len()
        invariant
            i <= v@.len(),
            r@ == folded_letters_of(v@.subrange(0, i as int)),
        decreases v@.len() - i,
    {
        assert(v@.subrange(0, i + 1).drop_last() =~= v@.subrange(0, i as int));
        let d = decomposed(v[i]);
        let kept = kept_pieces_exec(&d);
        append_chars(&mut r, &kept);
        i = i + 1;
        assert(r@ =~= folded_letters_of(v@.subrange(0, i as int)));
    }
    assert(v@.subrange(0, v@.len() as int) =~= v@);
    r
}

/// A text folded to the letters it spells.
pub fn folded_letters(text: &str) -> (r: String)
    ensures
        r@ == folded_letters_of(text@),
{
    let v = chars_of(text);
    let f = folded_letters_chars(&v);
    string_of(&f)
}

/// A title stripped to the letters and digits it spells, lowered.
pub open spec fn stripped(s: Seq<char>) -> Seq<char> {
    folded(folded_letters_of(s))
}

pub fn stripped_chars(v: &[char]) -> (r: Vec<char>)
    ensures
        r@ == stripped(v@),
{
    let f = folded_letters_chars(v);
    folded_chars(&f)
}

/// A title stripped to the letters and digits it spells, lowered.
pub fn stripped_title(title: &str) -> (r: String)
    ensures
        r@ == stripped(title@),
{
    let v = chars_of(title);
    let s = stripped_chars(&v);
    string_of(&s)
}

} // verus!
