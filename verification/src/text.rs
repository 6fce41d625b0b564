//! Text as the library reads it: sequences of characters, trimmed, searched,
//! lowered and written out as numbers.
use vstd::prelude::*;

verus! {

broadcast use vstd::string::group_string_axioms;

/// The characters of a string, in order.
pub fn chars_of(s: &str) -> (v: Vec<char>)
    ensures
        v@ == s@,
{
    let mut v: Vec<char> = Vec::new();
    for c in it: s.chars()
        invariant
            v@ == it.seq().take(it.index() as int),
    {
        v.push(c);
    }
    v
}

/// A string holding the given characters, in order.
///
/// Calls `FromIterator<char>` of `String`, which collects the characters one
/// after another into the string.
#[verifier::external_body]
pub(crate) fn string_of(v: &[char]) -> (s: String)
    ensures
        s@ == v@,
{
    v.iter().collect()
}

/// The Unicode `White_Space` property, which `char::is_whitespace` answers.
pub open spec fn is_space(c: char) -> bool {
    ||| ('\u{9}' <= c && c <= '\u{d}')
    ||| c == ' '
    ||| c == '\u{85}'
    ||| c == '\u{a0}'
    ||| c == '\u{1680}'
    ||| ('\u{2000}' <= c && c <= '\u{200a}')
    ||| c == '\u{2028}'
    ||| c == '\u{2029}'
    ||| c == '\u{202f}'
    ||| c == '\u{205f}'
    ||| c == '\u{3000}'
}

pub fn space(c: char) -> (r: bool)
    ensures
        r == is_space(c),
{
    ('\u{9}' <= c && c <= '\u{d}') || c == ' ' || c == '\u{85}' || c == '\u{a0}' || c
        == '\u{1680}' || ('\u{2000}' <= c && c <= '\u{200a}') || c == '\u{2028}' || c
        == '\u{2029}' || c == '\u{202f}' || c == '\u{205f}' || c == '\u{3000}'
}

/// The text with its leading white space taken off.
pub open spec fn trim_start(s: Seq<char>) -> Seq<char>
    decreases s.len(),
{
    if s.len() > 0 && is_space(s[0]) {
        trim_start(s.drop_first())
    } else {
        s
    }
}

/// The text with its trailing white space taken off.
pub open spec fn trim_end(s: Seq<char>) -> Seq<char>
    decreases s.len(),
{
    if s.len() > 0 && is_space(s.last()) {
        trim_end(s.drop_last())
    } else {
        s
    }
}

/// The text with white space taken off both ends.
pub open spec fn trim(s: Seq<char>) -> Seq<char> {
    trim_end(trim_start(s))
}

/// The characters of `v` from `from` up to `to`.
pub fn slice_of(v: &[char], from: usize, to: usize) -> (r: Vec<char>)
    requires
        from <= to <= v@.len(),
    ensures
        r@ == v@.subrange(from as int, to as int),
{
    let mut r: Vec<char> = Vec::new();
    let mut i = from;
    while i < to
        invariant
            from <= i <= to <= v@.len(),
            r@ == v@.subrange(from as int, i as int),
        decreases to - i,
    {
        r.push(v[i]);
        i = i + 1;
        assert(r@ =~= v@.subrange(from as int, i as int));
    }
    r
}

/// Where the text starts once its leading white space is passed over.
pub fn start_of_text(v: &[char]) -> (at: usize)
    ensures
        at <= v@.len(),
        trim_start(v@) == v@.subrange(at as int, v@.len() as int),
{
    let mut i: usize = 0;
    assert(v@.subrange(0, v@.len() as int) =~= v@);
    while i < v.len() && space(v[i])
        invariant
            i <= v@.len(),
            trim_start(v@) == trim_start(v@.subrange(i as int, v@.len() as int)),
        decreases v@.len() - i,
    {
        assert(v@.subrange(i as int, v@.len() as int).drop_first() =~= v@.subrange(
            i + 1,
            v@.len() as int,
        ));
        i = i + 1;
    }
    i
}

/// Where the text ends once its trailing white space is passed over.
pub fn end_of_text(v: &[char], from: usize) -> (at: usize)
    requires
        from <= v@.len(),
    ensures
        from <= at <= v@.len(),
        trim_end(v@.subrange(from as int, v@.len() as int)) == v@.subrange(from as int, at as int),
{
    let mut j: usize = v.len();
    while j > from && space(v[j - 1])
        invariant
            from <= j <= v@.len(),
            trim_end(v@.subrange(from as int, v@.len() as int)) == trim_end(
                v@.subrange(from as int, j as int),
            ),
        decreases j,
    {
        assert(v@.subrange(from as int, j as int).drop_last() =~= v@.subrange(
            from as int,
            j - 1,
        ));
        j = j - 1;
    }
    j
}

/// Where the part of `v` from `from` up to `to` starts and ends once white
/// space is taken off both its ends.
pub fn trim_range(v: &[char], from: usize, to: usize) -> (r: (usize, usize))
    requires
        from <= to <= v@.len(),
    ensures
        from <= r.0 <= r.1 <= to,
        trim(v@.subrange(from as int, to as int)) == v@.subrange(r.0 as int, r.1 as int),
{
    let part = slice_of(v, from, to);
    let a = start_of_text(&part);
    let b = end_of_text(&part, a);
    assert(part@.subrange(a as int, b as int) =~= v@.subrange(from + a, from + b));
    assert(part@.subrange(a as int, part@.len() as int) =~= part@.subrange(
        a as int,
        part@.len() as int,
    ));
    (from + a, from + b)
}

/// The text with white space taken off both ends.
pub fn trimmed(v: &[char]) -> (r: Vec<char>)
    ensures
        r@ == trim(v@),
{
    let a = start_of_text(v);
    let b = end_of_text(v, a);
    slice_of(v, a, b)
}

/// An ASCII capital lowered; every other character as it is.
pub open spec fn ascii_lower(c: char) -> char {
    if 'A' <= c && c <= 'Z' {
        ((c as u32) + 32) as char
    } else {
        c
    }
}

pub fn lower_ascii(c: char) -> (r: char)
    ensures
        r == ascii_lower(c),
{
    if 'A' <= c && c <= 'Z' {
        let b: u8 = c as u8;
        assert(b as u32 == c as u32);
        (b + 32) as char
    } else {
        c
    }
}

/// The text with its ASCII capitals lowered.
pub open spec fn lowered(s: Seq<char>) -> Seq<char> {
    s.map_values(|c: char| ascii_lower(c))
}

pub fn lowered_ascii(v: &[char]) -> (r: Vec<char>)
    ensures
        r@ == lowered(v@),
{
    let mut r: Vec<char> = Vec::new();
    let mut i: usize = 0;
    while i < v.len()
        invariant
            i <= v@.len(),
            r@ == lowered(v@.subrange(0, i as int)),
        decreases v@.len() - i,
    {
        r.push(lower_ascii(v[i]));
        i = i + 1;
        assert(r@ =~= lowered(v@.subrange(0, i as int)));
    }
    assert(v@.subrange(0, v@.len() as int) =~= v@);
    r
}

/// Whether `pat` stands in `text` at `at`.
pub open spec fn stands_at(text: Seq<char>, pat: Seq<char>, at: int) -> bool {
    0 <= at && at + pat.len() <= text.len() && text.subrange(at, at + pat.len()) == pat
}

/// The first place at or after `from` where `pat` stands in `text`.
pub open spec fn find_from(text: Seq<char>, pat: Seq<char>, from: int) -> Option<int>
    decreases text.len() + 1 - from,
{
    if from < 0 || from + pat.len() > text.len() {
        None
    } else if stands_at(text, pat, from) {
        Some(from)
    } else {
        find_from(text, pat, from + 1)
    }
}

/// The first place where `pat` stands in `text`.
pub open spec fn find(text: Seq<char>, pat: Seq<char>) -> Option<int> {
    find_from(text, pat, 0)
}

/// Where a pattern is found from `from` on, it stands within the text.
pub proof fn lemma_find_bounds(text: Seq<char>, pat: Seq<char>, from: int)
    ensures
        find_from(text, pat, from) matches Some(at) ==> from <= at && at + pat.len() <= text.len(),
    decreases text.len() + 1 - from,
{
    if from < 0 || from + pat.len() > text.len() {
    } else if stands_at(text, pat, from) {
    } else {
        lemma_find_bounds(text, pat, from + 1);
    }
}

pub fn stands_at_exec(text: &[char], pat: &[char], at: usize) -> (r: bool)
    ensures
        r == stands_at(text@, pat@, at as int),
{
    if at > text.len() || pat.len() > text.len() - at {
        return false;
    }
    let n = text.len();
    let mut k: usize = 0;
    while k < pat.len()
        invariant
            n == text@.len(),
            k <= pat@.len(),
            at <= text@.len(),
            pat@.len() <= text@.len() - at,
            at + pat@.len() <= text@.len(),
            forall|m: int| 0 <= m < k ==> text@[at + m] == pat@[m],
        decreases pat@.len() - k,
    {
        let here: usize = at + k;
        if text[here] != pat[k] {
            assert(text@.subrange(at as int, at + pat@.len())[k as int] != pat@[k as int]);
            return false;
        }
        k = k + 1;
    }
    assert(text@.subrange(at as int, at + pat@.len()) =~= pat@);
    true
}

pub fn find_exec(text: &[char], pat: &[char]) -> (r: Option<usize>)
    ensures
        r matches Some(at) ==> find(text@, pat@) == Some(at as int),
        r is None ==> find(text@, pat@) is None,
{
    if pat.len() > text.len() {
        return None;
    }
    if pat.len() == 0 {
        assert(text@.subrange(0, 0) =~= pat@);
        assert(stands_at(text@, pat@, 0));
        return Some(0);
    }
    let n = text.len();
    let mut i: usize = 0;
    while i <= text.len() - pat.len()
        invariant
            n == text@.len(),
            1 <= pat@.len() <= text@.len(),
            i <= text@.len() - pat@.len() + 1,
            find(text@, pat@) == find_from(text@, pat@, i as int),
        decreases text@.len() + 1 - i,
    {
        if stands_at_exec(text, pat, i) {
            return Some(i);
        }
        i = i + 1;
    }
    None
}

/// Whether two texts are one.
pub fn same_chars(a: &[char], b: &[char]) -> (r: bool)
    ensures
        r == (a@ == b@),
{
    if a.len() != b.len() {
        return false;
    }
    let mut i: usize = 0;
    while i < a.len()
        invariant
            i <= a@.len(),
            a@.len() == b@.len(),
            forall|k: int| 0 <= k < i ==> a@[k] == b@[k],
        decreases a@.len() - i,
    {
        if a[i] != b[i] {
            return false;
        }
        i = i + 1;
    }
    assert(a@ =~= b@);
    true
}

/// The digit that stands for a number below ten.
pub open spec fn digit(n: nat) -> char {
    (('0' as u32) + n) as char
}

/// A natural number written out in decimal.
pub open spec fn decimal(n: nat) -> Seq<char>
    decreases n,
{
    if n < 10 {
        seq![digit(n)]
    } else {
        decimal(n / 10).push(digit(n % 10))
    }
}

/// Written text padded on the left with zeros to `width` characters.
pub open spec fn zero_padded(s: Seq<char>, width: nat) -> Seq<char> {
    if s.len() < width {
        Seq::new((width - s.len()) as nat, |i: int| '0') + s
    } else {
        s
    }
}

pub fn digit_of(n: u64) -> (c: char)
    requires
        n < 10,
    ensures
        c == digit(n as nat),
{
    let b: u8 = n as u8;
    (b + 48) as char
}

pub fn decimal_of(n: u64) -> (r: Vec<char>)
    ensures
        r@ == decimal(n as nat),
    decreases n,
{
    if n < 10 {
        let mut r: Vec<char> = Vec::new();
        r.push(digit_of(n));
        assert(r@ =~= decimal(n as nat));
        r
    } else {
        let mut r = decimal_of(n / 10);
        r.push(digit_of(n % 10));
        r
    }
}

pub fn zero_padded_exec(s: Vec<char>, width: usize) -> (r: Vec<char>)
    ensures
        r@ == zero_padded(s@, width as nat),
{
    if s.len() < width {
        let mut r: Vec<char> = Vec::new();
        let mut i: usize = 0;
        let missing = width - s.len();
        while i < missing
            invariant
                i <= missing,
                r@ == Seq::new(i as nat, |k: int| '0'),
            decreases missing - i,
        {
            r.push('0');
            i = i + 1;
            assert(r@ =~= Seq::new(i as nat, |k: int| '0'));
        }
        let mut k: usize = 0;
        while k < s.len()
            invariant
                k <= s@.len(),
                r@ == Seq::new(missing as nat, |k: int| '0') + s@.subrange(0, k as int),
            decreases s@.len() - k,
        {
            r.push(s[k]);
            k = k + 1;
            assert(r@ =~= Seq::new(missing as nat, |k: int| '0') + s@.subrange(0, k as int));
        }
        assert(s@.subrange(0, s@.len() as int) =~= s@);
        r
    } else {
        s
    }
}

/// Appends `more` to the end of `v`.
pub fn append_chars(v: &mut Vec<char>, more: &[char])
    ensures
        final(v)@ == old(v)@ + more@,
{
    let mut k: usize = 0;
    let ghost start = v@;
    while k < more.len()
        invariant
            k <= more@.len(),
            v@ == start + more@.subrange(0, k as int),
        decreases more@.len() - k,
    {
        v.push(more[k]);
        k = k + 1;
        assert(v@ =~= start + more@.subrange(0, k as int));
    }
    assert(more@.subrange(0, more@.len() as int) =~= more@);
}

/// How many bytes UTF-8 spends on a character.
pub open spec fn utf8_len(c: char) -> nat {
    if (c as u32) < 0x80 {
        1
    } else if (c as u32) < 0x800 {
        2
    } else if (c as u32) < 0x10000 {
        3
    } else {
        4
    }
}

/// How many bytes UTF-8 spends on the text.
pub open spec fn utf8_bytes(s: Seq<char>) -> nat
    decreases s.len(),
{
    if s.len() == 0 {
        0
    } else {
        utf8_bytes(s.drop_last()) + utf8_len(s.last())
    }
}

pub fn utf8_len_of(c: char) -> (n: usize)
    ensures
        n == utf8_len(c),
{
    let u: u32 = c as u32;
    if u < 0x80 {
        1
    } else if u < 0x800 {
        2
    } else if u < 0x10000 {
        3
    } else {
        4
    }
}

/// Whether the character is a letter or a digit in the sense of Unicode's
/// `Alphabetic` and `Numeric` properties.
pub uninterp spec fn alphanumeric(c: char) -> bool;

/// The characters Unicode lowers a character to.
pub uninterp spec fn lowercase(c: char) -> Seq<char>;

/// `char::is_alphanumeric`, whose answer is a property Unicode's tables
/// give each character; the contract names that answer and says no more.
#[verifier::external_body]
pub(crate) fn is_alphanumeric(c: char) -> (r: bool)
    ensures
        r == alphanumeric(c),
{
    c.is_alphanumeric()
}

/// `char::to_lowercase`, collected; the contract names the characters
/// Unicode's tables lower the character to and says no more of them.
#[verifier::external_body]
pub(crate) fn lowercase_of(c: char) -> (r: Vec<char>)
    ensures
        r@ == lowercase(c),
{
    c.to_lowercase().collect()
}

/// The letters and digits of a title, each lowered.
pub open spec fn folded(s: Seq<char>) -> Seq<char>
    decreases s.len(),
{
    if s.len() == 0 {
        seq![]
    } else {
        folded(s.drop_last()) + (if alphanumeric(s.last()) {
            lowercase(s.last())
        } else {
            seq![]
        })
    }
}

pub fn folded_chars(v: &[char]) -> (r: Vec<char>)
    ensures
        r@ == folded(v@),
{
    let mut r: Vec<char> = Vec::new();
    let mut i: usize = 0;
    while i < v.len()
        invariant
            i <= v@.len(),
            r@ == folded(v@.subrange(0, i as int)),
        decreases v@.len() - i,
    {
        assert(v@.subrange(0, i + 1).drop_last() =~= v@.subrange(0, i as int));
        if is_alphanumeric(v[i]) {
            let low = lowercase_of(v[i]);
            append_chars(&mut r, &low);
        }
        i = i + 1;
        assert(r@ =~= folded(v@.subrange(0, i as int)));
    }
    assert(v@.subrange(0, v@.len() as int) =~= v@);
    r
}

/// A title folded to its letters and digits, lowered.
pub fn folded_title(title: &str) -> (r: String)
    ensures
        r@ == folded(title@),
{
    let v = chars_of(title);
    let f = folded_chars(&v);
    string_of(&f)
}

} // verus!
