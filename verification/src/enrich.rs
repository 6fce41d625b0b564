//! How a lookup's answers are weighed: which spelling of a name agrees with
//! which, which release, group, recording or artist is taken, and which is
//! left alone.
use vstd::prelude::*;

use crate::fold::{stripped, stripped_chars};
use crate::ids::Mbid;
use crate::sought::{Seek, Sought};
use crate::model::{AlbumToAsk, TrackToAsk};
use crate::reference::{
    credit_text, credited_as, ArtistMatch, ArtistRelease, Credit, GroupMatch, GroupRelease,
    Recording, RecordingMatch, RecordingRelease, ReleaseGroup, ReleaseMatch,
};
use crate::text::{chars_of, folded, folded_chars, same_chars, slice_of, trim, trim_end, trimmed};

verus! {

broadcast use vstd::string::group_string_axioms;

/// The least score a search's answer is taken at under the strict rule.
pub const STRICT_SCORE: u8 = 95;

/// The score an artist is taken at: a perfect one.
pub const EXACT_SCORE: u8 = 100;

/// How far apart, in milliseconds, a recording and a file may run and still
/// be one take.
pub const RECORDING_MAY_DIFFER_BY: u64 = 5000;

/// How long a lookup that found nothing waits before it is tried again, in
/// nanoseconds: a day.
pub const RETRY_AFTER: u64 = 86_400_000_000_000;

/// How long a lookup the service refused waits before it is tried again,
/// in nanoseconds: an hour.
pub const REFUSED_AGAIN_AFTER: u64 = 3_600_000_000_000;

/// How long an answer stands before it is asked for afresh, in
/// nanoseconds: thirty days.
pub const REFRESH_AFTER: u64 = 2_592_000_000_000_000;

/// How long each kind of lookup waits before it is asked again, in
/// nanoseconds.
#[derive(Clone, Copy, Debug, PartialEq, Eq, Structural)]
pub struct Waits {
    pub retry_after: u64,
    pub refused_again_after: u64,
    pub refresh_after: u64,
}

impl Waits {
    /// The waits a pass keeps unless it is told otherwise.
    pub fn standard() -> (r: Waits)
        ensures
            r.retry_after == RETRY_AFTER,
            r.refused_again_after == REFUSED_AGAIN_AFTER,
            r.refresh_after == REFRESH_AFTER,
    {
        Waits {
            retry_after: RETRY_AFTER,
            refused_again_after: REFUSED_AGAIN_AFTER,
            refresh_after: REFRESH_AFTER,
        }
    }
}

/// Why a lookup came back with nothing.
#[derive(Clone, Copy, Debug, PartialEq, Eq, Structural)]
pub enum Fruitless {
    Missed,
    Refused,
}

impl Fruitless {
    /// One where the lookup asked and found nothing, else none.
    pub fn asks(self) -> (r: i64)
        ensures
            r == (if self == Fruitless::Missed { 1int } else { 0int }),
    {
        match self {
            Fruitless::Missed => 1,
            Fruitless::Refused => 0,
        }
    }

    /// One where the lookup was refused, else none.
    pub fn refused(self) -> (r: i64)
        ensures
            r == (if self == Fruitless::Refused { 1int } else { 0int }),
    {
        match self {
            Fruitless::Missed => 0,
            Fruitless::Refused => 1,
        }
    }
}

/// How sure the pass is of a recording it took.
#[derive(Clone, Copy, Debug, PartialEq, Eq, Structural)]
pub enum Certainty {
    Exactly,
    Nearly,
}

/// The rule an answer's score is held to.
#[derive(Clone, Copy, Debug, PartialEq, Eq, Structural)]
pub enum Accepted {
    Strict,
    Exact,
}

impl Accepted {
    pub open spec fn holds(self, score: u8) -> bool {
        match self {
            Accepted::Strict => score >= STRICT_SCORE,
            Accepted::Exact => score == EXACT_SCORE,
        }
    }

    /// Whether the score passes the rule.
    pub fn scored(self, score: u8) -> (r: bool)
        ensures
            r == self.holds(score),
    {
        match self {
            Accepted::Strict => score >= STRICT_SCORE,
            Accepted::Exact => score == EXACT_SCORE,
        }
    }
}

/// How two spellings of a name agree, from the weakest way to the strongest.
#[derive(Clone, Copy, Debug, PartialEq, Eq, Structural, PartialOrd, Ord)]
pub enum Spelling {
    Dequalified,
    AliasStripped,
    AliasMarked,
    Stripped,
    Marked,
    ById,
}

/// Where a spelling ranks: the stronger the agreement, the higher.
pub open spec fn rank(s: Spelling) -> nat {
    match s {
        Spelling::Dequalified => 0,
        Spelling::AliasStripped => 1,
        Spelling::AliasMarked => 2,
        Spelling::Stripped => 3,
        Spelling::Marked => 4,
        Spelling::ById => 5,
    }
}

/// Where an agreement that may be missing ranks: no agreement lowest.
pub open spec fn opt_rank(s: Option<Spelling>) -> nat {
    match s {
        None => 0,
        Some(x) => rank(x) + 1,
    }
}

pub fn rank_of(s: Spelling) -> (r: u8)
    ensures
        r == rank(s),
{
    match s {
        Spelling::Dequalified => 0,
        Spelling::AliasStripped => 1,
        Spelling::AliasMarked => 2,
        Spelling::Stripped => 3,
        Spelling::Marked => 4,
        Spelling::ById => 5,
    }
}

pub fn opt_rank_of(s: Option<Spelling>) -> (r: u8)
    ensures
        r == opt_rank(s),
{
    match s {
        None => 0,
        Some(x) => rank_of(x) + 1,
    }
}

/// The stronger of two agreements.
pub open spec fn stronger(a: Option<Spelling>, b: Option<Spelling>) -> Option<Spelling> {
    if opt_rank(b) >= opt_rank(a) {
        b
    } else {
        a
    }
}

pub fn stronger_of(a: Option<Spelling>, b: Option<Spelling>) -> (r: Option<Spelling>)
    ensures
        r == stronger(a, b),
{
    if opt_rank_of(b) >= opt_rank_of(a) {
        b
    } else {
        a
    }
}

/// The weaker of two agreements, both present.
pub open spec fn weaker(a: Spelling, b: Spelling) -> Spelling {
    if rank(a) <= rank(b) {
        a
    } else {
        b
    }
}

/// Whether the text is four ASCII digits: a year.
pub open spec fn is_year(t: Seq<char>) -> bool {
    t.len() == 4 && forall|i: int| 0 <= i < 4 ==> '0' <= #[trigger] t[i] && t[i] <= '9'
}

/// Whether the text is four ASCII digits: a year.
pub fn a_year(text: &[char]) -> (r: bool)
    ensures
        r == is_year(text@),
{
    if text.len() != 4 {
        return false;
    }
    let mut i: usize = 0;
    while i < 4
        invariant
            text@.len() == 4,
            i <= 4,
            forall|k: int| 0 <= k < i ==> '0' <= #[trigger] text@[k] && text@[k] <= '9',
        decreases 4 - i,
    {
        if !('0' <= text[i] && text[i] <= '9') {
            return false;
        }
        i = i + 1;
    }
    true
}

/// The words, folded, that say a recording is a dated remaster.
pub open spec fn dated_words() -> Seq<Seq<char>> {
    seq!["remaster"@, "remastered"@]
}

fn dated_word(k: usize) -> (r: &'static str)
    requires
        k < 2,
    ensures
        r@ == dated_words()[k as int],
{
    if k == 0 {
        "remaster"
    } else {
        "remastered"
    }
}

/// The words, folded, that say a title names a version of a recording
/// rather than another recording.
pub open spec fn version_words() -> Seq<Seq<char>> {
    seq![
        "albumversion"@,
        "singleversion"@,
        "cleanversion"@,
        "explicitversion"@,
        "explicit"@,
        "clean"@,
        "radioedit"@,
        "remaster"@,
        "remastered"@,
        "bonustrack"@,
        "deluxeedition"@,
        "monoversion"@,
        "stereoversion"@,
        "originalmix"@,
    ]
}

fn version_word(k: usize) -> (r: &'static str)
    requires
        k < 14,
    ensures
        r@ == version_words()[k as int],
{
    match k {
        0 => "albumversion",
        1 => "singleversion",
        2 => "cleanversion",
        3 => "explicitversion",
        4 => "explicit",
        5 => "clean",
        6 => "radioedit",
        7 => "remaster",
        8 => "remastered",
        9 => "bonustrack",
        10 => "deluxeedition",
        11 => "monoversion",
        12 => "stereoversion",
        _ => "originalmix",
    }
}

/// Whether a folded word is a dated word with a year before or after it.
pub open spec fn dated_with(f: Seq<char>, w: Seq<char>) -> bool {
    ||| (w.len() <= f.len() && f.subrange(f.len() - w.len(), f.len() as int) == w && is_year(
        f.subrange(0, f.len() - w.len()),
    ))
    ||| (w.len() <= f.len() && f.subrange(0, w.len() as int) == w && is_year(
        f.subrange(w.len() as int, f.len() as int),
    ))
}

/// Whether a folded word is a remaster with its year, either way round.
pub open spec fn is_dated_qualifier(f: Seq<char>) -> bool {
    exists|k: int| 0 <= k < 2 && dated_with(f, #[trigger] dated_words()[k])
}

/// Whether the text inside a bracket names a version of a recording.
pub open spec fn is_version_qualifier(inside: Seq<char>) -> bool {
    let f = folded(inside);
    version_words().contains(f) || is_dated_qualifier(f)
}

fn dated_with_exec(f: &[char], w: &[char]) -> (r: bool)
    ensures
        r == dated_with(f@, w@),
{
    if w.len() > f.len() {
        return false;
    }
    let cut = f.len() - w.len();
    let tail = slice_of(f, cut, f.len());
    let head = slice_of(f, 0, cut);
    if same_chars(&tail, w) && a_year(&head) {
        return true;
    }
    let front = slice_of(f, 0, w.len());
    let rest = slice_of(f, w.len(), f.len());
    same_chars(&front, w) && a_year(&rest)
}

/// Whether a folded word is a remaster with its year, either way round.
pub fn a_dated_qualifier(f: &[char]) -> (r: bool)
    ensures
        r == is_dated_qualifier(f@),
{
    let mut k: usize = 0;
    while k < 2
        invariant
            k <= 2,
            forall|m: int| 0 <= m < k ==> !dated_with(f@, #[trigger] dated_words()[m]),
        decreases 2 - k,
    {
        let w = chars_of(dated_word(k));
        if dated_with_exec(f, &w) {
            return true;
        }
        k = k + 1;
    }
    false
}

/// Whether the text inside a bracket names a version of a recording.
pub fn a_version_qualifier(inside: &[char]) -> (r: bool)
    ensures
        r == is_version_qualifier(inside@),
{
    let f = folded_chars(inside);
    let mut k: usize = 0;
    while k < 14
        invariant
            k <= 14,
            f@ == folded(inside@),
            forall|m: int| 0 <= m < k ==> #[trigger] version_words()[m] != f@,
        decreases 14 - k,
    {
        let w = chars_of(version_word(k));
        if same_chars(&f, &w) {
            assert(version_words()[k as int] == f@);
            return true;
        }
        k = k + 1;
    }
    assert(!version_words().contains(f@));
    a_dated_qualifier(&f)
}

/// Where the character last stands in the text.
pub open spec fn rfind_char(s: Seq<char>, c: char) -> Option<int>
    decreases s.len(),
{
    if s.len() == 0 {
        None
    } else if s.last() == c {
        Some(s.len() - 1)
    } else {
        rfind_char(s.drop_last(), c)
    }
}

proof fn lemma_rfind_bounds(s: Seq<char>, c: char)
    ensures
        rfind_char(s, c) matches Some(at) ==> 0 <= at < s.len(),
    decreases s.len(),
{
    if s.len() > 0 {
        lemma_rfind_bounds(s.drop_last(), c);
    }
}

fn rfind_exec(s: &[char], c: char) -> (r: Option<usize>)
    ensures
        r matches Some(at) ==> rfind_char(s@, c) == Some(at as int),
        r is None ==> rfind_char(s@, c) is None,
{
    let mut end: usize = s.len();
    assert(s@.subrange(0, s@.len() as int) =~= s@);
    while end > 0
        invariant
            end <= s@.len(),
            rfind_char(s@, c) == rfind_char(s@.subrange(0, end as int), c),
        decreases end,
    {
        if s[end - 1] == c {
            return Some(end - 1);
        }
        assert(s@.subrange(0, end as int).drop_last() =~= s@.subrange(0, end - 1));
        end = end - 1;
    }
    None
}

/// The title with a bracketed version qualifier taken off its end, where
/// the title ends with one such pair of brackets and something is left.
pub open spec fn bracket_stripped(title: Seq<char>, opening: char, closing: char) -> Option<
    Seq<char>,
> {
    if title.len() > 0 && title.last() == closing {
        let inside = title.drop_last();
        match rfind_char(inside, opening) {
            Some(at) => if 0 <= at < inside.len() && is_version_qualifier(
                inside.subrange(at + 1, inside.len() as int),
            ) {
                let kept = trim_end(inside.subrange(0, at));
                if kept.len() > 0 {
                    Some(kept)
                } else {
                    None
                }
            } else {
                None
            },
            None => None,
        }
    } else {
        None
    }
}

/// The title with a version qualifier taken off its end: one in round
/// brackets first, else one in square brackets.
pub open spec fn without_qualifier(title: Seq<char>) -> Option<Seq<char>> {
    match bracket_stripped(title, '(', ')') {
        Some(kept) => Some(kept),
        None => bracket_stripped(title, '[', ']'),
    }
}

proof fn lemma_trim_end_shorter(s: Seq<char>)
    ensures
        trim_end(s).len() <= s.len(),
    decreases s.len(),
{
    if s.len() > 0 && crate::text::is_space(s.last()) {
        lemma_trim_end_shorter(s.drop_last());
    }
}

proof fn lemma_without_qualifier_shorter(title: Seq<char>)
    ensures
        without_qualifier(title) matches Some(kept) ==> kept.len() < title.len(),
{
    let inside = title.drop_last();
    lemma_rfind_bounds(inside, '(');
    lemma_rfind_bounds(inside, '[');
    if let Some(at) = rfind_char(inside, '(') {
        if 0 <= at < inside.len() {
            lemma_trim_end_shorter(inside.subrange(0, at));
        }
    }
    if let Some(at) = rfind_char(inside, '[') {
        if 0 <= at < inside.len() {
            lemma_trim_end_shorter(inside.subrange(0, at));
        }
    }
}

fn bracket_stripped_exec(title: &[char], opening: char, closing: char) -> (r: Option<Vec<char>>)
    ensures
        r matches Some(kept) ==> bracket_stripped(title@, opening, closing) == Some(kept@),
        r is None ==> bracket_stripped(title@, opening, closing) is None,
{
    if title.len() == 0 || title[title.len() - 1] != closing {
        return None;
    }
    let inside = slice_of(title, 0, title.len() - 1);
    assert(inside@ =~= title@.drop_last());
    proof {
        lemma_rfind_bounds(inside@, opening);
    }
    match rfind_exec(&inside, opening) {
        None => None,
        Some(at) => {
            let within = slice_of(&inside, at + 1, inside.len());
            if !a_version_qualifier(&within) {
                return None;
            }
            let before = slice_of(&inside, 0, at);
            let end = crate::text::end_of_text(&before, 0);
            assert(before@.subrange(0, before@.len() as int) =~= before@);
            let kept = slice_of(&before, 0, end);
            if kept.len() > 0 {
                Some(kept)
            } else {
                None
            }
        },
    }
}

/// The title with a version qualifier taken off its end, where it carries
/// one and something is left: "DDevil (Album Version)" is "DDevil".
pub fn without_a_qualifier(title: &[char]) -> (r: Option<Vec<char>>)
    ensures
        r matches Some(kept) ==> without_qualifier(title@) == Some(kept@),
        r is None ==> without_qualifier(title@) is None,
{
    match bracket_stripped_exec(title, '(', ')') {
        Some(kept) => Some(kept),
        None => bracket_stripped_exec(title, '[', ']'),
    }
}

/// The title with every version qualifier taken off its end, one after
/// another.
pub open spec fn strip_qualifiers(s: Seq<char>) -> Seq<char>
    decreases s.len(),
{
    match without_qualifier(s) {
        Some(kept) => if kept.len() < s.len() {
            strip_qualifiers(kept)
        } else {
            s
        },
        None => s,
    }
}

/// The title trimmed at its end, with every version qualifier taken off.
pub open spec fn dequalified_of(s: Seq<char>) -> Seq<char> {
    strip_qualifiers(trim_end(s))
}

/// The title trimmed at its end, with every version qualifier taken off.
pub fn dequalified(title: &[char]) -> (r: Vec<char>)
    ensures
        r@ == dequalified_of(title@),
{
    let end = crate::text::end_of_text(title, 0);
    assert(title@.subrange(0, title@.len() as int) =~= title@);
    let mut kept = slice_of(title, 0, end);
    loop
        invariant
            strip_qualifiers(kept@) == dequalified_of(title@),
        decreases kept@.len(),
    {
        proof {
            lemma_without_qualifier_shorter(kept@);
        }
        match without_a_qualifier(&kept) {
            Some(shorter) => {
                kept = shorter;
            },
            None => {
                return kept;
            },
        }
    }
}

/// How two spellings of a title or a name agree: letter for letter once
/// folded, once stripped of their marks, or once their version qualifiers
/// are taken off too.
pub open spec fn name_agreement(found: Seq<char>, named: Seq<char>) -> Option<Spelling> {
    if folded(found) == folded(named) {
        Some(Spelling::Marked)
    } else if stripped(found) == stripped(named) {
        Some(Spelling::Stripped)
    } else if stripped(dequalified_of(found)) == stripped(dequalified_of(named)) {
        Some(Spelling::Dequalified)
    } else {
        None
    }
}

/// How a spelling that may be missing agrees with a name.
pub open spec fn same_name_spec(found: Option<Seq<char>>, named: Seq<char>) -> Option<Spelling> {
    match found {
        Some(f) => name_agreement(f, named),
        None => None,
    }
}

fn name_agreement_exec(found: &[char], named: &[char]) -> (r: Option<Spelling>)
    ensures
        r == name_agreement(found@, named@),
{
    if same_chars(&folded_chars(found), &folded_chars(named)) {
        return Some(Spelling::Marked);
    }
    if same_chars(&stripped_chars(found), &stripped_chars(named)) {
        return Some(Spelling::Stripped);
    }
    let one = dequalified(found);
    let other = dequalified(named);
    if same_chars(&stripped_chars(&one), &stripped_chars(&other)) {
        Some(Spelling::Dequalified)
    } else {
        None
    }
}

/// How a spelling that may be missing agrees with a name: "the orbiters!"
/// is "The Orbiters" marked, "Przybylowicz" is "Przybyłowicz" stripped.
pub fn same_name(found: Option<&str>, named: &str) -> (r: Option<Spelling>)
    ensures
        r == same_name_spec(
            match found {
                Some(f) => Some(f@),
                None => None,
            },
            named@,
        ),
{
    match found {
        None => None,
        Some(f) => name_agreement_exec(&chars_of(f), &chars_of(named)),
    }
}

/// An agreement through an alias, ranked below the same agreement through
/// the name.
pub open spec fn alias_of(spelling: Spelling) -> Spelling {
    match spelling {
        Spelling::ById => Spelling::ById,
        Spelling::Marked | Spelling::AliasMarked => Spelling::AliasMarked,
        Spelling::Stripped | Spelling::AliasStripped => Spelling::AliasStripped,
        Spelling::Dequalified => Spelling::Dequalified,
    }
}

/// An agreement through an alias, ranked below the same agreement through
/// the name.
pub fn as_an_alias(spelling: Spelling) -> (r: Spelling)
    ensures
        r == alias_of(spelling),
{
    match spelling {
        Spelling::ById => Spelling::ById,
        Spelling::Marked | Spelling::AliasMarked => Spelling::AliasMarked,
        Spelling::Stripped | Spelling::AliasStripped => Spelling::AliasStripped,
        Spelling::Dequalified => Spelling::Dequalified,
    }
}

/// A credit as it is billed, where it bills anything but white space.
pub open spec fn billed_spec(credit: Seq<Credit>) -> Option<Seq<char>> {
    let billing = credit_text(credit);
    if trim(billing).len() > 0 {
        Some(billing)
    } else {
        None
    }
}

/// A credit as it is billed, where it bills anything but white space.
pub fn billed(credit: &[Credit]) -> (r: Option<String>)
    ensures
        match r {
            Some(s) => billed_spec(credit@) == Some(s@),
            None => billed_spec(credit@) is None,
        },
{
    let billing = credited_as(credit);
    let v = chars_of(billing.as_str());
    if trimmed(&v).len() > 0 {
        Some(billing)
    } else {
        None
    }
}

/// Whether any name in the credit carries the identifier asked for.
pub open spec fn credited_by_id(credit: Seq<Credit>, named_mbid: Option<Seq<char>>) -> bool {
    exists|i: int|
        0 <= i < credit.len() && (#[trigger] credit[i]).mbid is Some && named_mbid is Some
            && credit[i].mbid->0@ == named_mbid->0
}

/// The strongest agreement any one name of the credit has with the name
/// asked for.
pub open spec fn singly(credit: Seq<Credit>, named: Seq<char>) -> Option<Spelling>
    decreases credit.len(),
{
    if credit.len() == 0 {
        None
    } else {
        stronger(singly(credit.drop_last(), named), name_agreement(credit.last().name@, named))
    }
}

/// How a credit agrees with an artist asked for: by the identifier, else
/// the stronger of how the whole billing agrees and how any one name does.
pub open spec fn credit_agreement(
    credit: Seq<Credit>,
    named: Seq<char>,
    named_mbid: Option<Seq<char>>,
) -> Option<Spelling> {
    if credited_by_id(credit, named_mbid) {
        Some(Spelling::ById)
    } else {
        stronger(same_name_spec(billed_spec(credit), named), singly(credit, named))
    }
}

/// The identifier that may be missing, by its view.
pub open spec fn view_of(m: Option<&Mbid>) -> Option<Seq<char>> {
    match m {
        Some(id) => Some(id@),
        None => None,
    }
}

/// How a credit agrees with an artist asked for by name and, where known,
/// by identifier.
pub fn same_credit(credit: &[Credit], named: &str, named_mbid: Option<&Mbid>) -> (r: Option<
    Spelling,
>)
    ensures
        r == credit_agreement(credit@, named@, view_of(named_mbid)),
{
    let mut i: usize = 0;
    while i < credit.len()
        invariant
            i <= credit@.len(),
            forall|k: int|
                0 <= k < i ==> !((#[trigger] credit@[k]).mbid is Some && named_mbid is Some
                    && credit@[k].mbid->0@ == named_mbid->0@),
        decreases credit@.len() - i,
    {
        match (&credit[i].mbid, named_mbid) {
            (Some(held), Some(asked)) => {
                if held.same(asked) {
                    return Some(Spelling::ById);
                }
            },
            _ => {},
        }
        i = i + 1;
    }
    let named_chars = chars_of(named);
    let as_billed = match billed(credit) {
        Some(b) => name_agreement_exec(&chars_of(b.as_str()), &named_chars),
        None => None,
    };
    let mut best: Option<Spelling> = None;
    let mut k: usize = 0;
    while k < credit.len()
        invariant
            k <= credit@.len(),
            named_chars@ == named@,
            best == singly(credit@.subrange(0, k as int), named@),
        decreases credit@.len() - k,
    {
        assert(credit@.subrange(0, k + 1).drop_last() =~= credit@.subrange(0, k as int));
        let one = name_agreement_exec(&chars_of(credit[k].name.as_str()), &named_chars);
        best = stronger_of(best, one);
        k = k + 1;
    }
    assert(credit@.subrange(0, credit@.len() as int) =~= credit@);
    stronger_of(as_billed, best)
}

/// The strongest agreement any alias has with the name, as an alias.
pub open spec fn aliased(aliases: Seq<String>, named: Seq<char>) -> Option<Spelling>
    decreases aliases.len(),
{
    if aliases.len() == 0 {
        None
    } else {
        stronger(
            aliased(aliases.drop_last(), named),
            match name_agreement(aliases.last()@, named) {
                Some(s) => Some(alias_of(s)),
                None => None,
            },
        )
    }
}

/// How an artist the reference offered agrees with the name asked for:
/// through its name, else through the strongest of its aliases.
pub open spec fn names_it_spec(found: ArtistMatch, named: Seq<char>) -> Option<Spelling> {
    match name_agreement(found.name@, named) {
        Some(s) => Some(s),
        None => aliased(found.aliases@, named),
    }
}

/// How an artist the reference offered agrees with the name asked for.
pub fn names_it(found: &ArtistMatch, named: &str) -> (r: Option<Spelling>)
    ensures
        r == names_it_spec(*found, named@),
{
    let named_chars = chars_of(named);
    let by_name = name_agreement_exec(&chars_of(found.name.as_str()), &named_chars);
    if by_name.is_some() {
        return by_name;
    }
    let mut best: Option<Spelling> = None;
    let mut k: usize = 0;
    while k < found.aliases.len()
        invariant
            k <= found.aliases@.len(),
            named_chars@ == named@,
            best == aliased(found.aliases@.subrange(0, k as int), named@),
        decreases found.aliases@.len() - k,
    {
        assert(found.aliases@.subrange(0, k + 1).drop_last() =~= found.aliases@.subrange(
            0,
            k as int,
        ));
        let one = match name_agreement_exec(&chars_of(found.aliases[k].as_str()), &named_chars) {
            Some(s) => Some(as_an_alias(s)),
            None => None,
        };
        best = stronger_of(best, one);
        k = k + 1;
    }
    assert(found.aliases@.subrange(0, found.aliases@.len() as int) =~= found.aliases@);
    best
}

/// How a credit agrees with the owner an album is filed under; an album
/// with no owner agrees with any credit.
pub open spec fn owned_by_spec(credit: Seq<Credit>, album: AlbumToAsk) -> Option<Spelling> {
    match album.owner {
        None => Some(Spelling::Marked),
        Some(owner) => credit_agreement(credit, owner@, mbid_opt(album.owner_mbid)),
    }
}

/// An identifier that may be missing, by its view.
pub open spec fn mbid_opt(m: Option<Mbid>) -> Option<Seq<char>> {
    match m {
        Some(id) => Some(id@),
        None => None,
    }
}

/// How a credit agrees with the owner an album is filed under.
pub fn owned_by(credit: &[Credit], album: &AlbumToAsk) -> (r: Option<Spelling>)
    ensures
        r == owned_by_spec(credit@, *album),
{
    match &album.owner {
        None => Some(Spelling::Marked),
        Some(owner) => same_credit(credit, owner.as_str(), album.owner_mbid.as_ref()),
    }
}

/// How many tracks an album says it holds: its tags' count, else what the
/// catalog holds.
pub open spec fn declared_count_spec(album: AlbumToAsk) -> u32 {
    match album.tagged_tracks {
        Some(n) => n,
        None => album.track_count,
    }
}

pub fn declared_count(album: &AlbumToAsk) -> (r: u32)
    ensures
        r == declared_count_spec(*album),
{
    match album.tagged_tracks {
        Some(n) => n,
        None => album.track_count,
    }
}

/// Whether a release holds as many tracks as the album says it does.
pub open spec fn count_fits_spec(found: ReleaseMatch, album: AlbumToAsk) -> bool {
    found.track_count == Some(declared_count_spec(album))
}

pub fn count_fits(found: &ReleaseMatch, album: &AlbumToAsk) -> (r: bool)
    ensures
        r == count_fits_spec(*found, *album),
{
    match found.track_count {
        Some(n) => n == declared_count(album),
        None => false,
    }
}

/// The value of a year's four digits.
pub open spec fn year_value(t: Seq<char>) -> int {
    ((t[0] as int) - 48) * 1000 + ((t[1] as int) - 48) * 100 + ((t[2] as int) - 48) * 10 + ((
    t[3] as int) - 48)
}

/// The year a date starts with, where its first four characters are digits.
pub open spec fn year_of_spec(date: Option<Seq<char>>) -> Option<int> {
    match date {
        Some(d) => if d.len() >= 4 && is_year(d.subrange(0, 4)) {
            Some(year_value(d.subrange(0, 4)))
        } else {
            None
        },
        None => None,
    }
}

fn digit_value(c: char) -> (r: i32)
    requires
        '0' <= c <= '9',
    ensures
        r == (c as int) - 48,
{
    let u: u32 = c as u32;
    (u - 48) as i32
}

/// The year a date starts with: "1971-10-30" is 1971.
pub fn year_of(date: Option<&str>) -> (r: Option<i32>)
    ensures
        r == (match year_of_spec(
            match date {
                Some(d) => Some(d@),
                None => None,
            },
        ) {
            Some(y) => Some(y as i32),
            None => None,
        }),
{
    let d = match date {
        Some(d) => d,
        None => return None,
    };
    let v = chars_of(d);
    if v.len() < 4 {
        return None;
    }
    let head = slice_of(&v, 0, 4);
    if !a_year(&head) {
        return None;
    }
    let y = digit_value(head[0]) * 1000 + digit_value(head[1]) * 100 + digit_value(head[2]) * 10
        + digit_value(head[3]);
    Some(y)
}

/// Whether a release comes from the year the album is dated.
pub open spec fn year_agrees_spec(found: ReleaseMatch, album: AlbumToAsk) -> bool {
    album.year is Some && year_of_spec(
        match found.date {
            Some(d) => Some(d@),
            None => None,
        },
    ) == Some(album.year->0 as int)
}

pub fn year_agrees(found: &ReleaseMatch, album: &AlbumToAsk) -> (r: bool)
    ensures
        r == year_agrees_spec(*found, *album),
{
    match album.year {
        None => false,
        Some(year) => {
            let date = match &found.date {
                Some(d) => Some(d.as_str()),
                None => None,
            };
            match year_of(date) {
                Some(y) => y == year,
                None => false,
            }
        },
    }
}

/// How a release agrees with the album's owner, where it scores under the
/// strict rule.
pub open spec fn agreed_owner_spec(found: ReleaseMatch, album: AlbumToAsk) -> Option<Spelling> {
    if Accepted::Strict.holds(found.score) {
        owned_by_spec(found.credit@, album)
    } else {
        None
    }
}

pub fn agreed_owner(found: &ReleaseMatch, album: &AlbumToAsk) -> (r: Option<Spelling>)
    ensures
        r == agreed_owner_spec(*found, *album),
{
    if Accepted::Strict.scored(found.score) {
        owned_by(&found.credit, album)
    } else {
        None
    }
}

/// How a release agrees with the album under the strict rule: it scores
/// high enough, holds as many tracks, and its credit agrees with the owner.
pub open spec fn matches_strictly_spec(found: ReleaseMatch, album: AlbumToAsk) -> Option<
    Spelling,
> {
    if count_fits_spec(found, album) {
        agreed_owner_spec(found, album)
    } else {
        None
    }
}

pub fn matches_strictly(found: &ReleaseMatch, album: &AlbumToAsk) -> (r: Option<Spelling>)
    ensures
        r == matches_strictly_spec(*found, *album),
{
    if count_fits(found, album) {
        agreed_owner(found, album)
    } else {
        None
    }
}

/// How a release group agrees with the album under the strict rule.
pub open spec fn matches_as_a_group_spec(found: GroupMatch, album: AlbumToAsk) -> Option<
    Spelling,
> {
    if Accepted::Strict.holds(found.score) {
        owned_by_spec(found.credit@, album)
    } else {
        None
    }
}

pub fn matches_as_a_group(found: &GroupMatch, album: &AlbumToAsk) -> (r: Option<Spelling>)
    ensures
        r == matches_as_a_group_spec(*found, *album),
{
    if Accepted::Strict.scored(found.score) {
        owned_by(&found.credit, album)
    } else {
        None
    }
}

/// How an artist agrees with the name asked for, where it scores perfectly.
pub open spec fn matches_exactly_spec(found: ArtistMatch, name: Seq<char>) -> Option<Spelling> {
    if Accepted::Exact.holds(found.score) {
        names_it_spec(found, name)
    } else {
        None
    }
}

pub fn matches_exactly(found: &ArtistMatch, name: &str) -> (r: Option<Spelling>)
    ensures
        r == matches_exactly_spec(*found, name@),
{
    if Accepted::Exact.scored(found.score) {
        names_it(found, name)
    } else {
        None
    }
}


/// Where the highest weight first stands: a later weight takes the place
/// only where it is strictly higher.
pub open spec fn top_index(ws: Seq<u64>) -> int
    decreases ws.len(),
{
    if ws.len() <= 1 {
        0
    } else {
        let held = top_index(ws.drop_last());
        if ws.last() > ws[held] {
            ws.len() - 1
        } else {
            held
        }
    }
}

pub proof fn lemma_top_index_bounds(ws: Seq<u64>)
    requires
        ws.len() > 0,
    ensures
        0 <= top_index(ws) < ws.len(),
    decreases ws.len(),
{
    if ws.len() > 1 {
        lemma_top_index_bounds(ws.drop_last());
    }
}

/// The top weight is the highest of all, and no weight before it is as
/// high.
pub proof fn lemma_top_index_is_first_highest(ws: Seq<u64>)
    requires
        ws.len() > 0,
    ensures
        forall|i: int| 0 <= i < ws.len() ==> #[trigger] ws[i] <= ws[top_index(ws)],
        forall|i: int| 0 <= i < top_index(ws) ==> #[trigger] ws[i] < ws[top_index(ws)],
    decreases ws.len(),
{
    lemma_top_index_bounds(ws);
    if ws.len() > 1 {
        let rest = ws.drop_last();
        lemma_top_index_is_first_highest(rest);
        lemma_top_index_bounds(rest);
        assert forall|i: int| 0 <= i < ws.len() - 1 implies ws[i] == rest[i] by {}
    }
}

/// Where the highest weight first stands.
pub fn top_at(ws: &[u64]) -> (r: usize)
    requires
        ws@.len() > 0,
    ensures
        r == top_index(ws@),
        r < ws@.len(),
{
    let mut best: usize = 0;
    let mut i: usize = 1;
    while i < ws.len()
        invariant
            1 <= i <= ws@.len(),
            best == top_index(ws@.subrange(0, i as int)),
            best < i,
        decreases ws@.len() - i,
    {
        assert(ws@.subrange(0, i + 1).drop_last() =~= ws@.subrange(0, i as int));
        if ws[i] > ws[best] {
            best = i;
        }
        i = i + 1;
    }
    assert(ws@.subrange(0, ws@.len() as int) =~= ws@);
    best
}

/// The answer whose weight is highest, the first of a tie.
pub fn top_of<T>(found: Vec<T>, weights: &[u64]) -> (r: Option<T>)
    requires
        weights@.len() == found@.len(),
    ensures
        r is None <==> found@.len() == 0,
        r matches Some(t) ==> t == found@[top_index(weights@)],
{
    if found.len() == 0 {
        return None;
    }
    let at = top_at(weights);
    let mut found = found;
    Some(found.remove(at))
}

/// What a search for a release landed on.
#[derive(Clone, Debug, PartialEq, Eq)]
pub enum Identified {
    Found(Mbid),
    Group(Mbid),
    Nothing,
}

/// A release's weight: how its credit agrees with the owner, then whether
/// its count fits, then whether its year agrees, then its score, in that
/// order of precedence.
pub open spec fn release_weight(found: ReleaseMatch, album: AlbumToAsk) -> u64 {
    (opt_rank(agreed_owner_spec(found, album)) * 1024 + (if count_fits_spec(found, album) {
        512int
    } else {
        0int
    }) + (if year_agrees_spec(found, album) {
        256int
    } else {
        0int
    }) + found.score) as u64
}

pub open spec fn release_weights(found: Seq<ReleaseMatch>, album: AlbumToAsk) -> Seq<u64> {
    Seq::new(found.len(), |i: int| release_weight(found[i], album))
}

/// What a release is weighed on: how its credit agrees with the owner,
/// whether its count fits, whether its year agrees, and its score.
pub fn weighed_release(found: &ReleaseMatch, album: &AlbumToAsk) -> (r: (
    Option<Spelling>,
    bool,
    bool,
    u8,
))
    ensures
        r == (
            agreed_owner_spec(*found, *album),
            count_fits_spec(*found, *album),
            year_agrees_spec(*found, *album),
            found.score,
        ),
{
    (agreed_owner(found, album), count_fits(found, album), year_agrees(found, album), found.score)
}

fn release_weight_of(found: &ReleaseMatch, album: &AlbumToAsk) -> (r: u64)
    ensures
        r == release_weight(*found, *album),
{
    let (owner, fits, dated, score) = weighed_release(found, album);
    let owner = opt_rank_of(owner) as u64;
    let fits: u64 = if fits {
        512
    } else {
        0
    };
    let dated: u64 = if dated {
        256
    } else {
        0
    };
    owner * 1024 + fits + dated + score as u64
}

/// The release a search landed on: the heaviest answer, taken where it
/// matches strictly; else its group, where only its count keeps it from
/// matching; else nothing.
pub fn top_release(found: Vec<ReleaseMatch>, album: &AlbumToAsk) -> (r: Identified)
    ensures
        found@.len() == 0 ==> r is Nothing,
        found@.len() > 0 ==> ({
            let top = found@[top_index(release_weights(found@, *album))];
            if matches_strictly_spec(top, *album) is Some {
                r == Identified::Found(top.release)
            } else if agreed_owner_spec(top, *album) is Some && top.group is Some {
                r == Identified::Group(top.group->0)
            } else {
                r is Nothing
            }
        }),
{
    let mut weights: Vec<u64> = Vec::new();
    let mut i: usize = 0;
    while i < found.len()
        invariant
            i <= found@.len(),
            weights@.len() == i,
            forall|k: int| 0 <= k < i ==> weights@[k] == release_weight(found@[k], *album),
        decreases found@.len() - i,
    {
        weights.push(release_weight_of(&found[i], album));
        i = i + 1;
    }
    assert(weights@ =~= release_weights(found@, *album));
    let top = match top_of(found, &weights) {
        Some(top) => top,
        None => return Identified::Nothing,
    };
    if matches_strictly(&top, album).is_some() {
        return Identified::Found(top.release);
    }
    if agreed_owner(&top, album).is_some() {
        if let Some(group) = top.group {
            return Identified::Group(group);
        }
    }
    Identified::Nothing
}

/// A group's weight: how its credit agrees with the owner under the strict
/// rule, then its score.
pub open spec fn group_weight(found: GroupMatch, album: AlbumToAsk) -> u64 {
    (opt_rank(matches_as_a_group_spec(found, album)) * 256 + found.score) as u64
}

pub open spec fn group_weights(found: Seq<GroupMatch>, album: AlbumToAsk) -> Seq<u64> {
    Seq::new(found.len(), |i: int| group_weight(found[i], album))
}

/// The group a search landed on: the heaviest answer, where it matches
/// under the strict rule.
pub fn top_group(found: Vec<GroupMatch>, album: &AlbumToAsk) -> (r: Option<Mbid>)
    ensures
        found@.len() == 0 ==> r is None,
        found@.len() > 0 ==> ({
            let top = found@[top_index(group_weights(found@, *album))];
            if matches_as_a_group_spec(top, *album) is Some {
                r == Some(top.group)
            } else {
                r is None
            }
        }),
{
    let mut weights: Vec<u64> = Vec::new();
    let mut i: usize = 0;
    while i < found.len()
        invariant
            i <= found@.len(),
            weights@.len() == i,
            forall|k: int| 0 <= k < i ==> weights@[k] == group_weight(found@[k], *album),
        decreases found@.len() - i,
    {
        let w = opt_rank_of(matches_as_a_group(&found[i], album)) as u64 * 256
            + found[i].score as u64;
        weights.push(w);
        i = i + 1;
    }
    assert(weights@ =~= group_weights(found@, *album));
    let top = top_of(found, &weights)?;
    if matches_as_a_group(&top, album).is_some() {
        Some(top.group)
    } else {
        None
    }
}

/// An artist's weight: how it agrees with the name under the exact rule,
/// then its score.
pub open spec fn artist_weight(found: ArtistMatch, name: Seq<char>) -> u64 {
    (opt_rank(matches_exactly_spec(found, name)) * 256 + found.score) as u64
}

pub open spec fn artist_weights(found: Seq<ArtistMatch>, name: Seq<char>) -> Seq<u64> {
    Seq::new(found.len(), |i: int| artist_weight(found[i], name))
}

/// The artist a search landed on: the heaviest answer, where it agrees with
/// the name at a perfect score.
pub fn top_artist(found: Vec<ArtistMatch>, name: &str) -> (r: Option<Mbid>)
    ensures
        found@.len() == 0 ==> r is None,
        found@.len() > 0 ==> ({
            let top = found@[top_index(artist_weights(found@, name@))];
            if matches_exactly_spec(top, name@) is Some {
                r == Some(top.mbid)
            } else {
                r is None
            }
        }),
{
    let mut weights: Vec<u64> = Vec::new();
    let mut i: usize = 0;
    while i < found.len()
        invariant
            i <= found@.len(),
            weights@.len() == i,
            forall|k: int| 0 <= k < i ==> weights@[k] == artist_weight(found@[k], name@),
        decreases found@.len() - i,
    {
        let w = opt_rank_of(matches_exactly(&found[i], name)) as u64 * 256 + found[i].score as u64;
        weights.push(w);
        i = i + 1;
    }
    assert(weights@ =~= artist_weights(found@, name@));
    let top = top_of(found, &weights)?;
    if matches_exactly(&top, name).is_some() {
        Some(top.mbid)
    } else {
        None
    }
}

/// The scores of the matches, in order.
pub open spec fn scores(found: Seq<RecordingMatch>) -> Seq<u64> {
    Seq::new(found.len(), |i: int| found[i].score as u64)
}

/// The recording a fingerprint named: the highest score, the first of a
/// tie, where it scores under the strict rule.
pub fn recognised(found: Vec<RecordingMatch>) -> (r: Option<RecordingMatch>)
    ensures
        found@.len() == 0 ==> r is None,
        found@.len() > 0 ==> ({
            let top = found@[top_index(scores(found@))];
            if Accepted::Strict.holds(top.score) {
                r == Some(top)
            } else {
                r is None
            }
        }),
{
    let mut weights: Vec<u64> = Vec::new();
    let mut i: usize = 0;
    while i < found.len()
        invariant
            i <= found@.len(),
            weights@.len() == i,
            forall|k: int| 0 <= k < i ==> weights@[k] == found@[k].score as u64,
        decreases found@.len() - i,
    {
        weights.push(found[i].score as u64);
        i = i + 1;
    }
    assert(weights@ =~= scores(found@));
    let top = top_of(found, &weights)?;
    if Accepted::Strict.scored(top.score) {
        Some(top)
    } else {
        None
    }
}

/// How far apart two lengths are.
pub open spec fn apart_spec(one: u64, other: u64) -> u64 {
    if one >= other {
        (one - other) as u64
    } else {
        (other - one) as u64
    }
}

pub fn apart(one: u64, other: u64) -> (r: u64)
    ensures
        r == apart_spec(one, other),
{
    if one >= other {
        one - other
    } else {
        other - one
    }
}

/// Whether two lengths, where both are known, are within a few seconds of
/// each other.
pub open spec fn lengths_agree_spec(found: Option<u64>, held: Option<u64>) -> bool {
    match (found, held) {
        (Some(f), Some(h)) => apart_spec(f, h) <= RECORDING_MAY_DIFFER_BY,
        _ => true,
    }
}

pub fn lengths_agree(found: Option<u64>, held: Option<u64>) -> (r: bool)
    ensures
        r == lengths_agree_spec(found, held),
{
    match (found, held) {
        (Some(f), Some(h)) => apart(f, h) <= RECORDING_MAY_DIFFER_BY,
        _ => true,
    }
}

/// The artist a track is asked with: its own, else its album's owner, each
/// with its identifier.
pub open spec fn asked_with_spec(track: TrackToAsk) -> Option<(Seq<char>, Option<Seq<char>>)> {
    match track.artist {
        Some(a) => Some((a@, mbid_opt(track.artist_mbid))),
        None => match track.owner {
            Some(o) => Some((o@, mbid_opt(track.owner_mbid))),
            None => None,
        },
    }
}

/// The artist a track is asked with: its own, else its album's owner.
pub fn asked_with(track: &TrackToAsk) -> (r: Option<(&str, Option<&Mbid>)>)
    ensures
        match r {
            Some((a, m)) => asked_with_spec(*track) == Some((a@, view_of(m))),
            None => asked_with_spec(*track) is None,
        },
{
    match &track.artist {
        Some(artist) => Some((artist.as_str(), track.artist_mbid.as_ref())),
        None => match &track.owner {
            Some(owner) => Some((owner.as_str(), track.owner_mbid.as_ref())),
            None => None,
        },
    }
}

/// How a recording the reference offered agrees with a track: it scores
/// under the strict rule, its length agrees, its title agrees, and its
/// credit agrees with the artist the track is asked with; the weaker of the
/// two agreements.
pub open spec fn recording_agreement(found: RecordingMatch, track: TrackToAsk) -> Option<
    Spelling,
> {
    if !Accepted::Strict.holds(found.score) || !lengths_agree_spec(found.length, track.length) {
        None
    } else {
        match name_agreement(found.title@, track.title@) {
            None => None,
            Some(titled) => match asked_with_spec(track) {
                None => Some(titled),
                Some((artist, artist_mbid)) => match credit_agreement(
                    found.credit@,
                    artist,
                    artist_mbid,
                ) {
                    None => None,
                    Some(credited) => Some(weaker(titled, credited)),
                },
            },
        }
    }
}

pub fn matches_a_recording(found: &RecordingMatch, track: &TrackToAsk) -> (r: Option<Spelling>)
    ensures
        r == recording_agreement(*found, *track),
{
    if !Accepted::Strict.scored(found.score) || !lengths_agree(found.length, track.length) {
        return None;
    }
    let titled = match name_agreement_exec(
        &chars_of(found.title.as_str()),
        &chars_of(track.title.as_str()),
    ) {
        Some(t) => t,
        None => return None,
    };
    match asked_with(track) {
        None => Some(titled),
        Some((artist, artist_mbid)) => match same_credit(&found.credit, artist, artist_mbid) {
            None => None,
            Some(credited) => {
                if rank_of(titled) <= rank_of(credited) {
                    Some(titled)
                } else {
                    Some(credited)
                }
            },
        },
    }
}

/// How sure a recording that is an identifier's only take is the track:
/// exactly where the lengths agree, nearly where only the titles do.
pub open spec fn only_take_spec(only: Recording, track: TrackToAsk) -> Option<Certainty> {
    if lengths_agree_spec(only.length, track.length) {
        Some(Certainty::Exactly)
    } else if name_agreement(only.title@, track.title@) is Some {
        Some(Certainty::Nearly)
    } else {
        None
    }
}

pub fn the_only_take(only: &Recording, track: &TrackToAsk) -> (r: Option<Certainty>)
    ensures
        r == only_take_spec(*only, *track),
{
    if lengths_agree(only.length, track.length) {
        return Some(Certainty::Exactly);
    }
    match name_agreement_exec(&chars_of(only.title.as_str()), &chars_of(track.title.as_str())) {
        Some(_) => Some(Certainty::Nearly),
        None => None,
    }
}

/// How far a take's length is from the track's, where the take's length is
/// known and within a few seconds; past that, a weight no take reaches.
pub open spec fn take_distance(recording: Recording, length: u64) -> u64 {
    match recording.length {
        Some(l) => if apart_spec(l, length) <= RECORDING_MAY_DIFFER_BY {
            apart_spec(l, length)
        } else {
            u64::MAX
        },
        None => u64::MAX,
    }
}

/// Where the least distance first stands, among takes that are close
/// enough.
pub open spec fn closest_index(rs: Seq<Recording>, length: u64) -> int
    decreases rs.len(),
{
    if rs.len() <= 1 {
        0
    } else {
        let held = closest_index(rs.drop_last(), length);
        if take_distance(rs.last(), length) < take_distance(rs[held], length) {
            rs.len() - 1
        } else {
            held
        }
    }
}

proof fn lemma_closest_bounds(rs: Seq<Recording>, length: u64)
    requires
        rs.len() > 0,
    ensures
        0 <= closest_index(rs, length) < rs.len(),
    decreases rs.len(),
{
    if rs.len() > 1 {
        lemma_closest_bounds(rs.drop_last(), length);
    }
}

proof fn lemma_closest_is_closest(rs: Seq<Recording>, length: u64)
    requires
        rs.len() > 0,
    ensures
        forall|i: int|
            0 <= i < rs.len() ==> take_distance(rs[closest_index(rs, length)], length)
                <= take_distance(#[trigger] rs[i], length),
    decreases rs.len(),
{
    lemma_closest_bounds(rs, length);
    if rs.len() > 1 {
        let rest = rs.drop_last();
        lemma_closest_is_closest(rest, length);
        lemma_closest_bounds(rest, length);
        assert forall|i: int| 0 <= i < rs.len() - 1 implies rs[i] == rest[i] by {}
    }
}

/// The take an identifier names for a track: its only take where it has
/// one; else the first, where the track's length is unknown; else the one
/// closest in length, within a few seconds, the first of a tie.
pub open spec fn best_recording_spec(rs: Seq<Recording>, track: TrackToAsk) -> Option<
    (Recording, Certainty),
> {
    if rs.len() == 1 {
        match only_take_spec(rs[0], track) {
            Some(c) => Some((rs[0], c)),
            None => None,
        }
    } else if rs.len() == 0 {
        None
    } else {
        match track.length {
            None => Some((rs[0], Certainty::Exactly)),
            Some(length) => {
                let at = closest_index(rs, length);
                if take_distance(rs[at], length) < u64::MAX {
                    Some((rs[at], Certainty::Exactly))
                } else {
                    None
                }
            },
        }
    }
}

pub fn best_recording(recordings: Vec<Recording>, track: &TrackToAsk) -> (r: Option<
    (Recording, Certainty),
>)
    ensures
        r == best_recording_spec(recordings@, *track),
{
    let mut recordings = recordings;
    if recordings.len() == 0 {
        return None;
    }
    if recordings.len() == 1 {
        let certainty = the_only_take(&recordings[0], track);
        return match certainty {
            Some(c) => Some((recordings.remove(0), c)),
            None => None,
        };
    }
    let length = match track.length {
        None => return Some((recordings.remove(0), Certainty::Exactly)),
        Some(length) => length,
    };
    let ghost rs = recordings@;
    let mut distances: Vec<u64> = Vec::new();
    let mut i: usize = 0;
    while i < recordings.len()
        invariant
            i <= recordings@.len(),
            rs == recordings@,
            distances@.len() == i,
            forall|k: int| 0 <= k < i ==> distances@[k] == take_distance(rs[k], length),
        decreases recordings@.len() - i,
    {
        let d = match recordings[i].length {
            Some(l) => {
                let gap = apart(l, length);
                if gap <= RECORDING_MAY_DIFFER_BY {
                    gap
                } else {
                    u64::MAX
                }
            },
            None => u64::MAX,
        };
        distances.push(d);
        i = i + 1;
    }
    let mut best: usize = 0;
    let mut k: usize = 1;
    while k < distances.len()
        invariant
            1 <= k <= distances@.len(),
            distances@.len() == rs.len(),
            rs.len() > 1,
            forall|m: int| 0 <= m < rs.len() ==> distances@[m] == take_distance(rs[m], length),
            best == closest_index(rs.subrange(0, k as int), length),
            best < k,
        decreases distances@.len() - k,
    {
        assert(rs.subrange(0, k + 1).drop_last() =~= rs.subrange(0, k as int));
        assert(rs.subrange(0, k as int)[best as int] == rs[best as int]);
        if distances[k] < distances[best] {
            best = k;
        }
        k = k + 1;
    }
    assert(rs.subrange(0, rs.len() as int) =~= rs);
    if distances[best] < u64::MAX {
        Some((recordings.remove(best), Certainty::Exactly))
    } else {
        None
    }
}

/// Whether one text comes before another, character by character, a
/// shorter text before any it begins.
pub open spec fn text_before(a: Seq<char>, b: Seq<char>) -> bool
    decreases a.len(),
{
    if a.len() == 0 {
        b.len() > 0
    } else if b.len() == 0 {
        false
    } else if a[0] != b[0] {
        a[0] < b[0]
    } else {
        text_before(a.drop_first(), b.drop_first())
    }
}

pub fn text_before_exec(a: &[char], b: &[char]) -> (r: bool)
    ensures
        r == text_before(a@, b@),
{
    let mut i: usize = 0;
    assert(a@.subrange(0, a@.len() as int) =~= a@);
    assert(b@.subrange(0, b@.len() as int) =~= b@);
    while i < a.len() && i < b.len() && a[i] == b[i]
        invariant
            i <= a@.len(),
            i <= b@.len(),
            text_before(a@, b@) == text_before(
                a@.subrange(i as int, a@.len() as int),
                b@.subrange(i as int, b@.len() as int),
            ),
        decreases a@.len() - i,
    {
        assert(a@.subrange(i as int, a@.len() as int).drop_first() =~= a@.subrange(
            i + 1,
            a@.len() as int,
        ));
        assert(b@.subrange(i as int, b@.len() as int).drop_first() =~= b@.subrange(
            i + 1,
            b@.len() as int,
        ));
        i = i + 1;
    }
    proof {
        assert(a@.subrange(0, a@.len() as int) =~= a@);
        assert(b@.subrange(0, b@.len() as int) =~= b@);
    }
    if i == a.len() {
        i < b.len()
    } else if i == b.len() {
        false
    } else {
        a[i] < b[i]
    }
}

/// Whether one release date comes before another: a dated release before
/// an undated one, dates in their written order.
pub open spec fn earlier(one: Option<Seq<char>>, other: Option<Seq<char>>) -> bool {
    match (one, other) {
        (Some(a), Some(b)) => text_before(a, b),
        (Some(_), None) => true,
        (None, _) => false,
    }
}

pub fn earlier_exec(one: Option<&str>, other: Option<&str>) -> (r: bool)
    ensures
        r == earlier(
            match one {
                Some(a) => Some(a@),
                None => None,
            },
            match other {
                Some(b) => Some(b@),
                None => None,
            },
        ),
{
    match (one, other) {
        (Some(a), Some(b)) => text_before_exec(&chars_of(a), &chars_of(b)),
        (Some(_), None) => true,
        (None, _) => false,
    }
}

/// A date that may be missing, by its view.
pub open spec fn date_view(d: Option<String>) -> Option<Seq<char>> {
    match d {
        Some(s) => Some(s@),
        None => None,
    }
}

fn date_of(d: &Option<String>) -> (r: Option<&str>)
    ensures
        match r {
            Some(s) => date_view(*d) == Some(s@),
            None => date_view(*d) is None,
        },
{
    match d {
        Some(s) => Some(s.as_str()),
        None => None,
    }
}


/// How a release taken out of a group fits the album it stands for.
#[derive(Clone, Copy, Debug, PartialEq, Eq, Structural)]
pub enum Fit {
    Exact,
    Wider,
    Narrower,
}

/// Among the releases of a group that hold `count` tracks, where the
/// earliest first stands.
pub open spec fn earliest_counted(rs: Seq<GroupRelease>, count: u32) -> Option<int>
    decreases rs.len(),
{
    if rs.len() == 0 {
        None
    } else {
        let held = earliest_counted(rs.drop_last(), count);
        if rs.last().track_count == Some(count) {
            match held {
                None => Some(rs.len() - 1),
                Some(h) => if earlier(date_view(rs.last().date), date_view(rs[h].date)) {
                    Some(rs.len() - 1)
                } else {
                    held
                },
            }
        } else {
            held
        }
    }
}

proof fn lemma_earliest_counted_bounds(rs: Seq<GroupRelease>, count: u32)
    ensures
        earliest_counted(rs, count) matches Some(i) ==> 0 <= i < rs.len() && rs[i].track_count
            == Some(count),
    decreases rs.len(),
{
    if rs.len() > 0 {
        lemma_earliest_counted_bounds(rs.drop_last(), count);
    }
}

fn earliest_counted_exec(rs: &[GroupRelease], count: u32) -> (r: Option<usize>)
    ensures
        match r {
            Some(i) => earliest_counted(rs@, count) == Some(i as int),
            None => earliest_counted(rs@, count) is None,
        },
{
    let mut held: Option<usize> = None;
    let mut i: usize = 0;
    while i < rs.len()
        invariant
            i <= rs@.len(),
            match held {
                Some(h) => earliest_counted(rs@.subrange(0, i as int), count) == Some(h as int)
                    && h < i,
                None => earliest_counted(rs@.subrange(0, i as int), count) is None,
            },
        decreases rs@.len() - i,
    {
        assert(rs@.subrange(0, i + 1).drop_last() =~= rs@.subrange(0, i as int));
        if rs[i].track_count == Some(count) {
            match held {
                None => {
                    held = Some(i);
                },
                Some(h) => {
                    assert(rs@.subrange(0, i + 1)[h as int] == rs@[h as int]);
                    if earlier_exec(date_of(&rs[i].date), date_of(&rs[h].date)) {
                        held = Some(i);
                    }
                },
            }
        }
        i = i + 1;
    }
    assert(rs@.subrange(0, rs@.len() as int) =~= rs@);
    held
}

/// The least track count above `held` any release of the group declares.
pub open spec fn smallest_wider(rs: Seq<GroupRelease>, held: u32) -> Option<u32>
    decreases rs.len(),
{
    if rs.len() == 0 {
        None
    } else {
        let before = smallest_wider(rs.drop_last(), held);
        match rs.last().track_count {
            Some(n) => if n > held {
                match before {
                    Some(b) => if n < b {
                        Some(n)
                    } else {
                        before
                    },
                    None => Some(n),
                }
            } else {
                before
            },
            None => before,
        }
    }
}

/// The greatest track count at most `held` any release of the group
/// declares.
pub open spec fn widest_narrower(rs: Seq<GroupRelease>, held: u32) -> Option<u32>
    decreases rs.len(),
{
    if rs.len() == 0 {
        None
    } else {
        let before = widest_narrower(rs.drop_last(), held);
        match rs.last().track_count {
            Some(n) => if n <= held {
                match before {
                    Some(b) => if n > b {
                        Some(n)
                    } else {
                        before
                    },
                    None => Some(n),
                }
            } else {
                before
            },
            None => before,
        }
    }
}

fn widths_exec(rs: &[GroupRelease], held: u32) -> (r: (Option<u32>, Option<u32>))
    ensures
        r.0 == smallest_wider(rs@, held),
        r.1 == widest_narrower(rs@, held),
{
    let mut wider: Option<u32> = None;
    let mut narrower: Option<u32> = None;
    let mut i: usize = 0;
    while i < rs.len()
        invariant
            i <= rs@.len(),
            wider == smallest_wider(rs@.subrange(0, i as int), held),
            narrower == widest_narrower(rs@.subrange(0, i as int), held),
        decreases rs@.len() - i,
    {
        assert(rs@.subrange(0, i + 1).drop_last() =~= rs@.subrange(0, i as int));
        match rs[i].track_count {
            Some(n) => {
                if n > held {
                    wider = match wider {
                        Some(b) => if n < b {
                            Some(n)
                        } else {
                            Some(b)
                        },
                        None => Some(n),
                    };
                } else {
                    narrower = match narrower {
                        Some(b) => if n > b {
                            Some(n)
                        } else {
                            Some(b)
                        },
                        None => Some(n),
                    };
                }
            },
            None => {},
        }
        i = i + 1;
    }
    assert(rs@.subrange(0, rs@.len() as int) =~= rs@);
    (wider, narrower)
}

/// The release of a group an album stands for: the earliest of those that
/// hold as many tracks as the album says; else the earliest of the smallest
/// count above what the catalog holds; else the earliest of the greatest
/// count at most what it holds.
pub open spec fn closest_spec(rs: Seq<GroupRelease>, album: AlbumToAsk) -> Option<(int, Fit)> {
    match earliest_counted(rs, declared_count_spec(album)) {
        Some(i) => Some((i, Fit::Exact)),
        None => match smallest_wider(rs, album.track_count) {
            Some(w) => match earliest_counted(rs, w) {
                Some(i) => Some((i, Fit::Wider)),
                None => None,
            },
            None => match widest_narrower(rs, album.track_count) {
                Some(w) => match earliest_counted(rs, w) {
                    Some(i) => Some((i, Fit::Narrower)),
                    None => None,
                },
                None => None,
            },
        },
    }
}

pub fn closest_release<'a>(group: &'a ReleaseGroup, album: &AlbumToAsk) -> (r: Option<
    (&'a GroupRelease, Fit),
>)
    ensures
        match closest_spec(group.releases@, *album) {
            Some((i, fit)) => r matches Some((g, f)) && 0 <= i < group.releases@.len() && *g
                == group.releases@[i] && f == fit,
            None => r is None,
        },
{
    let rs = group.releases.as_slice();
    proof {
        lemma_earliest_counted_bounds(rs@, declared_count_spec(*album));
    }
    if let Some(i) = earliest_counted_exec(rs, declared_count(album)) {
        return Some((&rs[i], Fit::Exact));
    }
    let (wider, narrower) = widths_exec(rs, album.track_count);
    match wider {
        Some(w) => {
            proof {
                lemma_earliest_counted_bounds(rs@, w);
            }
            match earliest_counted_exec(rs, w) {
                Some(i) => Some((&rs[i], Fit::Wider)),
                None => None,
            }
        },
        None => match narrower {
            Some(w) => {
                proof {
                    lemma_earliest_counted_bounds(rs@, w);
                }
                match earliest_counted_exec(rs, w) {
                    Some(i) => Some((&rs[i], Fit::Narrower)),
                    None => None,
                }
            },
            None => None,
        },
    }
}

/// Among a recording's releases, where the earliest first stands.
pub open spec fn earliest_release(rs: Seq<RecordingRelease>) -> int
    decreases rs.len(),
{
    if rs.len() <= 1 {
        0
    } else {
        let held = earliest_release(rs.drop_last());
        if earlier(date_view(rs.last().date), date_view(rs[held].date)) {
            rs.len() - 1
        } else {
            held
        }
    }
}

proof fn lemma_earliest_release_bounds(rs: Seq<RecordingRelease>)
    requires
        rs.len() > 0,
    ensures
        0 <= earliest_release(rs) < rs.len(),
    decreases rs.len(),
{
    if rs.len() > 1 {
        lemma_earliest_release_bounds(rs.drop_last());
    }
}

/// Where the earliest of a recording's releases stands, the first of a tie.
pub fn earliest_release_exec(rs: &[RecordingRelease]) -> (r: usize)
    requires
        rs@.len() > 0,
    ensures
        r == earliest_release(rs@),
        r < rs@.len(),
{
    let mut best: usize = 0;
    let mut i: usize = 1;
    while i < rs.len()
        invariant
            1 <= i <= rs@.len(),
            best == earliest_release(rs@.subrange(0, i as int)),
            best < i,
        decreases rs@.len() - i,
    {
        assert(rs@.subrange(0, i + 1).drop_last() =~= rs@.subrange(0, i as int));
        assert(rs@.subrange(0, i + 1)[best as int] == rs@[best as int]);
        if earlier_exec(date_of(&rs[i].date), date_of(&rs[best].date)) {
            best = i;
        }
        i = i + 1;
    }
    assert(rs@.subrange(0, rs@.len() as int) =~= rs@);
    best
}

/// Where the first release carrying the identifier stands.
pub open spec fn first_with_id(rs: Seq<RecordingRelease>, id: Seq<char>) -> Option<int>
    decreases rs.len(),
{
    if rs.len() == 0 {
        None
    } else {
        match first_with_id(rs.drop_last(), id) {
            Some(i) => Some(i),
            None => if rs.last().id@ == id {
                Some(rs.len() - 1)
            } else {
                None
            },
        }
    }
}

/// Where the first release whose folded title is the given one stands.
pub open spec fn first_titled(rs: Seq<RecordingRelease>, title: Seq<char>) -> Option<int>
    decreases rs.len(),
{
    if rs.len() == 0 {
        None
    } else {
        match first_titled(rs.drop_last(), title) {
            Some(i) => Some(i),
            None => if folded(rs.last().title@) == folded(title) {
                Some(rs.len() - 1)
            } else {
                None
            },
        }
    }
}

proof fn lemma_first_bounds(rs: Seq<RecordingRelease>, id: Seq<char>, title: Seq<char>)
    ensures
        first_with_id(rs, id) matches Some(i) ==> 0 <= i < rs.len(),
        first_titled(rs, title) matches Some(i) ==> 0 <= i < rs.len(),
    decreases rs.len(),
{
    if rs.len() > 0 {
        lemma_first_bounds(rs.drop_last(), id, title);
    }
}

/// The release a recording is filed under: the album's own, found by its
/// identifier, else by its folded title; else the earliest release.
pub open spec fn best_release_spec(rs: Seq<RecordingRelease>, album: Option<AlbumToAsk>) -> Option<
    int,
> {
    let own = match album {
        Some(a) => match a.mbid {
            Some(m) => match first_with_id(rs, m@) {
                Some(i) => Some(i),
                None => first_titled(rs, a.title@),
            },
            None => first_titled(rs, a.title@),
        },
        None => None,
    };
    match own {
        Some(i) => Some(i),
        None => if rs.len() > 0 {
            Some(earliest_release(rs))
        } else {
            None
        },
    }
}

proof fn lemma_first_kept(rs: Seq<RecordingRelease>, id: Seq<char>, title: Seq<char>, k: int, j: int)
    requires
        0 <= k <= j <= rs.len(),
    ensures
        first_with_id(rs.subrange(0, k), id) is Some ==> first_with_id(rs.subrange(0, j), id)
            == first_with_id(rs.subrange(0, k), id),
        first_titled(rs.subrange(0, k), title) is Some ==> first_titled(rs.subrange(0, j), title)
            == first_titled(rs.subrange(0, k), title),
    decreases j - k,
{
    if j > k {
        lemma_first_kept(rs, id, title, k, j - 1);
        assert(rs.subrange(0, j).drop_last() =~= rs.subrange(0, j - 1));
    }
}

fn first_with_id_exec(rs: &[RecordingRelease], id: &Mbid) -> (r: Option<usize>)
    ensures
        match r {
            Some(i) => first_with_id(rs@, id@) == Some(i as int),
            None => first_with_id(rs@, id@) is None,
        },
{
    let mut i: usize = 0;
    while i < rs.len()
        invariant
            i <= rs@.len(),
            first_with_id(rs@.subrange(0, i as int), id@) is None,
        decreases rs@.len() - i,
    {
        assert(rs@.subrange(0, i + 1).drop_last() =~= rs@.subrange(0, i as int));
        if rs[i].id.same(id) {
            proof {
                lemma_first_kept(rs@, id@, seq![], i + 1, rs@.len() as int);
                assert(rs@.subrange(0, rs@.len() as int) =~= rs@);
            }
            return Some(i);
        }
        i = i + 1;
    }
    assert(rs@.subrange(0, rs@.len() as int) =~= rs@);
    None
}

fn first_titled_exec(rs: &[RecordingRelease], title: &str) -> (r: Option<usize>)
    ensures
        match r {
            Some(i) => first_titled(rs@, title@) == Some(i as int),
            None => first_titled(rs@, title@) is None,
        },
{
    let wanted = folded_chars(&chars_of(title));
    let mut i: usize = 0;
    while i < rs.len()
        invariant
            i <= rs@.len(),
            wanted@ == folded(title@),
            first_titled(rs@.subrange(0, i as int), title@) is None,
        decreases rs@.len() - i,
    {
        assert(rs@.subrange(0, i + 1).drop_last() =~= rs@.subrange(0, i as int));
        if same_chars(&folded_chars(&chars_of(rs[i].title.as_str())), &wanted) {
            proof {
                lemma_first_kept(rs@, seq![], title@, i + 1, rs@.len() as int);
                assert(rs@.subrange(0, rs@.len() as int) =~= rs@);
            }
            return Some(i);
        }
        i = i + 1;
    }
    assert(rs@.subrange(0, rs@.len() as int) =~= rs@);
    None
}

/// The identifier's text, or nothing where it is missing.
pub open spec fn mbid_text(m: Option<Mbid>) -> Seq<char> {
    match m {
        Some(id) => id@,
        None => seq![],
    }
}

/// The release a recording is filed under.
pub fn best_release<'a>(recording: &'a Recording, album: Option<&AlbumToAsk>) -> (r: Option<
    &'a RecordingRelease,
>)
    ensures
        match best_release_spec(
            recording.releases@,
            match album {
                Some(a) => Some(*a),
                None => None,
            },
        ) {
            Some(i) => r matches Some(g) && 0 <= i < recording.releases@.len() && *g
                == recording.releases@[i],
            None => r is None,
        },
{
    let rs = recording.releases.as_slice();
    proof {
        match album {
            Some(a) => {
                lemma_first_bounds(rs@, mbid_text(a.mbid), a.title@);
            },
            None => {},
        }
    }
    if let Some(a) = album {
        let by_id = match &a.mbid {
            Some(m) => first_with_id_exec(rs, m),
            None => None,
        };
        let own = match by_id {
            Some(i) => Some(i),
            None => first_titled_exec(rs, a.title.as_str()),
        };
        if let Some(i) = own {
            return Some(&rs[i]);
        }
    }
    if rs.len() == 0 {
        return None;
    }
    proof {
        lemma_earliest_release_bounds(rs@);
    }
    let at = earliest_release_exec(rs);
    Some(&rs[at])
}

/// Whether a release group is one the discography keeps: an album or an
/// EP, with no secondary kind but a soundtrack.
pub open spec fn worth_keeping_spec(release: ArtistRelease) -> bool {
    &&& release.kind is Some
    &&& (release.kind->0@ == "Album"@ || release.kind->0@ == "EP"@)
    &&& forall|i: int|
        0 <= i < release.secondary@.len() ==> (#[trigger] release.secondary@[i])@
            == "Soundtrack"@
}

fn is_text(s: &String, t: &str) -> (r: bool)
    ensures
        r == (s@ == t@),
{
    same_chars(&chars_of(s.as_str()), &chars_of(t))
}

/// Whether a release group is one the discography keeps.
pub fn worth_keeping(release: &ArtistRelease) -> (r: bool)
    ensures
        r == worth_keeping_spec(*release),
{
    let kept = match &release.kind {
        Some(kind) => is_text(kind, "Album") || is_text(kind, "EP"),
        None => false,
    };
    if !kept {
        return false;
    }
    let mut i: usize = 0;
    while i < release.secondary.len()
        invariant
            i <= release.secondary@.len(),
            forall|k: int| 0 <= k < i ==> (#[trigger] release.secondary@[k])@ == "Soundtrack"@,
        decreases release.secondary@.len() - i,
    {
        if !is_text(&release.secondary[i], "Soundtrack") {
            return false;
        }
        i = i + 1;
    }
    true
}

/// How an enrichment runs: whether what was asked lately is asked again,
/// how many of each kind are asked at most, what is to be asked first, and
/// whether tracks are studied to be recognised by ear.
#[derive(Debug)]
pub struct EnrichOptions {
    pub refresh: bool,
    pub at_most: Option<usize>,
    pub sought: Sought,
    pub studies: bool,
}

impl Default for EnrichOptions {
    fn default() -> (r: Self)
        ensures
            !r.refresh,
            r.at_most is None,
            r.sought.held() == Seq::<Seek>::empty(),
            r.studies,
    {
        EnrichOptions { refresh: false, at_most: None, sought: Sought::new(), studies: true }
    }
}


/// Every word of the list names a version: text inside a bracket that,
/// folded, is one of albumversion, singleversion, cleanversion,
/// explicitversion, explicit, clean, radioedit, remaster, remastered,
/// bonustrack, deluxeedition, monoversion, stereoversion or originalmix
/// is a version qualifier.
pub proof fn each_version_word_is_a_qualifier(inside: Seq<char>)
    requires
        folded(inside) == "albumversion"@
            || folded(inside) == "singleversion"@
            || folded(inside) == "cleanversion"@
            || folded(inside) == "explicitversion"@
            || folded(inside) == "explicit"@
            || folded(inside) == "clean"@
            || folded(inside) == "radioedit"@
            || folded(inside) == "remaster"@
            || folded(inside) == "remastered"@
            || folded(inside) == "bonustrack"@
            || folded(inside) == "deluxeedition"@
            || folded(inside) == "monoversion"@
            || folded(inside) == "stereoversion"@
            || folded(inside) == "originalmix"@,
    ensures
        is_version_qualifier(inside),
{
    if folded(inside) == "albumversion"@ {
        assert(version_words()[0] == folded(inside));
    }
    else if folded(inside) == "singleversion"@ {
        assert(version_words()[1] == folded(inside));
    }
    else if folded(inside) == "cleanversion"@ {
        assert(version_words()[2] == folded(inside));
    }
    else if folded(inside) == "explicitversion"@ {
        assert(version_words()[3] == folded(inside));
    }
    else if folded(inside) == "explicit"@ {
        assert(version_words()[4] == folded(inside));
    }
    else if folded(inside) == "clean"@ {
        assert(version_words()[5] == folded(inside));
    }
    else if folded(inside) == "radioedit"@ {
        assert(version_words()[6] == folded(inside));
    }
    else if folded(inside) == "remaster"@ {
        assert(version_words()[7] == folded(inside));
    }
    else if folded(inside) == "remastered"@ {
        assert(version_words()[8] == folded(inside));
    }
    else if folded(inside) == "bonustrack"@ {
        assert(version_words()[9] == folded(inside));
    }
    else if folded(inside) == "deluxeedition"@ {
        assert(version_words()[10] == folded(inside));
    }
    else if folded(inside) == "monoversion"@ {
        assert(version_words()[11] == folded(inside));
    }
    else if folded(inside) == "stereoversion"@ {
        assert(version_words()[12] == folded(inside));
    }
    else if folded(inside) == "originalmix"@ {
        assert(version_words()[13] == folded(inside));
    }
}

proof fn lemma_rfind_past(t: Seq<char>, q: Seq<char>, c: char)
    requires
        forall|i: int| 0 <= i < q.len() ==> q[i] != c,
    ensures
        rfind_char(t.push(c) + q, c) == Some(t.len() as int),
    decreases q.len(),
{
    if q.len() == 0 {
        assert(t.push(c) + q =~= t.push(c));
    } else {
        assert((t.push(c) + q).drop_last() =~= t.push(c) + q.drop_last());
        assert((t.push(c) + q).last() == q.last());
        lemma_rfind_past(t, q.drop_last(), c);
    }
}

/// A title and the same title followed by a version qualifier in round
/// brackets name one recording: for a title `t` that is something once
/// trimmed at its end, and text `q` with no opening bracket that, folded,
/// is one of the words that name a version, `t` agrees with
/// `t (q)`, and with any spelling that agrees with `t (q)` as it does.
pub proof fn a_title_agrees_with_itself_qualified(t: Seq<char>, q: Seq<char>)
    requires
        trim_end(t).len() > 0,
        forall|i: int| 0 <= i < q.len() ==> q[i] != '(',
        folded(q) == "albumversion"@
            || folded(q) == "singleversion"@
            || folded(q) == "cleanversion"@
            || folded(q) == "explicitversion"@
            || folded(q) == "explicit"@
            || folded(q) == "clean"@
            || folded(q) == "radioedit"@
            || folded(q) == "remaster"@
            || folded(q) == "remastered"@
            || folded(q) == "bonustrack"@
            || folded(q) == "deluxeedition"@
            || folded(q) == "monoversion"@
            || folded(q) == "stereoversion"@
            || folded(q) == "originalmix"@,
    ensures
        same_name_spec(Some(t), t + " ("@ + q + ")"@) is Some,
        dequalified_of(t + " ("@ + q + ")"@) == dequalified_of(t),
{
    reveal_strlit(" (");
    reveal_strlit(")");
    each_version_word_is_a_qualifier(q);
    let named = t + " ("@ + q + ")"@;
    let spaced = t.push(' ');
    assert(named =~= (spaced.push('(') + q).push(')'));
    assert(trim_end(named) == named);
    let inside = named.drop_last();
    assert(inside =~= spaced.push('(') + q);
    lemma_rfind_past(spaced, q, '(');
    assert(inside.subrange(spaced.len() as int + 1, inside.len() as int) =~= q);
    assert(inside.subrange(0, spaced.len() as int) =~= spaced);
    assert(spaced.drop_last() =~= t);
    assert(trim_end(spaced) == trim_end(t));
    assert(bracket_stripped(named, '(', ')') == Some(trim_end(t)));
    assert(without_qualifier(named) == Some(trim_end(t)));
    lemma_trim_end_shorter(t);
    assert(strip_qualifiers(named) == strip_qualifiers(trim_end(t)));
}

} // verus!
