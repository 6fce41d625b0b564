//! A playlist's rows and names: how a name is taken and folded, how a word
//! is looked for in names, how far two listings of the rows agree, and the
//! orders rows and playlists are read in.
use vstd::prelude::*;

use unicode_normalization::UnicodeNormalization;

use crate::error::{Error, PlaylistName};
use crate::hashed::{
    count_in, first_sight, no_playlist_rows, no_row_counts, playlist_rows_held, row_count_at,
    row_counts, set_row_count, RowCounts,
};
use crate::query::{Direction, PlaylistOrder, RowOrder};
use crate::text::{append_chars, chars_of, string_of, trim, trimmed};

verus! {

broadcast use vstd::string::group_string_axioms;

/// A row of a playlist: the file, and where in it the cut starts and how
/// long it runs, where it is not the whole file.
#[derive(Clone, Debug, PartialEq, Eq, Hash)]
pub struct Row {
    pub path: String,
    pub start: i64,
    pub frames: Option<i64>,
}

/// A row by what it holds.
pub open spec fn row_view(r: Row) -> (Seq<char>, i64, Option<i64>) {
    (r.path@, r.start, r.frames)
}

impl Row {
    /// The row of a whole file.
    pub fn whole(path: String) -> (r: Row)
        ensures
            r.path@ == path@,
            r.start == 0,
            r.frames is None,
    {
        Row { path, start: 0, frames: None }
    }

    /// Whether two rows hold the same.
    pub fn same(&self, other: &Row) -> (r: bool)
        ensures
            r == (row_view(*self) == row_view(*other)),
    {
        self.path == other.path && self.start == other.start && match (self.frames, other.frames) {
            (Some(a), Some(b)) => a == b,
            (None, None) => true,
            _ => false,
        }
    }
}

/// The first place where the rows held and the rows wanted differ, as far
/// as both run; none where they agree that far.
pub fn out_of_place(held: &[Row], wanted: &[Row]) -> (r: Option<usize>)
    ensures
        match r {
            Some(i) => i < held@.len() && i < wanted@.len() && row_view(held@[i as int])
                != row_view(wanted@[i as int]) && forall|j: int|
                0 <= j < i ==> row_view(held@[j]) == row_view(wanted@[j]),
            None => forall|j: int|
                0 <= j < held@.len() && j < wanted@.len() ==> row_view(held@[j]) == row_view(
                    wanted@[j],
                ),
        },
{
    let mut i: usize = 0;
    while i < held.len() && i < wanted.len()
        invariant
            i <= held@.len(),
            i <= wanted@.len(),
            forall|j: int| 0 <= j < i ==> row_view(held@[j]) == row_view(wanted@[j]),
        decreases held@.len() - i,
    {
        if !held[i].same(&wanted[i]) {
            return Some(i);
        }
        i = i + 1;
    }
    None
}

/// How many places differ between two listings of rows, as far as both
/// run.
pub open spec fn differing(held: Seq<Row>, wanted: Seq<Row>, upto: int) -> nat
    decreases upto,
{
    if upto <= 0 {
        0
    } else {
        differing(held, wanted, upto - 1) + if row_view(held[upto - 1]) != row_view(
            wanted[upto - 1],
        ) {
            1nat
        } else {
            0nat
        }
    }
}

/// How many rows a reordering moved: the places where the rows held and the
/// rows wanted differ, as far as both run.
pub fn moved_from(held: &[Row], wanted: &[Row]) -> (r: usize)
    ensures
        r == differing(
            held@,
            wanted@,
            if held@.len() < wanted@.len() {
                held@.len() as int
            } else {
                wanted@.len() as int
            },
        ),
{
    let mut i: usize = 0;
    let mut moved: usize = 0;
    while i < held.len() && i < wanted.len()
        invariant
            i <= held@.len(),
            i <= wanted@.len(),
            moved <= i,
            moved == differing(held@, wanted@, i as int),
        decreases held@.len() - i,
    {
        if !held[i].same(&wanted[i]) {
            moved = moved + 1;
        }
        i = i + 1;
    }
    moved
}

/// Whether the `i`th row repeats one before it.
pub open spec fn doubled_at(rows: Seq<Row>, i: int) -> bool {
    exists|j: int| 0 <= j < i && row_view(#[trigger] rows[j]) == row_view(rows[i])
}

/// Whether the `i`th row is unwanted: its file is gone, or it repeats a row
/// before it whose file is not.
pub open spec fn unwanted_at(rows: Seq<Row>, gone: Seq<bool>, i: int) -> bool {
    gone[i] || exists|j: int|
        0 <= j < i && !gone[j] && row_view(#[trigger] rows[j]) == row_view(rows[i])
}

/// The rows that repeat one before them, as [`doubled_at`] reads.
pub fn doubled(rows: &[Row]) -> (r: Vec<bool>)
    ensures
        r@.len() == rows@.len(),
        forall|i: int| 0 <= i < rows@.len() ==> r@[i] == doubled_at(rows@, i),
{
    let mut seen = no_playlist_rows();
    let mut going: Vec<bool> = Vec::new();
    let mut i: usize = 0;
    while i < rows.len()
        invariant
            i <= rows@.len(),
            going@.len() == i,
            forall|k: int| 0 <= k < i ==> going@[k] == doubled_at(rows@, k),
            forall|v: (Seq<char>, i64, Option<i64>)|
                playlist_rows_held(seen).contains(v) <==> exists|j: int|
                    0 <= j < i && row_view(#[trigger] rows@[j]) == v,
        decreases rows@.len() - i,
    {
        let fresh = first_sight(&mut seen, &rows[i]);
        proof {
            if !fresh {
                let j = choose|j: int| 0 <= j < i && row_view(#[trigger] rows@[j]) == row_view(
                    rows@[i as int],
                );
                assert(doubled_at(rows@, i as int));
            }
        }
        going.push(!fresh);
        i = i + 1;
        proof {
            assert forall|v: (Seq<char>, i64, Option<i64>)|
                playlist_rows_held(seen).contains(v) implies exists|j: int|
                    0 <= j < i && row_view(#[trigger] rows@[j]) == v by {
                if v == row_view(rows@[i - 1]) {
                    assert(row_view(rows@[i - 1]) == v);
                }
            }
        }
    }
    going
}

/// The rows unwanted, as [`unwanted_at`] reads, where `gone` says whose
/// files are gone.
pub fn unwanted(rows: &[Row], gone: &[bool]) -> (r: Vec<bool>)
    requires
        gone@.len() == rows@.len(),
    ensures
        r@.len() == rows@.len(),
        forall|i: int| 0 <= i < rows@.len() ==> r@[i] == unwanted_at(rows@, gone@, i),
{
    let mut seen = no_playlist_rows();
    let mut going: Vec<bool> = Vec::new();
    let mut i: usize = 0;
    while i < rows.len()
        invariant
            i <= rows@.len(),
            gone@.len() == rows@.len(),
            going@.len() == i,
            forall|k: int| 0 <= k < i ==> going@[k] == unwanted_at(rows@, gone@, k),
            forall|v: (Seq<char>, i64, Option<i64>)|
                playlist_rows_held(seen).contains(v) <==> exists|j: int|
                    0 <= j < i && !gone@[j] && row_view(#[trigger] rows@[j]) == v,
        decreases rows@.len() - i,
    {
        if gone[i] {
            going.push(true);
        } else {
            let fresh = first_sight(&mut seen, &rows[i]);
            proof {
                if !fresh {
                    let j = choose|j: int|
                        0 <= j < i && !gone@[j] && row_view(#[trigger] rows@[j]) == row_view(
                            rows@[i as int],
                        );
                    assert(unwanted_at(rows@, gone@, i as int));
                }
            }
            going.push(!fresh);
        }
        i = i + 1;
        proof {
            assert forall|v: (Seq<char>, i64, Option<i64>)|
                playlist_rows_held(seen).contains(v) implies exists|j: int|
                    0 <= j < i && !gone@[j] && row_view(#[trigger] rows@[j]) == v by {
                if v == row_view(rows@[i - 1]) && !gone@[i - 1] {
                    assert(row_view(rows@[i - 1]) == v);
                }
            }
        }
    }
    going
}

/// The places from `from` up to `upto` whose rows stay, in order.
pub open spec fn staying(going: Seq<bool>, from: int, upto: int) -> Seq<usize>
    decreases upto - from,
{
    if upto <= from {
        seq![]
    } else {
        staying(going, from, upto - 1) + if going[upto - 1] {
            seq![]
        } else {
            seq![(upto - 1) as usize]
        }
    }
}

/// Where dropping the rows that go starts, and the places from there on
/// whose rows stay; none where no row goes. The rows before the first
/// that goes stand where they are.
pub fn dropping(going: &[bool]) -> (r: Option<(usize, Vec<usize>)>)
    ensures
        r is None <==> forall|i: int| 0 <= i < going@.len() ==> !going@[i],
        r matches Some((first, kept)) ==> {
            &&& first < going@.len()
            &&& going@[first as int]
            &&& forall|j: int| 0 <= j < first ==> !going@[j]
            &&& kept@ == staying(going@, first as int, going@.len() as int)
        },
{
    let mut first: usize = 0;
    while first < going.len() && !going[first]
        invariant
            first <= going@.len(),
            forall|j: int| 0 <= j < first ==> !going@[j],
        decreases going@.len() - first,
    {
        first = first + 1;
    }
    if first == going.len() {
        return None;
    }
    let mut kept: Vec<usize> = Vec::new();
    let mut i: usize = first;
    while i < going.len()
        invariant
            first <= i <= going@.len(),
            kept@ == staying(going@, first as int, i as int),
        decreases going@.len() - i,
    {
        if !going[i] {
            kept.push(i);
        }
        i = i + 1;
    }
    Some((first, kept))
}

/// The places whose rows stay are in order, each within the rows.
proof fn lemma_staying(going: Seq<bool>, from: int, upto: int)
    requires
        0 <= from,
        upto <= going.len(),
        upto <= usize::MAX + 1,
    ensures
        forall|a: int| 0 <= a < staying(going, from, upto).len() ==> {
            let p = #[trigger] staying(going, from, upto)[a];
            from <= p < upto && !going[p as int]
        },
        forall|a: int, b: int|
            0 <= a < b < staying(going, from, upto).len() ==> staying(going, from, upto)[a]
                < staying(going, from, upto)[b],
        forall|p: int|
            from <= p < upto && !going[p] ==> staying(going, from, upto).contains(p as usize),
    decreases upto - from,
{
    if upto > from {
        lemma_staying(going, from, upto - 1);
        let s = staying(going, from, upto);
        let t = staying(going, from, upto - 1);
        assert forall|p: int| from <= p < upto && !going[p] implies s.contains(p as usize) by {
            if p < upto - 1 {
                let a = choose|a: int| 0 <= a < t.len() && t[a] == p as usize;
                assert(s[a] == p as usize);
            } else {
                assert(s[s.len() - 1] == p as usize);
            }
        }
    }
}

/// Folding a playlist's doubles keeps each row once: of the rows that
/// stay, no two are equal, and every row dropped is equal to one that
/// stays; the rows that stay keep their order.
pub proof fn folding_keeps_each_row_once(rows: Seq<Row>, going: Seq<bool>)
    requires
        going.len() == rows.len(),
        rows.len() <= usize::MAX,
        forall|i: int| 0 <= i < rows.len() ==> going[i] == doubled_at(rows, i),
    ensures
        ({
            let kept = staying(going, 0, rows.len() as int);
            &&& forall|a: int, b: int|
                0 <= a < b < kept.len() ==> kept[a] < kept[b] && row_view(rows[kept[a] as int])
                    != row_view(rows[kept[b] as int])
            &&& forall|i: int|
                #![trigger rows[i]]
                0 <= i < rows.len() ==> exists|a: int|
                    0 <= a < kept.len() && row_view(rows[#[trigger] kept[a] as int]) == row_view(
                        rows[i],
                    )
        }),
{
    let n = rows.len() as int;
    lemma_staying(going, 0, n);
    let kept = staying(going, 0, n);
    assert forall|a: int, b: int| 0 <= a < b < kept.len() implies kept[a] < kept[b] && row_view(
        rows[kept[a] as int],
    ) != row_view(rows[kept[b] as int]) by {
        let pa = kept[a] as int;
        let pb = kept[b] as int;
        assert(!going[pb]);
        if row_view(rows[pa]) == row_view(rows[pb]) {
            assert(doubled_at(rows, pb));
        }
    }
    assert forall|i: int|
        #![trigger rows[i]]
        0 <= i < n implies exists|a: int|
            0 <= a < kept.len() && row_view(rows[#[trigger] kept[a] as int]) == row_view(
                rows[i],
            ) by {
        lemma_first_equal(rows, i);
        let f = choose|f: int| first_equal(rows, i, f);
        assert(!doubled_at(rows, f));
        assert(kept.contains(f as usize));
        let a = choose|a: int| 0 <= a < kept.len() && kept[a] == f as usize;
        assert(row_view(rows[kept[a] as int]) == row_view(rows[i]));
    }
}

/// Whether the `f`th row is the first equal to the `i`th.
spec fn first_equal(rows: Seq<Row>, i: int, f: int) -> bool {
    &&& 0 <= f <= i
    &&& row_view(rows[f]) == row_view(rows[i])
    &&& forall|j: int| 0 <= j < f ==> row_view(rows[j]) != row_view(rows[i])
}

/// Each row has a first row equal to it, at it or before it.
proof fn lemma_first_equal(rows: Seq<Row>, i: int)
    requires
        0 <= i < rows.len(),
    ensures
        exists|f: int| first_equal(rows, i, f),
    decreases i,
{
    if doubled_at(rows, i) {
        let j = choose|j: int| 0 <= j < i && row_view(#[trigger] rows[j]) == row_view(rows[i]);
        lemma_first_equal(rows, j);
        let f = choose|f: int| first_equal(rows, j, f);
        assert(first_equal(rows, i, f));
    } else {
        assert forall|j: int| 0 <= j < i implies row_view(rows[j]) != row_view(rows[i]) by {
            if row_view(rows[j]) == row_view(rows[i]) {
                assert(doubled_at(rows, i));
            }
        }
        assert(first_equal(rows, i, i));
    }
}

/// How many of the rows hold what `v` holds.
pub open spec fn count_of(rows: Seq<Row>, v: (Seq<char>, i64, Option<i64>)) -> nat
    decreases rows.len(),
{
    if rows.len() == 0 {
        0
    } else {
        count_of(rows.drop_last(), v) + if row_view(rows.last()) == v {
            1nat
        } else {
            0nat
        }
    }
}

/// Whether the `i`th row wanted is one the playlist holds already: each
/// row held answers one row wanted, the earliest first.
pub open spec fn held_already(held: Seq<Row>, wanted: Seq<Row>, i: int) -> bool {
    count_of(wanted.take(i), row_view(wanted[i])) < count_of(held, row_view(wanted[i]))
}

/// The places, below `upto`, of the rows wanted that the playlist does
/// not hold already, in order.
pub open spec fn fresh_in(held: Seq<Row>, wanted: Seq<Row>, upto: int) -> Seq<usize>
    decreases upto,
{
    if upto <= 0 {
        seq![]
    } else {
        fresh_in(held, wanted, upto - 1) + if held_already(held, wanted, upto - 1) {
            seq![]
        } else {
            seq![(upto - 1) as usize]
        }
    }
}

/// What importing rows into a playlist that holds rows comes to: the
/// places of the rows to add, in order, and how many it holds already.
pub open spec fn fresh_spec(held: Seq<Row>, wanted: Seq<Row>) -> (Seq<usize>, nat) {
    let fresh = fresh_in(held, wanted, wanted.len() as int);
    (fresh, (wanted.len() - fresh.len()) as nat)
}

proof fn lemma_count_step(rows: Seq<Row>, i: int, v: (Seq<char>, i64, Option<i64>))
    requires
        0 <= i < rows.len(),
    ensures
        count_of(rows.take(i + 1), v) == count_of(rows.take(i), v) + if row_view(rows[i]) == v {
            1nat
        } else {
            0nat
        },
{
    assert(rows.take(i + 1).drop_last() =~= rows.take(i));
}

proof fn lemma_count_bound(rows: Seq<Row>, v: (Seq<char>, i64, Option<i64>))
    ensures
        count_of(rows, v) <= rows.len(),
    decreases rows.len(),
{
    if rows.len() > 0 {
        lemma_count_bound(rows.drop_last(), v);
    }
}

proof fn lemma_fresh_len(held: Seq<Row>, wanted: Seq<Row>, upto: int)
    requires
        0 <= upto,
    ensures
        fresh_in(held, wanted, upto).len() <= upto,
    decreases upto,
{
    if upto > 0 {
        lemma_fresh_len(held, wanted, upto - 1);
    }
}

/// Counts one more of the row.
fn count_row(m: &mut RowCounts, row: &Row)
    requires
        count_in(row_counts(*old(m)), row_view(*row)) < usize::MAX,
    ensures
        row_counts(*final(m)) == row_counts(*old(m)).insert(
            row_view(*row),
            (count_in(row_counts(*old(m)), row_view(*row)) + 1) as usize,
        ),
{
    let now: usize = match row_count_at(&*m, row) {
        Some(n) => n,
        None => 0,
    };
    set_row_count(m, row, now + 1);
}

/// Where the count holds one or more of the row, takes one away and
/// answers true; else leaves it as it was and answers false.
fn use_row(m: &mut RowCounts, row: &Row) -> (r: bool)
    ensures
        r == (count_in(row_counts(*old(m)), row_view(*row)) > 0),
        r ==> row_counts(*final(m)) == row_counts(*old(m)).insert(
            row_view(*row),
            (count_in(row_counts(*old(m)), row_view(*row)) - 1) as usize,
        ),
        !r ==> row_counts(*final(m)) == row_counts(*old(m)),
{
    match row_count_at(&*m, row) {
        Some(n) => {
            if n > 0 {
                set_row_count(m, row, n - 1);
                true
            } else {
                false
            }
        },
        None => false,
    }
}

/// Which rows an import adds to a playlist that holds `held`, as
/// [`fresh_spec`] reads: each row held answers one row wanted that holds
/// the same, the earliest first; the rest are added.
pub fn fresh_of(held: &[Row], wanted: &[Row]) -> (r: (Vec<usize>, usize))
    ensures
        (r.0@, r.1 as nat) == fresh_spec(held@, wanted@),
{
    let mut counts = no_row_counts();
    let mut i: usize = 0;
    while i < held.len()
        invariant
            i <= held@.len(),
            forall|v: (Seq<char>, i64, Option<i64>)|
                #[trigger] count_in(row_counts(counts), v) == count_of(held@.take(i as int), v),
        decreases held@.len() - i,
    {
        proof {
            lemma_count_bound(held@.take(i as int), row_view(held@[i as int]));
        }
        let ghost before = row_counts(counts);
        count_row(&mut counts, &held[i]);
        proof {
            assert forall|v: (Seq<char>, i64, Option<i64>)|
                #[trigger] count_in(row_counts(counts), v) == count_of(held@.take(i + 1), v) by {
                lemma_count_step(held@, i as int, v);
                assert(count_in(before, v) == count_of(held@.take(i as int), v));
            }
        }
        i = i + 1;
    }
    assert(held@.take(i as int) =~= held@);
    let mut fresh: Vec<usize> = Vec::new();
    let mut already: usize = 0;
    let mut j: usize = 0;
    while j < wanted.len()
        invariant
            j <= wanted@.len(),
            forall|v: (Seq<char>, i64, Option<i64>)|
                #[trigger] count_in(row_counts(counts), v) == if count_of(
                    wanted@.take(j as int),
                    v,
                ) < count_of(held@, v) {
                    count_of(held@, v) - count_of(wanted@.take(j as int), v)
                } else {
                    0
                },
            fresh@ == fresh_in(held@, wanted@, j as int),
            already + fresh@.len() == j,
        decreases wanted@.len() - j,
    {
        let ghost before = row_counts(counts);
        let ghost w = row_view(wanted@[j as int]);
        let used = use_row(&mut counts, &wanted[j]);
        proof {
            assert(count_in(before, w) == if count_of(wanted@.take(j as int), w) < count_of(
                held@,
                w,
            ) {
                count_of(held@, w) - count_of(wanted@.take(j as int), w)
            } else {
                0
            });
            assert(used == held_already(held@, wanted@, j as int));
            assert forall|u: (Seq<char>, i64, Option<i64>)|
                #[trigger] count_in(row_counts(counts), u) == if count_of(
                    wanted@.take(j + 1),
                    u,
                ) < count_of(held@, u) {
                    count_of(held@, u) - count_of(wanted@.take(j + 1), u)
                } else {
                    0
                } by {
                lemma_count_step(wanted@, j as int, u);
                assert(count_in(before, u) == if count_of(wanted@.take(j as int), u) < count_of(
                    held@,
                    u,
                ) {
                    count_of(held@, u) - count_of(wanted@.take(j as int), u)
                } else {
                    0
                });
            }
        }
        if used {
            already = already + 1;
        } else {
            fresh.push(j);
        }
        j = j + 1;
    }
    (fresh, already)
}

/// A run of rows, from the first to the last, both held.
#[derive(Clone, Copy, Debug, PartialEq, Eq, Structural, Hash)]
pub struct Span {
    first: usize,
    last: usize,
}

impl Span {
    /// A run's first row comes no later than its last.
    #[verifier::type_invariant]
    spec fn ordered(self) -> bool {
        self.first <= self.last
    }

    /// The run's first row.
    pub closed spec fn spec_first(&self) -> usize {
        self.first
    }

    /// The run's last row.
    pub closed spec fn spec_last(&self) -> usize {
        self.last
    }

    /// The run's first row.
    #[verifier::when_used_as_spec(spec_first)]
    pub fn first(&self) -> (r: usize)
        ensures
            r == self.spec_first(),
            r <= self.spec_last(),
    {
        proof {
            use_type_invariant(self);
        }
        self.first
    }

    /// The run's last row.
    #[verifier::when_used_as_spec(spec_last)]
    pub fn last(&self) -> (r: usize)
        ensures
            r == self.spec_last(),
            self.spec_first() <= r,
    {
        proof {
            use_type_invariant(self);
        }
        self.last
    }

    /// The rows between two, whichever way round they are given.
    pub fn between(one: usize, other: usize) -> (r: Span)
        ensures
            r.first() == if one <= other {
                one
            } else {
                other
            },
            r.last() == if one <= other {
                other
            } else {
                one
            },
    {
        if one <= other {
            Span { first: one, last: other }
        } else {
            Span { first: other, last: one }
        }
    }

    /// Whether the run holds the row at `at`.
    pub fn holds(self, at: usize) -> (r: bool)
        ensures
            r == (self.first() <= at && at <= self.last()),
    {
        self.first() <= at && at <= self.last()
    }

    /// How many rows the run holds.
    pub fn rows(self) -> (r: usize)
        requires
            self.last() - self.first() < usize::MAX,
        ensures
            self.first() <= self.last(),
            r == self.last() - self.first() + 1,
    {
        self.last() - self.first() + 1
    }

    /// Where the run's first row lands when it is dropped on the row at
    /// `to`: after it where it lies beyond the run, before it otherwise.
    pub fn landing(self, to: usize) -> (r: usize)
        ensures
            r == landing_of(self.first() as int, self.last() as int, to as int),
    {
        if to > self.last() {
            to - (self.last() - self.first())
        } else {
            to
        }
    }
}

/// Where a run from `first` to `last` lands when it is dropped on `to`.
pub open spec fn landing_of(first: int, last: int, to: int) -> int {
    if to > last {
        to + 1 - (last - first + 1)
    } else {
        to
    }
}

/// Whether a run may be dropped on a row of a playlist of `held` rows:
/// both held, and the row not one of the run's own.
pub open spec fn may_move(first: int, last: int, to: int, held: int) -> bool {
    &&& 0 <= first <= last < held
    &&& 0 <= to < held
    &&& !(first <= to <= last)
}

/// Where the row at `p` stands once the run from `first` to `last` is
/// dropped on the row at `to`: the run moves by as far as it is carried,
/// the rows it passes over step one run's length the other way, and every
/// other row stays.
pub open spec fn reseat(p: int, first: int, last: int, to: int) -> int {
    let rows = last - first + 1;
    if to > last {
        if first <= p <= last {
            p + (to - last)
        } else if last < p <= to {
            p - rows
        } else {
            p
        }
    } else {
        if first <= p <= last {
            p + (to - first)
        } else if to <= p < first {
            p + rows
        } else {
            p
        }
    }
}

/// Whether a run may be dropped on the row at `to` of a playlist of `held`
/// rows.
pub fn moves(rows: Span, to: usize, held: usize) -> (r: bool)
    ensures
        r == may_move(rows.first() as int, rows.last() as int, to as int, held as int),
        r == (!(rows.first() <= to <= rows.last()) && rows.last() < held && to < held),
{
    proof {
        use_type_invariant(&rows);
    }
    !(rows.holds(to) || rows.last() >= held || to >= held) && rows.first() <= rows.last()
}

/// Where the row at `position` stands once the run is dropped on `to`.
pub fn reseated(position: usize, rows: Span, to: usize, held: usize) -> (r: usize)
    requires
        may_move(rows.first() as int, rows.last() as int, to as int, held as int),
        position < held,
    ensures
        r == reseat(position as int, rows.first() as int, rows.last() as int, to as int),
{
    let count = rows.last() - rows.first() + 1;
    if to > rows.last() {
        if rows.first() <= position && position <= rows.last() {
            position + (to - rows.last())
        } else if rows.last() < position && position <= to {
            position - count
        } else {
            position
        }
    } else {
        if rows.first() <= position && position <= rows.last() {
            position - (rows.first() - to)
        } else if to <= position && position < rows.first() {
            position + count
        } else {
            position
        }
    }
}

/// Where a row still held stands once `by` rows before it, from `from`
/// on, are taken out.
pub open spec fn close_up(p: int, from: int, by: int) -> int {
    if p >= from {
        p - by
    } else {
        p
    }
}

/// Where the row at `position` stands once the rows from `rows.first()` to
/// `rows.last()` are taken out.
pub fn closed_up(position: usize, rows: Span) -> (r: usize)
    requires
        !(rows.first() <= position <= rows.last()),
    ensures
        r == close_up(position as int, rows.last() + 1, rows.last() - rows.first() + 1),
{
    if position > rows.last() {
        position - (rows.last() - rows.first() + 1)
    } else {
        position
    }
}

/// A run dropped on a row leaves every row of the playlist held, each at
/// a place of its own from zero up: none is lost and no place is left
/// empty.
pub proof fn a_move_loses_no_row_and_leaves_no_gap(first: int, last: int, to: int, held: int)
    requires
        may_move(first, last, to, held),
    ensures
        forall|p: int| 0 <= p < held ==> 0 <= #[trigger] reseat(p, first, last, to) < held,
        forall|p: int, q: int|
            0 <= p < held && 0 <= q < held && p != q ==> #[trigger] reseat(p, first, last, to)
                != #[trigger] reseat(q, first, last, to),
{
}

/// A run dropped on a row and dropped back where it came from leaves every
/// row where it was.
pub proof fn a_move_and_the_move_back_leave_every_row_where_it_was(
    first: int,
    last: int,
    to: int,
    held: int,
)
    requires
        may_move(first, last, to, held),
    ensures
        ({
            let landing = landing_of(first, last, to);
            let back_last = landing + (last - first);
            let onto = if landing > first {
                first
            } else {
                last
            };
            &&& may_move(landing, back_last, onto, held)
            &&& forall|p: int|
                0 <= p < held ==> reseat(#[trigger] reseat(p, first, last, to), landing, back_last, onto)
                    == p
        }),
{
}

/// The row a place is filled from once a run is taken out: the place
/// itself before the run, one run's length on after it.
pub open spec fn taken_from(n: int, first: int, last: int) -> int {
    if n < first {
        n
    } else {
        n + (last - first + 1)
    }
}

/// Taking a run out leaves the other rows in order, at places of their
/// own from zero up, as many as there were less the run.
pub proof fn a_removal_leaves_no_gap(first: int, last: int, held: int)
    requires
        0 <= first <= last < held,
    ensures
        forall|p: int|
            0 <= p < held && !(first <= p <= last) ==> 0 <= #[trigger] close_up(
                p,
                last + 1,
                last - first + 1,
            ) < held - (last - first + 1),
        forall|p: int, q: int|
            0 <= p < q < held && !(first <= p <= last) && !(first <= q <= last) ==> #[trigger] close_up(
                p,
                last + 1,
                last - first + 1,
            ) < #[trigger] close_up(q, last + 1, last - first + 1),
        forall|n: int|
            0 <= n < held - (last - first + 1) ==> 0 <= #[trigger] taken_from(n, first, last) < held
                && !(first <= taken_from(n, first, last) <= last) && close_up(
                taken_from(n, first, last),
                last + 1,
                last - first + 1,
            ) == n,
{
}

/// The part of a run of rows that a playlist of `held` rows holds: none
/// where it holds none of it, the run cut at its last row otherwise.
pub fn up_to_the_end(rows: Span, held: usize) -> (r: Option<Span>)
    ensures
        held == 0 || rows.first() > held - 1 ==> r is None,
        held > 0 && rows.first() <= held - 1 ==> (r matches Some(cut) && cut.first() == rows.first()
            && cut.last() == if rows.last() < held - 1 {
            rows.last()
        } else {
            (held - 1) as usize
        }),
{
    proof {
        use_type_invariant(&rows);
    }
    if held == 0 {
        return None;
    }
    let last = held - 1;
    if rows.first > last {
        return None;
    }
    Some(Span { first: rows.first, last: if rows.last < last { rows.last } else { last } })
}

/// A word as a pattern that finds it anywhere in a name: the characters
/// the pattern language gives a meaning escaped, and a run of anything on
/// either side.
pub open spec fn like_escaped(s: Seq<char>) -> Seq<char>
    decreases s.len(),
{
    if s.len() == 0 {
        seq![]
    } else {
        like_escaped(s.drop_last()) + if s.last() == '%' || s.last() == '_' || s.last() == '\\' {
            seq!['\\', s.last()]
        } else {
            seq![s.last()]
        }
    }
}

/// A word as a pattern that finds it anywhere in a name.
pub fn anywhere(word: &str) -> (r: String)
    ensures
        r@ == seq!['%'] + like_escaped(word@) + seq!['%'],
{
    let v = chars_of(word);
    let mut held: Vec<char> = Vec::new();
    held.push('%');
    let mut i: usize = 0;
    while i < v.len()
        invariant
            i <= v@.len(),
            held@ == seq!['%'] + like_escaped(v@.subrange(0, i as int)),
        decreases v@.len() - i,
    {
        assert(v@.subrange(0, i + 1).drop_last() =~= v@.subrange(0, i as int));
        let c = v[i];
        if c == '%' || c == '_' || c == '\\' {
            held.push('\\');
        }
        held.push(c);
        i = i + 1;
        assert(held@ =~= seq!['%'] + like_escaped(v@.subrange(0, i as int)));
    }
    assert(v@.subrange(0, v@.len() as int) =~= v@);
    held.push('%');
    string_of(&held)
}

/// The name a playlist is given: the one asked, trimmed; none where that
/// leaves nothing.
pub fn wanted_name(name: &str) -> (r: Result<PlaylistName, Error>)
    ensures
        trim(name@).len() == 0 ==> r == Err::<PlaylistName, Error>(Error::UnnamedPlaylist),
        trim(name@).len() > 0 ==> (r matches Ok(n) && n@ == trim(name@)),
{
    let v = chars_of(name);
    let t = trimmed(&v);
    if t.len() == 0 {
        return Err(Error::UnnamedPlaylist);
    }
    let written = string_of(&t);
    Ok(PlaylistName::new(written.as_str()))
}

/// What `str::to_lowercase` makes of a text.
pub uninterp spec fn str_lowercase(s: Seq<char>) -> Seq<char>;

/// What the canonical composition (NFC) makes of a text.
pub uninterp spec fn nfc(s: Seq<char>) -> Seq<char>;

/// `str::to_lowercase`; the contract names the text Unicode's tables lower
/// it to and says no more of it.
#[verifier::external_body]
fn lowercased(s: &str) -> (r: String)
    ensures
        r@ == str_lowercase(s@),
{
    s.to_lowercase()
}

/// `UnicodeNormalization::nfc` of `unicode_normalization`, collected; the
/// contract names the composition Unicode's tables give and says no more
/// of it.
#[verifier::external_body]
fn composed(s: &str) -> (r: String)
    ensures
        r@ == nfc(s@),
{
    s.nfc().collect()
}

/// A playlist's name as names are compared: lowered, then composed.
pub fn folded(name: &str) -> (r: String)
    ensures
        r@ == nfc(str_lowercase(name@)),
{
    let low = lowercased(name);
    composed(low.as_str())
}

/// How a reading is written in a query.
pub fn sense(direction: Direction) -> (r: &'static str)
    ensures
        r == match direction {
            Direction::Ascending => "ASC",
            Direction::Descending => "DESC",
        },
{
    match direction {
        Direction::Ascending => "ASC",
        Direction::Descending => "DESC",
    }
}

/// The columns a playlist's rows are kept in order by.
pub open spec fn sorted_by_spec(order: RowOrder) -> Seq<&'static str> {
    match order {
        RowOrder::Album => seq![
            "tracks.album_id",
            "tracks.disc_number",
            "tracks.track_number",
            "tracks.title COLLATE NOCASE",
        ],
        RowOrder::Artist => seq![
            "tracks.artist COLLATE NOCASE",
            "tracks.album_id",
            "tracks.disc_number",
            "tracks.track_number",
        ],
        RowOrder::Title => seq!["tracks.title COLLATE NOCASE"],
        RowOrder::Length => seq!["tracks.duration * 1.0 / tracks.sample_rate"],
        RowOrder::File => seq!["e.path COLLATE NOCASE"],
    }
}

/// The columns a playlist's rows are kept in order by.
pub fn sorted_by(order: RowOrder) -> (r: Vec<&'static str>)
    ensures
        r@ == sorted_by_spec(order),
{
    let mut r: Vec<&'static str> = Vec::new();
    match order {
        RowOrder::Album => {
            r.push("tracks.album_id");
            r.push("tracks.disc_number");
            r.push("tracks.track_number");
            r.push("tracks.title COLLATE NOCASE");
        },
        RowOrder::Artist => {
            r.push("tracks.artist COLLATE NOCASE");
            r.push("tracks.album_id");
            r.push("tracks.disc_number");
            r.push("tracks.track_number");
        },
        RowOrder::Title => {
            r.push("tracks.title COLLATE NOCASE");
        },
        RowOrder::Length => {
            r.push("tracks.duration * 1.0 / tracks.sample_rate");
        },
        RowOrder::File => {
            r.push("e.path COLLATE NOCASE");
        },
    }
    assert(r@ =~= sorted_by_spec(order));
    r
}

/// Each column, the way round asked, and a comma after it.
pub open spec fn columns_read(cols: Seq<&'static str>, sense: Seq<char>) -> Seq<char>
    decreases cols.len(),
{
    if cols.len() == 0 {
        seq![]
    } else {
        columns_read(cols.drop_last(), sense) + cols.last()@ + seq![' '] + sense + seq![',', ' ']
    }
}

/// The order a playlist's rows are kept in, as a query reads it: rows no
/// scan has read last, where the order reads the catalog; then the order's
/// columns the way round asked; then the rows as they stand.
pub fn rows_in_order(order: RowOrder, direction: Direction) -> (r: String)
    ensures
        r@ == (if !(order is File) {
            "tracks.id IS NULL, "@
        } else {
            Seq::<char>::empty()
        }) + columns_read(sorted_by_spec(order), sense_of(direction)@) + "e.position"@,
{
    let s = chars_of(sense(direction));
    let mut v: Vec<char> = Vec::new();
    if order.reads_the_catalog() {
        append_chars(&mut v, &chars_of("tracks.id IS NULL, "));
    }
    let ghost head = v@;
    let columns = sorted_by(order);
    let mut k: usize = 0;
    while k < columns.len()
        invariant
            k <= columns@.len(),
            s@ == sense_of(direction)@,
            v@ == head + columns_read(columns@.subrange(0, k as int), s@),
        decreases columns@.len() - k,
    {
        assert(columns@.subrange(0, k + 1).drop_last() =~= columns@.subrange(0, k as int));
        append_chars(&mut v, &chars_of(columns[k]));
        v.push(' ');
        append_chars(&mut v, &s);
        v.push(',');
        v.push(' ');
        k = k + 1;
        assert(v@ =~= head + columns_read(columns@.subrange(0, k as int), s@));
    }
    assert(columns@.subrange(0, columns@.len() as int) =~= columns@);
    append_chars(&mut v, &chars_of("e.position"));
    string_of(&v)
}

/// How a reading is written in a query.
pub open spec fn sense_of(direction: Direction) -> &'static str {
    match direction {
        Direction::Ascending => "ASC",
        Direction::Descending => "DESC",
    }
}

/// The column the playlists pane is read by.
pub open spec fn playlist_column(order: PlaylistOrder) -> &'static str {
    match order {
        PlaylistOrder::Name => "p.folded",
        PlaylistOrder::Created => "p.created",
        PlaylistOrder::Modified => "p.modified",
        PlaylistOrder::Played => "p.played",
        PlaylistOrder::Plays => "p.plays",
    }
}

/// The order the playlists pane is read in: pinned playlists first, in the
/// order they were pinned; then by the column asked, the way round asked;
/// then by when each was made.
pub fn order_by(order: PlaylistOrder, direction: Direction) -> (r: String)
    ensures
        r@ == "CASE WHEN p.pinned IS NULL THEN 1 ELSE 0 END, p.pinned DESC"@ + ", "@
            + playlist_column(order)@ + " "@ + sense_of(direction)@ + ", p.id "@ + sense_of(
            direction,
        )@,
{
    let column = match order {
        PlaylistOrder::Name => "p.folded",
        PlaylistOrder::Created => "p.created",
        PlaylistOrder::Modified => "p.modified",
        PlaylistOrder::Played => "p.played",
        PlaylistOrder::Plays => "p.plays",
    };
    let s = sense(direction);
    let mut v = chars_of("CASE WHEN p.pinned IS NULL THEN 1 ELSE 0 END, p.pinned DESC");
    append_chars(&mut v, &chars_of(", "));
    append_chars(&mut v, &chars_of(column));
    append_chars(&mut v, &chars_of(" "));
    append_chars(&mut v, &chars_of(s));
    append_chars(&mut v, &chars_of(", p.id "));
    append_chars(&mut v, &chars_of(s));
    string_of(&v)
}

} // verus!
