//! What an enrichment keeps: when a row is due to be asked about again,
//! and how the answers' names are spelt out for the index.
use vstd::prelude::*;

use crate::fold::{folded_letters, folded_letters_of};
use crate::ids::{well_formed_mbid, Mbid};
use crate::reference::{credit_text, ArtistRelease, Release, ReleaseTrack};
use crate::text::{append_chars, chars_of, string_of};

verus! {

broadcast use vstd::string::group_string_axioms;

/// The most times a wait doubles.
pub const WAITS_DOUBLE_AT_MOST: u32 = 5;

/// A wait doubled once for each time beyond the first a row was asked
/// about, at most five times, as a query reckons it.
pub fn doubled(wait: &str, count: &str) -> (r: String)
    ensures
        r@ == wait@ + " * (1 << min(max("@ + count@ + " - 1, 0), 5))"@,
{
    let mut v = chars_of(wait);
    append_chars(&mut v, &chars_of(" * (1 << min(max("));
    append_chars(&mut v, &chars_of(count));
    append_chars(&mut v, &chars_of(" - 1, 0), 5))"));
    string_of(&v)
}

/// Whether a row has waited its turn, as a query reckons it: since it was
/// last asked, the wait its misses earned, or the wait its refusals earned
/// where the reference refused it.
pub fn waited_its_turn(row: &str) -> (r: String)
    ensures
        r@ == row@ + ".asked + (CASE WHEN "@ + row@ + ".refusals > 0 THEN "@ + ("?5"@
            + " * (1 << min(max("@ + row@ + ".refusals"@ + " - 1, 0), 5))"@) + " ELSE "@ + ("?2"@
            + " * (1 << min(max("@ + row@ + ".asks"@ + " - 1, 0), 5))"@) + " END) < ?3"@,
{
    let mut asks = chars_of(row);
    append_chars(&mut asks, &chars_of(".asks"));
    let asks = string_of(&asks);
    let earned = doubled("?2", asks.as_str());
    let mut refusals = chars_of(row);
    append_chars(&mut refusals, &chars_of(".refusals"));
    let refusals = string_of(&refusals);
    let bad_day = doubled("?5", refusals.as_str());
    let mut v = chars_of(row);
    append_chars(&mut v, &chars_of(".asked + (CASE WHEN "));
    append_chars(&mut v, &chars_of(row));
    append_chars(&mut v, &chars_of(".refusals > 0 THEN "));
    append_chars(&mut v, &chars_of(bad_day.as_str()));
    append_chars(&mut v, &chars_of(" ELSE "));
    append_chars(&mut v, &chars_of(earned.as_str()));
    append_chars(&mut v, &chars_of(" END) < ?3"));
    string_of(&v)
}

/// Whether a row is due to be asked about again, as a query reckons it:
/// everything is where a refresh is asked; a row never asked is; a row
/// never answered is once it has waited its turn; a row answered is once
/// its answer is older than the refresh age.
pub fn due_again(row: &str) -> (r: String)
    ensures
        r@ == "(?1 OR "@ + row@ + ".asked IS NULL\n                 OR ("@ + row@
            + ".answered IS NULL AND "@ + waited_text(row@) + ")\n                 OR ("@ + row@
            + ".answered IS NOT NULL AND "@ + row@ + ".answered < ?4))"@,
{
    let waited = waited_its_turn(row);
    let mut v = chars_of("(?1 OR ");
    append_chars(&mut v, &chars_of(row));
    append_chars(&mut v, &chars_of(".asked IS NULL\n                 OR ("));
    append_chars(&mut v, &chars_of(row));
    append_chars(&mut v, &chars_of(".answered IS NULL AND "));
    append_chars(&mut v, &chars_of(waited.as_str()));
    append_chars(&mut v, &chars_of(")\n                 OR ("));
    append_chars(&mut v, &chars_of(row));
    append_chars(&mut v, &chars_of(".answered IS NOT NULL AND "));
    append_chars(&mut v, &chars_of(row));
    append_chars(&mut v, &chars_of(".answered < ?4))"));
    string_of(&v)
}

/// What `waited_its_turn` writes for a row.
pub open spec fn waited_text(row: Seq<char>) -> Seq<char> {
    row + ".asked + (CASE WHEN "@ + row + ".refusals > 0 THEN "@ + ("?5"@ + " * (1 << min(max("@
        + row + ".refusals"@ + " - 1, 0), 5))"@) + " ELSE "@ + ("?2"@ + " * (1 << min(max("@ + row
        + ".asks"@ + " - 1, 0), 5))"@) + " END) < ?3"@
}

/// What `due_again` writes for a row.
pub open spec fn due_text(row: Seq<char>) -> Seq<char> {
    "(?1 OR "@ + row + ".asked IS NULL\n                 OR ("@ + row + ".answered IS NULL AND "@
        + waited_text(row) + ")\n                 OR ("@ + row + ".answered IS NOT NULL AND "@ + row
        + ".answered < ?4))"@
}

/// Whether an album is due to be asked about again, as a query reckons it:
/// as any row is, or, where only its group was landed, once it has waited
/// its turn, to be asked for a pressing.
pub fn album_due() -> (r: String)
    ensures
        r@ == "("@ + due_text("a"@) + " OR ("@ + "(a.release_group IS NOT NULL AND a.mbid IS NULL)"@
            + " AND "@ + waited_text("a"@) + "))"@,
{
    let due = due_again("a");
    let waited = waited_its_turn("a");
    let mut v = chars_of("(");
    append_chars(&mut v, &chars_of(due.as_str()));
    append_chars(&mut v, &chars_of(" OR ("));
    append_chars(&mut v, &chars_of("(a.release_group IS NOT NULL AND a.mbid IS NULL)"));
    append_chars(&mut v, &chars_of(" AND "));
    append_chars(&mut v, &chars_of(waited.as_str()));
    append_chars(&mut v, &chars_of("))"));
    string_of(&v)
}

/// The query that lists the albums to ask about, with whether each is due.
pub fn asking_albums(due: &str) -> (r: String)
    ensures
        r@ == "SELECT a.id, a.title, r.name,\n                (SELECT count(*) FROM tracks t WHERE t.album_id = a.id),\n                a.year, a.mbid, a.release_group, a.barcode, a.catalog_number,\n                a.tagged_tracks, r.mbid, (a.cover_art IS NOT NULL OR a.cover_path IS NOT NULL),\n                "@
            + "EXISTS (SELECT 1 FROM release_tracks rt WHERE rt.album_id = a.id)"@ + ", "@ + due@
            + "\n           FROM albums a LEFT JOIN artists r ON r.id = a.artist_id"@,
{
    let mut v = chars_of(
        "SELECT a.id, a.title, r.name,\n                (SELECT count(*) FROM tracks t WHERE t.album_id = a.id),\n                a.year, a.mbid, a.release_group, a.barcode, a.catalog_number,\n                a.tagged_tracks, r.mbid, (a.cover_art IS NOT NULL OR a.cover_path IS NOT NULL),\n                ",
    );
    append_chars(&mut v, &chars_of("EXISTS (SELECT 1 FROM release_tracks rt WHERE rt.album_id = a.id)"));
    append_chars(&mut v, &chars_of(", "));
    append_chars(&mut v, &chars_of(due));
    append_chars(&mut v, &chars_of("\n           FROM albums a LEFT JOIN artists r ON r.id = a.artist_id"));
    string_of(&v)
}

/// What a stored row of a release pairs with a track by, strongest first:
/// the release track's id, the recording's, the seat on the release.
#[derive(Clone, Copy, Debug, PartialEq, Eq, Structural, PartialOrd, Ord)]
pub enum Carried {
    Track,
    Recording,
    Seat,
}

impl Carried {
    /// What the rank names, strongest first: none past the last.
    pub fn of(rank: usize) -> (r: Option<Carried>)
        ensures
            r == if rank == 0 {
                Some(Carried::Track)
            } else if rank == 1 {
                Some(Carried::Recording)
            } else if rank == 2 {
                Some(Carried::Seat)
            } else {
                None::<Carried>
            },
    {
        if rank == 0 {
            Some(Carried::Track)
        } else if rank == 1 {
            Some(Carried::Recording)
        } else if rank == 2 {
            Some(Carried::Seat)
        } else {
            None
        }
    }
}

/// The text a release's track is found by: its title, its artist, or the
/// release's credit where it names none, and the release's title, folded
/// to their letters.
pub fn release_track_haystack(release: &Release, track: &ReleaseTrack) -> (r: String)
    ensures
        r@ == folded_letters_of(
            track.title@ + seq![' '] + match track.artist {
                Some(a) => a@,
                None => credit_text(release.credit@),
            } + seq![' '] + release.title@,
        ),
{
    let credited = release.credited_as();
    let mut v = chars_of(track.title.as_str());
    v.push(' ');
    match &track.artist {
        Some(a) => append_chars(&mut v, &chars_of(a.as_str())),
        None => append_chars(&mut v, &chars_of(credited.as_str())),
    }
    v.push(' ');
    append_chars(&mut v, &chars_of(release.title.as_str()));
    assert(v@ =~= track.title@ + seq![' '] + match track.artist {
        Some(a) => a@,
        None => credit_text(release.credit@),
    } + seq![' '] + release.title@);
    let said = string_of(&v);
    folded_letters(said.as_str())
}

/// The text a release group an artist put out is found by: its title, its
/// kind and when it first came out, where it names them, folded to their
/// letters.
pub fn spelt_out(release: &ArtistRelease) -> (r: String)
    ensures
        r@ == folded_letters_of(
            release.title@ + match release.kind {
                Some(k) => seq![' '] + k@,
                None => Seq::<char>::empty(),
            } + match release.first_released {
                Some(f) => seq![' '] + f@,
                None => Seq::<char>::empty(),
            },
        ),
{
    let mut v = chars_of(release.title.as_str());
    if let Some(k) = &release.kind {
        v.push(' ');
        append_chars(&mut v, &chars_of(k.as_str()));
    }
    let ghost head = v@;
    assert(head =~= release.title@ + match release.kind {
        Some(k) => seq![' '] + k@,
        None => Seq::<char>::empty(),
    });
    if let Some(f) = &release.first_released {
        v.push(' ');
        append_chars(&mut v, &chars_of(f.as_str()));
    }
    assert(v@ =~= head + match release.first_released {
        Some(f) => seq![' '] + f@,
        None => Seq::<char>::empty(),
    });
    let said = string_of(&v);
    folded_letters(said.as_str())
}

/// The identifier an artist's row holds, where it holds one; none where
/// what it holds is not one.
pub fn owner_mbid_held(stored: Option<&str>) -> (r: Option<Mbid>)
    ensures
        match stored {
            Some(t) => if well_formed_mbid(t@) {
                r matches Some(id) && id@ == t@
            } else {
                r is None
            },
            None => r is None,
        },
{
    match stored {
        Some(t) => Mbid::new(t),
        None => None,
    }
}


/// The disc a release counts as when it names one alone.
pub const ONE_DISC: u32 = 1;

/// A row of a release's track list as it is matched to the catalog: its
/// disc and position, the recording, release track and ISRC it names, its
/// title folded, and the catalog track it is paired with.
#[derive(Clone, Debug, PartialEq, Eq)]
pub struct ReleaseRow {
    pub id: i64,
    pub disc: u32,
    pub position: u32,
    pub recording: Option<String>,
    pub track: Option<String>,
    pub isrc: Option<String>,
    pub folded: String,
    pub paired: Option<i64>,
}

/// A catalog track of the album as it is matched to a release: the
/// recording and release track it names, its disc and number, and its
/// title folded.
#[derive(Clone, Debug, PartialEq, Eq)]
pub struct CatalogRow {
    pub id: i64,
    pub recording: Option<String>,
    pub release_track: Option<String>,
    pub disc: Option<u32>,
    pub number: Option<u32>,
    pub folded: String,
}

/// An optional text by what it holds.
pub open spec fn text_held(o: Option<String>) -> Option<Seq<char>> {
    match o {
        Some(t) => Some(t@),
        None => None,
    }
}

/// The most discs a release's rows name, one where there are none.
pub open spec fn discs_named(rows: Seq<ReleaseRow>) -> u32
    decreases rows.len(),
{
    if rows.len() == 0 {
        ONE_DISC
    } else {
        let rest = discs_named(rows.drop_last());
        if rows.len() == 1 || rows.last().disc > rest {
            rows.last().disc
        } else {
            rest
        }
    }
}

/// The disc a catalog track counts as on: its own, or the one disc where
/// the release has no other.
pub open spec fn disc_counted(track: CatalogRow, discs: u32) -> Option<u32> {
    match track.disc {
        Some(d) => Some(d),
        None => if discs == ONE_DISC {
            Some(ONE_DISC)
        } else {
            None
        },
    }
}

/// Whether a pass pairs a row with a track. The first pass goes by the
/// recording, the second by the release track, the third by disc and
/// position, the last by the folded title.
pub open spec fn pairs_in(pass: int, discs: u32, row: ReleaseRow, track: CatalogRow) -> bool {
    if pass == 0 {
        row.recording is Some && text_held(row.recording) == text_held(track.recording)
    } else if pass == 1 {
        row.track is Some && text_held(row.track) == text_held(track.release_track)
    } else if pass == 2 {
        track.number == Some(row.position) && disc_counted(track, discs) == Some(row.disc)
    } else {
        row.folded@ == track.folded@
    }
}

/// The first track, from `from` on, that no row has taken and the pass
/// pairs with the row.
pub open spec fn first_free(
    row: ReleaseRow,
    tracks: Seq<CatalogRow>,
    taken: Seq<bool>,
    pass: int,
    discs: u32,
    from: int,
) -> Option<int>
    decreases tracks.len() - from,
{
    if from < 0 || from >= tracks.len() {
        None
    } else if !taken[from] && pairs_in(pass, discs, row, tracks[from]) {
        Some(from)
    } else {
        first_free(row, tracks, taken, pass, discs, from + 1)
    }
}

/// One pass over the rows from `at` on: each row not yet paired takes the
/// first free track the pass pairs it with.
pub open spec fn pass_from(
    rows: Seq<ReleaseRow>,
    tracks: Seq<CatalogRow>,
    pass: int,
    discs: u32,
    matched: Seq<Option<i64>>,
    taken: Seq<bool>,
    at: int,
) -> (Seq<Option<i64>>, Seq<bool>)
    decreases rows.len() - at,
{
    if at < 0 || at >= rows.len() {
        (matched, taken)
    } else if matched[at] is Some {
        pass_from(rows, tracks, pass, discs, matched, taken, at + 1)
    } else {
        match first_free(rows[at], tracks, taken, pass, discs, 0) {
            Some(c) => pass_from(
                rows,
                tracks,
                pass,
                discs,
                matched.update(at, Some(tracks[c].id)),
                taken.update(c, true),
                at + 1,
            ),
            None => pass_from(rows, tracks, pass, discs, matched, taken, at + 1),
        }
    }
}

/// The passes from `pass` on, in order.
pub open spec fn passes_from(
    rows: Seq<ReleaseRow>,
    tracks: Seq<CatalogRow>,
    pass: int,
    discs: u32,
    matched: Seq<Option<i64>>,
    taken: Seq<bool>,
) -> Seq<Option<i64>>
    decreases 4 - pass,
{
    if pass < 0 || pass >= 4 {
        matched
    } else {
        let (m, t) = pass_from(rows, tracks, pass, discs, matched, taken, 0);
        passes_from(rows, tracks, pass + 1, discs, m, t)
    }
}

/// The catalog track each row of a release is paired with: four passes,
/// by recording, by release track, by disc and position, by folded title;
/// in each, every row still unpaired takes the first track no row has
/// taken that the pass pairs it with.
pub open spec fn pairing(rows: Seq<ReleaseRow>, tracks: Seq<CatalogRow>) -> Seq<Option<i64>> {
    passes_from(
        rows,
        tracks,
        0,
        discs_named(rows),
        Seq::new(rows.len(), |i: int| None),
        Seq::new(tracks.len(), |i: int| false),
    )
}

fn same_named(a: &Option<String>, b: &Option<String>) -> (r: bool)
    ensures
        r == (a is Some && text_held(*a) == text_held(*b)),
{
    match (a, b) {
        (Some(x), Some(y)) => *x == *y,
        _ => false,
    }
}

fn discs_of(rows: &[ReleaseRow]) -> (r: u32)
    ensures
        r == discs_named(rows@),
{
    let mut most: u32 = ONE_DISC;
    let mut i: usize = 0;
    while i < rows.len()
        invariant
            i <= rows@.len(),
            most == discs_named(rows@.subrange(0, i as int)),
        decreases rows@.len() - i,
    {
        assert(rows@.subrange(0, i + 1).drop_last() =~= rows@.subrange(0, i as int));
        if i == 0 || rows[i].disc > most {
            most = rows[i].disc;
        }
        i = i + 1;
    }
    assert(rows@.subrange(0, i as int) =~= rows@);
    most
}

fn pairs_exec(pass: usize, discs: u32, row: &ReleaseRow, track: &CatalogRow) -> (r: bool)
    requires
        pass < 4,
    ensures
        r == pairs_in(pass as int, discs, *row, *track),
{
    if pass == 0 {
        same_named(&row.recording, &track.recording)
    } else if pass == 1 {
        same_named(&row.track, &track.release_track)
    } else if pass == 2 {
        let counted = match track.disc {
            Some(d) => Some(d),
            None => if discs == ONE_DISC {
                Some(ONE_DISC)
            } else {
                None
            },
        };
        let numbered = match track.number {
            Some(n) => n == row.position,
            None => false,
        };
        let on_disc = match counted {
            Some(d) => d == row.disc,
            None => false,
        };
        numbered && on_disc
    } else {
        row.folded == track.folded
    }
}

fn first_free_exec(
    row: &ReleaseRow,
    tracks: &[CatalogRow],
    taken: &Vec<bool>,
    pass: usize,
    discs: u32,
) -> (r: Option<usize>)
    requires
        pass < 4,
        taken@.len() == tracks@.len(),
    ensures
        match first_free(*row, tracks@, taken@, pass as int, discs, 0) {
            Some(c) => r == Some(c as usize),
            None => r is None,
        },
{
    let mut c = tracks.len();
    let mut k: usize = tracks.len();
    while k > 0
        invariant
            k <= tracks@.len(),
            taken@.len() == tracks@.len(),
            pass < 4,
            c <= tracks@.len(),
            match first_free(*row, tracks@, taken@, pass as int, discs, k as int) {
                Some(f) => c == f,
                None => c == tracks@.len(),
            },
        decreases k,
    {
        k = k - 1;
        if !taken[k] && pairs_exec(pass, discs, row, &tracks[k]) {
            c = k;
        }
    }
    proof {
        lemma_first_free_bounds(*row, tracks@, taken@, pass as int, discs, 0);
    }
    if c < tracks.len() {
        Some(c)
    } else {
        None
    }
}

proof fn lemma_pass_from_lengths(
    rows: Seq<ReleaseRow>,
    tracks: Seq<CatalogRow>,
    pass: int,
    discs: u32,
    matched: Seq<Option<i64>>,
    taken: Seq<bool>,
    at: int,
)
    requires
        matched.len() == rows.len(),
        taken.len() == tracks.len(),
    ensures
        pass_from(rows, tracks, pass, discs, matched, taken, at).0.len() == rows.len(),
        pass_from(rows, tracks, pass, discs, matched, taken, at).1.len() == tracks.len(),
    decreases rows.len() - at,
{
    if 0 <= at < rows.len() {
        if matched[at] is Some {
            lemma_pass_from_lengths(rows, tracks, pass, discs, matched, taken, at + 1);
        } else {
            match first_free(rows[at], tracks, taken, pass, discs, 0) {
                Some(c) => {
                    lemma_first_free_bounds(rows[at], tracks, taken, pass, discs, 0);
                    lemma_pass_from_lengths(
                        rows,
                        tracks,
                        pass,
                        discs,
                        matched.update(at, Some(tracks[c].id)),
                        taken.update(c, true),
                        at + 1,
                    );
                },
                None => {
                    lemma_pass_from_lengths(rows, tracks, pass, discs, matched, taken, at + 1);
                },
            }
        }
    }
}

proof fn lemma_first_free_bounds(
    row: ReleaseRow,
    tracks: Seq<CatalogRow>,
    taken: Seq<bool>,
    pass: int,
    discs: u32,
    from: int,
)
    ensures
        match first_free(row, tracks, taken, pass, discs, from) {
            Some(c) => from <= c < tracks.len(),
            None => true,
        },
    decreases tracks.len() - from,
{
    if 0 <= from < tracks.len() {
        lemma_first_free_bounds(row, tracks, taken, pass, discs, from + 1);
    }
}

fn pair_pass(
    rows: &[ReleaseRow],
    tracks: &[CatalogRow],
    matched: &mut Vec<Option<i64>>,
    taken: &mut Vec<bool>,
    pass: usize,
    discs: u32,
)
    requires
        pass < 4,
        old(matched)@.len() == rows@.len(),
        old(taken)@.len() == tracks@.len(),
    ensures
        (final(matched)@, final(taken)@) == pass_from(
            rows@,
            tracks@,
            pass as int,
            discs,
            old(matched)@,
            old(taken)@,
            0,
        ),
{
    let ghost m0 = matched@;
    let ghost t0 = taken@;
    let mut at: usize = 0;
    while at < rows.len()
        invariant
            pass < 4,
            at <= rows@.len(),
            matched@.len() == rows@.len(),
            taken@.len() == tracks@.len(),
            pass_from(rows@, tracks@, pass as int, discs, m0, t0, 0) == pass_from(
                rows@,
                tracks@,
                pass as int,
                discs,
                matched@,
                taken@,
                at as int,
            ),
        decreases rows@.len() - at,
    {
        if matched[at].is_none() {
            let found = first_free_exec(&rows[at], tracks, taken, pass, discs);
            proof {
                lemma_first_free_bounds(rows@[at as int], tracks@, taken@, pass as int, discs, 0);
            }
            match found {
                Some(c) => {
                    matched.set(at, Some(tracks[c].id));
                    taken.set(c, true);
                },
                None => {},
            }
        }
        at = at + 1;
    }
}

/// The catalog track each row of a release is paired with, as
/// [`pairing`] reads.
pub fn paired(rows: &[ReleaseRow], tracks: &[CatalogRow]) -> (r: Vec<Option<i64>>)
    ensures
        r@ == pairing(rows@, tracks@),
        r@.len() == rows@.len(),
{
    let discs = discs_of(rows);
    let mut matched: Vec<Option<i64>> = Vec::new();
    let mut i: usize = 0;
    while i < rows.len()
        invariant
            i <= rows@.len(),
            matched@ == Seq::new(i as nat, |j: int| None::<i64>),
        decreases rows@.len() - i,
    {
        matched.push(None);
        i = i + 1;
        assert(matched@ =~= Seq::new(i as nat, |j: int| None::<i64>));
    }
    let mut taken: Vec<bool> = Vec::new();
    let mut k: usize = 0;
    while k < tracks.len()
        invariant
            k <= tracks@.len(),
            taken@ == Seq::new(k as nat, |j: int| false),
        decreases tracks@.len() - k,
    {
        taken.push(false);
        k = k + 1;
        assert(taken@ =~= Seq::new(k as nat, |j: int| false));
    }
    let ghost m0 = matched@;
    let ghost t0 = taken@;
    let mut pass: usize = 0;
    while pass < 4
        invariant
            pass <= 4,
            matched@.len() == rows@.len(),
            taken@.len() == tracks@.len(),
            passes_from(rows@, tracks@, 0, discs, m0, t0) == passes_from(
                rows@,
                tracks@,
                pass as int,
                discs,
                matched@,
                taken@,
            ),
        decreases 4 - pass,
    {
        let ghost before_m = matched@;
        let ghost before_t = taken@;
        pair_pass(rows, tracks, &mut matched, &mut taken, pass, discs);
        proof {
            lemma_pass_from_lengths(rows@, tracks@, pass as int, discs, before_m, before_t, 0);
        }
        pass = pass + 1;
    }
    matched
}

/// How many rows a new pairing moves: those whose pairing changed.
pub open spec fn moved_count(rows: Seq<ReleaseRow>, matched: Seq<Option<i64>>) -> nat
    decreases rows.len(),
{
    if rows.len() == 0 {
        0
    } else {
        moved_count(rows.drop_last(), matched) + if rows.last().paired != matched[rows.len() - 1] {
            1nat
        } else {
            0nat
        }
    }
}

/// How many rows a new pairing moves.
pub fn moved(rows: &[ReleaseRow], matched: &[Option<i64>]) -> (r: u32)
    requires
        matched@.len() == rows@.len(),
        rows@.len() <= u32::MAX,
    ensures
        r == moved_count(rows@, matched@),
{
    let mut count: u32 = 0;
    let mut i: usize = 0;
    while i < rows.len()
        invariant
            i <= rows@.len(),
            matched@.len() == rows@.len(),
            rows@.len() <= u32::MAX,
            count == moved_count(rows@.subrange(0, i as int), matched@),
            count <= i,
        decreases rows@.len() - i,
    {
        assert(rows@.subrange(0, i + 1).drop_last() =~= rows@.subrange(0, i as int));
        if rows[i].paired != matched[i] {
            count = count + 1;
        }
        i = i + 1;
    }
    assert(rows@.subrange(0, i as int) =~= rows@);
    count
}


/// Whether no two tracks share an id.
pub open spec fn ids_apart(tracks: Seq<CatalogRow>) -> bool {
    forall|c: int, d: int|
        0 <= c < tracks.len() && 0 <= d < tracks.len() && c != d ==> #[trigger] tracks[c].id
            != #[trigger] tracks[d].id
}

/// What a pairing keeps as it goes: each row paired with a track taken,
/// and no two rows paired with one track.
pub open spec fn paired_once(
    tracks: Seq<CatalogRow>,
    matched: Seq<Option<i64>>,
    taken: Seq<bool>,
) -> bool {
    &&& taken.len() == tracks.len()
    &&& forall|a: int|
        0 <= a < matched.len() && #[trigger] matched[a] is Some ==> exists|c: int|
            0 <= c < tracks.len() && taken[c] && #[trigger] tracks[c].id == matched[a]->0
    &&& forall|a: int, b: int|
        0 <= a < matched.len() && 0 <= b < matched.len() && a != b && #[trigger] matched[a] is Some
            && #[trigger] matched[b] is Some ==> matched[a] != matched[b]
}

proof fn lemma_first_free_found(
    row: ReleaseRow,
    tracks: Seq<CatalogRow>,
    taken: Seq<bool>,
    pass: int,
    discs: u32,
    from: int,
)
    requires
        taken.len() == tracks.len(),
    ensures
        match first_free(row, tracks, taken, pass, discs, from) {
            Some(c) => from <= c < tracks.len() && !taken[c],
            None => true,
        },
    decreases tracks.len() - from,
{
    if 0 <= from < tracks.len() {
        lemma_first_free_found(row, tracks, taken, pass, discs, from + 1);
    }
}

proof fn lemma_pass_keeps_once(
    rows: Seq<ReleaseRow>,
    tracks: Seq<CatalogRow>,
    pass: int,
    discs: u32,
    matched: Seq<Option<i64>>,
    taken: Seq<bool>,
    at: int,
)
    requires
        ids_apart(tracks),
        matched.len() == rows.len(),
        paired_once(tracks, matched, taken),
    ensures
        paired_once(
            tracks,
            pass_from(rows, tracks, pass, discs, matched, taken, at).0,
            pass_from(rows, tracks, pass, discs, matched, taken, at).1,
        ),
        pass_from(rows, tracks, pass, discs, matched, taken, at).0.len() == rows.len(),
    decreases rows.len() - at,
{
    if 0 <= at < rows.len() && !(matched[at] is Some) {
        match first_free(rows[at], tracks, taken, pass, discs, 0) {
            Some(c) => {
                lemma_first_free_found(rows[at], tracks, taken, pass, discs, 0);
                let id = tracks[c].id;
                let m2 = matched.update(at, Some(id));
                let t2 = taken.update(c, true);
                assert forall|a: int|
                    0 <= a < m2.len() && #[trigger] m2[a] is Some implies exists|e: int|
                        0 <= e < tracks.len() && t2[e] && #[trigger] tracks[e].id == m2[a]->0 by {
                    if a == at {
                        assert(t2[c] && tracks[c].id == m2[a]->0);
                    } else {
                        assert(matched[a] is Some);
                        let e = choose|e: int|
                            0 <= e < tracks.len() && taken[e] && #[trigger] tracks[e].id
                                == matched[a]->0;
                        assert(t2[e] && tracks[e].id == m2[a]->0);
                    }
                }
                assert forall|a: int, b: int|
                    0 <= a < m2.len() && 0 <= b < m2.len() && a != b && #[trigger] m2[a] is Some
                        && #[trigger] m2[b] is Some implies m2[a] != m2[b] by {
                    if a == at || b == at {
                        let other = if a == at {
                            b
                        } else {
                            a
                        };
                        assert(matched[other] is Some);
                        if matched[other] == Some(id) {
                            let e = choose|e: int|
                                0 <= e < tracks.len() && taken[e] && #[trigger] tracks[e].id
                                    == matched[other]->0;
                            assert(tracks[e].id == tracks[c].id);
                            assert(e == c);
                        }
                    } else {
                        assert(matched[a] is Some && matched[b] is Some);
                    }
                }
                lemma_pass_keeps_once(rows, tracks, pass, discs, m2, t2, at + 1);
            },
            None => {
                lemma_pass_keeps_once(rows, tracks, pass, discs, matched, taken, at + 1);
            },
        }
    } else if 0 <= at < rows.len() {
        lemma_pass_keeps_once(rows, tracks, pass, discs, matched, taken, at + 1);
    }
}

proof fn lemma_passes_keep_once(
    rows: Seq<ReleaseRow>,
    tracks: Seq<CatalogRow>,
    pass: int,
    discs: u32,
    matched: Seq<Option<i64>>,
    taken: Seq<bool>,
)
    requires
        ids_apart(tracks),
        matched.len() == rows.len(),
        paired_once(tracks, matched, taken),
    ensures
        forall|a: int, b: int|
            0 <= a < rows.len() && 0 <= b < rows.len() && a != b && #[trigger] passes_from(
                rows,
                tracks,
                pass,
                discs,
                matched,
                taken,
            )[a] is Some && #[trigger] passes_from(rows, tracks, pass, discs, matched, taken)[b]
                is Some ==> passes_from(rows, tracks, pass, discs, matched, taken)[a]
                != passes_from(rows, tracks, pass, discs, matched, taken)[b],
        passes_from(rows, tracks, pass, discs, matched, taken).len() == rows.len(),
    decreases 4 - pass,
{
    if 0 <= pass < 4 {
        let (m, t) = pass_from(rows, tracks, pass, discs, matched, taken, 0);
        lemma_pass_keeps_once(rows, tracks, pass, discs, matched, taken, 0);
        lemma_passes_keep_once(rows, tracks, pass + 1, discs, m, t);
    }
}

/// No catalog track is paired with two rows of a release, where no two
/// tracks share an id.
pub proof fn a_track_is_paired_once(rows: Seq<ReleaseRow>, tracks: Seq<CatalogRow>)
    requires
        ids_apart(tracks),
    ensures
        pairing(rows, tracks).len() == rows.len(),
        forall|a: int, b: int|
            0 <= a < rows.len() && 0 <= b < rows.len() && a != b && #[trigger] pairing(
                rows,
                tracks,
            )[a] is Some && #[trigger] pairing(rows, tracks)[b] is Some ==> pairing(
                rows,
                tracks,
            )[a] != pairing(rows, tracks)[b],
{
    let m0 = Seq::new(rows.len(), |i: int| None::<i64>);
    let t0 = Seq::new(tracks.len(), |i: int| false);
    lemma_passes_keep_once(rows, tracks, 0, discs_named(rows), m0, t0);
}

} // verus!
