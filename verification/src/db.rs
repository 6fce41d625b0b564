//! The catalog's queries as text: the orders its panes are read in, the
//! clauses that narrow them, and the stamps that say when what was read
//! still holds.
use vstd::prelude::*;

use crate::error::Error;
use crate::ids::{Link, Mbid};
use crate::model::ArtistDetail;
use crate::reference::{Genre, LifeSpan};
use crate::query::{AlbumOrder, ArtistOrder, Direction, SortOrder};
use crate::text::{append_chars, chars_of, decimal, decimal_of, string_of};

verus! {

broadcast use vstd::string::group_string_axioms;

/// The stamp another connection left when it last wrote the catalog.
#[derive(Clone, Copy, Debug, PartialEq, Eq, Structural)]
pub struct WrittenElsewhere(pub i64);

/// What the names read from the catalog were read at: how many times this
/// connection had renamed anything, and the stamp another connection had
/// left, where one had.
#[derive(Clone, Copy, Debug, PartialEq, Eq, Structural)]
pub struct NamesStamp {
    pub named: u64,
    pub written_elsewhere: Option<i64>,
}

impl NamesStamp {
    /// Whether names read at this stamp still hold at `now`: nothing was
    /// renamed since, and no other connection has left a stamp other than
    /// the one they were read under.
    pub fn still_holds_at(self, now: NamesStamp) -> (r: bool)
        ensures
            r == (self.named == now.named && match now.written_elsewhere {
                None => true,
                Some(elsewhere) => self.written_elsewhere == Some(elsewhere),
            }),
    {
        self.named == now.named && match now.written_elsewhere {
            None => true,
            Some(elsewhere) => match self.written_elsewhere {
                Some(held) => held == elsewhere,
                None => false,
            },
        }
    }
}

/// Texts written one after another with a separator between each and the
/// next.
pub open spec fn joined(parts: Seq<Seq<char>>, sep: Seq<char>) -> Seq<char>
    decreases parts.len(),
{
    if parts.len() == 0 {
        seq![]
    } else if parts.len() == 1 {
        parts[0]
    } else {
        joined(parts.drop_last(), sep) + sep + parts.last()
    }
}

/// Writes texts with a separator between each and the next.
fn joined_with(parts: &[String], sep: &str) -> (r: Vec<char>)
    ensures
        r@ == joined(parts@.map_values(|p: String| p@), sep@),
{
    let mut v: Vec<char> = Vec::new();
    let mut k: usize = 0;
    let s = chars_of(sep);
    while k < parts.len()
        invariant
            k <= parts@.len(),
            s@ == sep@,
            v@ == joined(parts@.subrange(0, k as int).map_values(|p: String| p@), sep@),
        decreases parts@.len() - k,
    {
        let ghost before = parts@.subrange(0, k as int).map_values(|p: String| p@);
        assert(parts@.subrange(0, k + 1).map_values(|p: String| p@).drop_last() =~= before);
        if k > 0 {
            append_chars(&mut v, &s);
        }
        append_chars(&mut v, &chars_of(parts[k].as_str()));
        k = k + 1;
        assert(v@ =~= joined(parts@.subrange(0, k as int).map_values(|p: String| p@), sep@));
    }
    assert(parts@.subrange(0, parts@.len() as int) =~= parts@);
    v
}

/// The clause that asks for a track studied as `value` in `column`.
pub fn studied_as(column: &str, value: &str) -> (r: String)
    ensures
        r@ == "EXISTS (SELECT 1 FROM track_studies s WHERE s.track_id = tracks.id AND s."@ + column@
            + " = '"@ + value@ + "')"@,
{
    let mut v = chars_of("EXISTS (SELECT 1 FROM track_studies s WHERE s.track_id = tracks.id AND s.");
    append_chars(&mut v, &chars_of(column));
    append_chars(&mut v, &chars_of(" = '"));
    append_chars(&mut v, &chars_of(value));
    append_chars(&mut v, &chars_of("')"));
    string_of(&v)
}

/// How many times a character stands in a text.
pub open spec fn count_of(s: Seq<char>, c: char) -> nat
    decreases s.len(),
{
    if s.len() == 0 {
        0
    } else {
        count_of(s.drop_last(), c) + if s.last() == c {
            1nat
        } else {
            0nat
        }
    }
}

proof fn lemma_count_at_most(s: Seq<char>, c: char)
    ensures
        count_of(s, c) <= s.len(),
    decreases s.len(),
{
    if s.len() > 0 {
        lemma_count_at_most(s.drop_last(), c);
    }
}

/// How many columns a list of them names: one more than the commas between
/// them.
pub fn listed(columns: &str) -> (r: usize)
    requires
        columns@.len() < usize::MAX,
    ensures
        r == count_of(columns@, ',') + 1,
{
    let v = chars_of(columns);
    let mut counted: usize = 1;
    let mut at: usize = 0;
    while at < v.len()
        invariant
            at <= v@.len(),
            v@ == columns@,
            v@.len() < usize::MAX,
            counted == count_of(v@.subrange(0, at as int), ',') + 1,
        decreases v@.len() - at,
    {
        assert(v@.subrange(0, at + 1).drop_last() =~= v@.subrange(0, at as int));
        proof {
            lemma_count_at_most(v@.subrange(0, at as int), ',');
        }
        if v[at] == ',' {
            counted = counted + 1;
        }
        at = at + 1;
    }
    assert(v@.subrange(0, v@.len() as int) =~= v@);
    counted
}

/// How many rows a query may answer: the limit asked, or every row, which
/// the store reads as a negative limit. The limit is carried over as a
/// 64-bit signed number, so one past the largest of those wraps round to a
/// negative one, which the store reads as every row too.
pub fn limit(asked: Option<usize>) -> (r: i64)
    ensures
        r == match asked {
            Some(n) => if n <= i64::MAX {
                n as int
            } else {
                n - 0x1_0000_0000_0000_0000
            },
            None => -1,
        },
{
    match asked {
        Some(n) => {
            let wide = n as u64;
            let r = wide as i64;
            proof {
                if wide > 0x7fff_ffff_ffff_ffffu64 {
                    assert(r == wide - 0x1_0000_0000_0000_0000) by (bit_vector)
                        requires
                            r == wide as i64,
                            wide > 0x7fff_ffff_ffff_ffffu64,
                    ;
                } else {
                    assert(r == wide) by (bit_vector)
                        requires
                            r == wide as i64,
                            wide <= 0x7fff_ffff_ffff_ffffu64,
                    ;
                }
            }
            r
        },
        None => -1,
    }
}

/// An order either way round: the columns read up, and the columns read
/// down.
#[derive(Clone, Copy, Debug)]
pub struct Reading {
    pub up: &'static str,
    pub down: &'static str,
}

/// The columns an order is read by, the way round asked.
pub fn read_as(direction: Direction, order: Reading) -> (r: &'static str)
    ensures
        r == match direction {
            Direction::Ascending => order.up,
            Direction::Descending => order.down,
        },
{
    match direction {
        Direction::Ascending => order.up,
        Direction::Descending => order.down,
    }
}

/// The order the tracks pane is read in, either way round.
pub open spec fn track_reading(sort: SortOrder, ranked: bool) -> (&'static str, &'static str) {
    match sort {
        SortOrder::Relevance => if ranked {
            ("rank", "rank DESC")
        } else {
            (
                "tracks.album_id, tracks.disc_number, tracks.track_number, tracks.title COLLATE NOCASE",
                "tracks.album_id DESC, tracks.disc_number DESC, tracks.track_number DESC, tracks.title COLLATE NOCASE DESC",
            )
        },
        SortOrder::AlbumThenTrack => (
            "tracks.album_id, tracks.disc_number, tracks.track_number, tracks.title COLLATE NOCASE",
            "tracks.album_id DESC, tracks.disc_number DESC, tracks.track_number DESC, tracks.title COLLATE NOCASE DESC",
        ),
        SortOrder::Title => ("tracks.title COLLATE NOCASE", "tracks.title COLLATE NOCASE DESC"),
        SortOrder::Artist => (
            "tracks.artist COLLATE NOCASE, tracks.album_id, tracks.disc_number, tracks.track_number",
            "tracks.artist COLLATE NOCASE DESC, tracks.album_id DESC, tracks.disc_number DESC, tracks.track_number DESC",
        ),
        SortOrder::DateAdded => ("tracks.added", "tracks.added DESC"),
        SortOrder::Duration => ("tracks.duration", "tracks.duration DESC"),
        SortOrder::Plays => (
            "tracks.plays, tracks.title COLLATE NOCASE DESC",
            "tracks.plays DESC, tracks.title COLLATE NOCASE",
        ),
        SortOrder::Played => (
            "tracks.played, tracks.title COLLATE NOCASE DESC",
            "tracks.played DESC, tracks.title COLLATE NOCASE",
        ),
        SortOrder::Favourited => (
            "tracks.favourite, tracks.title COLLATE NOCASE DESC",
            "tracks.favourite DESC, tracks.title COLLATE NOCASE",
        ),
    }
}

/// The way round a reading is taken.
pub open spec fn taken(reading: Direction, order: (&'static str, &'static str)) -> &'static str {
    match reading {
        Direction::Ascending => order.0,
        Direction::Descending => order.1,
    }
}

/// The columns the tracks pane is read by: by relevance where a search
/// ranks the tracks, else by album; then as the order asks; the way round
/// asked.
pub fn order_by(sort: SortOrder, reading: Direction, ranked: bool) -> (r: &'static str)
    ensures
        r == taken(reading, track_reading(sort, ranked)),
{
    let order = match sort {
        SortOrder::Relevance if ranked => Reading { up: "rank", down: "rank DESC" },
        SortOrder::Relevance | SortOrder::AlbumThenTrack => Reading {
            up: "tracks.album_id, tracks.disc_number, tracks.track_number, tracks.title COLLATE NOCASE",
            down: "tracks.album_id DESC, tracks.disc_number DESC, tracks.track_number DESC, tracks.title COLLATE NOCASE DESC",
        },
        SortOrder::Title => Reading {
            up: "tracks.title COLLATE NOCASE",
            down: "tracks.title COLLATE NOCASE DESC",
        },
        SortOrder::Artist => Reading {
            up: "tracks.artist COLLATE NOCASE, tracks.album_id, tracks.disc_number, tracks.track_number",
            down: "tracks.artist COLLATE NOCASE DESC, tracks.album_id DESC, tracks.disc_number DESC, tracks.track_number DESC",
        },
        SortOrder::DateAdded => Reading { up: "tracks.added", down: "tracks.added DESC" },
        SortOrder::Duration => Reading { up: "tracks.duration", down: "tracks.duration DESC" },
        SortOrder::Plays => Reading {
            up: "tracks.plays, tracks.title COLLATE NOCASE DESC",
            down: "tracks.plays DESC, tracks.title COLLATE NOCASE",
        },
        SortOrder::Played => Reading {
            up: "tracks.played, tracks.title COLLATE NOCASE DESC",
            down: "tracks.played DESC, tracks.title COLLATE NOCASE",
        },
        SortOrder::Favourited => Reading {
            up: "tracks.favourite, tracks.title COLLATE NOCASE DESC",
            down: "tracks.favourite DESC, tracks.title COLLATE NOCASE",
        },
    };
    read_as(reading, order)
}

/// The order the albums pane is read in, either way round.
pub open spec fn album_reading(sort: AlbumOrder, ranked: bool) -> (&'static str, &'static str) {
    match sort {
        AlbumOrder::Relevance => if ranked {
            (
                "matched.score, coalesce(a.release_title, a.title) COLLATE NOCASE",
                "matched.score DESC, coalesce(a.release_title, a.title) COLLATE NOCASE DESC",
            )
        } else {
            (
                "coalesce(a.release_title, a.title) COLLATE NOCASE",
                "coalesce(a.release_title, a.title) COLLATE NOCASE DESC",
            )
        },
        AlbumOrder::Title => (
            "coalesce(a.release_title, a.title) COLLATE NOCASE",
            "coalesce(a.release_title, a.title) COLLATE NOCASE DESC",
        ),
        AlbumOrder::Artist => (
            "(SELECT r.name FROM artists r WHERE r.id = a.artist_id) COLLATE NOCASE, a.year, coalesce(a.release_title, a.title) COLLATE NOCASE",
            "(SELECT r.name FROM artists r WHERE r.id = a.artist_id) COLLATE NOCASE DESC, a.year DESC, coalesce(a.release_title, a.title) COLLATE NOCASE DESC",
        ),
        AlbumOrder::Year => (
            "a.year IS NULL, a.year, coalesce(a.release_title, a.title) COLLATE NOCASE",
            "a.year IS NULL DESC, a.year DESC, coalesce(a.release_title, a.title) COLLATE NOCASE DESC",
        ),
        AlbumOrder::Tracks => (
            "(SELECT count(*) FROM tracks t WHERE t.album_id = a.id AND t.alternative_of IS NULL AND t.hidden = 0), coalesce(a.release_title, a.title) COLLATE NOCASE",
            "(SELECT count(*) FROM tracks t WHERE t.album_id = a.id AND t.alternative_of IS NULL AND t.hidden = 0) DESC, coalesce(a.release_title, a.title) COLLATE NOCASE DESC",
        ),
        AlbumOrder::Added => (
            "(SELECT max(t.added) FROM tracks t WHERE t.album_id = a.id), coalesce(a.release_title, a.title) COLLATE NOCASE",
            "(SELECT max(t.added) FROM tracks t WHERE t.album_id = a.id) DESC, coalesce(a.release_title, a.title) COLLATE NOCASE DESC",
        ),
        AlbumOrder::Favourited => (
            "a.favourite, coalesce(a.release_title, a.title) COLLATE NOCASE",
            "a.favourite DESC, coalesce(a.release_title, a.title) COLLATE NOCASE DESC",
        ),
    }
}

/// The columns the albums pane is read by, the way round asked.
pub fn album_order_by(sort: AlbumOrder, reading: Direction, ranked: bool) -> (r: &'static str)
    ensures
        r == taken(reading, album_reading(sort, ranked)),
{
    let order = match sort {
        AlbumOrder::Relevance if ranked => Reading {
            up: "matched.score, coalesce(a.release_title, a.title) COLLATE NOCASE",
            down: "matched.score DESC, coalesce(a.release_title, a.title) COLLATE NOCASE DESC",
        },
        AlbumOrder::Relevance | AlbumOrder::Title => Reading {
            up: "coalesce(a.release_title, a.title) COLLATE NOCASE",
            down: "coalesce(a.release_title, a.title) COLLATE NOCASE DESC",
        },
        AlbumOrder::Artist => Reading {
            up: "(SELECT r.name FROM artists r WHERE r.id = a.artist_id) COLLATE NOCASE, a.year, coalesce(a.release_title, a.title) COLLATE NOCASE",
            down: "(SELECT r.name FROM artists r WHERE r.id = a.artist_id) COLLATE NOCASE DESC, a.year DESC, coalesce(a.release_title, a.title) COLLATE NOCASE DESC",
        },
        AlbumOrder::Year => Reading {
            up: "a.year IS NULL, a.year, coalesce(a.release_title, a.title) COLLATE NOCASE",
            down: "a.year IS NULL DESC, a.year DESC, coalesce(a.release_title, a.title) COLLATE NOCASE DESC",
        },
        AlbumOrder::Tracks => Reading {
            up: "(SELECT count(*) FROM tracks t WHERE t.album_id = a.id AND t.alternative_of IS NULL AND t.hidden = 0), coalesce(a.release_title, a.title) COLLATE NOCASE",
            down: "(SELECT count(*) FROM tracks t WHERE t.album_id = a.id AND t.alternative_of IS NULL AND t.hidden = 0) DESC, coalesce(a.release_title, a.title) COLLATE NOCASE DESC",
        },
        AlbumOrder::Added => Reading {
            up: "(SELECT max(t.added) FROM tracks t WHERE t.album_id = a.id), coalesce(a.release_title, a.title) COLLATE NOCASE",
            down: "(SELECT max(t.added) FROM tracks t WHERE t.album_id = a.id) DESC, coalesce(a.release_title, a.title) COLLATE NOCASE DESC",
        },
        AlbumOrder::Favourited => Reading {
            up: "a.favourite, coalesce(a.release_title, a.title) COLLATE NOCASE",
            down: "a.favourite DESC, coalesce(a.release_title, a.title) COLLATE NOCASE DESC",
        },
    };
    read_as(reading, order)
}

/// The order the artists pane is read in, either way round.
pub open spec fn artist_reading(sort: ArtistOrder, ranked: bool) -> (&'static str, &'static str) {
    match sort {
        ArtistOrder::Relevance => if ranked {
            (
                "matched.score, r.name COLLATE NOCASE",
                "matched.score DESC, r.name COLLATE NOCASE DESC",
            )
        } else {
            ("r.name COLLATE NOCASE", "r.name COLLATE NOCASE DESC")
        },
        ArtistOrder::Name => ("r.name COLLATE NOCASE", "r.name COLLATE NOCASE DESC"),
        ArtistOrder::Albums => (
            "(SELECT count(DISTINCT t.album_id) FROM tracks t
           WHERE t.artist_id = r.id AND t.alternative_of IS NULL AND t.hidden = 0), r.name COLLATE NOCASE",
            "(SELECT count(DISTINCT t.album_id) FROM tracks t
           WHERE t.artist_id = r.id AND t.alternative_of IS NULL AND t.hidden = 0) DESC, r.name COLLATE NOCASE DESC",
        ),
        ArtistOrder::Tracks => (
            "(SELECT count(*) FROM tracks t WHERE t.artist_id = r.id AND t.alternative_of IS NULL AND t.hidden = 0), r.name COLLATE NOCASE",
            "(SELECT count(*) FROM tracks t WHERE t.artist_id = r.id AND t.alternative_of IS NULL AND t.hidden = 0) DESC, r.name COLLATE NOCASE DESC",
        ),
        ArtistOrder::Favourited => (
            "r.favourite, r.name COLLATE NOCASE",
            "r.favourite DESC, r.name COLLATE NOCASE DESC",
        ),
    }
}

/// The columns the artists pane is read by, the way round asked.
pub fn artist_order_by(sort: ArtistOrder, reading: Direction, ranked: bool) -> (r: &'static str)
    ensures
        r == taken(reading, artist_reading(sort, ranked)),
{
    let order = match sort {
        ArtistOrder::Relevance if ranked => Reading {
            up: "matched.score, r.name COLLATE NOCASE",
            down: "matched.score DESC, r.name COLLATE NOCASE DESC",
        },
        ArtistOrder::Relevance | ArtistOrder::Name => Reading {
            up: "r.name COLLATE NOCASE",
            down: "r.name COLLATE NOCASE DESC",
        },
        ArtistOrder::Albums => Reading {
            up: "(SELECT count(DISTINCT t.album_id) FROM tracks t
           WHERE t.artist_id = r.id AND t.alternative_of IS NULL AND t.hidden = 0), r.name COLLATE NOCASE",
            down: "(SELECT count(DISTINCT t.album_id) FROM tracks t
           WHERE t.artist_id = r.id AND t.alternative_of IS NULL AND t.hidden = 0) DESC, r.name COLLATE NOCASE DESC",
        },
        ArtistOrder::Tracks => Reading {
            up: "(SELECT count(*) FROM tracks t WHERE t.artist_id = r.id AND t.alternative_of IS NULL AND t.hidden = 0), r.name COLLATE NOCASE",
            down: "(SELECT count(*) FROM tracks t WHERE t.artist_id = r.id AND t.alternative_of IS NULL AND t.hidden = 0) DESC, r.name COLLATE NOCASE DESC",
        },
        ArtistOrder::Favourited => Reading {
            up: "r.favourite, r.name COLLATE NOCASE",
            down: "r.favourite DESC, r.name COLLATE NOCASE DESC",
        },
    };
    read_as(reading, order)
}

/// A number written in decimal, with a sign where it is negative.
pub open spec fn signed_decimal(n: int) -> Seq<char> {
    if n < 0 {
        seq!['-'] + decimal((-n) as nat)
    } else {
        decimal(n as nat)
    }
}

fn signed_decimal_of(n: i64) -> (r: Vec<char>)
    ensures
        r@ == signed_decimal(n as int),
{
    if n < 0 {
        let magnitude: i128 = -(n as i128);
        let digits = decimal_of(magnitude as u64);
        let mut r: Vec<char> = Vec::new();
        r.push('-');
        append_chars(&mut r, &digits);
        r
    } else {
        decimal_of(n as u64)
    }
}

/// The clause that asks for a column holding one of the codes: nothing at
/// all where no code is asked.
pub fn coded(column: &str, codes: &[i64]) -> (r: String)
    ensures
        codes@.len() == 0 ==> r@ == "0"@,
        codes@.len() > 0 ==> r@ == column@ + " IN ("@ + joined(
            codes@.map_values(|c: i64| signed_decimal(c as int)),
            ", "@,
        ) + ")"@,
{
    if codes.len() == 0 {
        return "0".to_string();
    }
    let mut listed: Vec<String> = Vec::new();
    let mut k: usize = 0;
    while k < codes.len()
        invariant
            k <= codes@.len(),
            listed@.map_values(|p: String| p@) == codes@.subrange(0, k as int).map_values(
                |c: i64| signed_decimal(c as int),
            ),
        decreases codes@.len() - k,
    {
        let ghost before = listed@;
        let written = string_of(&signed_decimal_of(codes[k]));
        listed.push(written);
        assert(listed@.map_values(|p: String| p@) =~= before.map_values(|p: String| p@).push(
            signed_decimal(codes@[k as int] as int),
        ));
        assert(codes@.subrange(0, k + 1).map_values(|c: i64| signed_decimal(c as int))
            =~= codes@.subrange(0, k as int).map_values(|c: i64| signed_decimal(c as int)).push(
            signed_decimal(codes@[k as int] as int),
        ));
        k = k + 1;
        assert(listed@.map_values(|p: String| p@) =~= codes@.subrange(0, k as int).map_values(
            |c: i64| signed_decimal(c as int),
        ));
    }
    assert(codes@.subrange(0, codes@.len() as int) =~= codes@);
    let inside = joined_with(&listed, ", ");
    let mut v = chars_of(column);
    append_chars(&mut v, &chars_of(" IN ("));
    append_chars(&mut v, &inside);
    append_chars(&mut v, &chars_of(")"));
    string_of(&v)
}

/// The clause that asks for every filter: nothing where there is none.
pub fn clause(filters: &[String]) -> (r: String)
    ensures
        filters@.len() == 0 ==> r@ == Seq::<char>::empty(),
        filters@.len() > 0 ==> r@ == " WHERE "@ + joined(
            filters@.map_values(|p: String| p@),
            " AND "@,
        ),
{
    if filters.len() == 0 {
        return String::new();
    }
    let mut v = chars_of(" WHERE ");
    append_chars(&mut v, &joined_with(filters, " AND "));
    string_of(&v)
}

/// As many places for a root as there are roots, separated by commas.
pub open spec fn places(n: nat) -> Seq<char>
    decreases n,
{
    if n == 0 {
        seq![]
    } else if n == 1 {
        seq!['?']
    } else {
        places((n - 1) as nat) + seq![',', ' ', '?']
    }
}

fn places_of(n: usize) -> (r: Vec<char>)
    ensures
        r@ == places(n as nat),
{
    let mut v: Vec<char> = Vec::new();
    let mut k: usize = 0;
    while k < n
        invariant
            k <= n,
            v@ == places(k as nat),
        decreases n - k,
    {
        if k > 0 {
            v.push(',');
            v.push(' ');
        }
        v.push('?');
        k = k + 1;
        assert(v@ =~= places(k as nat));
    }
    v
}

/// A query for the tracks filed in order, narrowed to the roots asked by
/// a further condition: to every root where none is asked.
pub fn and_roots(select: &str, roots: usize) -> (r: String)
    ensures
        roots == 0 ==> r@ == select@ + " ORDER BY tracks.path, tracks.span_start"@,
        roots > 0 ==> r@ == select@ + " AND roots.path IN ("@ + places(roots as nat) + ")"@
            + " ORDER BY tracks.path, tracks.span_start"@,
{
    let mut v = chars_of(select);
    if roots > 0 {
        append_chars(&mut v, &chars_of(" AND roots.path IN ("));
        append_chars(&mut v, &places_of(roots));
        append_chars(&mut v, &chars_of(")"));
    }
    append_chars(&mut v, &chars_of(" ORDER BY tracks.path, tracks.span_start"));
    string_of(&v)
}

/// A query for the tracks filed in order, narrowed to the roots asked by
/// its only condition: to every root where none is asked.
pub fn under_roots(select: &str, roots: usize) -> (r: String)
    ensures
        roots == 0 ==> r@ == select@ + " ORDER BY tracks.path, tracks.span_start"@,
        roots > 0 ==> r@ == select@ + " WHERE roots.path IN ("@ + places(roots as nat) + ")"@
            + " ORDER BY tracks.path, tracks.span_start"@,
{
    let mut v = chars_of(select);
    if roots > 0 {
        append_chars(&mut v, &chars_of(" WHERE roots.path IN ("));
        append_chars(&mut v, &places_of(roots));
        append_chars(&mut v, &chars_of(")"));
    }
    append_chars(&mut v, &chars_of(" ORDER BY tracks.path, tracks.span_start"));
    string_of(&v)
}

/// A count the store holds, where it is one a count can be: none where it
/// is missing, negative or past what 32 bits hold.
pub fn counting(value: Option<i64>) -> (r: Option<u32>)
    ensures
        r == match value {
            Some(v) => if 0 <= v <= u32::MAX {
                Some(v as u32)
            } else {
                None::<u32>
            },
            None => None,
        },
{
    match value {
        Some(v) => if 0 <= v && v <= u32::MAX as i64 {
            Some(v as u32)
        } else {
            None
        },
        None => None,
    }
}

/// The identifier a stored text spells: none where none is stored, and a
/// fault where the text is not one.
pub fn mbid_of(text: Option<String>) -> (r: Result<Option<Mbid>, Error>)
    ensures
        match text {
            None => r matches Ok(None),
            Some(t) => if crate::ids::well_formed_mbid(t@) {
                r matches Ok(Some(id)) && id@ == t@
            } else {
                r matches Err(Error::NotAnMbid { text: e }) && e@ == t@
            },
        },
{
    match text {
        None => Ok(None),
        Some(t) => match Mbid::new(t.as_str()) {
            Some(id) => Ok(Some(id)),
            None => Err(Error::NotAnMbid { text: t }),
        },
    }
}


/// An artist's profile as the catalog stores it, before its identifier
/// is read back.
#[derive(Clone, Debug, PartialEq, Eq)]
pub struct RawArtistDetail {
    pub mbid: Option<String>,
    pub sort_name: Option<String>,
    pub kind: Option<String>,
    pub gender: Option<String>,
    pub country: Option<String>,
    pub area: Option<String>,
    pub began_in: Option<String>,
    pub began: Option<String>,
    pub ended: Option<String>,
    pub has_ended: bool,
    pub disambiguation: Option<String>,
    pub asked: Option<i64>,
    pub answered: Option<i64>,
    pub name: String,
}

impl RawArtistDetail {
    /// The profile with its genres, links and count of releases not held;
    /// a fault where the stored identifier is not one.
    pub fn into_detail(self, genres: Vec<Genre>, links: Vec<Link>, releases_unheld: u32) -> (r:
        Result<ArtistDetail, Error>)
        ensures
            match self.mbid {
                Some(t) => !crate::ids::well_formed_mbid(t@) ==> (r matches Err(
                    Error::NotAnMbid { text: e },
                ) && e@ == t@),
                None => true,
            },
            r is Ok <==> match self.mbid {
                Some(t) => crate::ids::well_formed_mbid(t@),
                None => true,
            },
            r matches Ok(d) ==> ({
                &&& d.name == self.name
                &&& match self.mbid {
                    Some(t) => d.mbid matches Some(id) && id@ == t@,
                    None => d.mbid is None,
                }
                &&& d.sort_name == self.sort_name
                &&& d.kind == self.kind
                &&& d.gender == self.gender
                &&& d.country == self.country
                &&& d.area == self.area
                &&& d.began_in == self.began_in
                &&& d.span == (LifeSpan { begin: self.began, end: self.ended, ended: self.has_ended })
                &&& d.disambiguation == self.disambiguation
                &&& d.asked == self.asked
                &&& d.answered == self.answered
                &&& d.genres == genres
                &&& d.links == links
                &&& d.releases_unheld == releases_unheld
            }),
    {
        let mbid = match mbid_of(self.mbid) {
            Ok(id) => id,
            Err(e) => {
                return Err(e);
            },
        };
        Ok(ArtistDetail {
            name: self.name,
            mbid,
            sort_name: self.sort_name,
            kind: self.kind,
            gender: self.gender,
            country: self.country,
            area: self.area,
            began_in: self.began_in,
            span: LifeSpan { begin: self.began, end: self.ended, ended: self.has_ended },
            disambiguation: self.disambiguation,
            asked: self.asked,
            answered: self.answered,
            genres,
            links,
            releases_unheld,
        })
    }
}



/// A queue kept to be resumed, as read back: its rows in order, the order
/// they were loaded in, the row that was playing and the place in it, and
/// whether the queue was shuffled.
#[derive(Clone, Debug, PartialEq, Eq)]
pub struct Resumed<T> {
    pub rows: Vec<T>,
    pub order: Vec<usize>,
    pub row: usize,
    pub at: u64,
    pub shuffle: bool,
}

/// A number read back from the store, anything below zero read as zero.
pub open spec fn at_least_zero(n: i64) -> int {
    if n < 0 {
        0
    } else {
        n as int
    }
}

/// Whether every row kept names something that can be opened.
pub open spec fn all_openable<T>(kept: Seq<Option<T>>) -> bool {
    forall|i: int| 0 <= i < kept.len() ==> #[trigger] kept[i] is Some
}

/// What a kept queue resumes, once read back from the store: nothing where
/// no row is kept or any row kept names nothing that can be opened; else
/// the rows, in order, with the load order, the row and the place in it,
/// each number below zero read as zero.
pub fn resumed<T>(kept: Vec<Option<T>>, order: &[i64], row: i64, at: i64, shuffle: bool) -> (r:
    Option<Resumed<T>>)
    ensures
        kept@.len() == 0 || !all_openable(kept@) ==> r is None,
        kept@.len() > 0 && all_openable(kept@) ==> (r matches Some(q) && q.rows@.len()
            == kept@.len() && (forall|i: int|
            0 <= i < kept@.len() ==> Some(#[trigger] q.rows@[i]) == kept@[i]) && q.order@.len()
            == order@.len() && (forall|i: int|
            0 <= i < order@.len() ==> #[trigger] q.order@[i] == at_least_zero(order@[i]) as usize)
            && q.row == at_least_zero(row) as usize && q.at == at_least_zero(at) as u64 && q.shuffle
            == shuffle),
{
    let n = kept.len();
    let mut rows: Vec<T> = Vec::new();
    let ghost all = kept@;
    let mut rest = kept;
    let mut i: usize = 0;
    while i < n
        invariant
            n == all.len(),
            all == kept@,
            i <= n,
            rest@ == all.skip(i as int),
            rows@.len() == i,
            forall|j: int| 0 <= j < i ==> Some(#[trigger] rows@[j]) == all[j],
        decreases n - i,
    {
        assert(rest@[0] == all[i as int]);
        match rest.remove(0) {
            Some(t) => rows.push(t),
            None => {
                assert(!(all[i as int] is Some));
                assert(!all_openable(all));
                return None;
            },
        }
        assert(rest@ =~= all.skip(i + 1));
        i = i + 1;
    }
    if n == 0 {
        return None;
    }
    assert(all_openable(all)) by {
        assert forall|j: int| 0 <= j < all.len() implies #[trigger] all[j] is Some by {
            assert(Some(rows@[j]) == all[j]);
        }
    }
    let mut loaded: Vec<usize> = Vec::new();
    let mut k: usize = 0;
    while k < order.len()
        invariant
            k <= order@.len(),
            loaded@.len() == k,
            forall|j: int| 0 <= j < k ==> #[trigger] loaded@[j] == at_least_zero(order@[j]) as usize,
        decreases order@.len() - k,
    {
        let v: i64 = if order[k] < 0 {
            0
        } else {
            order[k]
        };
        loaded.push(v as usize);
        k = k + 1;
    }
    let row_at: i64 = if row < 0 {
        0
    } else {
        row
    };
    let place: i64 = if at < 0 {
        0
    } else {
        at
    };
    Some(Resumed { rows, order: loaded, row: row_at as usize, at: place as u64, shuffle })
}

/// A key an order is read by, as written: its column, and ` DESC` after it
/// where it is read downwards.
pub open spec fn key_text(key: (Seq<char>, bool)) -> Seq<char> {
    if key.1 {
        key.0 + " DESC"@
    } else {
        key.0
    }
}

/// An order as written: its keys, in turn, separated by commas.
pub open spec fn ordered_by(keys: Seq<(Seq<char>, bool)>) -> Seq<char> {
    joined(keys.map_values(|k: (Seq<char>, bool)| key_text(k)), ", "@)
}

/// The keys of an order, each read the other way round.
pub open spec fn turned(keys: Seq<(Seq<char>, bool)>) -> Seq<(Seq<char>, bool)> {
    keys.map_values(|k: (Seq<char>, bool)| (k.0, !k.1))
}

/// The keys the tracks pane is read by, read upwards: each a column, and
/// whether it is read downwards.
pub open spec fn track_keys(sort: SortOrder, ranked: bool) -> Seq<(Seq<char>, bool)> {
    match sort {
        SortOrder::Relevance => if ranked {
            seq![("rank"@, false)]
        } else {
            seq![("tracks.album_id"@, false), ("tracks.disc_number"@, false), ("tracks.track_number"@, false), ("tracks.title COLLATE NOCASE"@, false)]
        },
        SortOrder::AlbumThenTrack => seq![("tracks.album_id"@, false), ("tracks.disc_number"@, false), ("tracks.track_number"@, false), ("tracks.title COLLATE NOCASE"@, false)],
        SortOrder::Title => seq![("tracks.title COLLATE NOCASE"@, false)],
        SortOrder::Artist => seq![("tracks.artist COLLATE NOCASE"@, false), ("tracks.album_id"@, false), ("tracks.disc_number"@, false), ("tracks.track_number"@, false)],
        SortOrder::DateAdded => seq![("tracks.added"@, false)],
        SortOrder::Duration => seq![("tracks.duration"@, false)],
        SortOrder::Plays => seq![("tracks.plays"@, false), ("tracks.title COLLATE NOCASE"@, true)],
        SortOrder::Played => seq![("tracks.played"@, false), ("tracks.title COLLATE NOCASE"@, true)],
        SortOrder::Favourited => seq![("tracks.favourite"@, false), ("tracks.title COLLATE NOCASE"@, true)],
    }
}

/// The keys the albums pane is read by, read upwards: each a column, and
/// whether it is read downwards.
pub open spec fn album_keys(sort: AlbumOrder, ranked: bool) -> Seq<(Seq<char>, bool)> {
    match sort {
        AlbumOrder::Relevance => if ranked {
            seq![("matched.score"@, false), ("coalesce(a.release_title, a.title) COLLATE NOCASE"@, false)]
        } else {
            seq![("coalesce(a.release_title, a.title) COLLATE NOCASE"@, false)]
        },
        AlbumOrder::Title => seq![("coalesce(a.release_title, a.title) COLLATE NOCASE"@, false)],
        AlbumOrder::Artist => seq![("(SELECT r.name FROM artists r WHERE r.id = a.artist_id) COLLATE NOCASE"@, false), ("a.year"@, false), ("coalesce(a.release_title, a.title) COLLATE NOCASE"@, false)],
        AlbumOrder::Year => seq![("a.year IS NULL"@, false), ("a.year"@, false), ("coalesce(a.release_title, a.title) COLLATE NOCASE"@, false)],
        AlbumOrder::Tracks => seq![("(SELECT count(*) FROM tracks t WHERE t.album_id = a.id AND t.alternative_of IS NULL AND t.hidden = 0)"@, false), ("coalesce(a.release_title, a.title) COLLATE NOCASE"@, false)],
        AlbumOrder::Added => seq![("(SELECT max(t.added) FROM tracks t WHERE t.album_id = a.id)"@, false), ("coalesce(a.release_title, a.title) COLLATE NOCASE"@, false)],
        AlbumOrder::Favourited => seq![("a.favourite"@, false), ("coalesce(a.release_title, a.title) COLLATE NOCASE"@, false)],
    }
}

/// Read downwards, the tracks pane is read by the keys it is read by
/// upwards, in the same order, each the other way round.
pub proof fn tracks_read_down_turn_each_key(sort: SortOrder, ranked: bool)
    ensures
        track_reading(sort, ranked).0@ == ordered_by(track_keys(sort, ranked)),
        track_reading(sort, ranked).1@ == ordered_by(turned(track_keys(sort, ranked))),
        sort == SortOrder::Relevance && ranked ==> track_keys(sort, ranked) == seq![("rank"@, false)],
        sort == SortOrder::Relevance && !ranked ==> track_reading(sort, ranked) == track_reading(
            SortOrder::AlbumThenTrack,
            ranked,
        ),
{
    reveal_strlit(", ");
    reveal_strlit(" DESC");
    reveal_strlit("rank");
    reveal_strlit("rank DESC");
    reveal_strlit("tracks.album_id, tracks.disc_number, tracks.track_number, tracks.title COLLATE NOCASE");
    reveal_strlit("tracks.album_id DESC, tracks.disc_number DESC, tracks.track_number DESC, tracks.title COLLATE NOCASE DESC");
    reveal_strlit("tracks.album_id");
    reveal_strlit("tracks.disc_number");
    reveal_strlit("tracks.track_number");
    reveal_strlit("tracks.title COLLATE NOCASE");
    reveal_strlit("tracks.title COLLATE NOCASE DESC");
    reveal_strlit("tracks.artist COLLATE NOCASE, tracks.album_id, tracks.disc_number, tracks.track_number");
    reveal_strlit("tracks.artist COLLATE NOCASE DESC, tracks.album_id DESC, tracks.disc_number DESC, tracks.track_number DESC");
    reveal_strlit("tracks.artist COLLATE NOCASE");
    reveal_strlit("tracks.added");
    reveal_strlit("tracks.added DESC");
    reveal_strlit("tracks.duration");
    reveal_strlit("tracks.duration DESC");
    reveal_strlit("tracks.plays, tracks.title COLLATE NOCASE DESC");
    reveal_strlit("tracks.plays DESC, tracks.title COLLATE NOCASE");
    reveal_strlit("tracks.plays");
    reveal_strlit("tracks.played, tracks.title COLLATE NOCASE DESC");
    reveal_strlit("tracks.played DESC, tracks.title COLLATE NOCASE");
    reveal_strlit("tracks.played");
    reveal_strlit("tracks.favourite, tracks.title COLLATE NOCASE DESC");
    reveal_strlit("tracks.favourite DESC, tracks.title COLLATE NOCASE");
    reveal_strlit("tracks.favourite");
    reveal_with_fuel(joined, 6);
    let keys = track_keys(sort, ranked);
    assert(track_reading(sort, ranked).0@ =~= ordered_by(keys));
    assert(track_reading(sort, ranked).1@ =~= ordered_by(turned(keys)));

}

/// Read downwards, the albums pane is read by the keys it is read by
/// upwards, in the same order, each the other way round.
pub proof fn albums_read_down_turn_each_key(sort: AlbumOrder, ranked: bool)
    ensures
        album_reading(sort, ranked).0@ == ordered_by(album_keys(sort, ranked)),
        album_reading(sort, ranked).1@ == ordered_by(turned(album_keys(sort, ranked))),
        album_keys(sort, ranked)[0].0 == "matched.score"@ <==> (sort == AlbumOrder::Relevance
            && ranked),
        sort == AlbumOrder::Relevance && !ranked ==> album_reading(sort, ranked) == album_reading(
            AlbumOrder::Title,
            ranked,
        ),
{
    reveal_strlit("matched.score");
    reveal_strlit(", ");
    reveal_strlit(" DESC");
    reveal_strlit("matched.score, coalesce(a.release_title, a.title) COLLATE NOCASE");
    reveal_strlit("matched.score DESC, coalesce(a.release_title, a.title) COLLATE NOCASE DESC");
    reveal_strlit("coalesce(a.release_title, a.title) COLLATE NOCASE");
    reveal_strlit("coalesce(a.release_title, a.title) COLLATE NOCASE DESC");
    reveal_strlit("(SELECT r.name FROM artists r WHERE r.id = a.artist_id) COLLATE NOCASE, a.year, coalesce(a.release_title, a.title) COLLATE NOCASE");
    reveal_strlit("(SELECT r.name FROM artists r WHERE r.id = a.artist_id) COLLATE NOCASE DESC, a.year DESC, coalesce(a.release_title, a.title) COLLATE NOCASE DESC");
    reveal_strlit("(SELECT r.name FROM artists r WHERE r.id = a.artist_id) COLLATE NOCASE");
    reveal_strlit("a.year");
    reveal_strlit("a.year IS NULL, a.year, coalesce(a.release_title, a.title) COLLATE NOCASE");
    reveal_strlit("a.year IS NULL DESC, a.year DESC, coalesce(a.release_title, a.title) COLLATE NOCASE DESC");
    reveal_strlit("a.year IS NULL");
    reveal_strlit("(SELECT count(*) FROM tracks t WHERE t.album_id = a.id AND t.alternative_of IS NULL AND t.hidden = 0), coalesce(a.release_title, a.title) COLLATE NOCASE");
    reveal_strlit("(SELECT count(*) FROM tracks t WHERE t.album_id = a.id AND t.alternative_of IS NULL AND t.hidden = 0) DESC, coalesce(a.release_title, a.title) COLLATE NOCASE DESC");
    reveal_strlit("(SELECT count(*) FROM tracks t WHERE t.album_id = a.id AND t.alternative_of IS NULL AND t.hidden = 0)");
    reveal_strlit("(SELECT max(t.added) FROM tracks t WHERE t.album_id = a.id), coalesce(a.release_title, a.title) COLLATE NOCASE");
    reveal_strlit("(SELECT max(t.added) FROM tracks t WHERE t.album_id = a.id) DESC, coalesce(a.release_title, a.title) COLLATE NOCASE DESC");
    reveal_strlit("(SELECT max(t.added) FROM tracks t WHERE t.album_id = a.id)");
    reveal_strlit("a.favourite, coalesce(a.release_title, a.title) COLLATE NOCASE");
    reveal_strlit("a.favourite DESC, coalesce(a.release_title, a.title) COLLATE NOCASE DESC");
    reveal_strlit("a.favourite");
    reveal_with_fuel(joined, 6);
    let keys = album_keys(sort, ranked);
    assert(album_reading(sort, ranked).0@ =~= ordered_by(keys));
    assert(album_reading(sort, ranked).1@ =~= ordered_by(turned(keys)));

}

} // verus!
