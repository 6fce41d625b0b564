//! What the catalog hands out: albums and tracks to ask about, what a
//! release holds, and the formats a playlist is written in. Times are
//! nanoseconds since the Unix epoch and lengths are milliseconds.
use vstd::prelude::*;

use crate::ids::{AlbumId, ArtistId, Link, Mbid, TrackId};
use crate::reference::{Genre, LifeSpan};
use crate::text::{chars_of, lowered_ascii};

verus! {

broadcast use vstd::string::group_string_axioms;

/// Where an album's cover came from.
#[derive(Clone, Copy, Debug, Default, PartialEq, Eq, Structural, Hash)]
pub enum CoverSource {
    #[default]
    File,
    Archive,
    Vault,
}

/// What a release out of the vault freed, and what it could not.
#[derive(Clone, Copy, Debug, Default, PartialEq, Eq, Structural)]
pub struct Released {
    pub released: u64,
    pub stranded: u64,
}

/// What a prune of the vault took away.
#[derive(Clone, Copy, Debug, Default, PartialEq, Eq, Structural)]
pub struct Pruned {
    pub objects: u64,
    pub covers: u64,
    pub staged: u64,
}

/// How much a query holds: rows, their length in milliseconds, and how many
/// are lossless.
#[derive(Clone, Copy, Debug, Default, PartialEq, Eq, Structural)]
pub struct Measured {
    pub rows: u32,
    pub length: Option<u64>,
    pub lossless: u32,
}

/// What the catalog holds of an artist.
#[derive(Clone, Copy, Debug, Default, PartialEq, Eq, Structural)]
pub struct ArtistTotals {
    pub albums: u32,
    pub tracks: u32,
    pub length: Option<u64>,
    pub plays: u32,
    pub played: Option<i64>,
}

/// A medium of a release the catalog holds.
#[derive(Clone, Debug, PartialEq, Eq)]
pub struct HeldMedium {
    pub position: u32,
    pub format: Option<String>,
    pub title: Option<String>,
}

/// What the catalog holds of the release an album was matched to.
#[derive(Clone, Debug, PartialEq, Eq)]
pub struct ReleaseDetail {
    pub mbid: Option<Mbid>,
    pub group: Option<Mbid>,
    pub date: Option<String>,
    pub country: Option<String>,
    pub label: Option<String>,
    pub catalog_number: Option<String>,
    pub barcode: Option<String>,
    pub kind: Option<String>,
    pub disambiguation: Option<String>,
    pub cover_source: CoverSource,
    pub asked: Option<i64>,
    pub answered: Option<i64>,
    pub links: Vec<Link>,
    pub media: Vec<HeldMedium>,
}

/// What the catalog holds of an artist's profile.
#[derive(Clone, Debug, PartialEq, Eq)]
pub struct ArtistDetail {
    pub name: String,
    pub mbid: Option<Mbid>,
    pub sort_name: Option<String>,
    pub kind: Option<String>,
    pub gender: Option<String>,
    pub country: Option<String>,
    pub area: Option<String>,
    pub began_in: Option<String>,
    pub span: LifeSpan,
    pub disambiguation: Option<String>,
    pub asked: Option<i64>,
    pub answered: Option<i64>,
    pub genres: Vec<Genre>,
    pub links: Vec<Link>,
    pub releases_unheld: u32,
}

/// How much of what the releases hold the catalog has no file for.
#[derive(Clone, Copy, Debug, Default, PartialEq, Eq, Structural)]
pub struct Missing {
    pub tracks: u64,
    pub releases: u64,
}

/// Lyrics kept for a track, and when they were taken.
#[derive(Clone, Debug, PartialEq, Eq)]
pub struct KeptLyrics {
    pub text: Option<String>,
    pub synced: bool,
    pub taken: i64,
}

/// An index kept from a service, and when it was taken.
#[derive(Clone, Debug, PartialEq, Eq)]
pub struct KeptIndex {
    pub text: String,
    pub taken: i64,
}

/// A correction kept from a service, and when it was taken.
#[derive(Clone, Debug, PartialEq, Eq)]
pub struct KeptCorrection {
    pub text: Option<String>,
    pub taken: i64,
}

/// A lookup pass that began and never finished.
#[derive(Clone, Copy, Debug, PartialEq, Eq, Structural)]
pub struct Unfinished {
    pub refresh: bool,
    pub began: i64,
}

/// An album as it is asked about.
#[derive(Clone, Debug, PartialEq, Eq)]
pub struct AlbumToAsk {
    pub id: AlbumId,
    pub title: String,
    pub owner: Option<String>,
    pub track_count: u32,
    pub year: Option<i32>,
    pub mbid: Option<Mbid>,
    pub group: Option<Mbid>,
    pub barcode: Option<String>,
    pub catalog_number: Option<String>,
    pub tagged_tracks: Option<u32>,
    pub owner_mbid: Option<Mbid>,
    pub has_cover: bool,
    pub has_release_rows: bool,
    pub rematch_only: bool,
}

/// A track as it is asked about. Its location is the text of its URI, and
/// its length is in milliseconds.
#[derive(Clone, Debug, PartialEq, Eq)]
pub struct TrackToAsk {
    pub id: TrackId,
    pub title: String,
    pub tagged_title: Option<String>,
    pub artist: Option<String>,
    pub tagged_artist: Option<String>,
    pub artist_mbid: Option<Mbid>,
    pub album: Option<AlbumId>,
    pub album_title: Option<String>,
    pub album_answered: bool,
    pub owner: Option<String>,
    pub owner_mbid: Option<Mbid>,
    pub location: String,
    pub length: Option<u64>,
    pub mbid: Option<Mbid>,
    pub isrc: Option<String>,
}

/// An artist as it is asked about.
#[derive(Clone, Debug, PartialEq, Eq)]
pub struct ArtistToAsk {
    pub id: ArtistId,
    pub name: String,
    pub mbid: Option<Mbid>,
    pub has_portrait: bool,
}

/// The formats a playlist is read from and written in.
#[derive(Clone, Copy, Debug, Default, PartialEq, Eq, Structural, Hash)]
pub enum PlaylistFormat {
    #[default]
    M3u,
    Pls,
    Xspf,
}

/// The final part of a path: what follows its last `/`.
pub open spec fn file_name(path: Seq<char>) -> Seq<char>
    decreases path.len(),
{
    if path.len() == 0 {
        path
    } else if path.last() == '/' {
        seq![]
    } else {
        file_name(path.drop_last()).push(path.last())
    }
}

/// Where the last `.` in a name stands.
pub open spec fn last_dot(name: Seq<char>) -> Option<int>
    decreases name.len(),
{
    if name.len() == 0 {
        None
    } else if name.last() == '.' {
        Some(name.len() - 1)
    } else {
        last_dot(name.drop_last())
    }
}

/// The extension a file name carries: what follows its last `.`, where
/// something stands before that dot.
pub open spec fn extension(name: Seq<char>) -> Option<Seq<char>> {
    match last_dot(name) {
        Some(at) => if at > 0 {
            Some(name.subrange(at + 1, name.len() as int))
        } else {
            None
        },
        None => None,
    }
}

/// The format a path's extension names, or M3U where it names none of them.
pub open spec fn format_named(ext: Option<Seq<char>>) -> PlaylistFormat {
    match ext {
        Some(e) => {
            let low = crate::text::lowered(e);
            if low == "m3u"@ || low == "m3u8"@ {
                PlaylistFormat::M3u
            } else if low == "pls"@ {
                PlaylistFormat::Pls
            } else if low == "xspf"@ {
                PlaylistFormat::Xspf
            } else {
                PlaylistFormat::M3u
            }
        },
        None => PlaylistFormat::M3u,
    }
}

fn same_text(a: &[char], b: &str) -> (r: bool)
    ensures
        r == (a@ == b@),
{
    let w = chars_of(b);
    if a.len() != w.len() {
        return false;
    }
    let mut i: usize = 0;
    while i < a.len()
        invariant
            i <= a@.len(),
            a@.len() == w@.len(),
            w@ == b@,
            forall|k: int| 0 <= k < i ==> a@[k] == w@[k],
        decreases a@.len() - i,
    {
        if a[i] != w[i] {
            return false;
        }
        i = i + 1;
    }
    assert(a@ =~= w@);
    true
}

/// Where the final part of a path starts: after its last `/`.
pub fn file_name_start(v: &[char]) -> (start: usize)
    ensures
        start <= v@.len(),
        file_name(v@) == v@.subrange(start as int, v@.len() as int),
{
    assert(v@.subrange(0, v@.len() as int) =~= v@);
    assert(v@.subrange(v@.len() as int, v@.len() as int) =~= seq![]);
    assert(file_name(v@) + seq![] =~= file_name(v@));
    let mut start: usize = v.len();
    while start > 0 && v[start - 1] != '/'
        invariant
            start <= v@.len(),
            file_name(v@) == file_name(v@.subrange(0, start as int)) + v@.subrange(
                start as int,
                v@.len() as int,
            ),
        decreases start,
    {
        assert(v@.subrange(0, start as int).drop_last() =~= v@.subrange(0, start - 1));
        assert(file_name(v@.subrange(0, start as int)) == file_name(
            v@.subrange(0, start - 1),
        ).push(v@[start - 1]));
        assert(file_name(v@.subrange(0, start - 1)).push(v@[start - 1]) + v@.subrange(
            start as int,
            v@.len() as int,
        ) =~= file_name(v@.subrange(0, start - 1)) + v@.subrange(start - 1, v@.len() as int));
        start = start - 1;
    }
    assert(file_name(v@.subrange(0, start as int)) =~= seq![]);
    assert(file_name(v@) =~= v@.subrange(start as int, v@.len() as int));
    start
}

impl PlaylistFormat {
    /// The format a path names by its extension, read without regard to
    /// ASCII case; M3U where it names none.
    pub fn of(path: &str) -> (r: PlaylistFormat)
        ensures
            r == format_named(extension(file_name(path@))),
    {
        let v = chars_of(path);
        assert(v@.subrange(0, v@.len() as int) =~= v@);
        assert(v@.subrange(v@.len() as int, v@.len() as int) =~= seq![]);
        assert(file_name(v@) + seq![] =~= file_name(v@));
        let mut start: usize = v.len();
        while start > 0 && v[start - 1] != '/'
            invariant
                start <= v@.len(),
                file_name(v@) == file_name(v@.subrange(0, start as int)) + v@.subrange(
                    start as int,
                    v@.len() as int,
                ),
                forall|k: int| start <= k < v@.len() ==> v@[k] != '/',
            decreases start,
        {
            assert(v@.subrange(0, start as int).drop_last() =~= v@.subrange(0, start - 1));
            assert(file_name(v@.subrange(0, start as int)) == file_name(
                v@.subrange(0, start - 1),
            ).push(v@[start - 1]));
            assert(file_name(v@.subrange(0, start - 1)).push(v@[start - 1]) + v@.subrange(
                start as int,
                v@.len() as int,
            ) =~= file_name(v@.subrange(0, start - 1)) + v@.subrange(
                start - 1,
                v@.len() as int,
            ));
            start = start - 1;
        }
        assert(v@.subrange(0, v@.len() as int) =~= v@);
        assert(file_name(v@.subrange(0, start as int)) =~= seq![]);
        let name = crate::text::slice_of(&v, start, v.len());
        assert(file_name(v@) =~= name@);
        assert(name@.subrange(0, name@.len() as int) =~= name@);
        let mut dot: usize = name.len();
        while dot > 0 && name[dot - 1] != '.'
            invariant
                dot <= name@.len(),
                last_dot(name@) == last_dot(name@.subrange(0, dot as int)),
            decreases dot,
        {
            assert(name@.subrange(0, dot as int).drop_last() =~= name@.subrange(0, dot - 1));
            dot = dot - 1;
        }
        assert(name@.subrange(0, name@.len() as int) =~= name@);
        if dot <= 1 {
            if dot == 1 {
                assert(name@.subrange(0, 1).last() == '.');
            }
            return PlaylistFormat::M3u;
        }
        assert(name@.subrange(0, dot as int).last() == '.');
        let ext = crate::text::slice_of(&name, dot, name.len());
        let low = lowered_ascii(&ext);
        if same_text(&low, "m3u") || same_text(&low, "m3u8") {
            PlaylistFormat::M3u
        } else if same_text(&low, "pls") {
            PlaylistFormat::Pls
        } else if same_text(&low, "xspf") {
            PlaylistFormat::Xspf
        } else {
            PlaylistFormat::M3u
        }
    }

    /// The extension a playlist written in the format is given.
    pub fn extension(self) -> (r: &'static str)
        ensures
            r@ == (match self {
                PlaylistFormat::M3u => "m3u8"@,
                PlaylistFormat::Pls => "pls"@,
                PlaylistFormat::Xspf => "xspf"@,
            }),
    {
        match self {
            PlaylistFormat::M3u => "m3u8",
            PlaylistFormat::Pls => "pls",
            PlaylistFormat::Xspf => "xspf",
        }
    }

    /// The format's name, as a person reads it.
    pub fn name(self) -> (r: &'static str)
        ensures
            r@ == (match self {
                PlaylistFormat::M3u => "M3U"@,
                PlaylistFormat::Pls => "PLS"@,
                PlaylistFormat::Xspf => "XSPF"@,
            }),
    {
        match self {
            PlaylistFormat::M3u => "M3U",
            PlaylistFormat::Pls => "PLS",
            PlaylistFormat::Xspf => "XSPF",
        }
    }
}

/// The encodings a playlist sheet is read in.
#[derive(Clone, Copy, Debug, Default, PartialEq, Eq, Structural, Hash)]
pub enum SheetEncoding {
    #[default]
    Utf8,
    Windows1252,
}

impl SheetEncoding {
    /// The encoding's name, as a person reads it.
    pub fn name(self) -> (r: &'static str)
        ensures
            r@ == (match self {
                SheetEncoding::Utf8 => "UTF-8"@,
                SheetEncoding::Windows1252 => "Windows-1252"@,
            }),
    {
        match self {
            SheetEncoding::Utf8 => "UTF-8",
            SheetEncoding::Windows1252 => "Windows-1252",
        }
    }
}

/// What an export wrote.
#[derive(Clone, Copy, Debug, PartialEq, Eq, Structural, Hash)]
pub struct Exported {
    pub rows: usize,
    pub format: PlaylistFormat,
}

} // verus!
