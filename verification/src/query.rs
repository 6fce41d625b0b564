//! How the catalog's panes are sorted, and which way round each is read.
use vstd::prelude::*;

use crate::ids::{AlbumId, ArtistId};

verus! {

/// Which way round a list is read.
#[derive(Clone, Copy, Debug, Default, PartialEq, Eq, Structural, Hash)]
pub enum Direction {
    #[default]
    Ascending,
    Descending,
}

/// The other way round.
pub open spec fn flip(d: Direction) -> Direction {
    match d {
        Direction::Ascending => Direction::Descending,
        Direction::Descending => Direction::Ascending,
    }
}

impl Direction {
    /// Both ways round, ascending first.
    pub fn all() -> (r: [Direction; 2])
        ensures
            r@ == seq![Direction::Ascending, Direction::Descending],
    {
        [Direction::Ascending, Direction::Descending]
    }

    /// The other way round.
    pub fn flipped(self) -> (r: Direction)
        ensures
            r == flip(self),
    {
        match self {
            Direction::Ascending => Direction::Descending,
            Direction::Descending => Direction::Ascending,
        }
    }
}

/// Flipping a reading twice reads it as it was, and flipping it once never
/// does.
pub proof fn flipping_twice_is_no_flip(d: Direction)
    ensures
        flip(flip(d)) == d,
        flip(d) != d,
{
}

/// How the tracks pane is sorted.
#[derive(Clone, Copy, Debug, Default, PartialEq, Eq, Structural, Hash)]
pub enum SortOrder {
    #[default]
    Relevance,
    AlbumThenTrack,
    Title,
    Artist,
    DateAdded,
    Duration,
    Plays,
    Played,
    Favourited,
}

/// Which way round a track order is first read: what grows with time or use
/// is read from the most down, the rest from the first up.
pub open spec fn sort_reads(s: SortOrder) -> Direction {
    match s {
        SortOrder::Relevance | SortOrder::AlbumThenTrack | SortOrder::Title | SortOrder::Artist
        | SortOrder::Duration => Direction::Ascending,
        SortOrder::DateAdded | SortOrder::Plays | SortOrder::Played | SortOrder::Favourited => {
            Direction::Descending
        },
    }
}

impl SortOrder {
    /// Every order the tracks pane offers, in the order it offers them.
    pub fn all() -> (r: [SortOrder; 9])
        ensures
            r@ == seq![
                SortOrder::Relevance,
                SortOrder::AlbumThenTrack,
                SortOrder::Title,
                SortOrder::Artist,
                SortOrder::DateAdded,
                SortOrder::Duration,
                SortOrder::Plays,
                SortOrder::Played,
                SortOrder::Favourited,
            ],
    {
        [
            SortOrder::Relevance,
            SortOrder::AlbumThenTrack,
            SortOrder::Title,
            SortOrder::Artist,
            SortOrder::DateAdded,
            SortOrder::Duration,
            SortOrder::Plays,
            SortOrder::Played,
            SortOrder::Favourited,
        ]
    }

    /// Which way round the order is first read.
    pub fn reads(self) -> (r: Direction)
        ensures
            r == sort_reads(self),
    {
        match self {
            SortOrder::Relevance | SortOrder::AlbumThenTrack | SortOrder::Title
            | SortOrder::Artist | SortOrder::Duration => Direction::Ascending,
            SortOrder::DateAdded | SortOrder::Plays | SortOrder::Played
            | SortOrder::Favourited => Direction::Descending,
        }
    }
}

/// How the albums pane is sorted.
#[derive(Clone, Copy, Debug, Default, PartialEq, Eq, Structural, Hash)]
pub enum AlbumOrder {
    #[default]
    Relevance,
    Title,
    Artist,
    Year,
    Tracks,
    Added,
    Favourited,
}

/// Which way round an album order is first read.
pub open spec fn album_reads(s: AlbumOrder) -> Direction {
    match s {
        AlbumOrder::Relevance | AlbumOrder::Title | AlbumOrder::Artist => Direction::Ascending,
        AlbumOrder::Year | AlbumOrder::Tracks | AlbumOrder::Added | AlbumOrder::Favourited => {
            Direction::Descending
        },
    }
}

impl AlbumOrder {
    /// Every order the albums pane offers.
    pub fn all() -> (r: [AlbumOrder; 7])
        ensures
            r@ == seq![
                AlbumOrder::Relevance,
                AlbumOrder::Title,
                AlbumOrder::Artist,
                AlbumOrder::Year,
                AlbumOrder::Tracks,
                AlbumOrder::Added,
                AlbumOrder::Favourited,
            ],
    {
        [
            AlbumOrder::Relevance,
            AlbumOrder::Title,
            AlbumOrder::Artist,
            AlbumOrder::Year,
            AlbumOrder::Tracks,
            AlbumOrder::Added,
            AlbumOrder::Favourited,
        ]
    }

    /// Which way round the order is first read.
    pub fn reads(self) -> (r: Direction)
        ensures
            r == album_reads(self),
    {
        match self {
            AlbumOrder::Relevance | AlbumOrder::Title | AlbumOrder::Artist => Direction::Ascending,
            AlbumOrder::Year | AlbumOrder::Tracks | AlbumOrder::Added | AlbumOrder::Favourited => {
                Direction::Descending
            },
        }
    }
}

/// How the artists pane is sorted.
#[derive(Clone, Copy, Debug, Default, PartialEq, Eq, Structural, Hash)]
pub enum ArtistOrder {
    #[default]
    Relevance,
    Name,
    Albums,
    Tracks,
    Favourited,
}

/// Which way round an artist order is first read.
pub open spec fn artist_reads(s: ArtistOrder) -> Direction {
    match s {
        ArtistOrder::Relevance | ArtistOrder::Name => Direction::Ascending,
        ArtistOrder::Albums | ArtistOrder::Tracks | ArtistOrder::Favourited => {
            Direction::Descending
        },
    }
}

impl ArtistOrder {
    /// Every order the artists pane offers.
    pub fn all() -> (r: [ArtistOrder; 5])
        ensures
            r@ == seq![
                ArtistOrder::Relevance,
                ArtistOrder::Name,
                ArtistOrder::Albums,
                ArtistOrder::Tracks,
                ArtistOrder::Favourited,
            ],
    {
        [
            ArtistOrder::Relevance,
            ArtistOrder::Name,
            ArtistOrder::Albums,
            ArtistOrder::Tracks,
            ArtistOrder::Favourited,
        ]
    }

    /// Which way round the order is first read.
    pub fn reads(self) -> (r: Direction)
        ensures
            r == artist_reads(self),
    {
        match self {
            ArtistOrder::Relevance | ArtistOrder::Name => Direction::Ascending,
            ArtistOrder::Albums | ArtistOrder::Tracks | ArtistOrder::Favourited => {
                Direction::Descending
            },
        }
    }
}

/// How the playlists pane is sorted.
#[derive(Clone, Copy, Debug, Default, PartialEq, Eq, Structural, Hash)]
pub enum PlaylistOrder {
    #[default]
    Name,
    Created,
    Modified,
    Played,
    Plays,
}

/// Which way round a playlist order is first read.
pub open spec fn playlist_reads(s: PlaylistOrder) -> Direction {
    match s {
        PlaylistOrder::Name => Direction::Ascending,
        _ => Direction::Descending,
    }
}

impl PlaylistOrder {
    /// Every order the playlists pane offers.
    pub fn all() -> (r: [PlaylistOrder; 5])
        ensures
            r@ == seq![
                PlaylistOrder::Name,
                PlaylistOrder::Created,
                PlaylistOrder::Modified,
                PlaylistOrder::Played,
                PlaylistOrder::Plays,
            ],
    {
        [
            PlaylistOrder::Name,
            PlaylistOrder::Created,
            PlaylistOrder::Modified,
            PlaylistOrder::Played,
            PlaylistOrder::Plays,
        ]
    }

    /// Which way round the order is first read.
    pub fn reads(self) -> (r: Direction)
        ensures
            r == playlist_reads(self),
    {
        match self {
            PlaylistOrder::Name => Direction::Ascending,
            PlaylistOrder::Created | PlaylistOrder::Modified | PlaylistOrder::Played
            | PlaylistOrder::Plays => Direction::Descending,
        }
    }
}

/// The order a playlist's rows are kept in.
#[derive(Clone, Copy, Debug, Default, PartialEq, Eq, Structural, Hash)]
pub enum RowOrder {
    #[default]
    Album,
    Artist,
    Title,
    Length,
    File,
}

impl RowOrder {
    /// Every order a playlist's rows can be kept in.
    pub fn all() -> (r: [RowOrder; 5])
        ensures
            r@ == seq![
                RowOrder::Album,
                RowOrder::Artist,
                RowOrder::Title,
                RowOrder::Length,
                RowOrder::File,
            ],
    {
        [RowOrder::Album, RowOrder::Artist, RowOrder::Title, RowOrder::Length, RowOrder::File]
    }

    /// Whether keeping the order reads the catalog: every order but the
    /// file's own does.
    pub fn reads_the_catalog(self) -> (r: bool)
        ensures
            r == !(self is File),
    {
        match self {
            RowOrder::File => false,
            _ => true,
        }
    }
}

/// The order a playlist's rows are kept in, and which way round.
#[derive(Clone, Copy, Debug, Default, PartialEq, Eq, Structural, Hash)]
pub struct Kept {
    pub order: RowOrder,
    pub reading: Direction,
}

/// A query a playlist fills itself from.
#[derive(Clone, Debug, Default, PartialEq, Eq, Hash)]
pub struct SavedQuery {
    pub text: Option<String>,
    pub sort: SortOrder,
    pub reading: Direction,
    pub limit: Option<usize>,
}

/// What the tracks pane asks the catalog for.
#[derive(Clone, Debug, PartialEq, Eq)]
pub struct TrackQuery {
    pub album: Option<AlbumId>,
    pub artist: Option<ArtistId>,
    pub text: Option<String>,
    pub sort: SortOrder,
    pub reading: Direction,
    pub limit: Option<usize>,
    pub offset: usize,
}

impl TrackQuery {
    /// The query a saved one asks: the same text, order, reading and limit,
    /// over the whole catalog from its first row.
    pub fn saved(saved: &SavedQuery) -> (r: TrackQuery)
        ensures
            r.album is None,
            r.artist is None,
            r.text == saved.text,
            r.sort == saved.sort,
            r.reading == saved.reading,
            r.limit == saved.limit,
            r.offset == 0,
    {
        TrackQuery {
            album: None,
            artist: None,
            text: saved.text.clone(),
            sort: saved.sort,
            reading: saved.reading,
            limit: saved.limit,
            offset: 0,
        }
    }
}

impl Default for TrackQuery {
    /// Every track, in the default order, read its own way round.
    fn default() -> (r: TrackQuery)
        ensures
            r.album is None,
            r.artist is None,
            r.text is None,
            r.sort == SortOrder::Relevance,
            r.reading == sort_reads(SortOrder::Relevance),
            r.limit is None,
            r.offset == 0,
    {
        let sort = SortOrder::Relevance;
        TrackQuery {
            album: None,
            artist: None,
            text: None,
            sort,
            reading: sort.reads(),
            limit: None,
            offset: 0,
        }
    }
}

/// What the artists pane asks the catalog for.
#[derive(Clone, Debug, PartialEq, Eq)]
pub struct ArtistQuery {
    pub text: Option<String>,
    pub sort: ArtistOrder,
    pub reading: Direction,
    pub limit: Option<usize>,
    pub offset: usize,
}

impl Default for ArtistQuery {
    /// Every artist, in the default order, read its own way round.
    fn default() -> (r: ArtistQuery)
        ensures
            r.text is None,
            r.sort == ArtistOrder::Relevance,
            r.reading == artist_reads(ArtistOrder::Relevance),
            r.limit is None,
            r.offset == 0,
    {
        let sort = ArtistOrder::Relevance;
        ArtistQuery { text: None, sort, reading: sort.reads(), limit: None, offset: 0 }
    }
}

/// What the albums pane asks the catalog for.
#[derive(Clone, Debug, PartialEq, Eq)]
pub struct AlbumQuery {
    pub artist: Option<ArtistId>,
    pub text: Option<String>,
    pub sort: AlbumOrder,
    pub reading: Direction,
    pub limit: Option<usize>,
    pub offset: usize,
}

impl Default for AlbumQuery {
    /// Every album, in the default order, read its own way round.
    fn default() -> (r: AlbumQuery)
        ensures
            r.artist is None,
            r.text is None,
            r.sort == AlbumOrder::Relevance,
            r.reading == album_reads(AlbumOrder::Relevance),
            r.limit is None,
            r.offset == 0,
    {
        let sort = AlbumOrder::Relevance;
        AlbumQuery { artist: None, text: None, sort, reading: sort.reads(), limit: None, offset: 0 }
    }
}

} // verus!
