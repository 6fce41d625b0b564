//! The names the catalog gives its rows, and the identifiers MusicBrainz
//! gives what it knows.
use vstd::prelude::*;

use crate::text::chars_of;

verus! {

broadcast use vstd::string::group_string_axioms;

/// Whether a character is a hexadecimal digit, in either case.
pub open spec fn is_hex(c: char) -> bool {
    ('0' <= c && c <= '9') || ('a' <= c && c <= 'f') || ('A' <= c && c <= 'F')
}

/// Whether the text is a MusicBrainz identifier: thirty-two hexadecimal
/// digits in groups of eight, four, four, four and twelve, joined by hyphens.
pub open spec fn well_formed_mbid(s: Seq<char>) -> bool {
    &&& s.len() == 36
    &&& forall|i: int|
        0 <= i < 36 ==> if i == 8 || i == 13 || i == 18 || i == 23 {
            s[i] == '-'
        } else {
            is_hex(#[trigger] s[i])
        }
}

/// A MusicBrainz identifier.
#[derive(Clone, Debug)]
pub struct Mbid {
    text: String,
}

impl View for Mbid {
    type V = Seq<char>;

    closed spec fn view(&self) -> Seq<char> {
        self.text@
    }
}

impl Mbid {
    /// The identifier the text spells, where it spells one.
    pub fn new(text: &str) -> (r: Option<Mbid>)
        ensures
            r is Some <==> well_formed_mbid(text@),
            r matches Some(id) ==> id@ == text@,
    {
        let v = chars_of(text);
        if v.len() != 36 {
            return None;
        }
        let mut i: usize = 0;
        while i < 36
            invariant
                v@ == text@,
                v@.len() == 36,
                i <= 36,
                forall|k: int|
                    0 <= k < i ==> if k == 8 || k == 13 || k == 18 || k == 23 {
                        v@[k] == '-'
                    } else {
                        is_hex(#[trigger] v@[k])
                    },
            decreases 36 - i,
        {
            let c = v[i];
            let fits = if i == 8 || i == 13 || i == 18 || i == 23 {
                c == '-'
            } else {
                ('0' <= c && c <= '9') || ('a' <= c && c <= 'f') || ('A' <= c && c <= 'F')
            };
            if !fits {
                return None;
            }
            i = i + 1;
        }
        Some(Mbid { text: text.to_owned() })
    }

    /// The identifier as it is written.
    pub fn as_str(&self) -> (r: &str)
        ensures
            r@ == self@,
    {
        self.text.as_str()
    }

    /// Whether two identifiers are one.
    pub fn same(&self, other: &Mbid) -> (r: bool)
        ensures
            r == (self@ == other@),
    {
        self.text == other.text
    }

    /// Another copy of the identifier.
    pub fn copied(&self) -> (r: Mbid)
        ensures
            r == *self,
    {
        Mbid { text: self.text.clone() }
    }
}

impl PartialEq for Mbid {
    fn eq(&self, other: &Mbid) -> (r: bool) {
        self.text == other.text
    }
}

impl Eq for Mbid {
}

impl vstd::std_specs::cmp::PartialEqSpecImpl for Mbid {
    open spec fn obeys_eq_spec() -> bool {
        true
    }

    open spec fn eq_spec(&self, other: &Mbid) -> bool {
        self@ == other@
    }
}

/// The number of an album in the catalog.
#[derive(Clone, Copy, Debug, PartialEq, Eq, Structural, Hash)]
pub struct AlbumId(u64);

/// The number of an artist in the catalog.
#[derive(Clone, Copy, Debug, PartialEq, Eq, Structural, Hash)]
pub struct ArtistId(u64);

/// The number of a track in the catalog.
#[derive(Clone, Copy, Debug, PartialEq, Eq, Structural, Hash)]
pub struct TrackId(u64);

/// The number of a playlist in the catalog.
#[derive(Clone, Copy, Debug, PartialEq, Eq, Structural, Hash)]
pub struct PlaylistId(u64);

impl AlbumId {
    pub closed spec fn spec_get(self) -> u64 {
        self.0
    }

    /// The album numbered so, where the number is one a row can carry.
    pub fn new(n: u64) -> (r: Option<Self>)
        ensures
            r is Some <==> n != 0,
            r matches Some(id) ==> id.spec_get() == n,
    {
        if n == 0 {
            None
        } else {
            Some(AlbumId(n))
        }
    }

    pub fn get(self) -> (n: u64)
        ensures
            n == self.spec_get(),
    {
        self.0
    }
}

impl ArtistId {
    pub closed spec fn spec_get(self) -> u64 {
        self.0
    }

    /// The artist numbered so, where the number is one a row can carry.
    pub fn new(n: u64) -> (r: Option<Self>)
        ensures
            r is Some <==> n != 0,
            r matches Some(id) ==> id.spec_get() == n,
    {
        if n == 0 {
            None
        } else {
            Some(ArtistId(n))
        }
    }

    pub fn get(self) -> (n: u64)
        ensures
            n == self.spec_get(),
    {
        self.0
    }
}

impl TrackId {
    pub closed spec fn spec_get(self) -> u64 {
        self.0
    }

    /// The track numbered so, where the number is one a row can carry.
    pub fn new(n: u64) -> (r: Option<Self>)
        ensures
            r is Some <==> n != 0,
            r matches Some(id) ==> id.spec_get() == n,
    {
        if n == 0 {
            None
        } else {
            Some(TrackId(n))
        }
    }

    pub fn get(self) -> (n: u64)
        ensures
            n == self.spec_get(),
    {
        self.0
    }
}

impl PlaylistId {
    pub closed spec fn spec_get(self) -> u64 {
        self.0
    }

    /// The playlist numbered so, where the number is one a row can carry.
    pub fn new(n: u64) -> (r: Option<Self>)
        ensures
            r is Some <==> n != 0,
            r matches Some(id) ==> id.spec_get() == n,
    {
        if n == 0 {
            None
        } else {
            Some(PlaylistId(n))
        }
    }

    pub fn get(self) -> (n: u64)
        ensures
            n == self.spec_get(),
    {
        self.0
    }
}

/// What a link says of what it points at.
#[derive(Clone, Copy, Debug, PartialEq, Eq, Structural, Hash)]
pub enum Relation {
    Image,
    Wikidata,
    Other,
}

/// A page MusicBrainz links to.
#[derive(Clone, Debug, PartialEq, Eq)]
pub struct Link {
    pub relation: Relation,
    pub url: String,
}

} // verus!
