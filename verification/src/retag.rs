//! What a retagging pass settles on for each file it leaves as it was.
use vstd::prelude::*;

use crate::ids::{AlbumId, TrackId};
use crate::text::{chars_of, decimal, decimal_of, string_of, trim, trimmed};

verus! {

/// Why a file's tags are left unwritten.
#[derive(Clone, Copy, Debug, PartialEq, Eq, Structural, Hash)]
pub enum Unwritten {
    Cut,
    Vaulted,
    Unsupported,
    Unreadable,
    Refused,
    Unconfirmed,
}

/// What each reason reads as.
pub open spec fn unwritten_text(why: Unwritten) -> Seq<char> {
    match why {
        Unwritten::Cut => "cut out of a file it shares"@,
        Unwritten::Vaulted => "kept in the vault, which nothing writes tags into"@,
        Unwritten::Unsupported => "a format this build does not write tags to"@,
        Unwritten::Unreadable => "its tags could not be read"@,
        Unwritten::Refused => "its tags could not be written"@,
        Unwritten::Unconfirmed => "what was written did not read back"@,
    }
}

impl Unwritten {
    /// The reason in words.
    pub fn as_str(self) -> (r: &'static str)
        ensures
            r@ == unwritten_text(self),
    {
        match self {
            Unwritten::Cut => "cut out of a file it shares",
            Unwritten::Vaulted => "kept in the vault, which nothing writes tags into",
            Unwritten::Unsupported => "a format this build does not write tags to",
            Unwritten::Unreadable => "its tags could not be read",
            Unwritten::Refused => "its tags could not be written",
            Unwritten::Unconfirmed => "what was written did not read back",
        }
    }
}

/// A file a retagging left as it was, and why.
#[derive(Clone, Debug, PartialEq, Eq)]
pub struct PassedOver {
    pub path: String,
    pub why: Unwritten,
}

/// What a retagging pass is asked to do: the roots it walks, and whether
/// it writes or only says what it would write.
#[derive(Clone, Debug, Default, PartialEq, Eq)]
pub struct RetagOptions {
    pub roots: Vec<String>,
    pub apply: bool,
}


broadcast use vstd::string::group_string_axioms;

/// A tag a file can carry.
#[derive(Clone, Copy, Debug, PartialEq, Eq, Structural, Hash)]
pub enum TagField {
    Title,
    Artist,
    Album,
    AlbumArtist,
    TrackNumber,
    TrackTotal,
    DiscNumber,
    DiscTotal,
    Date,
    Isrc,
    Label,
    CatalogNumber,
    Barcode,
    MusicBrainzTrackId,
    MusicBrainzReleaseTrackId,
    MusicBrainzArtistId,
    MusicBrainzAlbumArtistId,
    MusicBrainzAlbumId,
    MusicBrainzReleaseGroupId,
}

/// The tags a file carries, each where it carries one.
#[derive(Clone, Debug, Default, PartialEq, Eq)]
pub struct TagSet {
    pub title: Option<String>,
    pub artist: Option<String>,
    pub album: Option<String>,
    pub album_artist: Option<String>,
    pub track_number: Option<u32>,
    pub track_total: Option<u32>,
    pub disc_number: Option<u32>,
    pub disc_total: Option<u32>,
    pub date: Option<String>,
    pub isrc: Option<String>,
    pub label: Option<String>,
    pub catalog_number: Option<String>,
    pub barcode: Option<String>,
    pub musicbrainz_track_id: Option<String>,
    pub musicbrainz_release_track_id: Option<String>,
    pub musicbrainz_artist_id: Option<String>,
    pub musicbrainz_album_artist_id: Option<String>,
    pub musicbrainz_album_id: Option<String>,
    pub musicbrainz_release_group_id: Option<String>,
}

/// An optional text by what it holds.
pub open spec fn text_of(o: Option<String>) -> Option<Seq<char>> {
    match o {
        Some(t) => Some(t@),
        None => None,
    }
}

/// An optional count written out in decimal.
pub open spec fn count_text(o: Option<u32>) -> Option<Seq<char>> {
    match o {
        Some(n) => Some(decimal(n as nat)),
        None => None,
    }
}

/// What a file carries under a tag, as text.
pub open spec fn carried(field: TagField, held: TagSet) -> Option<Seq<char>> {
    match field {
        TagField::Title => text_of(held.title),
        TagField::Artist => text_of(held.artist),
        TagField::Album => text_of(held.album),
        TagField::AlbumArtist => text_of(held.album_artist),
        TagField::TrackNumber => count_text(held.track_number),
        TagField::TrackTotal => count_text(held.track_total),
        TagField::DiscNumber => count_text(held.disc_number),
        TagField::DiscTotal => count_text(held.disc_total),
        TagField::Date => text_of(held.date),
        TagField::Isrc => text_of(held.isrc),
        TagField::Label => text_of(held.label),
        TagField::CatalogNumber => text_of(held.catalog_number),
        TagField::Barcode => text_of(held.barcode),
        TagField::MusicBrainzTrackId => text_of(held.musicbrainz_track_id),
        TagField::MusicBrainzReleaseTrackId => text_of(held.musicbrainz_release_track_id),
        TagField::MusicBrainzArtistId => text_of(held.musicbrainz_artist_id),
        TagField::MusicBrainzAlbumArtistId => text_of(held.musicbrainz_album_artist_id),
        TagField::MusicBrainzAlbumId => text_of(held.musicbrainz_album_id),
        TagField::MusicBrainzReleaseGroupId => text_of(held.musicbrainz_release_group_id),
    }
}

fn text_copy(o: &Option<String>) -> (r: Option<String>)
    ensures
        text_of(r) == text_of(*o),
{
    match o {
        Some(t) => Some(t.clone()),
        None => None,
    }
}

fn count_copy(o: Option<u32>) -> (r: Option<String>)
    ensures
        text_of(r) == count_text(o),
{
    match o {
        Some(n) => {
            let digits = decimal_of(n as u64);
            Some(string_of(&digits))
        },
        None => None,
    }
}

impl TagField {
    /// What a file carries under the tag, as text.
    pub fn read(self, held: &TagSet) -> (r: Option<String>)
        ensures
            text_of(r) == carried(self, *held),
    {
        match self {
            TagField::Title => text_copy(&held.title),
            TagField::Artist => text_copy(&held.artist),
            TagField::Album => text_copy(&held.album),
            TagField::AlbumArtist => text_copy(&held.album_artist),
            TagField::TrackNumber => count_copy(held.track_number),
            TagField::TrackTotal => count_copy(held.track_total),
            TagField::DiscNumber => count_copy(held.disc_number),
            TagField::DiscTotal => count_copy(held.disc_total),
            TagField::Date => text_copy(&held.date),
            TagField::Isrc => text_copy(&held.isrc),
            TagField::Label => text_copy(&held.label),
            TagField::CatalogNumber => text_copy(&held.catalog_number),
            TagField::Barcode => text_copy(&held.barcode),
            TagField::MusicBrainzTrackId => text_copy(&held.musicbrainz_track_id),
            TagField::MusicBrainzReleaseTrackId => text_copy(&held.musicbrainz_release_track_id),
            TagField::MusicBrainzArtistId => text_copy(&held.musicbrainz_artist_id),
            TagField::MusicBrainzAlbumArtistId => text_copy(&held.musicbrainz_album_artist_id),
            TagField::MusicBrainzAlbumId => text_copy(&held.musicbrainz_album_id),
            TagField::MusicBrainzReleaseGroupId => text_copy(&held.musicbrainz_release_group_id),
        }
    }
}

/// A tag to write, and what to write under it.
#[derive(Clone, Debug, PartialEq, Eq)]
pub struct TagEdit {
    pub field: TagField,
    pub value: String,
}

/// A tag edit by what it holds.
pub open spec fn edit_view(e: TagEdit) -> (TagField, Seq<char>) {
    (e.field, e.value@)
}

/// A file the catalog would write tags to, and what it holds for it: the
/// names a lookup answered, the identifiers, and the album's.
#[derive(Clone, Debug, PartialEq, Eq)]
pub struct TrackToTag {
    pub id: TrackId,
    pub path: String,
    pub album_id: Option<AlbumId>,
    pub cut: bool,
    pub vaulted: bool,
    pub answered: bool,
    pub title: String,
    pub artist: Option<String>,
    pub artist_mbid: Option<String>,
    pub mbid: Option<String>,
    pub release_track_mbid: Option<String>,
    pub isrc: Option<String>,
    pub track_number: Option<u32>,
    pub disc_number: Option<u32>,
    pub album_answered: bool,
    pub album: Option<String>,
    pub album_artist_answered: bool,
    pub album_artist: Option<String>,
    pub album_artist_mbid: Option<String>,
    pub album_mbid: Option<String>,
    pub release_group: Option<String>,
    pub date: Option<String>,
    pub label: Option<String>,
    pub catalog_number: Option<String>,
    pub barcode: Option<String>,
    pub track_total: Option<u32>,
    pub disc_total: Option<u32>,
}

/// A text offered under a tag: trimmed, and only where something is left.
#[verifier::opaque]
pub open spec fn offer_of(field: TagField, value: Option<Seq<char>>) -> Seq<(TagField, Seq<char>)> {
    match value {
        Some(v) => if trim(v).len() > 0 {
            seq![(field, trim(v))]
        } else {
            seq![]
        },
        None => seq![],
    }
}

/// A count offered under a tag: written out, and only where it is above
/// zero.
#[verifier::opaque]
pub open spec fn count_of(field: TagField, value: Option<u32>) -> Seq<(TagField, Seq<char>)> {
    match value {
        Some(n) => if n > 0 {
            seq![(field, decimal(n as nat))]
        } else {
            seq![]
        },
        None => seq![],
    }
}

/// The names a lookup answered for the track: its title and artist.
pub open spec fn names_offered(row: TrackToTag) -> Seq<(TagField, Seq<char>)> {
    if row.answered {
        offer_of(TagField::Title, Some(row.title@)) + offer_of(TagField::Artist, text_of(row.artist))
    } else {
        seq![]
    }
}

/// The track's identifiers and numbers.
pub open spec fn ids_offered(row: TrackToTag) -> Seq<(TagField, Seq<char>)> {
    offer_of(TagField::Isrc, text_of(row.isrc)) + offer_of(
        TagField::MusicBrainzTrackId,
        text_of(row.mbid),
    ) + offer_of(TagField::MusicBrainzReleaseTrackId, text_of(row.release_track_mbid))
        + offer_of(TagField::MusicBrainzArtistId, text_of(row.artist_mbid)) + count_of(
        TagField::TrackNumber,
        row.track_number,
    ) + count_of(TagField::DiscNumber, row.disc_number)
}

/// The album and its counts, where a lookup answered the album.
pub open spec fn album_offered(row: TrackToTag) -> Seq<(TagField, Seq<char>)> {
    if row.album_answered {
        offer_of(TagField::Album, text_of(row.album)) + count_of(
            TagField::TrackTotal,
            row.track_total,
        ) + count_of(TagField::DiscTotal, row.disc_total)
    } else {
        seq![]
    }
}

/// The album artist and its identifier, where a lookup answered them.
pub open spec fn album_artist_offered(row: TrackToTag) -> Seq<(TagField, Seq<char>)> {
    if row.album_artist_answered {
        offer_of(TagField::AlbumArtist, text_of(row.album_artist)) + offer_of(
            TagField::MusicBrainzAlbumArtistId,
            text_of(row.album_artist_mbid),
        )
    } else {
        seq![]
    }
}

/// The release's own fields.
pub open spec fn release_offered(row: TrackToTag) -> Seq<(TagField, Seq<char>)> {
    offer_of(TagField::MusicBrainzAlbumId, text_of(row.album_mbid)) + offer_of(
        TagField::MusicBrainzReleaseGroupId,
        text_of(row.release_group),
    ) + offer_of(TagField::Date, text_of(row.date)) + offer_of(TagField::Label, text_of(row.label))
        + offer_of(TagField::CatalogNumber, text_of(row.catalog_number)) + offer_of(
        TagField::Barcode,
        text_of(row.barcode),
    )
}

/// What the catalog offers to write to a file, in order: the title and
/// artist where a lookup answered them, the identifiers, the numbers, the
/// album and its counts where a lookup answered the album, the album
/// artist where one answered it, and the release's own fields.
pub open spec fn offered_of(row: TrackToTag) -> Seq<(TagField, Seq<char>)> {
    names_offered(row) + ids_offered(row) + album_offered(row) + album_artist_offered(row)
        + release_offered(row)
}

/// Offers as the proofs see them.
pub open spec fn offers_view(v: Seq<(TagField, String)>) -> Seq<(TagField, Seq<char>)> {
    v.map_values(|p: (TagField, String)| (p.0, p.1@))
}

/// Of what is offered, what the file does not already carry as it is.
pub open spec fn wanted_of(offered: Seq<(TagField, Seq<char>)>, held: TagSet) -> Seq<(TagField, Seq<char>)>
    decreases offered.len(),
{
    if offered.len() == 0 {
        seq![]
    } else {
        let last = offered.last();
        wanted_of(offered.drop_last(), held) + if carried(last.0, held) == Some(last.1) {
            seq![]
        } else {
            seq![last]
        }
    }
}

fn offer(into: &mut Vec<(TagField, String)>, field: TagField, value: Option<&str>)
    ensures
        offers_view(final(into)@) == offers_view(old(into)@) + offer_of(
            field,
            match value {
                Some(v) => Some(v@),
                None => None,
            },
        ),
{
    let ghost before = into@;
    reveal(offer_of);
    match value {
        Some(v) => {
            let chars = chars_of(v);
            let kept = trimmed(&chars);
            if kept.len() > 0 {
                into.push((field, string_of(&kept)));
            }
        },
        None => {},
    }
    assert(offers_view(into@) =~= offers_view(before) + offer_of(
        field,
        match value {
            Some(v) => Some(v@),
            None => None,
        },
    ));
}

fn counted(into: &mut Vec<(TagField, String)>, field: TagField, value: Option<u32>)
    ensures
        offers_view(final(into)@) == offers_view(old(into)@) + count_of(field, value),
{
    let ghost before = into@;
    reveal(count_of);
    match value {
        Some(n) => {
            if n > 0 {
                let digits = decimal_of(n as u64);
                into.push((field, string_of(&digits)));
            }
        },
        None => {},
    }
    assert(offers_view(into@) =~= offers_view(before) + count_of(field, value));
}

fn text_ref(o: &Option<String>) -> (r: Option<&str>)
    ensures
        match r {
            Some(v) => text_of(*o) == Some(v@),
            None => text_of(*o) is None,
        },
{
    match o {
        Some(t) => Some(t.as_str()),
        None => None,
    }
}

fn offer_names(into: &mut Vec<(TagField, String)>, row: &TrackToTag)
    ensures
        offers_view(final(into)@) == offers_view(old(into)@) + names_offered(*row),
{
    let ghost before = offers_view(into@);
    if row.answered {
        offer(into, TagField::Title, Some(row.title.as_str()));
        offer(into, TagField::Artist, text_ref(&row.artist));
    }
    assert(offers_view(into@) =~= before + names_offered(*row));
}

fn offer_ids(into: &mut Vec<(TagField, String)>, row: &TrackToTag)
    ensures
        offers_view(final(into)@) == offers_view(old(into)@) + ids_offered(*row),
{
    let ghost before = offers_view(into@);
    let ghost p1 = offer_of(TagField::Isrc, text_of(row.isrc));
    let ghost p2 = offer_of(TagField::MusicBrainzTrackId, text_of(row.mbid));
    let ghost p3 = offer_of(TagField::MusicBrainzReleaseTrackId, text_of(row.release_track_mbid));
    let ghost p4 = offer_of(TagField::MusicBrainzArtistId, text_of(row.artist_mbid));
    let ghost p5 = count_of(TagField::TrackNumber, row.track_number);
    let ghost p6 = count_of(TagField::DiscNumber, row.disc_number);
    offer(into, TagField::Isrc, text_ref(&row.isrc));
    offer(into, TagField::MusicBrainzTrackId, text_ref(&row.mbid));
    assert(offers_view(into@) =~= before + (p1 + p2));
    offer(into, TagField::MusicBrainzReleaseTrackId, text_ref(&row.release_track_mbid));
    assert(offers_view(into@) =~= before + (p1 + p2 + p3));
    offer(into, TagField::MusicBrainzArtistId, text_ref(&row.artist_mbid));
    assert(offers_view(into@) =~= before + (p1 + p2 + p3 + p4));
    counted(into, TagField::TrackNumber, row.track_number);
    assert(offers_view(into@) =~= before + (p1 + p2 + p3 + p4 + p5));
    counted(into, TagField::DiscNumber, row.disc_number);
    assert(offers_view(into@) =~= before + (p1 + p2 + p3 + p4 + p5 + p6));
}

fn offer_album(into: &mut Vec<(TagField, String)>, row: &TrackToTag)
    ensures
        offers_view(final(into)@) == offers_view(old(into)@) + album_offered(*row),
{
    let ghost before = offers_view(into@);
    if row.album_answered {
        offer(into, TagField::Album, text_ref(&row.album));
        counted(into, TagField::TrackTotal, row.track_total);
        counted(into, TagField::DiscTotal, row.disc_total);
    }
    assert(offers_view(into@) =~= before + album_offered(*row));
}

fn offer_album_artist(into: &mut Vec<(TagField, String)>, row: &TrackToTag)
    ensures
        offers_view(final(into)@) == offers_view(old(into)@) + album_artist_offered(*row),
{
    let ghost before = offers_view(into@);
    if row.album_artist_answered {
        offer(into, TagField::AlbumArtist, text_ref(&row.album_artist));
        offer(into, TagField::MusicBrainzAlbumArtistId, text_ref(&row.album_artist_mbid));
    }
    assert(offers_view(into@) =~= before + album_artist_offered(*row));
}

fn offer_release(into: &mut Vec<(TagField, String)>, row: &TrackToTag)
    ensures
        offers_view(final(into)@) == offers_view(old(into)@) + release_offered(*row),
{
    let ghost before = offers_view(into@);
    let ghost p1 = offer_of(TagField::MusicBrainzAlbumId, text_of(row.album_mbid));
    let ghost p2 = offer_of(TagField::MusicBrainzReleaseGroupId, text_of(row.release_group));
    let ghost p3 = offer_of(TagField::Date, text_of(row.date));
    let ghost p4 = offer_of(TagField::Label, text_of(row.label));
    let ghost p5 = offer_of(TagField::CatalogNumber, text_of(row.catalog_number));
    let ghost p6 = offer_of(TagField::Barcode, text_of(row.barcode));
    offer(into, TagField::MusicBrainzAlbumId, text_ref(&row.album_mbid));
    offer(into, TagField::MusicBrainzReleaseGroupId, text_ref(&row.release_group));
    assert(offers_view(into@) =~= before + (p1 + p2));
    offer(into, TagField::Date, text_ref(&row.date));
    assert(offers_view(into@) =~= before + (p1 + p2 + p3));
    offer(into, TagField::Label, text_ref(&row.label));
    assert(offers_view(into@) =~= before + (p1 + p2 + p3 + p4));
    offer(into, TagField::CatalogNumber, text_ref(&row.catalog_number));
    assert(offers_view(into@) =~= before + (p1 + p2 + p3 + p4 + p5));
    offer(into, TagField::Barcode, text_ref(&row.barcode));
    assert(offers_view(into@) =~= before + (p1 + p2 + p3 + p4 + p5 + p6));
}

/// What the catalog offers to write to a file, as [`offered_of`] reads.
pub fn offered(row: &TrackToTag) -> (r: Vec<(TagField, String)>)
    ensures
        offers_view(r@) == offered_of(*row),
{
    let mut offered: Vec<(TagField, String)> = Vec::new();
    assert(offers_view(offered@) =~= Seq::<(TagField, Seq<char>)>::empty());
    offer_names(&mut offered, row);
    offer_ids(&mut offered, row);
    offer_album(&mut offered, row);
    offer_album_artist(&mut offered, row);
    offer_release(&mut offered, row);
    assert(offers_view(offered@) =~= offered_of(*row));
    offered
}

fn same_text(a: &Option<String>, b: &String) -> (r: bool)
    ensures
        r == (text_of(*a) == Some(b@)),
{
    match a {
        Some(t) => *t == *b,
        None => false,
    }
}

/// The edits a file wants: of what the catalog offers, each tag the file
/// does not already carry as it is, in the order offered.
pub fn wanted(row: &TrackToTag, held: &TagSet) -> (r: Vec<TagEdit>)
    ensures
        r@.map_values(|e: TagEdit| edit_view(e)) == wanted_of(offered_of(*row), *held),
{
    let offered = offered(row);
    let ghost all = offers_view(offered@);
    let mut r: Vec<TagEdit> = Vec::new();
    let mut i: usize = 0;
    while i < offered.len()
        invariant
            i <= offered@.len(),
            all == offers_view(offered@),
            r@.map_values(|e: TagEdit| edit_view(e)) == wanted_of(all.subrange(0, i as int), *held),
        decreases offered@.len() - i,
    {
        let field = offered[i].0;
        let now = field.read(held);
        assert(all.subrange(0, i + 1).drop_last() =~= all.subrange(0, i as int));
        assert(all.subrange(0, i + 1).last() == all[i as int]);
        if !same_text(&now, &offered[i].1) {
            r.push(TagEdit { field, value: offered[i].1.clone() });
        }
        assert(r@.map_values(|e: TagEdit| edit_view(e)) =~= wanted_of(
            all.subrange(0, i + 1),
            *held,
        ));
        i = i + 1;
    }
    assert(all.subrange(0, i as int) =~= all);
    r
}

/// The first edit made under a tag, if any.
pub open spec fn first_edit(edits: Seq<TagEdit>, field: TagField) -> Option<int>
    decreases edits.len(),
{
    if edits.len() == 0 {
        None
    } else {
        match first_edit(edits.drop_last(), field) {
            Some(i) => Some(i),
            None => if edits.last().field == field {
                Some(edits.len() - 1)
            } else {
                None
            },
        }
    }
}

/// A write a retagging made: the track, its file, the edits, and the
/// cover written into it, if any.
#[derive(Clone, Debug, PartialEq, Eq)]
pub struct Written {
    pub track: TrackId,
    pub path: String,
    pub edits: Vec<TagEdit>,
    pub picture: Option<Vec<u8>>,
}

/// What a write put under a tag: the value of its first edit there.
pub fn wrote(write: &Written, field: TagField) -> (r: Option<String>)
    ensures
        match first_edit(write.edits@, field) {
            Some(i) => r matches Some(v) && v@ == write.edits@[i].value@,
            None => r is None,
        },
{
    let mut i: usize = 0;
    while i < write.edits.len()
        invariant
            i <= write.edits@.len(),
            first_edit(write.edits@.subrange(0, i as int), field) is None,
        decreases write.edits@.len() - i,
    {
        assert(write.edits@.subrange(0, i + 1).drop_last() =~= write.edits@.subrange(0, i as int));
        if write.edits[i].field == field {
            proof {
                lemma_first_edit_prefix(write.edits@, field, i + 1);
            }
            return Some(write.edits[i].value.clone());
        }
        i = i + 1;
    }
    assert(write.edits@.subrange(0, i as int) =~= write.edits@);
    None
}

proof fn lemma_first_edit_prefix(edits: Seq<TagEdit>, field: TagField, k: int)
    requires
        0 < k <= edits.len(),
        first_edit(edits.subrange(0, k), field) is Some,
    ensures
        first_edit(edits, field) == first_edit(edits.subrange(0, k), field),
    decreases edits.len() - k,
{
    if k < edits.len() {
        assert(edits.subrange(0, k + 1).drop_last() =~= edits.subrange(0, k));
        lemma_first_edit_prefix(edits, field, k + 1);
    } else {
        assert(edits.subrange(0, k) =~= edits);
    }
}


/// Whether each run starts where the one before it ends, the first at
/// nothing and the last at `n`, and none is empty.
pub open spec fn runs_cover(runs: Seq<(usize, usize)>, n: int) -> bool {
    &&& runs.len() == 0 <==> n == 0
    &&& runs.len() > 0 ==> runs[0].0 == 0 && runs.last().1 == n
    &&& forall|k: int| 0 <= k < runs.len() ==> #[trigger] runs[k].0 < runs[k].1
    &&& forall|k: int| 0 <= k < runs.len() - 1 ==> #[trigger] runs[k].1 == runs[k + 1].0
}

/// The runs of rows that share a file, each as where it starts and where
/// it ends: every row of a run names the file its first row does, and the
/// row after a run names another.
pub fn runs_by_file(rows: &[TrackToTag]) -> (r: Vec<(usize, usize)>)
    ensures
        runs_cover(r@, rows@.len() as int),
        forall|k: int, i: int|
            #![trigger r@[k], rows@[i]]
            0 <= k < r@.len() && r@[k].0 <= i < r@[k].1 ==> rows@[i].path@ == rows@[r@[k].0 as int].path@,
        forall|k: int|
            0 <= k < r@.len() - 1 ==> rows@[#[trigger] r@[k].1 as int].path@ != rows@[r@[k].0 as int].path@,
{
    let mut runs: Vec<(usize, usize)> = Vec::new();
    let mut start: usize = 0;
    while start < rows.len()
        invariant
            start <= rows@.len(),
            runs@.len() == 0 <==> start == 0,
            runs@.len() > 0 ==> runs@[0].0 == 0 && runs@.last().1 == start,
            forall|k: int| 0 <= k < runs@.len() ==> #[trigger] runs@[k].0 < runs@[k].1,
            forall|k: int| 0 <= k < runs@.len() - 1 ==> #[trigger] runs@[k].1 == runs@[k + 1].0,
            forall|k: int, i: int|
                #![trigger runs@[k], rows@[i]]
                0 <= k < runs@.len() && runs@[k].0 <= i < runs@[k].1 ==> rows@[i].path@
                    == rows@[runs@[k].0 as int].path@,
            forall|k: int|
                0 <= k < runs@.len() - 1 ==> rows@[#[trigger] runs@[k].1 as int].path@
                    != rows@[runs@[k].0 as int].path@,
            runs@.len() > 0 && start < rows@.len() ==> rows@[start as int].path@ != rows@[runs@.last().0 as int].path@,
        decreases rows@.len() - start,
    {
        let mut end: usize = start + 1;
        while end < rows.len() && rows[end].path == rows[start].path
            invariant
                start < end <= rows@.len(),
                forall|i: int| start <= i < end ==> (#[trigger] rows@[i]).path@ == rows@[start as int].path@,
            decreases rows@.len() - end,
        {
            end = end + 1;
        }
        let ghost before = runs@;
        runs.push((start, end));
        proof {
            assert forall|k: int| 0 <= k < runs@.len() - 1 implies rows@[#[trigger] runs@[k].1 as int].path@
                != rows@[runs@[k].0 as int].path@ by {
                if k == runs@.len() - 2 {
                    assert(runs@[k] == before.last());
                }
            }
        }
        start = end;
    }
    runs
}

/// What settles a file before its tags are read: a file that holds more
/// than one row, or a row cut out of one, is a cut and is not written to;
/// nor is a file in the vault.
pub open spec fn passed_unread(group: Seq<TrackToTag>) -> Option<Unwritten> {
    if group.len() != 1 || group[0].cut {
        Some(Unwritten::Cut)
    } else if group[0].vaulted {
        Some(Unwritten::Vaulted)
    } else {
        None
    }
}

/// What settles a file before its tags are read, as [`passed_unread`]
/// reads.
pub fn pass_unread(group: &[TrackToTag]) -> (r: Option<Unwritten>)
    ensures
        r == passed_unread(group@),
{
    if group.len() != 1 || group[0].cut {
        Some(Unwritten::Cut)
    } else if group[0].vaulted {
        Some(Unwritten::Vaulted)
    } else {
        None
    }
}

/// The album whose cover is offered to a file: none where the file
/// carries a picture already, else the album its row is on, if any.
pub fn cover_offered(carries_one: bool, row: &TrackToTag) -> (r: Option<AlbumId>)
    ensures
        r == (if carries_one {
            None
        } else {
            row.album_id
        }),
{
    if carries_one {
        None
    } else {
        row.album_id
    }
}

/// What is written to a file once its tags are read: the edits it wants
/// and the picture offered; nothing where it wants neither.
pub fn to_write(row: &TrackToTag, held: &TagSet, picture: Option<Vec<u8>>) -> (r: Option<Written>)
    ensures
        r is None <==> wanted_of(offered_of(*row), *held).len() == 0 && picture is None,
        r matches Some(w) ==> {
            &&& w.track == row.id
            &&& w.path@ == row.path@
            &&& w.edits@.map_values(|e: TagEdit| edit_view(e)) == wanted_of(offered_of(*row), *held)
            &&& w.picture == picture
        },
{
    let edits = wanted(row, held);
    if edits.len() == 0 && picture.is_none() {
        return None;
    }
    Some(Written { track: row.id, path: row.path.clone(), edits, picture })
}

/// Whether what a file reads as after a write confirms it: every tag
/// written reads back as written, and a picture written reads back whole.
pub open spec fn reads_back(write: Written, held: TagSet, back: Option<Seq<u8>>) -> bool {
    &&& forall|i: int|
        0 <= i < write.edits@.len() ==> carried((#[trigger] write.edits@[i]).field, held) == Some(
            write.edits@[i].value@,
        )
    &&& match write.picture {
        Some(p) => back == Some(p@),
        None => true,
    }
}

fn same_bytes(a: &[u8], b: &[u8]) -> (r: bool)
    ensures
        r == (a@ == b@),
{
    if a.len() != b.len() {
        return false;
    }
    let mut i: usize = 0;
    while i < a.len()
        invariant
            a@.len() == b@.len(),
            i <= a@.len(),
            forall|k: int| 0 <= k < i ==> a@[k] == b@[k],
        decreases a@.len() - i,
    {
        if a[i] != b[i] {
            return false;
        }
        i = i + 1;
    }
    assert(a@ =~= b@);
    true
}

/// Whether what a file reads as after a write confirms it, as
/// [`reads_back`] reads: `held` is what its tags read as, `back` the
/// picture it carries, where it was read.
pub fn confirmed(write: &Written, held: &TagSet, back: Option<&[u8]>) -> (r: bool)
    ensures
        r == reads_back(
            *write,
            *held,
            match back {
                Some(b) => Some(b@),
                None => None,
            },
        ),
{
    let mut i: usize = 0;
    while i < write.edits.len()
        invariant
            i <= write.edits@.len(),
            forall|k: int|
                0 <= k < i ==> carried((#[trigger] write.edits@[k]).field, *held) == Some(
                    write.edits@[k].value@,
                ),
        decreases write.edits@.len() - i,
    {
        let now = write.edits[i].field.read(held);
        let agrees = match &now {
            Some(v) => *v == write.edits[i].value,
            None => false,
        };
        if !agrees {
            return false;
        }
        i = i + 1;
    }
    match &write.picture {
        Some(p) => match back {
            Some(b) => same_bytes(b, p.as_slice()),
            None => false,
        },
        None => true,
    }
}

/// Whether every offer writes something.
pub open spec fn none_blank(offers: Seq<(TagField, Seq<char>)>) -> bool {
    forall|i: int| 0 <= i < offers.len() ==> (#[trigger] offers[i]).1.len() > 0
}

proof fn lemma_none_blank_joined(a: Seq<(TagField, Seq<char>)>, b: Seq<(TagField, Seq<char>)>)
    requires
        none_blank(a),
        none_blank(b),
    ensures
        none_blank(a + b),
{
    assert forall|i: int| 0 <= i < (a + b).len() implies (#[trigger] (a + b)[i]).1.len() > 0 by {
        if i < a.len() {
            assert((a + b)[i] == a[i]);
        } else {
            assert((a + b)[i] == b[i - a.len()]);
        }
    }
}

proof fn lemma_offer_not_blank(field: TagField, value: Option<Seq<char>>)
    ensures
        none_blank(offer_of(field, value)),
{
    reveal(offer_of);
}

proof fn lemma_count_not_blank(field: TagField, value: Option<u32>)
    ensures
        none_blank(count_of(field, value)),
{
    reveal(count_of);
    match value {
        Some(n) => {
            if n > 0 {
                let d = decimal(n as nat);
                assert(d.len() > 0);
            }
        },
        None => {},
    }
}

/// Nothing the catalog offers to write is blank: a name or an identifier
/// that trims to nothing, or a count of zero, is never offered.
pub proof fn nothing_blank_is_offered(row: TrackToTag)
    ensures
        none_blank(offered_of(row)),
{
    let e: Seq<(TagField, Seq<char>)> = seq![];
    assert(none_blank(e));
    lemma_offer_not_blank(TagField::Title, Some(row.title@));
    lemma_offer_not_blank(TagField::Artist, text_of(row.artist));
    lemma_none_blank_joined(
        offer_of(TagField::Title, Some(row.title@)),
        offer_of(TagField::Artist, text_of(row.artist)),
    );
    let names = names_offered(row);
    assert(none_blank(names));
    lemma_offer_not_blank(TagField::Isrc, text_of(row.isrc));
    lemma_offer_not_blank(TagField::MusicBrainzTrackId, text_of(row.mbid));
    lemma_offer_not_blank(TagField::MusicBrainzReleaseTrackId, text_of(row.release_track_mbid));
    lemma_offer_not_blank(TagField::MusicBrainzArtistId, text_of(row.artist_mbid));
    lemma_count_not_blank(TagField::TrackNumber, row.track_number);
    lemma_count_not_blank(TagField::DiscNumber, row.disc_number);
    let i1 = offer_of(TagField::Isrc, text_of(row.isrc));
    let i2 = i1 + offer_of(TagField::MusicBrainzTrackId, text_of(row.mbid));
    lemma_none_blank_joined(i1, offer_of(TagField::MusicBrainzTrackId, text_of(row.mbid)));
    let i3 = i2 + offer_of(TagField::MusicBrainzReleaseTrackId, text_of(row.release_track_mbid));
    lemma_none_blank_joined(
        i2,
        offer_of(TagField::MusicBrainzReleaseTrackId, text_of(row.release_track_mbid)),
    );
    let i4 = i3 + offer_of(TagField::MusicBrainzArtistId, text_of(row.artist_mbid));
    lemma_none_blank_joined(i3, offer_of(TagField::MusicBrainzArtistId, text_of(row.artist_mbid)));
    let i5 = i4 + count_of(TagField::TrackNumber, row.track_number);
    lemma_none_blank_joined(i4, count_of(TagField::TrackNumber, row.track_number));
    lemma_none_blank_joined(i5, count_of(TagField::DiscNumber, row.disc_number));
    let ids = ids_offered(row);
    assert(none_blank(ids));
    lemma_offer_not_blank(TagField::Album, text_of(row.album));
    lemma_count_not_blank(TagField::TrackTotal, row.track_total);
    lemma_count_not_blank(TagField::DiscTotal, row.disc_total);
    let a1 = offer_of(TagField::Album, text_of(row.album));
    lemma_none_blank_joined(a1, count_of(TagField::TrackTotal, row.track_total));
    lemma_none_blank_joined(
        a1 + count_of(TagField::TrackTotal, row.track_total),
        count_of(TagField::DiscTotal, row.disc_total),
    );
    let album = album_offered(row);
    assert(none_blank(album));
    lemma_offer_not_blank(TagField::AlbumArtist, text_of(row.album_artist));
    lemma_offer_not_blank(TagField::MusicBrainzAlbumArtistId, text_of(row.album_artist_mbid));
    lemma_none_blank_joined(
        offer_of(TagField::AlbumArtist, text_of(row.album_artist)),
        offer_of(TagField::MusicBrainzAlbumArtistId, text_of(row.album_artist_mbid)),
    );
    let album_artist = album_artist_offered(row);
    assert(none_blank(album_artist));
    lemma_offer_not_blank(TagField::MusicBrainzAlbumId, text_of(row.album_mbid));
    lemma_offer_not_blank(TagField::MusicBrainzReleaseGroupId, text_of(row.release_group));
    lemma_offer_not_blank(TagField::Date, text_of(row.date));
    lemma_offer_not_blank(TagField::Label, text_of(row.label));
    lemma_offer_not_blank(TagField::CatalogNumber, text_of(row.catalog_number));
    lemma_offer_not_blank(TagField::Barcode, text_of(row.barcode));
    let r1 = offer_of(TagField::MusicBrainzAlbumId, text_of(row.album_mbid));
    let r2 = r1 + offer_of(TagField::MusicBrainzReleaseGroupId, text_of(row.release_group));
    lemma_none_blank_joined(r1, offer_of(TagField::MusicBrainzReleaseGroupId, text_of(row.release_group)));
    let r3 = r2 + offer_of(TagField::Date, text_of(row.date));
    lemma_none_blank_joined(r2, offer_of(TagField::Date, text_of(row.date)));
    let r4 = r3 + offer_of(TagField::Label, text_of(row.label));
    lemma_none_blank_joined(r3, offer_of(TagField::Label, text_of(row.label)));
    let r5 = r4 + offer_of(TagField::CatalogNumber, text_of(row.catalog_number));
    lemma_none_blank_joined(r4, offer_of(TagField::CatalogNumber, text_of(row.catalog_number)));
    lemma_none_blank_joined(r5, offer_of(TagField::Barcode, text_of(row.barcode)));
    let release = release_offered(row);
    assert(none_blank(release));
    lemma_none_blank_joined(names, ids);
    lemma_none_blank_joined(names + ids, album);
    lemma_none_blank_joined(names + ids + album, album_artist);
    lemma_none_blank_joined(names + ids + album + album_artist, release);
}

/// Of what is offered, no edit a file wants writes what it already
/// carries under that tag, and each is one of the offers.
pub proof fn nothing_carried_is_written_again(offered: Seq<(TagField, Seq<char>)>, held: TagSet)
    ensures
        forall|i: int|
            0 <= i < wanted_of(offered, held).len() ==> carried(
                (#[trigger] wanted_of(offered, held)[i]).0,
                held,
            ) != Some(wanted_of(offered, held)[i].1) && offered.contains(
                wanted_of(offered, held)[i],
            ),
    decreases offered.len(),
{
    if offered.len() > 0 {
        nothing_carried_is_written_again(offered.drop_last(), held);
        let w = wanted_of(offered, held);
        let before = wanted_of(offered.drop_last(), held);
        assert forall|i: int| 0 <= i < w.len() implies carried((#[trigger] w[i]).0, held) != Some(
            w[i].1,
        ) && offered.contains(w[i]) by {
            if i < before.len() {
                assert(w[i] == before[i]);
                let k = choose|k: int| 0 <= k < offered.drop_last().len() && offered.drop_last()[k]
                    == before[i];
                assert(offered[k] == w[i]);
            } else {
                assert(w[i] == offered.last());
                assert(offered[offered.len() - 1] == w[i]);
            }
        }
    }
}


/// Text offered under a tag: the text trimmed, where something is left.
pub open spec fn non_blank(v: Option<Seq<char>>) -> Option<Seq<char>> {
    match v {
        Some(t) => if trim(t).len() > 0 {
            Some(trim(t))
        } else {
            None
        },
        None => None,
    }
}

/// A count offered under a tag: written out in decimal, where it is above
/// zero.
pub open spec fn above_zero(n: Option<u32>) -> Option<Seq<char>> {
    match n {
        Some(k) => if k > 0 {
            Some(decimal(k as nat))
        } else {
            None
        },
        None => None,
    }
}

/// A value offered only where a lookup answered it.
pub open spec fn where_answered(answered: bool, v: Option<Seq<char>>) -> Option<Seq<char>> {
    if answered {
        v
    } else {
        None
    }
}

/// What a row offers under each tag, the tag by the row's value for it:
/// the title and artist where the track was answered, the album, its
/// counts, the album artist and its identifier where those were answered,
/// and every other identifier, number, date, label, catalog number and
/// barcode the row holds.
pub open spec fn offered_under(row: TrackToTag, field: TagField) -> Option<Seq<char>> {
    match field {
        TagField::Title => where_answered(row.answered, non_blank(Some(row.title@))),
        TagField::Artist => where_answered(row.answered, non_blank(text_of(row.artist))),
        TagField::Album => where_answered(row.album_answered, non_blank(text_of(row.album))),
        TagField::AlbumArtist => where_answered(
            row.album_artist_answered,
            non_blank(text_of(row.album_artist)),
        ),
        TagField::TrackNumber => above_zero(row.track_number),
        TagField::TrackTotal => where_answered(row.album_answered, above_zero(row.track_total)),
        TagField::DiscNumber => above_zero(row.disc_number),
        TagField::DiscTotal => where_answered(row.album_answered, above_zero(row.disc_total)),
        TagField::Date => non_blank(text_of(row.date)),
        TagField::Isrc => non_blank(text_of(row.isrc)),
        TagField::Label => non_blank(text_of(row.label)),
        TagField::CatalogNumber => non_blank(text_of(row.catalog_number)),
        TagField::Barcode => non_blank(text_of(row.barcode)),
        TagField::MusicBrainzTrackId => non_blank(text_of(row.mbid)),
        TagField::MusicBrainzReleaseTrackId => non_blank(text_of(row.release_track_mbid)),
        TagField::MusicBrainzArtistId => non_blank(text_of(row.artist_mbid)),
        TagField::MusicBrainzAlbumArtistId => where_answered(
            row.album_artist_answered,
            non_blank(text_of(row.album_artist_mbid)),
        ),
        TagField::MusicBrainzAlbumId => non_blank(text_of(row.album_mbid)),
        TagField::MusicBrainzReleaseGroupId => non_blank(text_of(row.release_group)),
    }
}

/// Whether an offer is under the tag.
pub open spec fn under(field: TagField) -> spec_fn((TagField, Seq<char>)) -> bool {
    |o: (TagField, Seq<char>)| o.0 == field
}

proof fn lemma_filter_small(s: Seq<(TagField, Seq<char>)>, field: TagField)
    requires
        s.len() <= 1,
    ensures
        s.filter(under(field)) == if s.len() == 1 && s[0].0 == field {
            s
        } else {
            Seq::<(TagField, Seq<char>)>::empty()
        },
{
    reveal_with_fuel(Seq::filter, 2);
    if s.len() == 1 {
        assert(s.drop_last() =~= Seq::<(TagField, Seq<char>)>::empty());
    }
}

proof fn lemma_offer_under(f: TagField, v: Option<Seq<char>>, field: TagField)
    ensures
        offer_of(f, v).filter(under(field)) == if f == field {
            match non_blank(v) {
                Some(t) => seq![(f, t)],
                None => seq![],
            }
        } else {
            Seq::<(TagField, Seq<char>)>::empty()
        },
{
    reveal(offer_of);
    lemma_filter_small(offer_of(f, v), field);
}

proof fn lemma_count_under(f: TagField, n: Option<u32>, field: TagField)
    ensures
        count_of(f, n).filter(under(field)) == if f == field {
            match above_zero(n) {
                Some(t) => seq![(f, t)],
                None => seq![],
            }
        } else {
            Seq::<(TagField, Seq<char>)>::empty()
        },
{
    reveal(count_of);
    lemma_filter_small(count_of(f, n), field);
}

/// Each tag is offered once where the row holds a value for it, and not at
/// all where it holds none: the offers under a tag are the one the row's
/// value for it gives, trimmed, or counted above zero and written out, and
/// nothing else.
pub proof fn each_tag_is_offered_once_where_the_row_holds_it(row: TrackToTag, field: TagField)
    ensures
        offered_of(row).filter(under(field)) == match offered_under(row, field) {
            Some(t) => seq![(field, t)],
            None => Seq::<(TagField, Seq<char>)>::empty(),
        },
{
    broadcast use Seq::filter_distributes_over_add;

    lemma_filter_small(Seq::<(TagField, Seq<char>)>::empty(), field);
    lemma_offer_under(TagField::Title, Some(row.title@), field);
    lemma_offer_under(TagField::Artist, text_of(row.artist), field);
    lemma_offer_under(TagField::Isrc, text_of(row.isrc), field);
    lemma_offer_under(TagField::MusicBrainzTrackId, text_of(row.mbid), field);
    lemma_offer_under(TagField::MusicBrainzReleaseTrackId, text_of(row.release_track_mbid), field);
    lemma_offer_under(TagField::MusicBrainzArtistId, text_of(row.artist_mbid), field);
    lemma_count_under(TagField::TrackNumber, row.track_number, field);
    lemma_count_under(TagField::DiscNumber, row.disc_number, field);
    lemma_offer_under(TagField::Album, text_of(row.album), field);
    lemma_count_under(TagField::TrackTotal, row.track_total, field);
    lemma_count_under(TagField::DiscTotal, row.disc_total, field);
    lemma_offer_under(TagField::AlbumArtist, text_of(row.album_artist), field);
    lemma_offer_under(TagField::MusicBrainzAlbumArtistId, text_of(row.album_artist_mbid), field);
    lemma_offer_under(TagField::MusicBrainzAlbumId, text_of(row.album_mbid), field);
    lemma_offer_under(TagField::MusicBrainzReleaseGroupId, text_of(row.release_group), field);
    lemma_offer_under(TagField::Date, text_of(row.date), field);
    lemma_offer_under(TagField::Label, text_of(row.label), field);
    lemma_offer_under(TagField::CatalogNumber, text_of(row.catalog_number), field);
    lemma_offer_under(TagField::Barcode, text_of(row.barcode), field);
    assert(offered_of(row).filter(under(field)) =~= match offered_under(row, field) {
        Some(t) => seq![(field, t)],
        None => Seq::<(TagField, Seq<char>)>::empty(),
    });
}

} // verus!
