//! What a reference such as MusicBrainz answers: releases, recordings,
//! groups and artists, and the credits they carry.
use vstd::prelude::*;
use vstd::string::StringExecFns;

use crate::ids::{Link, Mbid, Relation};

verus! {

broadcast use vstd::string::group_string_axioms;

/// One name in a credit, and the words that join it to the next.
#[derive(Clone, Debug, PartialEq, Eq)]
pub struct Credit {
    pub name: String,
    pub joined_by: String,
    pub mbid: Option<Mbid>,
}

/// A credit written out as its names and their joins, in order.
pub open spec fn credit_text(cs: Seq<Credit>) -> Seq<char>
    decreases cs.len(),
{
    if cs.len() == 0 {
        seq![]
    } else {
        credit_text(cs.drop_last()) + cs.last().name@ + cs.last().joined_by@
    }
}

/// A credit as it is billed: each name followed by the words joining it to
/// the next.
pub fn credited_as(credit: &[Credit]) -> (r: String)
    ensures
        r@ == credit_text(credit@),
{
    let mut written = String::new();
    let mut i: usize = 0;
    while i < credit.len()
        invariant
            i <= credit@.len(),
            written@ == credit_text(credit@.subrange(0, i as int)),
        decreases credit@.len() - i,
    {
        assert(credit@.subrange(0, i + 1).drop_last() =~= credit@.subrange(0, i as int));
        written.append(credit[i].name.as_str());
        written.append(credit[i].joined_by.as_str());
        i = i + 1;
        assert(written@ =~= credit_text(credit@.subrange(0, i as int)));
    }
    assert(credit@.subrange(0, credit@.len() as int) =~= credit@);
    written
}

/// A track on a medium of a release. Its length is in milliseconds.
#[derive(Clone, Debug, PartialEq, Eq)]
pub struct ReleaseTrack {
    pub position: u32,
    pub number: String,
    pub title: String,
    pub artist: Option<String>,
    pub recording: Option<Mbid>,
    pub track: Option<Mbid>,
    pub length: Option<u64>,
    pub isrc: Option<String>,
    pub links: Vec<Link>,
}

/// A medium of a release: a disc, or a side.
#[derive(Clone, Debug, PartialEq, Eq)]
pub struct Medium {
    pub position: u32,
    pub format: Option<String>,
    pub title: Option<String>,
    pub tracks: Vec<ReleaseTrack>,
}

/// A release as the reference describes it.
#[derive(Clone, Debug, PartialEq, Eq)]
pub struct Release {
    pub id: Mbid,
    pub group: Option<Mbid>,
    pub title: String,
    pub credit: Vec<Credit>,
    pub date: Option<String>,
    pub country: Option<String>,
    pub label: Option<String>,
    pub catalog_number: Option<String>,
    pub barcode: Option<String>,
    pub kind: Option<String>,
    pub disambiguation: Option<String>,
    pub has_front_cover: bool,
    pub links: Vec<Link>,
    pub media: Vec<Medium>,
}

/// How many tracks the media hold between them.
pub open spec fn tracks_on(media: Seq<Medium>) -> int
    decreases media.len(),
{
    if media.len() == 0 {
        0
    } else {
        tracks_on(media.drop_last()) + media.last().tracks@.len()
    }
}

proof fn lemma_tracks_on_grows(media: Seq<Medium>, i: int)
    requires
        0 <= i <= media.len(),
    ensures
        tracks_on(media.subrange(0, i)) <= tracks_on(media),
    decreases media.len() - i,
{
    if i < media.len() {
        lemma_tracks_on_grows(media, i + 1);
        assert(media.subrange(0, i + 1).drop_last() =~= media.subrange(0, i));
    } else {
        assert(media.subrange(0, i) =~= media);
    }
}

impl Release {
    /// How many tracks the release holds on all its media.
    pub fn track_count(&self) -> (r: u32)
        requires
            tracks_on(self.media@) <= u32::MAX,
        ensures
            r == tracks_on(self.media@),
    {
        let mut total: u32 = 0;
        let mut i: usize = 0;
        while i < self.media.len()
            invariant
                i <= self.media@.len(),
                tracks_on(self.media@) <= u32::MAX,
                total == tracks_on(self.media@.subrange(0, i as int)),
            decreases self.media@.len() - i,
        {
            assert(self.media@.subrange(0, i + 1).drop_last() =~= self.media@.subrange(
                0,
                i as int,
            ));
            proof {
                lemma_tracks_on_grows(self.media@, i + 1);
            }
            total = total + self.media[i].tracks.len() as u32;
            i = i + 1;
        }
        assert(self.media@.subrange(0, self.media@.len() as int) =~= self.media@);
        total
    }

    /// The release's credit as it is billed.
    pub fn credited_as(&self) -> (r: String)
        ensures
            r@ == credit_text(self.credit@),
    {
        credited_as(&self.credit)
    }
}

/// Whether a search was asked as one phrase or as separate words.
#[derive(Clone, Copy, Debug, PartialEq, Eq, Structural)]
pub enum Wording {
    Phrase,
    Words,
}

/// What is asked of the reference when it is searched for a release.
#[derive(Clone, Debug, PartialEq, Eq)]
pub struct ReleaseAsked {
    pub title: String,
    pub artist: Option<String>,
    pub artist_mbid: Option<Mbid>,
    pub barcode: Option<String>,
    pub catalog_number: Option<String>,
    pub wording: Wording,
}

/// A release the reference offered for a search.
#[derive(Clone, Debug, PartialEq, Eq)]
pub struct ReleaseMatch {
    pub release: Mbid,
    pub group: Option<Mbid>,
    pub score: u8,
    pub title: String,
    pub credit: Vec<Credit>,
    pub track_count: Option<u32>,
    pub date: Option<String>,
}

impl ReleaseMatch {
    /// The release's credit as it is billed.
    pub fn credited_as(&self) -> (r: String)
        ensures
            r@ == credit_text(self.credit@),
    {
        credited_as(&self.credit)
    }
}

/// A release a recording came out on.
#[derive(Clone, Debug, PartialEq, Eq)]
pub struct RecordingRelease {
    pub id: Mbid,
    pub title: String,
    pub date: Option<String>,
    pub disc: Option<u32>,
    pub position: Option<u32>,
}

/// A recording as the reference describes it. Its length is in
/// milliseconds.
#[derive(Clone, Debug, PartialEq, Eq)]
pub struct Recording {
    pub id: Mbid,
    pub title: String,
    pub credit: Vec<Credit>,
    pub length: Option<u64>,
    pub isrcs: Vec<String>,
    pub releases: Vec<RecordingRelease>,
}

impl Recording {
    /// The recording's credit as it is billed.
    pub fn credited_as(&self) -> (r: String)
        ensures
            r@ == credit_text(self.credit@),
    {
        credited_as(&self.credit)
    }
}

/// What is asked of the reference when it is searched for a recording.
#[derive(Clone, Debug, PartialEq, Eq)]
pub struct RecordingAsked {
    pub title: String,
    pub artist: Option<String>,
    pub artist_mbid: Option<Mbid>,
    pub release: Option<String>,
    pub length: Option<u64>,
    pub wording: Wording,
}

/// A recording the reference offered for a search. Its length is in
/// milliseconds.
#[derive(Clone, Debug, PartialEq, Eq)]
pub struct RecordingMatch {
    pub recording: Mbid,
    pub score: u8,
    pub title: String,
    pub credit: Vec<Credit>,
    pub length: Option<u64>,
    pub isrcs: Vec<String>,
    pub releases: Vec<RecordingRelease>,
}

impl RecordingMatch {
    /// The recording's credit as it is billed.
    pub fn credited_as(&self) -> (r: String)
        ensures
            r@ == credit_text(self.credit@),
    {
        credited_as(&self.credit)
    }

    /// The recording the match names, as the reference described it.
    pub fn into_recording(self) -> (r: Recording)
        ensures
            r.id == self.recording,
            r.title == self.title,
            r.credit == self.credit,
            r.length == self.length,
            r.isrcs == self.isrcs,
            r.releases == self.releases,
    {
        Recording {
            id: self.recording,
            title: self.title,
            credit: self.credit,
            length: self.length,
            isrcs: self.isrcs,
            releases: self.releases,
        }
    }
}

/// A release within a release group.
#[derive(Clone, Debug, PartialEq, Eq)]
pub struct GroupRelease {
    pub id: Mbid,
    pub title: String,
    pub date: Option<String>,
    pub country: Option<String>,
    pub track_count: Option<u32>,
}

/// A release group and the releases it gathers.
#[derive(Clone, Debug, PartialEq, Eq)]
pub struct ReleaseGroup {
    pub id: Mbid,
    pub title: String,
    pub credit: Vec<Credit>,
    pub kind: Option<String>,
    pub first_released: Option<String>,
    pub disambiguation: Option<String>,
    pub links: Vec<Link>,
    pub releases: Vec<GroupRelease>,
}

/// What is asked of the reference when it is searched for a release group.
#[derive(Clone, Debug, PartialEq, Eq)]
pub struct GroupAsked {
    pub title: String,
    pub artist: Option<String>,
    pub artist_mbid: Option<Mbid>,
    pub year: Option<i32>,
    pub wording: Wording,
}

/// A release group the reference offered for a search.
#[derive(Clone, Debug, PartialEq, Eq)]
pub struct GroupMatch {
    pub group: Mbid,
    pub score: u8,
    pub title: String,
    pub credit: Vec<Credit>,
}

impl GroupMatch {
    /// The group's credit as it is billed.
    pub fn credited_as(&self) -> (r: String)
        ensures
            r@ == credit_text(self.credit@),
    {
        credited_as(&self.credit)
    }
}

/// When an artist began and ended.
#[derive(Clone, Debug, Default, PartialEq, Eq)]
pub struct LifeSpan {
    pub begin: Option<String>,
    pub end: Option<String>,
    pub ended: bool,
}

/// A genre an artist is tagged with, and how often.
#[derive(Clone, Debug, PartialEq, Eq)]
pub struct Genre {
    pub name: String,
    pub weight: u32,
}

/// An artist as the reference describes it.
#[derive(Clone, Debug, PartialEq, Eq)]
pub struct ArtistProfile {
    pub mbid: Mbid,
    pub name: String,
    pub sort_name: Option<String>,
    pub kind: Option<String>,
    pub gender: Option<String>,
    pub country: Option<String>,
    pub area: Option<String>,
    pub began_in: Option<String>,
    pub span: LifeSpan,
    pub disambiguation: Option<String>,
    pub aliases: Vec<String>,
    pub genres: Vec<Genre>,
    pub links: Vec<Link>,
}

impl ArtistProfile {
    /// Whether anything the artist links to may picture them.
    pub fn may_be_pictured(&self) -> (r: bool)
        ensures
            r == pictured_by(self.links@),
    {
        may_be_pictured(&self.links)
    }
}

/// The addresses of the links that stand in the given relation, in order.
pub open spec fn urls_of(links: Seq<Link>, relation: Relation) -> Seq<Seq<char>>
    decreases links.len(),
{
    if links.len() == 0 {
        seq![]
    } else {
        urls_of(links.drop_last(), relation) + (if links.last().relation == relation {
            seq![links.last().url@]
        } else {
            seq![]
        })
    }
}

fn urls_in(links: &[Link], relation: Relation) -> (r: Vec<&str>)
    ensures
        r@.map_values(|u: &str| u@) == urls_of(links@, relation),
{
    let mut found: Vec<&str> = Vec::new();
    let mut i: usize = 0;
    while i < links.len()
        invariant
            i <= links@.len(),
            found@.map_values(|u: &str| u@) == urls_of(links@.subrange(0, i as int), relation),
        decreases links@.len() - i,
    {
        assert(links@.subrange(0, i + 1).drop_last() =~= links@.subrange(0, i as int));
        let ghost before = found@.map_values(|u: &str| u@);
        if links[i].relation == relation {
            found.push(links[i].url.as_str());
        }
        i = i + 1;
        assert(found@.map_values(|u: &str| u@) =~= urls_of(links@.subrange(0, i as int), relation));
    }
    assert(links@.subrange(0, links@.len() as int) =~= links@);
    found
}

/// The links that may show a portrait, in order.
pub fn portrait_urls(links: &[Link]) -> (r: Vec<&str>)
    ensures
        r@.map_values(|u: &str| u@) == urls_of(links@, Relation::Image),
{
    urls_in(links, Relation::Image)
}

/// The links to Wikidata, which may name a picture, in order.
pub fn wikidata_urls(links: &[Link]) -> (r: Vec<&str>)
    ensures
        r@.map_values(|u: &str| u@) == urls_of(links@, Relation::Wikidata),
{
    urls_in(links, Relation::Wikidata)
}

/// Whether any link is a picture, or a page on Wikidata that may name one.
pub open spec fn pictured_by(links: Seq<Link>) -> bool {
    exists|i: int|
        0 <= i < links.len() && (#[trigger] links[i].relation == Relation::Image
            || links[i].relation == Relation::Wikidata)
}

proof fn lemma_urls_hold(links: Seq<Link>, relation: Relation)
    ensures
        urls_of(links, relation).len() > 0 <==> exists|i: int|
            0 <= i < links.len() && #[trigger] links[i].relation == relation,
    decreases links.len(),
{
    if links.len() > 0 {
        lemma_urls_hold(links.drop_last(), relation);
        if exists|i: int| 0 <= i < links.len() && #[trigger] links[i].relation == relation {
            let i = choose|i: int| 0 <= i < links.len() && #[trigger] links[i].relation == relation;
            if i < links.len() - 1 {
                assert(links.drop_last()[i].relation == relation);
            }
        }
        if exists|i: int|
            0 <= i < links.drop_last().len() && #[trigger] links.drop_last()[i].relation
                == relation {
            let i = choose|i: int|
                0 <= i < links.drop_last().len() && #[trigger] links.drop_last()[i].relation
                    == relation;
            assert(links[i].relation == relation);
        }
    }
}

/// Whether the links may picture whoever they belong to: a portrait, or a
/// page on Wikidata that may name one.
pub fn may_be_pictured(links: &[Link]) -> (r: bool)
    ensures
        r == pictured_by(links@),
{
    let portraits = portrait_urls(links);
    let wikidata = wikidata_urls(links);
    proof {
        lemma_urls_hold(links@, Relation::Image);
        lemma_urls_hold(links@, Relation::Wikidata);
        assert(portraits@.map_values(|u: &str| u@).len() == portraits@.len());
        assert(wikidata@.map_values(|u: &str| u@).len() == wikidata@.len());
    }
    portraits.len() > 0 || wikidata.len() > 0
}

/// A release group an artist put out, as the reference lists it.
#[derive(Clone, Debug, PartialEq, Eq)]
pub struct ArtistRelease {
    pub mbid: Mbid,
    pub title: String,
    pub kind: Option<String>,
    pub secondary: Vec<String>,
    pub first_released: Option<String>,
}

/// An artist the reference offered for a search.
#[derive(Clone, Debug, PartialEq, Eq)]
pub struct ArtistMatch {
    pub mbid: Mbid,
    pub name: String,
    pub score: u8,
    pub kind: Option<String>,
    pub disambiguation: Option<String>,
    pub aliases: Vec<String>,
}

/// What the reference was asked to do.
#[derive(Clone, Copy, Debug, PartialEq, Eq, Structural, Hash)]
pub enum LookupOp {
    Release,
    FindRelease,
    Recording,
    Isrc,
    FindRecording,
    ReleaseGroup,
    FindReleaseGroup,
    Artist,
    FindArtist,
    ReleaseGroupsOfArtist,
    Cover,
    Portrait,
    Lyrics,
    Devices,
    Correction,
    Recognise,
}

} // verus!
