//! How a pass asks the reference about one album, one track or one
//! artist: each answer decides the next lookup, until what was found is
//! kept or nothing is.
use vstd::prelude::*;

use crate::enrich::{
    agreed_owner_spec, best_recording, best_recording_spec, best_release, best_release_spec,
    closest_release, closest_spec, group_weights, matches_a_recording, matches_as_a_group_spec,
    matches_strictly_spec, opt_rank, opt_rank_of, recognised, recording_agreement,
    release_weights, scores, top_group, top_index, top_of, top_release, Accepted, Certainty,
    Fruitless, Identified, artist_weights, lemma_top_index_bounds, matches_exactly_spec,
    top_artist, worth_keeping, worth_keeping_spec,
};
use crate::credits::{members, members_of};
use crate::ids::Mbid;
use crate::model::{AlbumToAsk, ArtistToAsk, TrackToAsk};
use crate::reference::{
    pictured_by, ArtistMatch, ArtistProfile, ArtistRelease, GroupAsked, GroupMatch, Recording,
    RecordingAsked, RecordingMatch, Release, ReleaseAsked, ReleaseGroup, ReleaseMatch, Wording,
};

verus! {

/// What a search for releases landed on, as [`top_release`] weighs it.
pub open spec fn release_found(found: Seq<ReleaseMatch>, album: AlbumToAsk) -> Identified {
    if found.len() == 0 {
        Identified::Nothing
    } else {
        let top = found[top_index(release_weights(found, album))];
        if matches_strictly_spec(top, album) is Some {
            Identified::Found(top.release)
        } else if agreed_owner_spec(top, album) is Some && top.group is Some {
            Identified::Group(top.group->0)
        } else {
            Identified::Nothing
        }
    }
}

/// What a search for release groups landed on, as [`top_group`] weighs it.
pub open spec fn group_found(found: Seq<GroupMatch>, album: AlbumToAsk) -> Option<Mbid> {
    if found.len() == 0 {
        None
    } else {
        let top = found[top_index(group_weights(found, album))];
        if matches_as_a_group_spec(top, album) is Some {
            Some(top.group)
        } else {
            None
        }
    }
}

/// Which answer asking about an album waits for.
#[derive(Clone, Copy, Debug, PartialEq, Eq, Structural)]
pub enum AlbumStage {
    /// The release under the album's tagged id.
    Tagged,
    /// A search for the release, worded one way or the other.
    Searching(Wording),
    /// The release group under the album's tagged group id.
    TaggedGroup,
    /// A search for the release group, worded one way or the other.
    SearchingGroups(Wording),
    /// A release group a search named.
    Group,
    /// A release a search or a group named.
    Release,
    /// None: the album is settled.
    Done,
}

/// What is done next for an album: a lookup, or what settles it.
#[derive(Clone, Debug, PartialEq, Eq)]
pub enum AlbumLookup {
    /// Look the release up by its id.
    Release(Mbid),
    /// Search for the release.
    FindRelease(ReleaseAsked),
    /// Look the release group up by its id.
    Group(Mbid),
    /// Search for the release group.
    FindGroup(GroupAsked),
    /// Keep the release; rematch the album's tracks; ask for its cover
    /// where `cover` says so; name the artists it credits.
    TakeRelease { release: Release, cover: bool },
    /// Keep the release group; rematch the tracks where `rematch` says so;
    /// ask for its cover where `cover` says so; name the artists it credits.
    TakeGroup { group: ReleaseGroup, rematch: bool, cover: bool },
    /// Note the album as asked about to no end, and why; rematch its
    /// tracks where `rematch` says so.
    NothingLanded { fruitless: Fruitless, rematch: bool },
}

/// What the reference answered to a lookup.
#[derive(Clone, Debug, PartialEq, Eq)]
pub enum AlbumAnswer {
    /// The release under an id, where it holds one.
    Release(Option<Release>),
    /// The releases a search offered.
    Releases(Vec<ReleaseMatch>),
    /// The release group under an id, where it holds one.
    Group(Option<ReleaseGroup>),
    /// The release groups a search offered.
    Groups(Vec<GroupMatch>),
    /// Nothing: the lookup was refused, or its answer could not be read.
    Refused,
}

/// Whether an answer is one the stage waits for.
pub open spec fn answers(stage: AlbumStage, answer: AlbumAnswer) -> bool {
    match answer {
        AlbumAnswer::Refused => !(stage is Done),
        AlbumAnswer::Release(_) => stage is Tagged || stage is Release,
        AlbumAnswer::Releases(_) => stage is Searching,
        AlbumAnswer::Group(_) => stage is TaggedGroup || stage is Group,
        AlbumAnswer::Groups(_) => stage is SearchingGroups,
    }
}

/// How many answers a stage may still wait for, at most.
pub open spec fn stage_rank(stage: AlbumStage) -> nat {
    match stage {
        AlbumStage::Tagged => 8,
        AlbumStage::Searching(Wording::Phrase) => 7,
        AlbumStage::Searching(Wording::Words) => 6,
        AlbumStage::TaggedGroup => 5,
        AlbumStage::SearchingGroups(Wording::Phrase) => 4,
        AlbumStage::SearchingGroups(Wording::Words) => 3,
        AlbumStage::Group => 2,
        AlbumStage::Release => 1,
        AlbumStage::Done => 0,
    }
}

/// Whether what is done next settles the album.
pub open spec fn settles(lookup: AlbumLookup) -> bool {
    lookup is TakeRelease || lookup is TakeGroup || lookup is NothingLanded
}

/// What a search for an album's release asks.
pub open spec fn release_asked(album: AlbumToAsk, wording: Wording) -> ReleaseAsked {
    ReleaseAsked {
        title: album.title,
        artist: album.owner,
        artist_mbid: album.owner_mbid,
        barcode: album.barcode,
        catalog_number: album.catalog_number,
        wording,
    }
}

/// What a search for an album's release group asks.
pub open spec fn group_asked(album: AlbumToAsk, wording: Wording) -> GroupAsked {
    GroupAsked {
        title: album.title,
        artist: album.owner,
        artist_mbid: album.owner_mbid,
        year: album.year,
        wording,
    }
}

/// How an album is left unidentified: refused where a lookup for it was,
/// else missed.
pub open spec fn unidentified(album: AlbumToAsk, refused: bool) -> AlbumLookup {
    AlbumLookup::NothingLanded {
        fruitless: if refused {
            Fruitless::Refused
        } else {
            Fruitless::Missed
        },
        rematch: album.has_release_rows,
    }
}

/// How a release is kept for an album.
pub open spec fn took_release(album: AlbumToAsk, release: Release) -> AlbumLookup {
    AlbumLookup::TakeRelease { release, cover: !album.has_cover }
}

/// How a release group is kept for an album.
pub open spec fn took_group(album: AlbumToAsk, group: ReleaseGroup) -> AlbumLookup {
    AlbumLookup::TakeGroup { group, rematch: album.has_release_rows, cover: !album.has_cover }
}

/// Where asking about an album starts: with its tagged release where it
/// has one, else with a search worded as a phrase.
pub open spec fn opened(album: AlbumToAsk) -> (AlbumStage, AlbumLookup) {
    match album.mbid {
        Some(id) => (AlbumStage::Tagged, AlbumLookup::Release(id)),
        None => (
            AlbumStage::Searching(Wording::Phrase),
            AlbumLookup::FindRelease(release_asked(album, Wording::Phrase)),
        ),
    }
}

/// Where asking turns once no release was found: to the tagged group
/// where there is one, else to a search for groups worded as a phrase.
pub open spec fn to_groups(album: AlbumToAsk) -> (AlbumStage, AlbumLookup) {
    match album.group {
        Some(id) => (AlbumStage::TaggedGroup, AlbumLookup::Group(id)),
        None => (
            AlbumStage::SearchingGroups(Wording::Phrase),
            AlbumLookup::FindGroup(group_asked(album, Wording::Phrase)),
        ),
    }
}

/// How a release group answered settles: its closest pressing is looked
/// up, else the group itself is kept.
pub open spec fn settled(album: AlbumToAsk, group: ReleaseGroup) -> (AlbumStage, AlbumLookup) {
    match closest_spec(group.releases@, album) {
        Some((i, _)) => (AlbumStage::Release, AlbumLookup::Release(group.releases@[i].id)),
        None => (AlbumStage::Done, took_group(album, group)),
    }
}

/// What follows an answer: the stage asking turns to, and what is done.
/// `refused` is whether a lookup for the album was refused, this one
/// included.
pub open spec fn after(album: AlbumToAsk, stage: AlbumStage, refused: bool, answer: AlbumAnswer) -> (
    AlbumStage,
    AlbumLookup,
) {
    match answer {
        AlbumAnswer::Refused => match stage {
            AlbumStage::Searching(_) => to_groups(album),
            _ => (AlbumStage::Done, unidentified(album, true)),
        },
        AlbumAnswer::Release(Some(release)) => (AlbumStage::Done, took_release(album, release)),
        AlbumAnswer::Release(None) => if stage is Tagged {
            (
                AlbumStage::Searching(Wording::Phrase),
                AlbumLookup::FindRelease(release_asked(album, Wording::Phrase)),
            )
        } else {
            (AlbumStage::Done, unidentified(album, refused))
        },
        AlbumAnswer::Releases(found) => match release_found(found@, album) {
            Identified::Found(id) => (AlbumStage::Release, AlbumLookup::Release(id)),
            Identified::Group(id) => (AlbumStage::Group, AlbumLookup::Group(id)),
            Identified::Nothing => if stage == AlbumStage::Searching(Wording::Phrase) {
                (
                    AlbumStage::Searching(Wording::Words),
                    AlbumLookup::FindRelease(release_asked(album, Wording::Words)),
                )
            } else {
                to_groups(album)
            },
        },
        AlbumAnswer::Group(Some(group)) => settled(album, group),
        AlbumAnswer::Group(None) => if stage is TaggedGroup {
            (
                AlbumStage::SearchingGroups(Wording::Phrase),
                AlbumLookup::FindGroup(group_asked(album, Wording::Phrase)),
            )
        } else {
            (AlbumStage::Done, unidentified(album, refused))
        },
        AlbumAnswer::Groups(found) => match group_found(found@, album) {
            Some(id) => (AlbumStage::Group, AlbumLookup::Group(id)),
            None => if stage == AlbumStage::SearchingGroups(Wording::Phrase) {
                (
                    AlbumStage::SearchingGroups(Wording::Words),
                    AlbumLookup::FindGroup(group_asked(album, Wording::Words)),
                )
            } else {
                (AlbumStage::Done, unidentified(album, refused))
            },
        },
    }
}

fn copied_text(t: &Option<String>) -> (r: Option<String>)
    ensures
        r == *t,
{
    match t {
        Some(s) => Some(s.clone()),
        None => None,
    }
}

fn copied_mbid(m: &Option<Mbid>) -> (r: Option<Mbid>)
    ensures
        r == *m,
{
    match m {
        Some(id) => Some(id.copied()),
        None => None,
    }
}

/// What a search for an album's release asks, as [`release_asked`] reads.
pub fn asking_for_a_release(album: &AlbumToAsk, wording: Wording) -> (r: ReleaseAsked)
    ensures
        r == release_asked(*album, wording),
{
    ReleaseAsked {
        title: album.title.clone(),
        artist: copied_text(&album.owner),
        artist_mbid: copied_mbid(&album.owner_mbid),
        barcode: copied_text(&album.barcode),
        catalog_number: copied_text(&album.catalog_number),
        wording,
    }
}

/// What a search for an album's release group asks, as [`group_asked`]
/// reads.
pub fn asking_for_a_group(album: &AlbumToAsk, wording: Wording) -> (r: GroupAsked)
    ensures
        r == group_asked(*album, wording),
{
    GroupAsked {
        title: album.title.clone(),
        artist: copied_text(&album.owner),
        artist_mbid: copied_mbid(&album.owner_mbid),
        year: album.year,
        wording,
    }
}

/// Asking the reference about one album.
pub struct AlbumAsking {
    pub album: AlbumToAsk,
    pub stage: AlbumStage,
    /// Whether a lookup for the album has been refused.
    pub refused: bool,
}

impl AlbumAsking {
    /// Starts asking about an album, as [`opened`] reads.
    pub fn begin(album: AlbumToAsk) -> (r: (AlbumAsking, AlbumLookup))
        ensures
            r.0.album == album,
            !r.0.refused,
            (r.0.stage, r.1) == opened(album),
    {
        let lookup = match &album.mbid {
            Some(id) => AlbumLookup::Release(id.copied()),
            None => AlbumLookup::FindRelease(asking_for_a_release(&album, Wording::Phrase)),
        };
        let stage = if album.mbid.is_some() {
            AlbumStage::Tagged
        } else {
            AlbumStage::Searching(Wording::Phrase)
        };
        (AlbumAsking { album, stage, refused: false }, lookup)
    }

    fn unidentified(&mut self) -> (r: AlbumLookup)
        ensures
            final(self).album == old(self).album,
            final(self).refused == old(self).refused,
            final(self).stage == AlbumStage::Done,
            r == unidentified(old(self).album, old(self).refused),
    {
        self.stage = AlbumStage::Done;
        let fruitless = if self.refused {
            Fruitless::Refused
        } else {
            Fruitless::Missed
        };
        AlbumLookup::NothingLanded { fruitless, rematch: self.album.has_release_rows }
    }

    fn to_groups(&mut self) -> (r: AlbumLookup)
        ensures
            final(self).album == old(self).album,
            final(self).refused == old(self).refused,
            (final(self).stage, r) == to_groups(old(self).album),
    {
        match &self.album.group {
            Some(id) => {
                self.stage = AlbumStage::TaggedGroup;
                AlbumLookup::Group(id.copied())
            },
            None => {
                self.stage = AlbumStage::SearchingGroups(Wording::Phrase);
                AlbumLookup::FindGroup(asking_for_a_group(&self.album, Wording::Phrase))
            },
        }
    }

    fn settle(&mut self, group: ReleaseGroup) -> (r: AlbumLookup)
        ensures
            final(self).album == old(self).album,
            final(self).refused == old(self).refused,
            (final(self).stage, r) == settled(old(self).album, group),
    {
        let closest = match closest_release(&group, &self.album) {
            Some((release, _)) => Some(release.id.copied()),
            None => None,
        };
        match closest {
            Some(id) => {
                self.stage = AlbumStage::Release;
                AlbumLookup::Release(id)
            },
            None => {
                self.stage = AlbumStage::Done;
                AlbumLookup::TakeGroup {
                    group,
                    rematch: self.album.has_release_rows,
                    cover: !self.album.has_cover,
                }
            },
        }
    }

    /// Takes the reference's answer to the last lookup and says what is
    /// done next, as [`after`] reads. Each answer brings the album closer
    /// to settled: at most eight lookups are asked about one album.
    pub fn heard(&mut self, answer: AlbumAnswer) -> (r: AlbumLookup)
        requires
            answers(old(self).stage, answer),
        ensures
            final(self).album == old(self).album,
            final(self).refused == (old(self).refused || answer is Refused),
            (final(self).stage, r) == after(
                old(self).album,
                old(self).stage,
                final(self).refused,
                answer,
            ),
            stage_rank(final(self).stage) < stage_rank(old(self).stage),
            final(self).stage is Done <==> settles(r),
            r matches AlbumLookup::NothingLanded { fruitless, rematch } ==> fruitless == (
            if final(self).refused {
                Fruitless::Refused
            } else {
                Fruitless::Missed
            }) && rematch == old(self).album.has_release_rows,
    {
        let r = match answer {
            AlbumAnswer::Refused => {
                self.refused = true;
                match self.stage {
                    AlbumStage::Searching(_) => self.to_groups(),
                    _ => self.unidentified(),
                }
            },
            AlbumAnswer::Release(Some(release)) => {
                self.stage = AlbumStage::Done;
                AlbumLookup::TakeRelease { release, cover: !self.album.has_cover }
            },
            AlbumAnswer::Release(None) => {
                if self.stage == AlbumStage::Tagged {
                    self.stage = AlbumStage::Searching(Wording::Phrase);
                    AlbumLookup::FindRelease(asking_for_a_release(&self.album, Wording::Phrase))
                } else {
                    self.unidentified()
                }
            },
            AlbumAnswer::Releases(found) => {
                let phrased = self.stage == AlbumStage::Searching(Wording::Phrase);
                match top_release(found, &self.album) {
                    Identified::Found(id) => {
                        self.stage = AlbumStage::Release;
                        AlbumLookup::Release(id)
                    },
                    Identified::Group(id) => {
                        self.stage = AlbumStage::Group;
                        AlbumLookup::Group(id)
                    },
                    Identified::Nothing => {
                        if phrased {
                            self.stage = AlbumStage::Searching(Wording::Words);
                            AlbumLookup::FindRelease(
                                asking_for_a_release(&self.album, Wording::Words),
                            )
                        } else {
                            self.to_groups()
                        }
                    },
                }
            },
            AlbumAnswer::Group(Some(group)) => self.settle(group),
            AlbumAnswer::Group(None) => {
                if self.stage == AlbumStage::TaggedGroup {
                    self.stage = AlbumStage::SearchingGroups(Wording::Phrase);
                    AlbumLookup::FindGroup(asking_for_a_group(&self.album, Wording::Phrase))
                } else {
                    self.unidentified()
                }
            },
            AlbumAnswer::Groups(found) => {
                let phrased = self.stage == AlbumStage::SearchingGroups(Wording::Phrase);
                match top_group(found, &self.album) {
                    Some(id) => {
                        self.stage = AlbumStage::Group;
                        AlbumLookup::Group(id)
                    },
                    None => {
                        if phrased {
                            self.stage = AlbumStage::SearchingGroups(Wording::Words);
                            AlbumLookup::FindGroup(asking_for_a_group(&self.album, Wording::Words))
                        } else {
                            self.unidentified()
                        }
                    },
                }
            },
        };
        r
    }
}


/// How an unidentified album or track is noted: refused where a lookup for
/// it was, else missed.
pub open spec fn fruitless_when(refused: bool) -> Fruitless {
    if refused {
        Fruitless::Refused
    } else {
        Fruitless::Missed
    }
}

/// The recording a search answered with, where the heaviest answer agrees
/// with the track under the strict rule; an answer is weighed on how it
/// agrees, then on its score.
pub open spec fn match_weight(found: RecordingMatch, track: TrackToAsk) -> u64 {
    (opt_rank(recording_agreement(found, track)) * 256 + found.score) as u64
}

pub open spec fn match_weights(found: Seq<RecordingMatch>, track: TrackToAsk) -> Seq<u64> {
    Seq::new(found.len(), |i: int| match_weight(found[i], track))
}

pub open spec fn matched_of(found: Seq<RecordingMatch>, track: TrackToAsk) -> Option<
    RecordingMatch,
> {
    if found.len() == 0 {
        None
    } else {
        let top = found[top_index(match_weights(found, track))];
        if recording_agreement(top, track) is Some {
            Some(top)
        } else {
            None
        }
    }
}

/// The recording a fingerprint named, as [`recognised`] reads it.
pub open spec fn recognised_of(found: Seq<RecordingMatch>) -> Option<RecordingMatch> {
    if found.len() == 0 {
        None
    } else {
        let top = found[top_index(scores(found))];
        if Accepted::Strict.holds(top.score) {
            Some(top)
        } else {
            None
        }
    }
}

/// A recording a search offered, as a recording.
pub open spec fn as_recording(m: RecordingMatch) -> Recording {
    Recording {
        id: m.recording,
        title: m.title,
        credit: m.credit,
        length: m.length,
        isrcs: m.isrcs,
        releases: m.releases,
    }
}

/// Which answer asking about a track waits for.
#[derive(Clone, Copy, Debug, PartialEq, Eq, Structural)]
pub enum TrackStage {
    /// The recordings under the track's ISRC.
    Isrc,
    /// The recording under the track's tagged id.
    ById,
    /// A search for the recording, worded one way or the other.
    Searching(Wording),
    /// What the track's fingerprint was heard as.
    Hearing,
    /// The recording a fingerprint named.
    HeardById,
    /// Where the recording an ISRC named sits.
    PlacingIsrc,
    /// Where the recording a search named sits.
    PlacingFound,
    /// None: the track is settled.
    Done,
}

/// What is done next for a track: a lookup, or what settles it.
#[derive(Clone, Debug, PartialEq, Eq)]
pub enum TrackLookup {
    /// Look up the recordings under an ISRC.
    RecordingsOfIsrc(String),
    /// Look a recording up by its id.
    Recording(Mbid),
    /// Search for the recording.
    FindRecording(RecordingAsked),
    /// Hear the track: answer with what its fingerprint was heard as,
    /// where anything was.
    Hear,
    /// Keep the recording for the track, as sure as `certainty` says.
    Take { recording: Recording, certainty: Certainty },
    /// Note the track as asked about to no end, and why.
    NothingLanded(Fruitless),
}

/// What the reference answered to a lookup for a track.
#[derive(Clone, Debug, PartialEq, Eq)]
pub enum TrackAnswer {
    /// The recordings under an ISRC.
    Recordings(Vec<Recording>),
    /// The recording under an id, where it holds one.
    Recording(Option<Recording>),
    /// The recordings a search offered.
    Matches(Vec<RecordingMatch>),
    /// What a fingerprint was heard as, where anything was.
    Heard(Option<Vec<RecordingMatch>>),
    /// Nothing: the lookup was refused, or its answer could not be read.
    Refused,
}

/// Whether an answer is one the stage waits for.
pub open spec fn track_answers(stage: TrackStage, answer: TrackAnswer) -> bool {
    match answer {
        TrackAnswer::Refused => !(stage is Done) && !(stage is Hearing),
        TrackAnswer::Recordings(_) => stage is Isrc,
        TrackAnswer::Recording(_) => stage is ById || stage is HeardById || stage is PlacingIsrc
            || stage is PlacingFound,
        TrackAnswer::Matches(_) => stage is Searching,
        TrackAnswer::Heard(_) => stage is Hearing,
    }
}

/// How many answers a stage may still wait for, at most.
pub open spec fn track_rank(stage: TrackStage) -> nat {
    match stage {
        TrackStage::Isrc => 7,
        TrackStage::ById => 6,
        TrackStage::Searching(Wording::Phrase) => 5,
        TrackStage::Searching(Wording::Words) => 4,
        TrackStage::Hearing => 3,
        TrackStage::HeardById => 2,
        TrackStage::PlacingIsrc => 1,
        TrackStage::PlacingFound => 1,
        TrackStage::Done => 0,
    }
}

/// Whether a track can be searched for: it carries a title of its own,
/// and an artist, an owner or an album to search with.
pub open spec fn searchable(track: TrackToAsk) -> bool {
    track.tagged_title is Some && (track.artist is Some || track.owner is Some
        || track.album_title is Some)
}

/// What a search for a track's recording asks: its title, the artist it
/// is credited to or else its owner, the album it is on where it names no
/// one, and its length.
pub open spec fn recording_asked(track: TrackToAsk, wording: Wording) -> RecordingAsked {
    RecordingAsked {
        title: track.title,
        artist: match track.artist {
            Some(a) => Some(a),
            None => track.owner,
        },
        artist_mbid: match track.artist {
            Some(_) => track.artist_mbid,
            None => match track.owner {
                Some(_) => track.owner_mbid,
                None => None,
            },
        },
        release: if track.artist is None && track.owner is None {
            track.album_title
        } else {
            None
        },
        length: track.length,
        wording,
    }
}

/// The first way to a recording, from the `k`th on, that the track allows:
/// its ISRC, its tagged id, a search, its fingerprint; where none is left
/// the track is noted as fruitless.
pub open spec fn route_from(track: TrackToAsk, listening: bool, refused: bool, k: int) -> (
    TrackStage,
    TrackLookup,
) {
    if k <= 0 && track.isrc is Some {
        (TrackStage::Isrc, TrackLookup::RecordingsOfIsrc(track.isrc->0))
    } else if k <= 1 && track.mbid is Some {
        (TrackStage::ById, TrackLookup::Recording(track.mbid->0))
    } else if k <= 2 && searchable(track) {
        (
            TrackStage::Searching(Wording::Phrase),
            TrackLookup::FindRecording(recording_asked(track, Wording::Phrase)),
        )
    } else if k <= 3 && listening {
        (TrackStage::Hearing, TrackLookup::Hear)
    } else {
        (TrackStage::Done, TrackLookup::NothingLanded(fruitless_when(refused)))
    }
}

/// Keeping a recording where it says where it sits; else asking where it
/// does, holding it meanwhile.
pub open spec fn placed(recording: Recording, certainty: Certainty, placing: TrackStage) -> (
    TrackStage,
    Option<(Recording, Certainty)>,
    TrackLookup,
) {
    if recording.releases@.len() > 0 {
        (TrackStage::Done, None, TrackLookup::Take { recording, certainty })
    } else {
        (placing, Some((recording, certainty)), TrackLookup::Recording(recording.id))
    }
}

/// What follows an answer about a track: the stage asking turns to, the
/// recording held while where it sits is asked, and what is done.
/// `refused` is whether a lookup for the track was refused, this one
/// included; `held` is the recording held before the answer.
pub open spec fn track_after(
    track: TrackToAsk,
    listening: bool,
    stage: TrackStage,
    held: Option<(Recording, Certainty)>,
    refused: bool,
    answer: TrackAnswer,
) -> (TrackStage, Option<(Recording, Certainty)>, TrackLookup) {
    let next = |k: int|
        {
            let (s, l) = route_from(track, listening, refused, k);
            (s, None, l)
        };
    let settled = (TrackStage::Done, None, TrackLookup::NothingLanded(fruitless_when(refused)));
    let kept_as_held = match held {
        Some((recording, certainty)) => (
            TrackStage::Done,
            None,
            TrackLookup::Take { recording, certainty },
        ),
        None => settled,
    };
    match answer {
        TrackAnswer::Refused => match stage {
            TrackStage::Isrc => next(1),
            TrackStage::ById => next(2),
            TrackStage::Searching(_) => next(3),
            TrackStage::PlacingIsrc => kept_as_held,
            TrackStage::PlacingFound => kept_as_held,
            _ => settled,
        },
        TrackAnswer::Recordings(found) => match best_recording_spec(found@, track) {
            Some((named, certainty)) => placed(named, certainty, TrackStage::PlacingIsrc),
            None => next(1),
        },
        TrackAnswer::Recording(Some(recording)) => match stage {
            TrackStage::ById => (
                TrackStage::Done,
                None,
                TrackLookup::Take { recording, certainty: Certainty::Exactly },
            ),
            TrackStage::HeardById => (
                TrackStage::Done,
                None,
                TrackLookup::Take { recording, certainty: Certainty::Nearly },
            ),
            _ => match held {
                Some((_, certainty)) => (
                    TrackStage::Done,
                    None,
                    TrackLookup::Take { recording, certainty },
                ),
                None => settled,
            },
        },
        TrackAnswer::Recording(None) => match stage {
            TrackStage::ById => next(2),
            TrackStage::HeardById => settled,
            _ => kept_as_held,
        },
        TrackAnswer::Matches(found) => match matched_of(found@, track) {
            Some(m) => placed(as_recording(m), Certainty::Nearly, TrackStage::PlacingFound),
            None => if stage == TrackStage::Searching(Wording::Phrase) {
                (
                    TrackStage::Searching(Wording::Words),
                    None,
                    TrackLookup::FindRecording(recording_asked(track, Wording::Words)),
                )
            } else {
                next(3)
            },
        },
        TrackAnswer::Heard(None) => settled,
        TrackAnswer::Heard(Some(found)) => match recognised_of(found@) {
            Some(top) => (TrackStage::HeardById, None, TrackLookup::Recording(top.recording)),
            None => settled,
        },
    }
}

/// What a search for a track's recording asks, as [`recording_asked`]
/// reads.
pub fn asking_for_a_recording(track: &TrackToAsk, wording: Wording) -> (r: RecordingAsked)
    ensures
        r == recording_asked(*track, wording),
{
    let (artist, artist_mbid) = match &track.artist {
        Some(a) => (Some(a.clone()), copied_mbid(&track.artist_mbid)),
        None => match &track.owner {
            Some(o) => (Some(o.clone()), copied_mbid(&track.owner_mbid)),
            None => (None, None),
        },
    };
    let release = if track.artist.is_none() && track.owner.is_none() {
        copied_text(&track.album_title)
    } else {
        None
    };
    RecordingAsked {
        title: track.title.clone(),
        artist,
        artist_mbid,
        release,
        length: track.length,
        wording,
    }
}

fn matched(found: Vec<RecordingMatch>, track: &TrackToAsk) -> (r: Option<RecordingMatch>)
    ensures
        r == matched_of(found@, *track),
{
    let mut weights: Vec<u64> = Vec::new();
    let mut i: usize = 0;
    while i < found.len()
        invariant
            i <= found@.len(),
            weights@.len() == i,
            forall|k: int| 0 <= k < i ==> weights@[k] == match_weight(found@[k], *track),
        decreases found@.len() - i,
    {
        let w = opt_rank_of(matches_a_recording(&found[i], track)) as u64 * 256
            + found[i].score as u64;
        weights.push(w);
        i = i + 1;
    }
    assert(weights@ =~= match_weights(found@, *track));
    let top = top_of(found, &weights)?;
    if matches_a_recording(&top, track).is_some() {
        Some(top)
    } else {
        None
    }
}

/// Asking the reference about one track.
pub struct TrackAsking {
    pub track: TrackToAsk,
    /// Whether the track can be heard: whether a fingerprint can be had.
    pub listening: bool,
    pub stage: TrackStage,
    /// The recording held while where it sits is asked.
    pub held: Option<(Recording, Certainty)>,
    /// Whether a lookup for the track has been refused.
    pub refused: bool,
}

impl TrackAsking {
    /// Whether a recording is held exactly while where it sits is asked.
    pub open spec fn holds_while_placing(self) -> bool {
        (self.stage is PlacingIsrc || self.stage is PlacingFound) <==> self.held is Some
    }

    fn route_from(&mut self, k: u8) -> (r: TrackLookup)
        requires
            k <= 3,
        ensures
            final(self).track == old(self).track,
            final(self).listening == old(self).listening,
            final(self).refused == old(self).refused,
            final(self).held is None,
            (final(self).stage, r) == route_from(
                old(self).track,
                old(self).listening,
                old(self).refused,
                k as int,
            ),
    {
        self.held = None;
        if k == 0 {
            if let Some(isrc) = &self.track.isrc {
                self.stage = TrackStage::Isrc;
                return TrackLookup::RecordingsOfIsrc(isrc.clone());
            }
        }
        if k <= 1 {
            if let Some(id) = &self.track.mbid {
                self.stage = TrackStage::ById;
                return TrackLookup::Recording(id.copied());
            }
        }
        if k <= 2 && self.track.tagged_title.is_some() && (self.track.artist.is_some()
            || self.track.owner.is_some() || self.track.album_title.is_some()) {
            self.stage = TrackStage::Searching(Wording::Phrase);
            return TrackLookup::FindRecording(asking_for_a_recording(&self.track, Wording::Phrase));
        }
        if self.listening {
            self.stage = TrackStage::Hearing;
            return TrackLookup::Hear;
        }
        self.stage = TrackStage::Done;
        let fruitless = if self.refused {
            Fruitless::Refused
        } else {
            Fruitless::Missed
        };
        TrackLookup::NothingLanded(fruitless)
    }

    /// Starts asking about a track along the first way it allows, as
    /// [`route_from`] reads; `listening` is whether its fingerprint can be
    /// had.
    pub fn begin(track: TrackToAsk, listening: bool) -> (r: (TrackAsking, TrackLookup))
        ensures
            r.0.track == track,
            r.0.listening == listening,
            !r.0.refused,
            r.0.held is None,
            (r.0.stage, r.1) == route_from(track, listening, false, 0),
    {
        let mut asking = TrackAsking {
            track,
            listening,
            stage: TrackStage::Done,
            held: None,
            refused: false,
        };
        let lookup = asking.route_from(0);
        (asking, lookup)
    }

    fn settle(&mut self) -> (r: TrackLookup)
        ensures
            final(self).track == old(self).track,
            final(self).listening == old(self).listening,
            final(self).refused == old(self).refused,
            final(self).held is None,
            final(self).stage == TrackStage::Done,
            r == TrackLookup::NothingLanded(fruitless_when(old(self).refused)),
    {
        self.stage = TrackStage::Done;
        self.held = None;
        let fruitless = if self.refused {
            Fruitless::Refused
        } else {
            Fruitless::Missed
        };
        TrackLookup::NothingLanded(fruitless)
    }

    fn place(&mut self, recording: Recording, certainty: Certainty, placing: TrackStage) -> (r:
        TrackLookup)
        ensures
            final(self).track == old(self).track,
            final(self).listening == old(self).listening,
            final(self).refused == old(self).refused,
            (final(self).stage, final(self).held, r) == placed(recording, certainty, placing),
    {
        if recording.releases.len() > 0 {
            self.stage = TrackStage::Done;
            self.held = None;
            TrackLookup::Take { recording, certainty }
        } else {
            let id = recording.id.copied();
            self.stage = placing;
            self.held = Some((recording, certainty));
            TrackLookup::Recording(id)
        }
    }

    /// Takes the reference's answer to the last lookup and says what is
    /// done next, as [`track_after`] reads. Each answer brings the track
    /// closer to settled: at most seven lookups are asked about one track.
    pub fn heard(&mut self, answer: TrackAnswer) -> (r: TrackLookup)
        requires
            old(self).holds_while_placing(),
            track_answers(old(self).stage, answer),
        ensures
            final(self).holds_while_placing(),
            final(self).track == old(self).track,
            final(self).listening == old(self).listening,
            final(self).refused == (old(self).refused || answer is Refused),
            (final(self).stage, final(self).held, r) == track_after(
                old(self).track,
                old(self).listening,
                old(self).stage,
                old(self).held,
                final(self).refused,
                answer,
            ),
            track_rank(final(self).stage) < track_rank(old(self).stage),
            final(self).stage is Done <==> (r is Take || r is NothingLanded),
            r matches TrackLookup::NothingLanded(fruitless) ==> fruitless == fruitless_when(
                final(self).refused,
            ),
    {
        let stage = self.stage;
        match answer {
            TrackAnswer::Refused => {
                self.refused = true;
                match stage {
                    TrackStage::Isrc => self.route_from(1),
                    TrackStage::ById => self.route_from(2),
                    TrackStage::Searching(_) => self.route_from(3),
                    TrackStage::PlacingIsrc | TrackStage::PlacingFound => self.keep_held(),
                    _ => self.settle(),
                }
            },
            TrackAnswer::Recordings(found) => match best_recording(found, &self.track) {
                Some((named, certainty)) => self.place(named, certainty, TrackStage::PlacingIsrc),
                None => self.route_from(1),
            },
            TrackAnswer::Recording(Some(recording)) => match stage {
                TrackStage::ById => {
                    self.stage = TrackStage::Done;
                    TrackLookup::Take { recording, certainty: Certainty::Exactly }
                },
                TrackStage::HeardById => {
                    self.stage = TrackStage::Done;
                    TrackLookup::Take { recording, certainty: Certainty::Nearly }
                },
                _ => {
                    let certainty = match &self.held {
                        Some((_, c)) => *c,
                        None => Certainty::Nearly,
                    };
                    self.stage = TrackStage::Done;
                    self.held = None;
                    TrackLookup::Take { recording, certainty }
                },
            },
            TrackAnswer::Recording(None) => match stage {
                TrackStage::ById => self.route_from(2),
                TrackStage::HeardById => self.settle(),
                _ => self.keep_held(),
            },
            TrackAnswer::Matches(found) => {
                let phrased = stage == TrackStage::Searching(Wording::Phrase);
                match matched(found, &self.track) {
                    Some(m) => {
                        let recording = m.into_recording();
                        self.place(recording, Certainty::Nearly, TrackStage::PlacingFound)
                    },
                    None => {
                        if phrased {
                            self.stage = TrackStage::Searching(Wording::Words);
                            TrackLookup::FindRecording(
                                asking_for_a_recording(&self.track, Wording::Words),
                            )
                        } else {
                            self.route_from(3)
                        }
                    },
                }
            },
            TrackAnswer::Heard(None) => self.settle(),
            TrackAnswer::Heard(Some(found)) => match recognised(found) {
                Some(top) => {
                    self.stage = TrackStage::HeardById;
                    TrackLookup::Recording(top.recording)
                },
                None => self.settle(),
            },
        }
    }

    fn keep_held(&mut self) -> (r: TrackLookup)
        requires
            old(self).held is Some,
        ensures
            final(self).track == old(self).track,
            final(self).listening == old(self).listening,
            final(self).refused == old(self).refused,
            final(self).held is None,
            final(self).stage == TrackStage::Done,
            old(self).held matches Some((recording, certainty)) && r == (TrackLookup::Take {
                recording,
                certainty,
            }),
    {
        self.stage = TrackStage::Done;
        let mut held = None;
        std::mem::swap(&mut held, &mut self.held);
        match held {
            Some((recording, certainty)) => TrackLookup::Take { recording, certainty },
            None => TrackLookup::NothingLanded(Fruitless::Missed),
        }
    }
}

/// Once a track's recording is kept: the album the track is on is asked
/// about by the release the recording came out on that suits it best,
/// unless the track's album was answered already. `refused` is whether a
/// lookup for the track was refused.
pub open spec fn landing_after(
    track: TrackToAsk,
    album: Option<AlbumToAsk>,
    recording: Recording,
    refused: bool,
) -> Option<(AlbumToAsk, Mbid)> {
    if track.album_answered {
        None
    } else {
        match album {
            Some(a) => match best_release_spec(recording.releases@, Some(a)) {
                Some(i) => Some((a, recording.releases@[i].id)),
                None => None,
            },
            None => None,
        }
    }
}

/// Once a track's recording is kept, asks about the album it is on by its
/// release, as [`landing_after`] reads; the album's asking starts at that
/// release, refused where the track's was.
pub fn landing_the_release(
    track: &TrackToAsk,
    album: Option<AlbumToAsk>,
    recording: &Recording,
    refused: bool,
) -> (r: Option<(AlbumAsking, AlbumLookup)>)
    ensures
        match landing_after(*track, album, *recording, refused) {
            Some((a, id)) => r matches Some((asking, lookup)) && asking.album == a
                && asking.stage == AlbumStage::Release && asking.refused == refused && lookup
                == AlbumLookup::Release(id),
            None => r is None,
        },
{
    if track.album_answered {
        return None;
    }
    let album = match album {
        Some(a) => a,
        None => return None,
    };
    let id = match best_release(recording, Some(&album)) {
        Some(release) => release.id.copied(),
        None => return None,
    };
    Some((AlbumAsking { album, stage: AlbumStage::Release, refused }, AlbumLookup::Release(id)))
}


/// The releases worth keeping among an artist's release groups, in order.
pub open spec fn kept_of(groups: Seq<ArtistRelease>) -> Seq<ArtistRelease>
    decreases groups.len(),
{
    if groups.len() == 0 {
        seq![]
    } else {
        kept_of(groups.drop_last()) + if worth_keeping_spec(groups.last()) {
            seq![groups.last()]
        } else {
            seq![]
        }
    }
}

/// The releases worth keeping among an artist's release groups, as
/// [`kept_of`] reads.
pub fn kept_releases(groups: Vec<ArtistRelease>) -> (r: Vec<ArtistRelease>)
    ensures
        r@ == kept_of(groups@),
{
    let ghost all = groups@;
    let n = groups.len();
    let mut kept: Vec<ArtistRelease> = Vec::new();
    let mut rest = groups;
    let mut k: usize = 0;
    while rest.len() > 0
        invariant
            k + rest@.len() == all.len(),
            all.len() == n,
            rest@ == all.subrange(k as int, all.len() as int),
            kept@ == kept_of(all.subrange(0, k as int)),
        decreases rest@.len(),
    {
        let release = rest.remove(0);
        assert(release == all[k as int]);
        assert(all.subrange(0, k + 1).drop_last() =~= all.subrange(0, k as int));
        if worth_keeping(&release) {
            kept.push(release);
        }
        k = k + 1;
        assert(rest@ =~= all.subrange(k as int, all.len() as int));
    }
    assert(all.subrange(0, k as int) =~= all);
    kept
}

/// The artist a search answered with, as [`top_artist`] weighs it.
pub open spec fn artist_found(found: Seq<ArtistMatch>, name: Seq<char>) -> Option<Mbid> {
    if found.len() == 0 {
        None
    } else {
        let top = found[top_index(artist_weights(found, name))];
        if matches_exactly_spec(top, name) is Some {
            Some(top.mbid)
        } else {
            None
        }
    }
}

/// Which answer asking about an artist waits for.
#[derive(Clone, Copy, Debug, PartialEq, Eq, Structural)]
pub enum ArtistStage {
    /// The artist under its tagged id.
    Tagged,
    /// A search for the artist by its name.
    Searching,
    /// The artist a search named.
    Found,
    /// Whether the catalog names the `k`th member, else a search for it.
    Billing(usize),
    /// The `k`th member's id being kept.
    Billed(usize),
    /// The artist's release groups.
    Discography,
    /// None: the artist is settled.
    Done,
}

/// What is done next for an artist: a lookup, or what settles it.
#[derive(Clone, Debug, PartialEq, Eq)]
pub enum ArtistLookup {
    /// Look the artist up by its id.
    Artist(Mbid),
    /// Search for an artist by name.
    FindArtist(String),
    /// Keep the artist as the reference describes it, and look up its
    /// release groups; ask for its portrait once they are kept where
    /// `portrait` says so.
    Land { profile: ArtistProfile, portrait: bool },
    /// Keep these of its release groups; none where the lookup was
    /// refused.
    Discography(Option<Vec<ArtistRelease>>),
    /// Answer whether the catalog names a member; where it does not,
    /// search the reference for it.
    Member(String),
    /// Keep the id found for a member.
    Bill { name: String, mbid: Mbid },
    /// Note the artist as asked about to no end, and why.
    NothingLanded(Fruitless),
}

/// What came back for an artist.
#[derive(Clone, Debug, PartialEq, Eq)]
pub enum ArtistAnswer {
    /// The artist under an id, where the reference holds one.
    Profile(Option<ArtistProfile>),
    /// The artists a search offered.
    Matches(Vec<ArtistMatch>),
    /// The artist's release groups.
    Releases(Vec<ArtistRelease>),
    /// The catalog already names the member.
    Known,
    /// The member's id is kept.
    Billed,
    /// The enrichment was cancelled before the next member.
    Cancelled,
    /// Nothing: the lookup was refused, or its answer could not be read.
    Refused,
}

/// Whether an answer is one the stage waits for.
pub open spec fn artist_answers(stage: ArtistStage, answer: ArtistAnswer) -> bool {
    match answer {
        ArtistAnswer::Refused => !(stage is Done) && !(stage is Billed),
        ArtistAnswer::Profile(_) => stage is Tagged || stage is Found,
        ArtistAnswer::Matches(_) => stage is Searching || stage is Billing,
        ArtistAnswer::Releases(_) => stage is Discography,
        ArtistAnswer::Known => stage is Billing,
        ArtistAnswer::Billed => stage is Billed,
        ArtistAnswer::Cancelled => stage is Billing,
    }
}

/// How many answers a stage may still wait for, at most, with `n` members
/// to bill.
pub open spec fn artist_rank(stage: ArtistStage, n: nat) -> int {
    match stage {
        ArtistStage::Tagged => 2 * n + 5int,
        ArtistStage::Searching => 2 * n + 4int,
        ArtistStage::Found => 2 * n + 3int,
        ArtistStage::Billing(k) => 2 * (n - k) + 2,
        ArtistStage::Billed(k) => 2 * (n - k) + 1,
        ArtistStage::Discography => 1,
        ArtistStage::Done => 0,
    }
}

/// Where asking about an artist starts: with its tagged id where it has
/// one, else with a search by its name.
pub open spec fn artist_opened(artist: ArtistToAsk) -> (ArtistStage, ArtistLookup) {
    match artist.mbid {
        Some(id) => (ArtistStage::Tagged, ArtistLookup::Artist(id)),
        None => (ArtistStage::Searching, ArtistLookup::FindArtist(artist.name)),
    }
}

/// How an artist the reference described is kept: its portrait is asked
/// for where it has none and the reference links one.
pub open spec fn landed(artist: ArtistToAsk, profile: ArtistProfile) -> (ArtistStage, ArtistLookup) {
    (
        ArtistStage::Discography,
        ArtistLookup::Land {
            profile,
            portrait: !artist.has_portrait && pictured_by(profile.links@),
        },
    )
}

/// Once no artist was found: its members are billed from the `k`th on,
/// where its name credits two or more; after them, or where there are
/// none, the artist is noted as fruitless.
pub open spec fn billing_from(members: Seq<String>, refused: bool, k: int) -> (
    ArtistStage,
    ArtistLookup,
) {
    if members.len() >= 2 && 0 <= k < members.len() {
        (ArtistStage::Billing(k as usize), ArtistLookup::Member(members[k]))
    } else {
        (ArtistStage::Done, ArtistLookup::NothingLanded(fruitless_when(refused)))
    }
}

/// Whether `next` and `lookup` follow an answer about an artist.
/// `refused` is whether a lookup for the artist was refused, this one
/// included.
pub open spec fn artist_follows(
    artist: ArtistToAsk,
    members: Seq<String>,
    stage: ArtistStage,
    refused: bool,
    answer: ArtistAnswer,
    next: ArtistStage,
    lookup: ArtistLookup,
) -> bool {
    let settled = (ArtistStage::Done, ArtistLookup::NothingLanded(fruitless_when(refused)));
    match answer {
        ArtistAnswer::Refused => match stage {
            ArtistStage::Discography => next is Done && lookup == ArtistLookup::Discography(None),
            ArtistStage::Billing(_) => (next, lookup) == settled,
            _ => (next, lookup) == billing_from(members, refused, 0),
        },
        ArtistAnswer::Profile(Some(profile)) => (next, lookup) == landed(artist, profile),
        ArtistAnswer::Profile(None) => if stage is Tagged {
            (next, lookup) == (ArtistStage::Searching, ArtistLookup::FindArtist(artist.name))
        } else {
            (next, lookup) == billing_from(members, refused, 0)
        },
        ArtistAnswer::Matches(found) => match stage {
            ArtistStage::Billing(k) => match artist_found(found@, members[k as int]@) {
                Some(id) => (next, lookup) == (
                    ArtistStage::Billed(k),
                    ArtistLookup::Bill { name: members[k as int], mbid: id },
                ),
                None => (next, lookup) == billing_from(members, refused, k + 1),
            },
            _ => match artist_found(found@, artist.name@) {
                Some(id) => (next, lookup) == (ArtistStage::Found, ArtistLookup::Artist(id)),
                None => (next, lookup) == billing_from(members, refused, 0),
            },
        },
        ArtistAnswer::Releases(groups) => {
            &&& next is Done
            &&& lookup matches ArtistLookup::Discography(Some(kept)) && kept@ == kept_of(groups@)
        },
        ArtistAnswer::Known => match stage {
            ArtistStage::Billing(k) => (next, lookup) == billing_from(members, refused, k + 1),
            _ => (next, lookup) == settled,
        },
        ArtistAnswer::Billed => match stage {
            ArtistStage::Billed(k) => (next, lookup) == billing_from(members, refused, k + 1),
            _ => (next, lookup) == settled,
        },
        ArtistAnswer::Cancelled => (next, lookup) == settled,
    }
}

/// The names an artist's credit joins, as text.
pub open spec fn member_names(members: Seq<String>) -> Seq<Seq<char>> {
    members.map_values(|m: String| m@)
}

/// Asking the reference about one artist.
pub struct ArtistAsking {
    pub artist: ArtistToAsk,
    /// The names its credit joins, each its own artist.
    pub members: Vec<String>,
    pub stage: ArtistStage,
    /// Whether a lookup for the artist has been refused.
    pub refused: bool,
}

impl ArtistAsking {
    /// Whether the stage stands within the members.
    pub open spec fn billing_within(self) -> bool {
        &&& (self.stage matches ArtistStage::Billing(k) ==> k < self.members@.len())
        &&& (self.stage matches ArtistStage::Billed(k) ==> k < self.members@.len())
    }

    /// Starts asking about an artist, as [`artist_opened`] reads; the
    /// names its credit joins are held to be billed should it not be
    /// found.
    pub fn begin(artist: ArtistToAsk) -> (r: (ArtistAsking, ArtistLookup))
        ensures
            r.0.artist == artist,
            member_names(r.0.members@) == members(artist.name@),
            !r.0.refused,
            r.0.billing_within(),
            (r.0.stage, r.1) == artist_opened(artist),
    {
        let named = members_of(artist.name.as_str());
        let mut held: Vec<String> = Vec::new();
        let mut i: usize = 0;
        while i < named.len()
            invariant
                i <= named@.len(),
                held@.len() == i,
                forall|k: int| 0 <= k < i ==> (#[trigger] held@[k])@ == named@[k]@,
            decreases named@.len() - i,
        {
            held.push(named[i].to_owned());
            i = i + 1;
        }
        assert(member_names(held@) =~= named@.map_values(|m: &str| m@));
        let lookup = match &artist.mbid {
            Some(id) => ArtistLookup::Artist(id.copied()),
            None => ArtistLookup::FindArtist(artist.name.clone()),
        };
        let stage = if artist.mbid.is_some() {
            ArtistStage::Tagged
        } else {
            ArtistStage::Searching
        };
        (ArtistAsking { artist, members: held, stage, refused: false }, lookup)
    }

    fn billing_from(&mut self, k: usize) -> (r: ArtistLookup)
        ensures
            final(self).artist == old(self).artist,
            final(self).members == old(self).members,
            final(self).refused == old(self).refused,
            final(self).billing_within(),
            (final(self).stage, r) == billing_from(old(self).members@, old(self).refused, k as int),
    {
        if self.members.len() >= 2 && k < self.members.len() {
            self.stage = ArtistStage::Billing(k);
            ArtistLookup::Member(self.members[k].clone())
        } else {
            self.stage = ArtistStage::Done;
            let fruitless = if self.refused {
                Fruitless::Refused
            } else {
                Fruitless::Missed
            };
            ArtistLookup::NothingLanded(fruitless)
        }
    }

    fn settle(&mut self) -> (r: ArtistLookup)
        ensures
            final(self).artist == old(self).artist,
            final(self).members == old(self).members,
            final(self).refused == old(self).refused,
            final(self).stage == ArtistStage::Done,
            r == ArtistLookup::NothingLanded(fruitless_when(old(self).refused)),
    {
        self.stage = ArtistStage::Done;
        let fruitless = if self.refused {
            Fruitless::Refused
        } else {
            Fruitless::Missed
        };
        ArtistLookup::NothingLanded(fruitless)
    }

    /// Takes what came back for the last lookup and says what is done
    /// next, as [`artist_follows`] reads. Each answer brings the artist
    /// closer to settled: with `n` members, at most `2n + 5` answers.
    pub fn heard(&mut self, answer: ArtistAnswer) -> (r: ArtistLookup)
        requires
            old(self).billing_within(),
            artist_answers(old(self).stage, answer),
        ensures
            final(self).billing_within(),
            final(self).artist == old(self).artist,
            final(self).members == old(self).members,
            final(self).refused == (old(self).refused || answer is Refused),
            artist_follows(
                old(self).artist,
                old(self).members@,
                old(self).stage,
                final(self).refused,
                answer,
                final(self).stage,
                r,
            ),
            0 <= artist_rank(final(self).stage, old(self).members@.len()) < artist_rank(
                old(self).stage,
                old(self).members@.len(),
            ),
            final(self).stage is Done <==> (r is Discography || r is NothingLanded),
            r matches ArtistLookup::NothingLanded(fruitless) ==> fruitless == fruitless_when(
                final(self).refused,
            ),
    {
        let stage = self.stage;
        let n = self.members.len();
        match answer {
            ArtistAnswer::Refused => {
                self.refused = true;
                match stage {
                    ArtistStage::Discography => {
                        self.stage = ArtistStage::Done;
                        ArtistLookup::Discography(None)
                    },
                    ArtistStage::Billing(_) => self.settle(),
                    _ => self.billing_from(0),
                }
            },
            ArtistAnswer::Profile(Some(profile)) => {
                let portrait = !self.artist.has_portrait && profile.may_be_pictured();
                self.stage = ArtistStage::Discography;
                ArtistLookup::Land { profile, portrait }
            },
            ArtistAnswer::Profile(None) => {
                if stage == ArtistStage::Tagged {
                    self.stage = ArtistStage::Searching;
                    ArtistLookup::FindArtist(self.artist.name.clone())
                } else {
                    self.billing_from(0)
                }
            },
            ArtistAnswer::Matches(found) => match stage {
                ArtistStage::Billing(k) => {
                    match top_artist(found, self.members[k].as_str()) {
                        Some(id) => {
                            self.stage = ArtistStage::Billed(k);
                            ArtistLookup::Bill { name: self.members[k].clone(), mbid: id }
                        },
                        None => self.billing_from(k + 1),
                    }
                },
                _ => match top_artist(found, self.artist.name.as_str()) {
                    Some(id) => {
                        self.stage = ArtistStage::Found;
                        ArtistLookup::Artist(id)
                    },
                    None => self.billing_from(0),
                },
            },
            ArtistAnswer::Releases(groups) => {
                self.stage = ArtistStage::Done;
                ArtistLookup::Discography(Some(kept_releases(groups)))
            },
            ArtistAnswer::Known => match stage {
                ArtistStage::Billing(k) => self.billing_from(k + 1),
                _ => self.settle(),
            },
            ArtistAnswer::Billed => match stage {
                ArtistStage::Billed(k) => self.billing_from(k + 1),
                _ => self.settle(),
            },
            ArtistAnswer::Cancelled => self.settle(),
        }
    }
}

/// What a search answers is only taken where it matches strictly: a
/// release a search for an album's release answered is looked up only
/// where it matches the album strictly.
pub proof fn a_searched_release_is_looked_up_only_where_it_matches_strictly(
    album: AlbumToAsk,
    wording: Wording,
    refused: bool,
    found: Vec<ReleaseMatch>,
)
    ensures
        after(album, AlbumStage::Searching(wording), refused, AlbumAnswer::Releases(found)).1 matches AlbumLookup::Release(
            id,
        ) ==> exists|i: int|
            0 <= i < found@.len() && (#[trigger] found@[i]).release == id && matches_strictly_spec(
                found@[i],
                album,
            ) is Some,
{
    if found@.len() > 0 {
        let ws = release_weights(found@, album);
        lemma_top_index_bounds(ws);
        let t = top_index(ws);
        assert(found@[t] == found@[top_index(release_weights(found@, album))]);
    }
}

/// A recording a search for a track's recording answered is held or
/// taken only where it agrees with the track under the strict rule.
pub proof fn a_searched_recording_is_taken_only_where_it_agrees_strictly(
    track: TrackToAsk,
    listening: bool,
    wording: Wording,
    refused: bool,
    found: Vec<RecordingMatch>,
)
    ensures
        ({
            let (stage, held, lookup) = track_after(
                track,
                listening,
                TrackStage::Searching(wording),
                None,
                refused,
                TrackAnswer::Matches(found),
            );
            (lookup is Take || held is Some) ==> exists|i: int|
                0 <= i < found@.len() && recording_agreement(#[trigger] found@[i], track) is Some
                    && (lookup matches TrackLookup::Take { recording, .. } ==> recording
                    == as_recording(found@[i])) && (held matches Some((recording, _))
                    ==> recording == as_recording(found@[i]))
        }),
{
    if found@.len() > 0 {
        let ws = match_weights(found@, track);
        lemma_top_index_bounds(ws);
        let t = top_index(ws);
        assert(found@[t] == found@[top_index(match_weights(found@, track))]);
    }
}

/// An artist a search by name answered is looked up only where it bears
/// the name exactly at a perfect score.
pub proof fn a_searched_artist_is_looked_up_only_where_it_matches_exactly(
    artist: ArtistToAsk,
    members: Seq<String>,
    refused: bool,
    found: Vec<ArtistMatch>,
    next: ArtistStage,
    lookup: ArtistLookup,
)
    requires
        artist_follows(
            artist,
            members,
            ArtistStage::Searching,
            refused,
            ArtistAnswer::Matches(found),
            next,
            lookup,
        ),
    ensures
        lookup matches ArtistLookup::Artist(id) ==> exists|i: int|
            0 <= i < found@.len() && (#[trigger] found@[i]).mbid == id && matches_exactly_spec(
                found@[i],
                artist.name@,
            ) is Some,
{
    if found@.len() > 0 {
        let ws = artist_weights(found@, artist.name@);
        lemma_top_index_bounds(ws);
        let t = top_index(ws);
        assert(found@[t] == found@[top_index(artist_weights(found@, artist.name@))]);
    }
}

} // verus!
