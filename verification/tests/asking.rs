use resonate_library::asking::{
    asking_for_a_group, asking_for_a_recording, asking_for_a_release, kept_releases,
    landing_the_release, AlbumAnswer, AlbumAsking, AlbumLookup, AlbumStage, ArtistAnswer,
    ArtistAsking, ArtistLookup, ArtistStage, TrackAnswer, TrackAsking, TrackLookup, TrackStage,
};
use resonate_library::enrich::{Certainty, Fruitless};
use resonate_library::ids::{AlbumId, ArtistId, Link, Mbid, Relation, TrackId};
use resonate_library::model::{AlbumToAsk, ArtistToAsk, TrackToAsk};
use resonate_library::reference::{
    ArtistMatch, ArtistProfile, ArtistRelease, GroupAsked, GroupMatch, GroupRelease, LifeSpan,
    Recording, RecordingAsked, RecordingMatch, RecordingRelease, Release, ReleaseAsked,
    ReleaseGroup, ReleaseMatch, Wording,
};

const ORBITS: &str = "1c2d3e4f-5a6b-7c8d-9e0f-1a2b3c4d5e6f";
const PORTAL: &str = "9a8b7c6d-5e4f-3a2b-1c0d-9e8f7a6b5c4d";
const REMASTER: &str = "2b3c4d5e-6f7a-8b9c-0d1e-2f3a4b5c6d7e";

fn mbid(text: &str) -> Mbid {
    Mbid::new(text).expect("a well-formed mbid")
}

fn album() -> AlbumToAsk {
    AlbumToAsk {
        id: AlbumId::new(1).expect("a non-zero id"),
        title: "Orbits".to_owned(),
        owner: None,
        track_count: 3,
        year: Some(1971),
        mbid: None,
        group: None,
        barcode: Some("0123".to_owned()),
        catalog_number: None,
        tagged_tracks: None,
        owner_mbid: None,
        has_cover: false,
        has_release_rows: true,
        rematch_only: false,
    }
}

fn release(id: &str) -> Release {
    Release {
        id: mbid(id),
        group: None,
        title: "Orbits".to_owned(),
        credit: Vec::new(),
        date: None,
        country: None,
        label: None,
        catalog_number: None,
        barcode: None,
        kind: None,
        disambiguation: None,
        has_front_cover: false,
        links: Vec::new(),
        media: Vec::new(),
    }
}

fn matched(id: &str, score: u8, tracks: Option<u32>) -> ReleaseMatch {
    ReleaseMatch {
        release: mbid(id),
        group: Some(mbid(PORTAL)),
        score,
        title: "Orbits".to_owned(),
        credit: Vec::new(),
        track_count: tracks,
        date: None,
    }
}

fn group_of(releases: Vec<GroupRelease>) -> ReleaseGroup {
    ReleaseGroup {
        id: mbid(PORTAL),
        title: "Orbits".to_owned(),
        credit: Vec::new(),
        kind: Some("Album".to_owned()),
        first_released: None,
        disambiguation: None,
        links: Vec::new(),
        releases,
    }
}

fn pressing(id: &str, tracks: Option<u32>) -> GroupRelease {
    GroupRelease {
        id: mbid(id),
        title: "Orbits".to_owned(),
        date: None,
        country: None,
        track_count: tracks,
    }
}

fn group_match(score: u8) -> GroupMatch {
    GroupMatch {
        group: mbid(PORTAL),
        score,
        title: "Orbits".to_owned(),
        credit: Vec::new(),
    }
}

#[test]
fn an_album_with_no_tag_is_searched_for_as_a_phrase_first() {
    let (asking, first) = AlbumAsking::begin(album());
    assert_eq!(asking.stage, AlbumStage::Searching(Wording::Phrase));
    assert_eq!(
        first,
        AlbumLookup::FindRelease(ReleaseAsked {
            title: "Orbits".to_owned(),
            artist: None,
            artist_mbid: None,
            barcode: Some("0123".to_owned()),
            catalog_number: None,
            wording: Wording::Phrase,
        })
    );
}

#[test]
fn a_tagged_release_the_reference_holds_is_kept_with_its_cover_asked_for() {
    let mut tagged = album();
    tagged.mbid = Some(mbid(ORBITS));
    let (mut asking, first) = AlbumAsking::begin(tagged);
    assert_eq!(first, AlbumLookup::Release(mbid(ORBITS)));
    let next = asking.heard(AlbumAnswer::Release(Some(release(ORBITS))));
    assert_eq!(
        next,
        AlbumLookup::TakeRelease {
            release: release(ORBITS),
            cover: true
        }
    );
    assert_eq!(asking.stage, AlbumStage::Done);
}

#[test]
fn an_album_nothing_answers_is_searched_every_way_then_left_as_missed() {
    let mut tagged = album();
    tagged.mbid = Some(mbid(ORBITS));
    let (mut asking, _) = AlbumAsking::begin(tagged.clone());
    assert_eq!(
        asking.heard(AlbumAnswer::Release(None)),
        AlbumLookup::FindRelease(asking_for_a_release(&tagged, Wording::Phrase))
    );
    assert_eq!(
        asking.heard(AlbumAnswer::Releases(Vec::new())),
        AlbumLookup::FindRelease(asking_for_a_release(&tagged, Wording::Words))
    );
    assert_eq!(
        asking.heard(AlbumAnswer::Releases(Vec::new())),
        AlbumLookup::FindGroup(GroupAsked {
            title: "Orbits".to_owned(),
            artist: None,
            artist_mbid: None,
            year: Some(1971),
            wording: Wording::Phrase,
        })
    );
    assert_eq!(
        asking.heard(AlbumAnswer::Groups(vec![group_match(40)])),
        AlbumLookup::FindGroup(asking_for_a_group(&tagged, Wording::Words))
    );
    assert_eq!(
        asking.heard(AlbumAnswer::Groups(Vec::new())),
        AlbumLookup::NothingLanded {
            fruitless: Fruitless::Missed,
            rematch: true
        }
    );
    assert!(!asking.refused);
}

#[test]
fn a_refused_search_turns_to_the_groups_and_the_album_is_left_as_refused() {
    let (mut asking, _) = AlbumAsking::begin(album());
    assert_eq!(
        asking.heard(AlbumAnswer::Refused),
        AlbumLookup::FindGroup(asking_for_a_group(&album(), Wording::Phrase))
    );
    assert_eq!(
        asking.heard(AlbumAnswer::Groups(Vec::new())),
        AlbumLookup::FindGroup(asking_for_a_group(&album(), Wording::Words))
    );
    assert_eq!(
        asking.heard(AlbumAnswer::Groups(Vec::new())),
        AlbumLookup::NothingLanded {
            fruitless: Fruitless::Refused,
            rematch: true
        }
    );
}

#[test]
fn a_refused_tagged_lookup_leaves_the_album_at_once() {
    let mut tagged = album();
    tagged.mbid = Some(mbid(ORBITS));
    tagged.has_release_rows = false;
    let (mut asking, _) = AlbumAsking::begin(tagged);
    assert_eq!(
        asking.heard(AlbumAnswer::Refused),
        AlbumLookup::NothingLanded {
            fruitless: Fruitless::Refused,
            rematch: false
        }
    );
}

#[test]
fn a_strict_match_is_looked_up_and_kept() {
    let (mut asking, _) = AlbumAsking::begin(album());
    assert_eq!(
        asking.heard(AlbumAnswer::Releases(vec![
            matched(REMASTER, 60, Some(3)),
            matched(ORBITS, 100, Some(3)),
        ])),
        AlbumLookup::Release(mbid(ORBITS))
    );
    assert_eq!(asking.stage, AlbumStage::Release);
    let mut covered = album();
    covered.has_cover = true;
    let (mut again, _) = AlbumAsking::begin(covered);
    again.heard(AlbumAnswer::Releases(vec![matched(ORBITS, 100, Some(3))]));
    assert_eq!(
        again.heard(AlbumAnswer::Release(Some(release(ORBITS)))),
        AlbumLookup::TakeRelease {
            release: release(ORBITS),
            cover: false
        }
    );
}

#[test]
fn a_match_of_the_wrong_count_names_its_group_whose_closest_pressing_is_looked_up() {
    let (mut asking, _) = AlbumAsking::begin(album());
    assert_eq!(
        asking.heard(AlbumAnswer::Releases(vec![matched(ORBITS, 100, Some(9))])),
        AlbumLookup::Group(mbid(PORTAL))
    );
    assert_eq!(asking.stage, AlbumStage::Group);
    let group = group_of(vec![pressing(ORBITS, Some(9)), pressing(REMASTER, Some(3))]);
    assert_eq!(
        asking.heard(AlbumAnswer::Group(Some(group))),
        AlbumLookup::Release(mbid(REMASTER))
    );
    assert_eq!(
        asking.heard(AlbumAnswer::Release(None)),
        AlbumLookup::NothingLanded {
            fruitless: Fruitless::Missed,
            rematch: true
        }
    );
}

#[test]
fn a_tagged_group_with_no_pressing_is_kept_itself() {
    let mut tagged = album();
    tagged.group = Some(mbid(PORTAL));
    let (mut asking, _) = AlbumAsking::begin(tagged);
    asking.heard(AlbumAnswer::Releases(Vec::new()));
    assert_eq!(
        asking.heard(AlbumAnswer::Releases(Vec::new())),
        AlbumLookup::Group(mbid(PORTAL))
    );
    assert_eq!(asking.stage, AlbumStage::TaggedGroup);
    assert_eq!(
        asking.heard(AlbumAnswer::Group(Some(group_of(Vec::new())))),
        AlbumLookup::TakeGroup {
            group: group_of(Vec::new()),
            rematch: true,
            cover: true
        }
    );
    assert_eq!(asking.stage, AlbumStage::Done);
}

#[test]
fn a_group_search_that_lands_is_looked_up_by_the_group_it_names() {
    let (mut asking, _) = AlbumAsking::begin(album());
    asking.heard(AlbumAnswer::Refused);
    assert_eq!(
        asking.heard(AlbumAnswer::Groups(vec![group_match(100)])),
        AlbumLookup::Group(mbid(PORTAL))
    );
    assert_eq!(
        asking.heard(AlbumAnswer::Group(None)),
        AlbumLookup::NothingLanded {
            fruitless: Fruitless::Refused,
            rematch: true
        }
    );
}

fn track() -> TrackToAsk {
    TrackToAsk {
        id: TrackId::new(5).expect("a non-zero id"),
        title: "Orbits".to_owned(),
        tagged_title: Some("Orbits".to_owned()),
        artist: Some("Komet".to_owned()),
        tagged_artist: Some("Komet".to_owned()),
        artist_mbid: None,
        album: Some(AlbumId::new(1).expect("a non-zero id")),
        album_title: Some("Orbits".to_owned()),
        album_answered: false,
        owner: None,
        owner_mbid: None,
        location: "file:///music/orbits.flac".to_owned(),
        length: Some(200_000),
        mbid: None,
        isrc: None,
    }
}

fn on_release(id: &str) -> RecordingRelease {
    RecordingRelease {
        id: mbid(id),
        title: "Orbits".to_owned(),
        date: Some("1971".to_owned()),
        disc: None,
        position: None,
    }
}

fn recording(releases: Vec<RecordingRelease>) -> Recording {
    Recording {
        id: mbid(ORBITS),
        title: "Orbits".to_owned(),
        credit: Vec::new(),
        length: Some(200_500),
        isrcs: Vec::new(),
        releases,
    }
}

fn heard_as(score: u8) -> RecordingMatch {
    RecordingMatch {
        recording: mbid(ORBITS),
        score,
        title: "Orbits".to_owned(),
        credit: vec![resonate_library::reference::Credit {
            name: "Komet".to_owned(),
            joined_by: String::new(),
            mbid: None,
        }],
        length: Some(200_500),
        isrcs: Vec::new(),
        releases: Vec::new(),
    }
}

#[test]
fn a_track_is_asked_by_its_isrc_first_and_kept_where_the_answer_places_it() {
    let mut tagged = track();
    tagged.isrc = Some("GBAYE7100001".to_owned());
    let (mut asking, first) = TrackAsking::begin(tagged, true);
    assert_eq!(first, TrackLookup::RecordingsOfIsrc("GBAYE7100001".to_owned()));
    let placed = recording(vec![on_release(REMASTER)]);
    assert_eq!(
        asking.heard(TrackAnswer::Recordings(vec![placed.clone()])),
        TrackLookup::Take {
            recording: placed,
            certainty: Certainty::Exactly
        }
    );
    assert_eq!(asking.stage, TrackStage::Done);
}

#[test]
fn a_recording_that_says_nowhere_it_sits_is_looked_up_and_kept_even_unplaced() {
    let mut tagged = track();
    tagged.isrc = Some("GBAYE7100001".to_owned());
    let (mut asking, _) = TrackAsking::begin(tagged, false);
    assert_eq!(
        asking.heard(TrackAnswer::Recordings(vec![recording(Vec::new())])),
        TrackLookup::Recording(mbid(ORBITS))
    );
    assert_eq!(asking.stage, TrackStage::PlacingIsrc);
    assert_eq!(
        asking.heard(TrackAnswer::Refused),
        TrackLookup::Take {
            recording: recording(Vec::new()),
            certainty: Certainty::Exactly
        }
    );
    assert!(asking.refused);
}

#[test]
fn a_tagged_recording_is_taken_exactly_and_one_missing_turns_to_a_search() {
    let mut tagged = track();
    tagged.mbid = Some(mbid(PORTAL));
    let (mut asking, first) = TrackAsking::begin(tagged.clone(), false);
    assert_eq!(first, TrackLookup::Recording(mbid(PORTAL)));
    assert_eq!(
        asking.heard(TrackAnswer::Recording(Some(recording(Vec::new())))),
        TrackLookup::Take {
            recording: recording(Vec::new()),
            certainty: Certainty::Exactly
        }
    );

    let (mut again, _) = TrackAsking::begin(tagged.clone(), false);
    assert_eq!(
        again.heard(TrackAnswer::Recording(None)),
        TrackLookup::FindRecording(RecordingAsked {
            title: "Orbits".to_owned(),
            artist: Some("Komet".to_owned()),
            artist_mbid: None,
            release: None,
            length: Some(200_000),
            wording: Wording::Phrase,
        })
    );
}

#[test]
fn a_search_that_lands_nothing_is_worded_again_then_the_track_is_heard() {
    let (mut asking, first) = TrackAsking::begin(track(), true);
    assert_eq!(
        first,
        TrackLookup::FindRecording(asking_for_a_recording(&track(), Wording::Phrase))
    );
    assert_eq!(
        asking.heard(TrackAnswer::Matches(vec![heard_as(50)])),
        TrackLookup::FindRecording(asking_for_a_recording(&track(), Wording::Words))
    );
    assert_eq!(asking.heard(TrackAnswer::Matches(Vec::new())), TrackLookup::Hear);
    assert_eq!(
        asking.heard(TrackAnswer::Heard(Some(vec![heard_as(99)]))),
        TrackLookup::Recording(mbid(ORBITS))
    );
    assert_eq!(
        asking.heard(TrackAnswer::Recording(None)),
        TrackLookup::NothingLanded(Fruitless::Missed)
    );
}

#[test]
fn a_strict_match_from_a_search_is_placed_and_taken_nearly() {
    let (mut asking, _) = TrackAsking::begin(track(), false);
    assert_eq!(
        asking.heard(TrackAnswer::Matches(vec![heard_as(40), heard_as(100)])),
        TrackLookup::Recording(mbid(ORBITS))
    );
    assert_eq!(asking.stage, TrackStage::PlacingFound);
    let placed = recording(vec![on_release(REMASTER)]);
    assert_eq!(
        asking.heard(TrackAnswer::Recording(Some(placed.clone()))),
        TrackLookup::Take {
            recording: placed,
            certainty: Certainty::Nearly
        }
    );
}

#[test]
fn a_track_with_no_way_left_is_noted_refused_where_a_lookup_was() {
    let mut bare = track();
    bare.tagged_title = None;
    let (_, first) = TrackAsking::begin(bare.clone(), false);
    assert_eq!(first, TrackLookup::NothingLanded(Fruitless::Missed));

    let (mut asking, _) = TrackAsking::begin(track(), false);
    assert_eq!(
        asking.heard(TrackAnswer::Refused),
        TrackLookup::NothingLanded(Fruitless::Refused)
    );
}

#[test]
fn a_search_with_no_artist_asks_with_the_album_instead() {
    let mut unbilled = track();
    unbilled.artist = None;
    let asked = asking_for_a_recording(&unbilled, Wording::Words);
    assert_eq!(asked.artist, None);
    assert_eq!(asked.release, Some("Orbits".to_owned()));
    let mut owned = unbilled.clone();
    owned.owner = Some("Komet".to_owned());
    owned.owner_mbid = Some(mbid(PORTAL));
    let asked = asking_for_a_recording(&owned, Wording::Words);
    assert_eq!(asked.artist, Some("Komet".to_owned()));
    assert_eq!(asked.artist_mbid, Some(mbid(PORTAL)));
    assert_eq!(asked.release, None);
}

#[test]
fn a_kept_recording_lands_the_album_by_its_release_unless_the_album_was_answered() {
    let kept = recording(vec![on_release(REMASTER)]);
    let (asking, lookup) =
        landing_the_release(&track(), Some(album()), &kept, true).expect("a release to land");
    assert_eq!(lookup, AlbumLookup::Release(mbid(REMASTER)));
    assert_eq!(asking.stage, AlbumStage::Release);
    assert!(asking.refused);

    let mut answered = track();
    answered.album_answered = true;
    assert!(landing_the_release(&answered, Some(album()), &kept, false).is_none());
    assert!(landing_the_release(&track(), None, &kept, false).is_none());
    assert!(landing_the_release(&track(), Some(album()), &recording(Vec::new()), false).is_none());
}

fn artist(name: &str) -> ArtistToAsk {
    ArtistToAsk {
        id: ArtistId::new(9).expect("a non-zero id"),
        name: name.to_owned(),
        mbid: None,
        has_portrait: false,
    }
}

fn profile(links: Vec<Link>) -> ArtistProfile {
    ArtistProfile {
        mbid: mbid(PORTAL),
        name: "Komet".to_owned(),
        sort_name: None,
        kind: None,
        gender: None,
        country: None,
        area: None,
        began_in: None,
        span: LifeSpan {
            begin: None,
            end: None,
            ended: false,
        },
        disambiguation: None,
        aliases: Vec::new(),
        genres: Vec::new(),
        links,
    }
}

fn offered(name: &str, score: u8, id: &str) -> ArtistMatch {
    ArtistMatch {
        mbid: mbid(id),
        name: name.to_owned(),
        score,
        kind: None,
        disambiguation: None,
        aliases: Vec::new(),
    }
}

fn group(kind: &str) -> ArtistRelease {
    ArtistRelease {
        mbid: mbid(ORBITS),
        title: "Orbits".to_owned(),
        kind: Some(kind.to_owned()),
        secondary: Vec::new(),
        first_released: None,
    }
}

#[test]
fn an_artist_found_by_name_is_kept_with_its_portrait_and_what_it_released() {
    let (mut asking, first) = ArtistAsking::begin(artist("Komet"));
    assert_eq!(first, ArtistLookup::FindArtist("Komet".to_owned()));
    assert_eq!(
        asking.heard(ArtistAnswer::Matches(vec![offered("Komet", 100, PORTAL)])),
        ArtistLookup::Artist(mbid(PORTAL))
    );
    let pictured = profile(vec![Link {
        relation: Relation::Image,
        url: "https://example.org/komet.jpg".to_owned(),
    }]);
    assert_eq!(
        asking.heard(ArtistAnswer::Profile(Some(pictured.clone()))),
        ArtistLookup::Land {
            profile: pictured,
            portrait: true
        }
    );
    assert_eq!(asking.stage, ArtistStage::Discography);
    assert_eq!(
        asking.heard(ArtistAnswer::Releases(vec![group("Album"), group("Single")])),
        ArtistLookup::Discography(Some(vec![group("Album")]))
    );
}

#[test]
fn a_refused_discography_keeps_nothing_and_an_unpictured_artist_asks_no_portrait() {
    let mut tagged = artist("Komet");
    tagged.mbid = Some(mbid(PORTAL));
    let (mut asking, first) = ArtistAsking::begin(tagged);
    assert_eq!(first, ArtistLookup::Artist(mbid(PORTAL)));
    assert_eq!(
        asking.heard(ArtistAnswer::Profile(Some(profile(Vec::new())))),
        ArtistLookup::Land {
            profile: profile(Vec::new()),
            portrait: false
        }
    );
    assert_eq!(asking.heard(ArtistAnswer::Refused), ArtistLookup::Discography(None));
}

#[test]
fn an_artist_not_found_bills_each_member_its_credit_joins() {
    let (mut asking, _) = ArtistAsking::begin(artist("Komet & Nova"));
    assert_eq!(asking.members, vec!["Komet".to_owned(), "Nova".to_owned()]);
    assert_eq!(
        asking.heard(ArtistAnswer::Matches(Vec::new())),
        ArtistLookup::Member("Komet".to_owned())
    );
    assert_eq!(
        asking.heard(ArtistAnswer::Matches(vec![offered("Komet", 100, ORBITS)])),
        ArtistLookup::Bill {
            name: "Komet".to_owned(),
            mbid: mbid(ORBITS)
        }
    );
    assert_eq!(
        asking.heard(ArtistAnswer::Billed),
        ArtistLookup::Member("Nova".to_owned())
    );
    assert_eq!(
        asking.heard(ArtistAnswer::Known),
        ArtistLookup::NothingLanded(Fruitless::Missed)
    );
}

#[test]
fn a_refusal_while_billing_stops_it_and_a_lone_name_bills_nobody() {
    let (mut asking, _) = ArtistAsking::begin(artist("Komet & Nova"));
    asking.heard(ArtistAnswer::Matches(Vec::new()));
    assert_eq!(
        asking.heard(ArtistAnswer::Refused),
        ArtistLookup::NothingLanded(Fruitless::Refused)
    );

    let (mut alone, _) = ArtistAsking::begin(artist("Komet"));
    assert_eq!(
        alone.heard(ArtistAnswer::Refused),
        ArtistLookup::NothingLanded(Fruitless::Refused)
    );
}

#[test]
fn only_albums_and_eps_are_kept_from_a_discography() {
    let kept = kept_releases(vec![group("Single"), group("EP"), group("Album"), group("Broadcast")]);
    assert_eq!(kept, vec![group("EP"), group("Album")]);
}
