use resonate_library::enrich::{
    as_an_alias, asked_with, best_recording, best_release, closest_release, matches_a_recording,
    matches_as_a_group, matches_exactly, matches_strictly, opt_rank_of, recognised, same_credit,
    same_name, top_artist, top_group, top_of, top_release, weighed_release, worth_keeping,
    Certainty, Fit, Identified, Spelling, EXACT_SCORE,
};
use resonate_library::ids::{AlbumId, Mbid, TrackId};
use resonate_library::model::{AlbumToAsk, TrackToAsk};
use resonate_library::reference::{
    ArtistMatch, ArtistRelease, Credit, GroupMatch, GroupRelease, Recording, RecordingMatch,
    RecordingRelease, ReleaseGroup, ReleaseMatch,
};

const ORBITS: &str = "1c2d3e4f-5a6b-7c8d-9e0f-1a2b3c4d5e6f";
const PORTAL: &str = "9a8b7c6d-5e4f-3a2b-1c0d-9e8f7a6b5c4d";
const REMASTER: &str = "2b3c4d5e-6f7a-8b9c-0d1e-2f3a4b5c6d7e";

fn mbid(text: &str) -> Mbid {
    Mbid::new(text).expect("a well-formed mbid")
}

fn artist_release(kind: Option<&str>, secondary: &[&str]) -> ArtistRelease {
    ArtistRelease {
        mbid: mbid(ORBITS),
        title: "Orbits".to_owned(),
        kind: kind.map(str::to_owned),
        secondary: secondary.iter().map(|each| (*each).to_owned()).collect(),
        first_released: None,
    }
}

fn album(owner: Option<&str>) -> AlbumToAsk {
    numbered_album(1, owner)
}

fn numbered_album(id: u64, owner: Option<&str>) -> AlbumToAsk {
    AlbumToAsk {
        id: AlbumId::new(id).expect("a non-zero id"),
        title: "Orbits".to_owned(),
        owner: owner.map(str::to_owned),
        track_count: 3,
        year: None,
        mbid: None,
        group: None,
        barcode: None,
        catalog_number: None,
        tagged_tracks: None,
        owner_mbid: None,
        has_cover: false,
        has_release_rows: false,
        rematch_only: false,
    }
}

fn credited(name: Option<&str>) -> Vec<Credit> {
    name.into_iter()
        .map(|name| Credit {
            name: name.to_owned(),
            joined_by: String::new(),
            mbid: None,
        })
        .collect()
}

fn release(score: u8, artist: Option<&str>, tracks: Option<u32>) -> ReleaseMatch {
    ReleaseMatch {
        release: mbid(ORBITS),
        group: None,
        score,
        title: "Orbits".to_owned(),
        credit: credited(artist),
        track_count: tracks,
        date: None,
    }
}

fn group_match(score: u8, artist: Option<&str>) -> GroupMatch {
    GroupMatch {
        group: mbid(ORBITS),
        score,
        title: "Orbits".to_owned(),
        credit: credited(artist),
    }
}

fn credit_of(name: &str, joined_by: &str, id: Option<&str>) -> Credit {
    Credit {
        name: name.to_owned(),
        joined_by: joined_by.to_owned(),
        mbid: id.map(mbid),
    }
}

fn group_release(id: &str, date: Option<&str>, tracks: Option<u32>) -> GroupRelease {
    GroupRelease {
        id: mbid(id),
        title: "Orbits".to_owned(),
        date: date.map(str::to_owned),
        country: None,
        track_count: tracks,
    }
}

fn group_of(releases: Vec<GroupRelease>) -> ReleaseGroup {
    ReleaseGroup {
        id: mbid(ORBITS),
        title: "Orbits".to_owned(),
        credit: Vec::new(),
        kind: Some("Album".to_owned()),
        first_released: Some("1971-10-30".to_owned()),
        disambiguation: None,
        links: Vec::new(),
        releases,
    }
}

fn taken_from(group: &ReleaseGroup, album: &AlbumToAsk) -> Option<String> {
    closest_release(group, album).map(|(release, _)| release.id.as_str().to_owned())
}

fn fitted_from(group: &ReleaseGroup, album: &AlbumToAsk) -> Option<(String, Fit)> {
    closest_release(group, album).map(|(release, fit)| (release.id.as_str().to_owned(), fit))
}

fn artist(score: u8, name: &str) -> ArtistMatch {
    ArtistMatch {
        mbid: mbid(ORBITS),
        name: name.to_owned(),
        score,
        kind: None,
        disambiguation: None,
        aliases: Vec::new(),
    }
}

fn known_as(name: &str, aliases: &[&str], id: &str) -> ArtistMatch {
    ArtistMatch {
        mbid: mbid(id),
        name: name.to_owned(),
        score: EXACT_SCORE,
        kind: None,
        disambiguation: None,
        aliases: aliases.iter().map(|alias| (*alias).to_owned()).collect(),
    }
}

fn scores_of(found: &[ArtistMatch]) -> Vec<u64> {
    found.iter().map(|found| found.score as u64).collect()
}

#[test]
fn an_album_and_an_ep_are_worth_keeping_and_a_soundtrack_is_still_one() {
    for kind in ["Album", "EP"] {
        assert!(worth_keeping(&artist_release(Some(kind), &[])), "{kind}");
        assert!(
            worth_keeping(&artist_release(Some(kind), &["Soundtrack"])),
            "{kind} soundtrack"
        );
    }
}

#[test]
fn a_live_album_a_compilation_a_remix_a_single_and_an_unkinded_group_are_left_out() {
    for secondary in [
        ["Live"].as_slice(),
        ["Compilation"].as_slice(),
        ["Remix"].as_slice(),
        ["Soundtrack", "Live"].as_slice(),
        ["Soundtrack", "Compilation"].as_slice(),
    ] {
        assert!(
            !worth_keeping(&artist_release(Some("Album"), secondary)),
            "{secondary:?}"
        );
    }
    for kind in [
        None,
        Some("Single"),
        Some("Other"),
        Some("Broadcast"),
        Some("album"),
    ] {
        assert!(!worth_keeping(&artist_release(kind, &[])), "{kind:?}");
    }
}

#[test]
fn a_release_is_taken_on_the_score_the_count_and_the_folded_owner_together() {
    let owned = album(Some("The Orbiters"));
    assert!(matches_strictly(&release(100, Some("The Orbiters"), Some(3)), &owned).is_some());
    assert!(matches_strictly(&release(95, Some("the orbiters!"), Some(3)), &owned).is_some());
    assert!(matches_strictly(&release(94, Some("The Orbiters"), Some(3)), &owned).is_none());
    assert!(matches_strictly(&release(100, Some("The Orbiters"), Some(4)), &owned).is_none());
    assert!(matches_strictly(&release(100, Some("The Orbiters"), None), &owned).is_none());
    assert!(matches_strictly(&release(100, Some("The Orbits"), Some(3)), &owned).is_none());
    assert!(matches_strictly(&release(100, None, Some(3)), &owned).is_none());
}

#[test]
fn an_album_with_no_owner_is_taken_on_the_score_and_the_count_alone() {
    let various = album(None);
    assert!(matches_strictly(&release(95, Some("Various Artists"), Some(3)), &various).is_some());
    assert!(matches_strictly(&release(100, None, Some(3)), &various).is_some());
    assert!(matches_strictly(&release(100, Some("Various Artists"), Some(2)), &various).is_none());
}

#[test]
fn an_artist_is_taken_only_at_a_perfect_score_with_the_same_folded_name() {
    assert!(matches_exactly(&artist(100, "The Orbiters"), "The Orbiters").is_some());
    assert!(matches_exactly(&artist(100, "the orbiters"), "The Orbiters").is_some());
    assert!(matches_exactly(&artist(99, "The Orbiters"), "The Orbiters").is_none());
    assert!(matches_exactly(&artist(100, "Orbiters"), "The Orbiters").is_none());
}

#[test]
fn a_name_stripped_of_its_marks_identifies_the_artist_that_carries_them() {
    assert_eq!(
        matches_exactly(&artist(100, "Marcin Przybyłowicz"), "Marcin Przybyłowicz"),
        Some(Spelling::Marked)
    );
    assert_eq!(
        matches_exactly(&artist(100, "Marcin Przybyłowicz"), "Marcin Przybylowicz"),
        Some(Spelling::Stripped)
    );
    assert_eq!(
        matches_exactly(&artist(100, "Marcin Przybylowicz"), "Marcin Przybyłowicz"),
        Some(Spelling::Stripped)
    );
    assert_eq!(
        matches_exactly(&artist(100, "Marcin Przybylowicz"), "Martin Przybylowicz"),
        None
    );
}

#[test]
fn the_spelling_that_carries_the_marks_is_taken_over_the_one_that_does_not() {
    let spelled = |name: &str, id: &str| ArtistMatch {
        mbid: mbid(id),
        name: name.to_owned(),
        score: EXACT_SCORE,
        kind: None,
        disambiguation: None,
        aliases: Vec::new(),
    };
    let listed = vec![
        spelled("Marcin Przybylowicz", ORBITS),
        spelled("Marcin Przybyłowicz", PORTAL),
    ];

    assert_eq!(top_artist(listed, "Marcin Przybyłowicz"), Some(mbid(PORTAL)));
    assert_eq!(
        top_artist(vec![spelled("Marcin Przybyłowicz", PORTAL)], "Marcin Przybylowicz"),
        Some(mbid(PORTAL))
    );
}

#[test]
fn a_name_that_agrees_only_with_an_alias_ranks_below_one_that_agrees_with_the_name() {
    let under_an_alias = known_as("Nothing Alike", &["Marcin Przybyłowicz"], ORBITS);
    let under_its_name = known_as("Marcin Przybylowicz", &[], PORTAL);

    assert_eq!(
        matches_exactly(&under_an_alias, "Marcin Przybyłowicz"),
        Some(Spelling::AliasMarked)
    );
    assert_eq!(
        matches_exactly(&under_its_name, "Marcin Przybyłowicz"),
        Some(Spelling::Stripped)
    );
    assert!(Spelling::Stripped > Spelling::AliasMarked);

    assert_eq!(
        top_artist(vec![under_an_alias, under_its_name], "Marcin Przybyłowicz"),
        Some(mbid(PORTAL))
    );
}

#[test]
fn an_alias_that_carries_its_marks_is_taken_over_one_stripped_of_them() {
    let both_ways = known_as(
        "Nothing Alike",
        &["Marcin Przybylowicz", "Marcin Przybyłowicz"],
        ORBITS,
    );
    assert_eq!(
        matches_exactly(&both_ways, "Marcin Przybyłowicz"),
        Some(Spelling::AliasMarked)
    );

    let stripped = known_as("Nothing Alike", &["Marcin Przybylowicz"], ORBITS);
    let marked = known_as("Nothing At All Alike", &["Marcin Przybyłowicz"], PORTAL);
    assert_eq!(
        matches_exactly(&stripped, "Marcin Przybyłowicz"),
        Some(Spelling::AliasStripped)
    );
    assert_eq!(
        top_artist(vec![stripped, marked], "Marcin Przybyłowicz"),
        Some(mbid(PORTAL))
    );
}

#[test]
fn the_top_match_is_the_highest_score_and_the_first_of_a_tie() {
    let found = vec![
        artist(90, "first"),
        artist(100, "second"),
        artist(100, "third"),
    ];
    let weights = scores_of(&found);
    let top = top_of(found, &weights).expect("a match was listed");
    assert_eq!(top.name, "second");
    assert!(top_of(Vec::<ArtistMatch>::new(), &[]).is_none());
}

#[test]
fn a_near_miss_names_nothing_and_a_strict_match_names_the_release() {
    let owned = album(Some("The Orbiters"));
    assert_eq!(
        top_release(vec![release(100, Some("The Orbiters"), Some(4))], &owned),
        Identified::Nothing
    );
    assert_eq!(top_release(Vec::new(), &owned), Identified::Nothing);
    assert_eq!(
        top_release(
            vec![
                release(80, Some("The Orbiters"), Some(3)),
                release(100, Some("The Orbiters"), Some(3))
            ],
            &owned
        ),
        Identified::Found(mbid(ORBITS))
    );
}

#[test]
fn a_release_group_is_taken_on_the_score_and_the_folded_owner_without_any_track_count() {
    let owned = album(Some("The Orbiters"));
    assert!(matches_as_a_group(&group_match(100, Some("The Orbiters")), &owned).is_some());
    assert!(matches_as_a_group(&group_match(95, Some("the orbiters!")), &owned).is_some());
    assert!(matches_as_a_group(&group_match(94, Some("The Orbiters")), &owned).is_none());
    assert!(matches_as_a_group(&group_match(100, Some("The Orbits")), &owned).is_none());
    assert!(matches_as_a_group(&group_match(100, None), &owned).is_none());
    assert!(matches_as_a_group(&group_match(95, Some("Various Artists")), &album(None)).is_some());

    assert!(matches_strictly(&release(100, Some("The Orbiters"), Some(4)), &owned).is_none());
    assert!(matches_strictly(&release(100, Some("The Orbiters"), None), &owned).is_none());
    assert_eq!(
        top_group(vec![group_match(100, Some("The Orbiters"))], &owned),
        Some(mbid(ORBITS))
    );
    assert_eq!(top_group(vec![group_match(94, Some("The Orbiters"))], &owned), None);
    assert_eq!(top_group(Vec::new(), &owned), None);
}

#[test]
fn the_release_in_a_group_whose_count_matches_the_album_is_the_one_taken() {
    let owned = album(Some("The Orbiters"));
    let group = group_of(vec![
        group_release(PORTAL, Some("1971-10-30"), Some(4)),
        group_release(REMASTER, Some("2011-06-01"), Some(3)),
        group_release(ORBITS, Some("1971"), Some(3)),
    ]);
    assert_eq!(fitted_from(&group, &owned), Some((ORBITS.to_owned(), Fit::Exact)));

    let declared = AlbumToAsk {
        tagged_tracks: Some(4),
        ..album(Some("The Orbiters"))
    };
    assert_eq!(fitted_from(&group, &declared), Some((PORTAL.to_owned(), Fit::Exact)));

    let counting_nothing = group_of(vec![group_release(REMASTER, Some("2011-06-01"), None)]);
    assert_eq!(taken_from(&counting_nothing, &owned), None);
    assert_eq!(taken_from(&group_of(Vec::new()), &owned), None);
}

#[test]
fn a_group_with_no_exact_pressing_lands_the_smallest_wider_one_or_the_widest_narrower_one() {
    let owned = album(Some("The Orbiters"));
    let wider = group_of(vec![
        group_release(PORTAL, Some("1971-10-30"), Some(6)),
        group_release(REMASTER, Some("2011-06-01"), Some(4)),
        group_release(ORBITS, Some("1971"), Some(4)),
    ]);
    assert_eq!(fitted_from(&wider, &owned), Some((ORBITS.to_owned(), Fit::Wider)));

    let narrower = group_of(vec![
        group_release(PORTAL, Some("1971-10-30"), Some(2)),
        group_release(REMASTER, Some("2011-06-01"), Some(1)),
    ]);
    assert_eq!(fitted_from(&narrower, &owned), Some((PORTAL.to_owned(), Fit::Narrower)));

    let declared_wider = AlbumToAsk {
        tagged_tracks: Some(5),
        ..album(Some("The Orbiters"))
    };
    assert_eq!(fitted_from(&wider, &declared_wider), Some((ORBITS.to_owned(), Fit::Wider)));

    let as_wide_as_the_rip = group_of(vec![group_release(ORBITS, Some("1971"), Some(3))]);
    assert_eq!(
        fitted_from(&as_wide_as_the_rip, &declared_wider),
        Some((ORBITS.to_owned(), Fit::Narrower))
    );
}

#[test]
fn a_credit_agrees_where_any_one_of_its_names_does_and_an_id_beats_every_spelling() {
    let together = vec![
        credit_of("The Weeknd", " with ", Some(PORTAL)),
        credit_of("JENNIE", " & ", None),
        credit_of("Lily-Rose Depp", "", None),
    ];
    assert_eq!(same_credit(&together, "The Weeknd", None), Some(Spelling::Marked));
    assert_eq!(same_credit(&together, "Lily-Rose Depp", None), Some(Spelling::Marked));
    assert_eq!(
        same_credit(&together, "The Weeknd with JENNIE & Lily-Rose Depp", None),
        Some(Spelling::Marked)
    );
    assert_eq!(same_credit(&together, "Vince Staples", None), None);

    let portal = mbid(PORTAL);
    assert_eq!(same_credit(&together, "Nobody At All", Some(&portal)), Some(Spelling::ById));
    let orbits = mbid(ORBITS);
    assert_eq!(same_credit(&together, "The Weeknd", Some(&orbits)), Some(Spelling::Marked));
    assert!(Spelling::ById > Spelling::Marked);
    assert_eq!(as_an_alias(Spelling::ById), Spelling::ById);

    let unidentified = vec![credit_of("The Weeknd", "", None)];
    assert_eq!(same_credit(&unidentified, "The Weeknd", None), Some(Spelling::Marked));
    assert_eq!(same_credit(&[], "The Weeknd", None), None);
}

#[test]
fn a_release_owned_by_the_tagged_id_agrees_however_the_credit_spells_it() {
    let identified = AlbumToAsk {
        owner_mbid: Some(mbid(PORTAL)),
        ..album(Some("The Orbiters"))
    };
    let by_id = ReleaseMatch {
        credit: vec![credit_of("Orbiters", "", Some(PORTAL))],
        ..release(100, None, Some(3))
    };
    assert_eq!(matches_strictly(&by_id, &identified), Some(Spelling::ById));
    assert_eq!(
        matches_strictly(&release(100, Some("The Orbiters"), Some(3)), &identified),
        Some(Spelling::Marked)
    );
    assert_eq!(
        matches_as_a_group(
            &GroupMatch {
                credit: vec![credit_of("Orbiters", "", Some(PORTAL))],
                ..group_match(100, None)
            },
            &identified
        ),
        Some(Spelling::ById)
    );
}

fn dated(id: &str, date: Option<&str>, tracks: Option<u32>) -> ReleaseMatch {
    ReleaseMatch {
        release: mbid(id),
        date: date.map(str::to_owned),
        ..release(100, Some("The Orbiters"), tracks)
    }
}

#[test]
fn a_hit_is_weighed_on_its_owner_its_count_its_year_and_then_its_score() {
    let owned = AlbumToAsk {
        year: Some(1971),
        ..album(Some("The Orbiters"))
    };
    assert_eq!(
        top_release(
            vec![
                dated(PORTAL, Some("1971-10-30"), Some(4)),
                dated(ORBITS, Some("2011-06-01"), Some(3)),
            ],
            &owned
        ),
        Identified::Found(mbid(ORBITS))
    );
    assert_eq!(
        top_release(
            vec![
                dated(PORTAL, Some("2011-06-01"), Some(3)),
                dated(ORBITS, Some("1971"), Some(3)),
            ],
            &owned
        ),
        Identified::Found(mbid(ORBITS))
    );
    assert_eq!(
        top_release(
            vec![
                ReleaseMatch {
                    score: 96,
                    ..dated(PORTAL, Some("1971"), Some(3))
                },
                dated(ORBITS, Some("1971"), Some(3)),
            ],
            &owned
        ),
        Identified::Found(mbid(ORBITS))
    );
    assert_eq!(
        top_release(
            vec![
                dated(PORTAL, Some("1971"), Some(3)),
                ReleaseMatch {
                    credit: credited(Some("The Orbits")),
                    ..dated(ORBITS, Some("1971"), Some(3))
                },
            ],
            &owned
        ),
        Identified::Found(mbid(PORTAL))
    );
    assert_eq!(
        weighed_release(&dated(ORBITS, Some("1971-10-30"), Some(3)), &owned),
        (Some(Spelling::Marked), true, true, 100)
    );
    assert_eq!(
        weighed_release(&dated(ORBITS, Some("nineteen"), Some(4)), &owned),
        (Some(Spelling::Marked), false, false, 100)
    );
    assert_eq!(
        weighed_release(&dated(ORBITS, None, Some(3)), &album(Some("The Orbiters"))),
        (Some(Spelling::Marked), true, false, 100)
    );
    assert_eq!(
        weighed_release(
            &ReleaseMatch {
                score: 94,
                ..dated(ORBITS, Some("1971"), Some(3))
            },
            &owned
        ),
        (None, true, true, 94)
    );
}

#[test]
fn a_strict_hit_of_the_wrong_count_names_its_group_and_one_without_a_group_names_nothing() {
    let owned = album(Some("The Orbiters"));
    let another_pressing = ReleaseMatch {
        group: Some(mbid(PORTAL)),
        ..release(100, Some("The Orbiters"), Some(4))
    };
    assert_eq!(
        top_release(vec![another_pressing.clone()], &owned),
        Identified::Group(mbid(PORTAL))
    );
    assert_eq!(
        top_release(
            vec![ReleaseMatch {
                score: 94,
                ..another_pressing.clone()
            }],
            &owned
        ),
        Identified::Nothing
    );
    assert_eq!(
        top_release(
            vec![ReleaseMatch {
                credit: credited(Some("The Orbits")),
                ..another_pressing
            }],
            &owned
        ),
        Identified::Nothing
    );
    assert_eq!(
        top_release(vec![release(100, Some("The Orbiters"), Some(4))], &owned),
        Identified::Nothing
    );
    let declared = AlbumToAsk {
        tagged_tracks: Some(4),
        ..album(Some("The Orbiters"))
    };
    assert_eq!(
        top_release(vec![release(100, Some("The Orbiters"), Some(4))], &declared),
        Identified::Found(mbid(ORBITS))
    );
}

#[test]
fn a_release_that_declares_no_date_is_taken_only_where_no_dated_release_matches() {
    let owned = album(Some("The Orbiters"));
    let undated_first = group_of(vec![
        group_release(PORTAL, None, Some(3)),
        group_release(ORBITS, Some("2011-06-01"), Some(3)),
    ]);
    assert_eq!(taken_from(&undated_first, &owned).as_deref(), Some(ORBITS));

    let undated_alone = group_of(vec![
        group_release(PORTAL, None, Some(3)),
        group_release(REMASTER, None, Some(3)),
    ]);
    assert_eq!(taken_from(&undated_alone, &owned).as_deref(), Some(PORTAL));
}

const HEARD: &str = "One of These Days";

fn heard(artist: Option<&str>, length: Option<u64>) -> TrackToAsk {
    TrackToAsk {
        id: TrackId::new(1).expect("a non-zero id"),
        title: HEARD.to_owned(),
        tagged_title: Some(HEARD.to_owned()),
        artist: artist.map(str::to_owned),
        tagged_artist: artist.map(str::to_owned),
        artist_mbid: None,
        album: None,
        album_title: None,
        album_answered: false,
        owner: None,
        owner_mbid: None,
        location: "file:///music/1.wav".to_owned(),
        length,
        mbid: None,
        isrc: None,
    }
}

fn titled(title: &str, artist: Option<&str>) -> TrackToAsk {
    TrackToAsk {
        title: title.to_owned(),
        tagged_title: Some(title.to_owned()),
        ..heard(artist, None)
    }
}

fn found_recording(
    score: u8,
    title: &str,
    artist: Option<&str>,
    length: Option<u64>,
) -> RecordingMatch {
    RecordingMatch {
        recording: mbid(ORBITS),
        score,
        title: title.to_owned(),
        credit: credited(artist),
        length,
        isrcs: Vec::new(),
        releases: Vec::new(),
    }
}

fn take(id: &str, length: Option<u64>, releases: Vec<RecordingRelease>) -> Recording {
    Recording {
        id: mbid(id),
        title: HEARD.to_owned(),
        credit: Vec::new(),
        length,
        isrcs: Vec::new(),
        releases,
    }
}

fn recording_release(id: &str, title: &str, date: Option<&str>) -> RecordingRelease {
    RecordingRelease {
        id: mbid(id),
        title: title.to_owned(),
        date: date.map(str::to_owned),
        disc: Some(1),
        position: Some(4),
    }
}

fn named_by(found: Option<&(Recording, Certainty)>) -> Option<&str> {
    found.map(|(recording, _)| recording.id.as_str())
}

fn chosen(found: Option<&RecordingRelease>) -> Option<&str> {
    found.map(|release| release.id.as_str())
}

#[test]
fn a_recording_is_taken_on_the_score_the_folded_title_the_artist_and_the_length_together() {
    let played = heard(Some("The Orbiters"), Some(350_000));
    let long = Some(350_000);

    assert!(matches_a_recording(
        &found_recording(100, "One of These Days!", Some("the orbiters"), long),
        &played
    )
    .is_some());
    assert!(matches_a_recording(&found_recording(95, HEARD, Some("The Orbiters"), None), &played)
        .is_some());
    assert!(matches_a_recording(&found_recording(94, HEARD, Some("The Orbiters"), long), &played)
        .is_none());
    assert!(matches_a_recording(
        &found_recording(100, "One of Those Days", Some("The Orbiters"), long),
        &played
    )
    .is_none());
    assert!(matches_a_recording(&found_recording(100, HEARD, Some("The Orbits"), long), &played)
        .is_none());
    assert!(matches_a_recording(&found_recording(100, HEARD, None, long), &played).is_none());

    let unnamed = heard(None, None);
    assert_eq!(
        matches_a_recording(&found_recording(100, HEARD, None, long), &unnamed),
        Some(Spelling::Marked)
    );
}

#[test]
fn a_track_naming_no_artist_is_weighed_against_the_owner_of_its_album() {
    let under_an_owner = TrackToAsk {
        owner: Some("The Orbiters".to_owned()),
        ..heard(None, None)
    };
    assert_eq!(
        matches_a_recording(&found_recording(100, HEARD, Some("The Orbiters"), None), &under_an_owner),
        Some(Spelling::Marked)
    );
    assert_eq!(
        matches_a_recording(&found_recording(100, HEARD, Some("The Orbits"), None), &under_an_owner),
        None
    );

    let by_id = TrackToAsk {
        owner_mbid: Some(mbid(PORTAL)),
        ..under_an_owner
    };
    let credited_by_id = RecordingMatch {
        credit: vec![credit_of("Orbiters", "", Some(PORTAL))],
        ..found_recording(100, HEARD, None, None)
    };
    assert_eq!(matches_a_recording(&credited_by_id, &by_id), Some(Spelling::Marked));

    let named_itself = TrackToAsk {
        artist: Some("Ada".to_owned()),
        ..by_id
    };
    assert_eq!(matches_a_recording(&credited_by_id, &named_itself), None);
    assert_eq!(
        asked_with(&named_itself).map(|(artist, id)| (artist, id.is_some())),
        Some(("Ada", false))
    );
}

#[test]
fn a_collaboration_credit_agrees_where_the_file_names_one_of_its_artists() {
    let played = heard(Some("The Weeknd"), None);
    let together = RecordingMatch {
        credit: vec![
            credit_of("The Weeknd", " with ", None),
            credit_of("JENNIE", " & ", None),
            credit_of("Lily-Rose Depp", "", None),
        ],
        ..found_recording(100, HEARD, None, None)
    };
    assert_eq!(matches_a_recording(&together, &played), Some(Spelling::Marked));
    assert_eq!(matches_a_recording(&together, &heard(Some("Vince Staples"), None)), None);
}

#[test]
fn a_title_carrying_a_version_qualifier_agrees_with_the_plain_one_and_ranks_below_it() {
    assert_eq!(same_name(Some("DDevil"), "DDevil (Album Version)"), Some(Spelling::Dequalified));
    assert_eq!(same_name(Some("CUBErt"), "CUBErt  (Clean Version)"), Some(Spelling::Dequalified));
    assert_eq!(
        same_name(Some("Lost In Hollywood [Explicit]"), "Lost in Hollywood"),
        Some(Spelling::Dequalified)
    );
    assert_eq!(
        same_name(Some("Know"), "Know (Album Version) (Radio Edit)"),
        Some(Spelling::Dequalified)
    );
    assert_eq!(same_name(Some("DDevil"), "DDevil (album version)"), Some(Spelling::Dequalified));

    assert!(Spelling::Dequalified < Spelling::AliasStripped);
    assert!(Spelling::Dequalified < Spelling::Stripped);
    assert!(Spelling::Dequalified < Spelling::Marked);

    let qualified = titled("DDevil (Album Version)", Some("System of a Down"));
    let plainly = found_recording(100, "DDevil", Some("System of a Down"), None);
    let exactly = found_recording(100, "DDevil (Album Version)", Some("System of a Down"), None);
    assert_eq!(matches_a_recording(&plainly, &qualified), Some(Spelling::Dequalified));
    assert_eq!(matches_a_recording(&exactly, &qualified), Some(Spelling::Marked));

    let found = vec![plainly, exactly];
    let weights: Vec<u64> = found
        .iter()
        .map(|found| {
            opt_rank_of(matches_a_recording(found, &qualified)) as u64 * 1000 + found.score as u64
        })
        .collect();
    let top = top_of(found, &weights).expect("a match was listed");
    assert_eq!(top.title, "DDevil (Album Version)");
}

#[test]
fn a_bracket_naming_another_recording_is_not_a_qualifier_and_never_agrees() {
    for named in [
        "bad guy (with Justin Bieber)",
        "bad guy (Live)",
        "bad guy (Remix)",
        "bad guy (feat. Someone)",
        "bad guy (Acoustic)",
        "bad guy (Instrumental)",
        "bad guy (Demo)",
        "bad guy (Whatever This Is)",
    ] {
        assert_eq!(
            same_name(Some("bad guy"), named),
            None,
            "{named} was read as a qualified spelling of bad guy"
        );
        assert_eq!(
            same_name(Some(named), "bad guy"),
            None,
            "bad guy was read as a qualified spelling of {named}"
        );
    }

    assert_eq!(same_name(Some("Explicit"), "Bad Guy (Explicit)"), None);
    assert_eq!(same_name(Some("Album Version"), "Bad Guy"), None);
}

#[test]
fn a_remaster_year_reads_as_a_qualifier_whichever_way_round_it_is_written() {
    for spelling in [
        "So What (Remastered 2011)",
        "So What (2011 Remaster)",
        "So What (Remaster)",
        "So What [Remastered]",
        "So What (2011 Remastered)",
        "So What (Remaster 2011)",
    ] {
        assert_eq!(
            same_name(Some("So What"), spelling),
            Some(Spelling::Dequalified),
            "{spelling} was not read as a remaster of So What"
        );
    }

    assert_eq!(same_name(Some("So What"), "So What (Remastered 20)"), None);
    assert_eq!(same_name(Some("So What"), "So What (Remastered by Ada)"), None);
}

#[test]
fn a_de_qualified_title_is_still_refused_where_the_lengths_disagree() {
    let qualified = TrackToAsk {
        length: Some(350_000),
        ..titled("DDevil (Album Version)", Some("System of a Down"))
    };
    assert!(matches_a_recording(
        &found_recording(100, "DDevil", Some("System of a Down"), Some(350_000)),
        &qualified
    )
    .is_some());
    assert!(matches_a_recording(
        &found_recording(100, "DDevil", Some("System of a Down"), Some(600_000)),
        &qualified
    )
    .is_none());
}

#[test]
fn a_recording_a_few_seconds_out_is_taken_and_one_a_minute_out_is_not() {
    let played = heard(Some("The Orbiters"), Some(410_000));
    let running = |millis| found_recording(100, HEARD, Some("The Orbiters"), Some(millis));

    for millis in [405_000, 410_000, 414_999, 415_000] {
        assert!(
            matches_a_recording(&running(millis), &played).is_some(),
            "{millis} ms was not taken for a 410 000 ms file"
        );
    }
    for millis in [392_000, 415_001, 418_440, 478_693] {
        assert!(
            matches_a_recording(&running(millis), &played).is_none(),
            "{millis} ms was taken for a 410 000 ms file"
        );
    }
}

fn two_takes() -> Vec<Recording> {
    vec![
        take(ORBITS, Some(349_800), Vec::new()),
        take(PORTAL, Some(356_000), Vec::new()),
    ]
}

#[test]
fn an_isrc_that_names_two_takes_answers_the_one_the_file_is_as_long_as() {
    let longer = heard(None, Some(355_500));
    assert_eq!(named_by(best_recording(two_takes(), &longer).as_ref()), Some(PORTAL));

    let shorter = heard(None, Some(350_000));
    assert_eq!(named_by(best_recording(two_takes(), &shorter).as_ref()), Some(ORBITS));

    let unmeasured = heard(None, None);
    assert_eq!(named_by(best_recording(two_takes(), &unmeasured).as_ref()), Some(ORBITS));
}

#[test]
fn an_isrc_whose_takes_are_all_the_wrong_length_identifies_nothing() {
    let neither = heard(None, Some(300_000));
    assert_eq!(best_recording(two_takes(), &neither), None);
    assert_eq!(best_recording(Vec::new(), &neither), None);
}

#[test]
fn an_isrcs_only_take_is_nearly_the_file_where_the_title_agrees_and_the_length_does_not() {
    let neither = heard(None, Some(300_000));
    let remastered = vec![take(ORBITS, Some(500_000), Vec::new())];
    assert_eq!(
        best_recording(remastered.clone(), &neither).map(|(_, certainty)| certainty),
        Some(Certainty::Nearly)
    );
    assert_eq!(
        best_recording(remastered, &heard(None, Some(500_000))).map(|(_, certainty)| certainty),
        Some(Certainty::Exactly)
    );

    let another_title = vec![Recording {
        title: "A Pillow of Winds".to_owned(),
        ..take(ORBITS, Some(500_000), Vec::new())
    }];
    assert_eq!(best_recording(another_title, &neither), None);
}

#[test]
fn an_isrc_naming_one_take_identifies_it_even_where_no_length_is_declared() {
    let measured = heard(None, Some(300_000));
    assert_eq!(
        named_by(best_recording(vec![take(ORBITS, None, Vec::new())], &measured).as_ref()),
        Some(ORBITS)
    );
}

#[test]
fn a_fingerprint_is_weighed_on_its_score_alone_because_the_audio_is_the_evidence() {
    let stem = RecordingMatch {
        recording: mbid(ORBITS),
        score: 100,
        title: "01 track".to_owned(),
        credit: Vec::new(),
        length: None,
        isrcs: Vec::new(),
        releases: Vec::new(),
    };
    let weak = RecordingMatch {
        score: 80,
        ..stem.clone()
    };

    assert_eq!(
        recognised(vec![stem.clone()]).map(|found| found.recording),
        Some(mbid(ORBITS))
    );
    assert_eq!(recognised(vec![weak]), None);
    assert_eq!(recognised(Vec::new()), None);
}

#[test]
fn the_release_a_recording_names_is_the_albums_own_before_it_is_the_earliest() {
    let recording = take(
        ORBITS,
        None,
        vec![
            recording_release(REMASTER, "Orbits (2011 Remaster)", Some("2011-06-01")),
            recording_release(PORTAL, "Portals", None),
            recording_release(ORBITS, "Orbits", Some("1971-10-30")),
        ],
    );

    let identified = AlbumToAsk {
        mbid: Some(mbid(REMASTER)),
        ..album(Some("The Orbiters"))
    };
    assert_eq!(chosen(best_release(&recording, Some(&identified))), Some(REMASTER));

    let titled = album(Some("The Orbiters"));
    assert_eq!(chosen(best_release(&recording, Some(&titled))), Some(ORBITS));
    assert_eq!(chosen(best_release(&recording, None)), Some(ORBITS));

    let undated = take(
        ORBITS,
        None,
        vec![
            recording_release(PORTAL, "Portals", None),
            recording_release(REMASTER, "Orbits (2011 Remaster)", None),
        ],
    );
    assert_eq!(chosen(best_release(&undated, None)), Some(PORTAL));
    assert_eq!(chosen(best_release(&take(ORBITS, None, Vec::new()), None)), None);
}

use resonate_library::enrich::{Waits, REFRESH_AFTER, REFUSED_AGAIN_AFTER, RETRY_AFTER};

#[test]
fn the_standard_waits_are_a_day_an_hour_and_a_month() {
    let waits = Waits::standard();
    assert_eq!(waits.retry_after, RETRY_AFTER);
    assert_eq!(waits.retry_after, 24 * 60 * 60 * 1_000_000_000);
    assert_eq!(waits.refused_again_after, REFUSED_AGAIN_AFTER);
    assert_eq!(waits.refused_again_after, 60 * 60 * 1_000_000_000);
    assert_eq!(waits.refresh_after, REFRESH_AFTER);
    assert_eq!(waits.refresh_after, 30 * 24 * 60 * 60 * 1_000_000_000);
}
