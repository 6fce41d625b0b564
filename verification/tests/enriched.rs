use resonate_library::fold::stripped_title;
use resonate_library::text::folded_title;

#[test]
fn a_title_is_folded_to_its_letters_and_digits_lowercased() {
    assert_eq!(folded_title("Fearless!"), "fearless");
    assert_eq!(folded_title("Echoes (Live) — Pt. 2"), "echoeslivept2");
    assert_eq!(folded_title("ÉCHOES"), "échoes");
    assert_eq!(folded_title("   "), "");
}

use resonate_library::enriched::{
    album_due, asking_albums, doubled, due_again, moved, owner_mbid_held, paired,
    release_track_haystack, spelt_out, waited_its_turn, Carried, CatalogRow, ReleaseRow,
    WAITS_DOUBLE_AT_MOST,
};
use resonate_library::ids::Mbid;
use resonate_library::reference::{ArtistRelease, Credit, Medium, Release, ReleaseTrack};

const RELEASE: &str = "1c2d3e4f-5a6b-7c8d-9e0f-1a2b3c4d5e6f";
const RECORDING: &str = "83d91898-7763-47d7-b03b-b92132375c47";
const TRACK: &str = "3e7f0f5c-4d8a-4a7e-9b2a-0d3f6b6f9c11";

fn release_row(id: i64, position: u32, title: &str, recording: Option<&str>) -> ReleaseRow {
    ReleaseRow {
        id,
        disc: 1,
        position,
        recording: recording.map(str::to_owned),
        track: None,
        isrc: None,
        folded: folded_title(title),
        paired: None,
    }
}

fn catalog_row(
    id: i64,
    title: &str,
    number: Option<u32>,
    recording: Option<&str>,
    release_track: Option<&str>,
) -> CatalogRow {
    CatalogRow {
        id,
        recording: recording.map(str::to_owned),
        release_track: release_track.map(str::to_owned),
        disc: None,
        number,
        folded: folded_title(title),
    }
}

#[test]
fn a_recording_id_matches_a_row_before_its_position_or_its_title_can_mislead() {
    let tracks = vec![
        catalog_row(3, "Fearless!", None, None, None),
        catalog_row(2, "A Pillow of Winds", Some(2), None, None),
        catalog_row(1, "One of These Days", Some(3), Some(RECORDING), None),
    ];
    let rows = vec![
        release_row(1, 1, "One of These Days", Some(RECORDING)),
        release_row(2, 2, "A Pillow of Winds", None),
        release_row(3, 3, "Fearless", None),
        release_row(4, 4, "San Tropez", None),
    ];

    let matched = paired(&rows, &tracks);
    assert_eq!(moved(&rows, &matched), 3);
    assert_eq!(matched, vec![Some(1), Some(2), Some(3), None]);
}

#[test]
fn a_release_track_id_is_weighed_against_the_column_that_holds_one_and_not_the_recordings() {
    let tracks = vec![
        catalog_row(1, "One of These Days", None, Some(TRACK), None),
        catalog_row(2, "A Pillow of Winds", None, None, Some(TRACK)),
    ];
    let mut row = release_row(1, 1, "San Tropez", None);
    row.track = Some(TRACK.to_owned());
    let rows = vec![row];

    let matched = paired(&rows, &tracks);
    assert_eq!(moved(&rows, &matched), 1);
    assert_eq!(matched, vec![Some(2)]);
}

#[test]
fn a_track_is_paired_with_one_row_only() {
    let tracks = vec![catalog_row(7, "Echoes", None, None, None)];
    let rows = vec![
        release_row(1, 1, "Echoes", None),
        release_row(2, 2, "Echoes", None),
    ];

    assert_eq!(paired(&rows, &tracks), vec![Some(7), None]);
}

#[test]
fn a_track_with_no_disc_counts_as_on_the_only_disc_and_on_none_of_several() {
    let tracks = vec![catalog_row(5, "Untitled", Some(1), None, None)];
    let one = vec![release_row(1, 1, "Something else", None)];
    assert_eq!(paired(&one, &tracks), vec![Some(5)]);

    let mut second = release_row(2, 1, "Another thing", None);
    second.disc = 2;
    let two = vec![release_row(1, 1, "Something else", None), second];
    assert_eq!(paired(&two, &tracks), vec![None, None]);
}

#[test]
fn a_row_already_paired_the_same_way_is_not_counted_as_moved() {
    let tracks = vec![catalog_row(9, "Echoes", None, None, None)];
    let mut row = release_row(1, 1, "Echoes", None);
    row.paired = Some(9);
    let rows = vec![row];

    let matched = paired(&rows, &tracks);
    assert_eq!(matched, vec![Some(9)]);
    assert_eq!(moved(&rows, &matched), 0);
}

#[test]
fn a_wait_doubles_with_each_ask_up_to_the_limit() {
    assert_eq!(WAITS_DOUBLE_AT_MOST, 5);
    assert_eq!(
        doubled("?2", "a.asks"),
        "?2 * (1 << min(max(a.asks - 1, 0), 5))"
    );
    assert_eq!(
        waited_its_turn("r"),
        "r.asked + (CASE WHEN r.refusals > 0 THEN ?5 * (1 << min(max(r.refusals - 1, 0), 5)) \
         ELSE ?2 * (1 << min(max(r.asks - 1, 0), 5)) END) < ?3"
    );
}

#[test]
fn a_row_is_due_when_refreshed_never_asked_waited_or_stale() {
    let due = due_again("t");
    assert!(due.starts_with("(?1 OR t.asked IS NULL"));
    assert!(due.contains("t.answered IS NULL AND t.asked + (CASE WHEN t.refusals > 0"));
    assert!(due.ends_with("t.answered IS NOT NULL AND t.answered < ?4))"));
}

#[test]
fn an_album_landed_as_its_group_alone_is_due_again_once_it_has_waited() {
    let due = album_due();
    assert!(due.starts_with("((?1 OR a.asked IS NULL"));
    assert!(due.contains(" OR ((a.release_group IS NOT NULL AND a.mbid IS NULL) AND a.asked + "));
    assert!(due.ends_with(" END) < ?3))"));
    let asking = asking_albums(&due);
    assert!(asking.starts_with("SELECT a.id, a.title, r.name,"));
    assert!(asking.contains(&format!(", {due}\n")));
    assert!(asking.ends_with("FROM albums a LEFT JOIN artists r ON r.id = a.artist_id"));
}

#[test]
fn a_rank_names_what_a_row_is_carried_by_strongest_first() {
    assert_eq!(Carried::of(0), Some(Carried::Track));
    assert_eq!(Carried::of(1), Some(Carried::Recording));
    assert_eq!(Carried::of(2), Some(Carried::Seat));
    assert_eq!(Carried::of(3), None);
}

fn meddle(tracks: Vec<ReleaseTrack>) -> Release {
    Release {
        id: Mbid::new(RELEASE).expect("a well-formed mbid"),
        group: None,
        title: "Meddle".to_owned(),
        credit: vec![Credit {
            name: "Pink Floyd".to_owned(),
            joined_by: String::new(),
            mbid: None,
        }],
        date: Some("1971-10-30".to_owned()),
        country: None,
        label: None,
        catalog_number: None,
        barcode: None,
        kind: None,
        disambiguation: None,
        has_front_cover: false,
        links: Vec::new(),
        media: vec![Medium {
            position: 1,
            format: None,
            title: None,
            tracks,
        }],
    }
}

fn release_track(title: &str, artist: Option<&str>) -> ReleaseTrack {
    ReleaseTrack {
        position: 1,
        number: "1".to_owned(),
        title: title.to_owned(),
        artist: artist.map(str::to_owned),
        recording: None,
        track: None,
        length: None,
        isrc: None,
        links: Vec::new(),
    }
}

#[test]
fn a_release_track_is_found_by_its_title_its_artist_and_the_release() {
    let release = meddle(Vec::new());
    assert_eq!(
        release_track_haystack(&release, &release_track("Échoes", None)),
        "echoes pink floyd meddle"
    );
    assert_eq!(
        release_track_haystack(&release, &release_track("Echoes", Some("Gilmour"))),
        "echoes gilmour meddle"
    );
}

#[test]
fn a_release_group_is_found_by_its_title_its_kind_and_its_year() {
    let release = ArtistRelease {
        mbid: Mbid::new(RELEASE).expect("a well-formed mbid"),
        title: "Meddle".to_owned(),
        kind: Some("Album".to_owned()),
        secondary: Vec::new(),
        first_released: Some("1971".to_owned()),
    };
    assert_eq!(spelt_out(&release), "meddle album 1971");
    let bare = ArtistRelease {
        kind: None,
        first_released: None,
        ..release
    };
    assert_eq!(spelt_out(&bare), "meddle");
}

#[test]
fn an_owner_holds_an_identifier_only_where_it_is_one() {
    assert_eq!(
        owner_mbid_held(Some(RECORDING)).map(|id| id.as_str().to_owned()),
        Some(RECORDING.to_owned())
    );
    assert!(owner_mbid_held(Some("not an id")).is_none());
    assert!(owner_mbid_held(None).is_none());
}

#[test]
fn a_title_is_stripped_of_its_marks_to_its_letters_and_digits() {
    assert_eq!(stripped_title("Échoes!"), "echoes");
    assert_eq!(stripped_title("Øresund Pt. 2"), "oresundpt2");
}
