use ahash::AHashSet;
use resonate_library::elsewhere::{first_released, found_among, FOUND_ELSEWHERE_AT_MOST};
use resonate_library::ids::Mbid;
use resonate_library::reference::{Credit, RecordingMatch, RecordingRelease};

const ONE: &str = "83d91898-7763-47d7-b03b-b92132375c47";
const TWO: &str = "5b11f4ce-a62d-471e-81fc-a69a8278c7da";
const THREE: &str = "9b1deb4d-3b7d-4bad-9bdd-2b0d7b3dcb6d";

fn mbid(text: &str) -> Mbid {
    Mbid::new(text).expect("a well-formed mbid")
}

fn released(id: &str, date: Option<&str>) -> RecordingRelease {
    RecordingRelease {
        id: mbid(id),
        title: format!("release {id}"),
        date: date.map(str::to_owned),
        disc: None,
        position: None,
    }
}

fn matched(id: &str, title: &str, artist: &str, releases: Vec<RecordingRelease>) -> RecordingMatch {
    RecordingMatch {
        recording: mbid(id),
        score: 100,
        title: title.to_owned(),
        credit: vec![Credit {
            name: artist.to_owned(),
            joined_by: String::new(),
            mbid: None,
        }],
        length: None,
        isrcs: Vec::new(),
        releases,
    }
}

fn numbered(n: u32) -> String {
    format!("{n:08x}-0000-4000-8000-000000000000")
}

#[test]
fn a_song_found_twice_is_offered_once_and_what_the_catalog_holds_not_at_all() {
    let held: AHashSet<String> = [THREE.to_owned()].into_iter().collect();
    let found = found_among(
        vec![
            matched(ONE, "Echoes", "Pink Floyd", Vec::new()),
            matched(TWO, "echoes", "Pink Floyd", Vec::new()),
            matched(THREE, "Echoes (live)", "Pink Floyd", Vec::new()),
        ],
        &held,
    );

    assert_eq!(found.len(), 1);
    assert_eq!(found[0].recording.as_str(), ONE);
    assert_eq!(found[0].artist, "Pink Floyd");
}

#[test]
fn a_song_is_wanted_from_the_release_it_first_came_out_on() {
    let releases = vec![
        released(ONE, Some("1995-05-01")),
        released(TWO, None),
        released(THREE, Some("1971-10-30")),
    ];

    assert_eq!(
        first_released(&releases).map(|release| release.id.as_str()),
        Some(THREE)
    );
    assert_eq!(
        first_released(&[released(TWO, None)]).map(|release| release.id.as_str()),
        Some(TWO)
    );
    assert!(first_released(&[]).is_none());
}

#[test]
fn a_found_song_carries_its_title_its_length_and_its_first_release() {
    let mut song = matched(
        ONE,
        "Echoes",
        "Pink Floyd",
        vec![released(TWO, Some("1972")), released(THREE, Some("1971-10-30"))],
    );
    song.length = Some(1_411_000);
    let found = found_among(vec![song], &AHashSet::new());

    assert_eq!(found.len(), 1);
    assert_eq!(found[0].title, "Echoes");
    assert_eq!(found[0].length, Some(1_411_000));
    assert_eq!(
        found[0].release.as_ref().map(|release| release.id.as_str()),
        Some(THREE)
    );
}

#[test]
fn no_more_songs_are_offered_than_a_search_shows() {
    let many: Vec<RecordingMatch> = (1..=20)
        .map(|n| matched(&numbered(n), &format!("Song {n}"), "Pink Floyd", Vec::new()))
        .collect();
    let found = found_among(many, &AHashSet::new());

    assert_eq!(found.len(), FOUND_ELSEWHERE_AT_MOST);
    assert_eq!(found[0].title, "Song 1");
    assert_eq!(found[11].title, "Song 12");
}

#[test]
fn a_credit_spelt_otherwise_is_another_song() {
    let found = found_among(
        vec![
            matched(ONE, "Echoes", "Pink Floyd", Vec::new()),
            matched(TWO, "Echoes", "Yes", Vec::new()),
        ],
        &AHashSet::new(),
    );

    assert_eq!(found.len(), 2);
    assert_eq!(found[1].artist, "Yes");
}
