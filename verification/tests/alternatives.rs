use resonate_library::alternatives::{
    crowned, held_under_the_best, one_song_apiece, Gathering, Held, Quality, Song,
};

const SECOND: u64 = 1_000_000_000;

fn song(album: &str, title: &str) -> Song {
    Song {
        album: album.to_owned(),
        artist: "pink floyd".to_owned(),
        disc: 1,
        track: Some(1),
        title: title.to_owned(),
    }
}

fn quality(lossless: bool, bits: u8) -> Quality {
    Quality {
        lossless,
        bits,
        rate: 44_100,
        bitrate: 0,
    }
}

fn held(id: i64, song: Song, tagged_album: Option<&str>, length: Option<u64>, quality: Quality) -> Held {
    Held {
        id,
        song,
        tagged_album: tagged_album.map(str::to_owned),
        length,
        quality,
        held_under: None,
    }
}

fn plain(id: i64, length: Option<u64>, quality: Quality) -> Held {
    held(id, song("meddle", "echoes"), None, length, quality)
}

#[test]
fn a_gathering_is_headed_by_its_earliest_copy() {
    let mut gathering = Gathering::of(4);
    assert_eq!(gathering.root(2), 2);
    gathering.join(1, 3);
    assert_eq!(gathering.root(3), 1);
    gathering.join(3, 0);
    assert_eq!(gathering.root(1), 0);
    assert_eq!(gathering.root(3), 0);
    assert_eq!(gathering.root(2), 2);
    assert_eq!(gathering.root(10), 10);
}

#[test]
fn a_song_is_named_well_enough_to_meet_only_with_a_title_and_an_artist() {
    assert!(song("meddle", "echoes").is_named_well_enough_to_meet());
    assert!(!song("meddle", "").is_named_well_enough_to_meet());
    let nobody = Song {
        artist: String::new(),
        ..song("meddle", "echoes")
    };
    assert!(!nobody.is_named_well_enough_to_meet());
}

#[test]
fn a_copy_may_be_the_song_its_tags_name_on_another_album() {
    let copy = held(1, song("live at pompeii", "echoes"), Some("meddle"), None, quality(true, 16));
    let songs = copy.songs();
    assert_eq!(songs.len(), 2);
    assert_eq!(songs[0].album, "live at pompeii");
    assert_eq!(songs[1].album, "meddle");

    let same = held(2, song("meddle", "echoes"), Some("meddle"), None, quality(true, 16));
    assert_eq!(same.songs().len(), 1);

    let untitled = held(3, song("meddle", ""), Some("other"), None, quality(true, 16));
    assert!(untitled.songs().is_empty());
}

#[test]
fn copies_that_may_be_one_song_are_gathered_through_each_other() {
    let copies = vec![
        held(1, song("meddle", "echoes"), None, None, quality(true, 16)),
        held(2, song("live at pompeii", "echoes"), Some("meddle"), None, quality(true, 16)),
        held(3, song("live at pompeii", "echoes"), None, None, quality(false, 16)),
        held(4, song("meddle", "san tropez"), None, None, quality(true, 16)),
        held(5, song("meddle", "echoes"), None, None, quality(false, 16)),
    ];
    let mut songs: Vec<Vec<i64>> = one_song_apiece(copies)
        .into_iter()
        .map(|song| song.into_iter().map(|copy| copy.id).collect())
        .collect();
    songs.sort();

    assert_eq!(songs, vec![vec![1, 2, 3, 5], vec![4]]);
}

#[test]
fn copies_with_nothing_to_meet_by_are_each_a_song_of_their_own() {
    let copies = vec![
        held(1, song("meddle", ""), None, None, quality(true, 16)),
        held(2, song("meddle", ""), None, None, quality(true, 16)),
    ];
    let mut songs: Vec<Vec<i64>> = one_song_apiece(copies)
        .into_iter()
        .map(|song| song.into_iter().map(|copy| copy.id).collect())
        .collect();
    songs.sort();

    assert_eq!(songs, vec![vec![1], vec![2]]);
    assert!(one_song_apiece(Vec::new()).is_empty());
}

#[test]
fn a_run_is_held_under_its_best_copy_and_the_earliest_of_a_tie() {
    let run = vec![
        plain(3, None, quality(false, 16)),
        plain(2, None, quality(true, 24)),
        plain(1, None, quality(true, 24)),
    ];
    let crowns: Vec<(i64, Option<i64>)> = crowned(run)
        .into_iter()
        .map(|(copy, under)| (copy.id, under))
        .collect();

    assert_eq!(crowns, vec![(3, Some(1)), (2, Some(1)), (1, None)]);
    assert!(crowned(Vec::new()).is_empty());
}

#[test]
fn copies_are_held_under_the_best_of_those_as_long_as_the_first_of_their_run() {
    let copies = vec![
        plain(1, Some(300 * SECOND), quality(true, 16)),
        plain(2, Some(101 * SECOND), quality(true, 24)),
        plain(3, Some(100 * SECOND), quality(false, 16)),
        plain(4, None, quality(false, 16)),
        plain(5, Some(102 * SECOND + 1), quality(true, 16)),
    ];
    let settled: Vec<(i64, Option<i64>)> = held_under_the_best(copies)
        .into_iter()
        .map(|(copy, under)| (copy.id, under))
        .collect();

    assert_eq!(
        settled,
        vec![
            (4, None),
            (3, Some(2)),
            (2, None),
            (5, None),
            (1, None),
        ]
    );
}
