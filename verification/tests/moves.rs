use resonate_library::moves::{pairs, Likeness, Row};

fn likeness(size: i64, title: &str) -> Likeness {
    Likeness {
        size,
        duration: Some(1_411),
        codec: 1,
        title: Some(title.to_owned()),
        artist: Some("Pink Floyd".to_owned()),
    }
}

fn row(path: &str, album: Option<i64>, like: Likeness) -> Row {
    Row {
        path: path.to_owned(),
        root: Some(1),
        album,
        likeness: like,
    }
}

fn followed(gone: Vec<Row>, arrived: Vec<Row>) -> Vec<(String, String)> {
    let mut paths: Vec<(String, String)> = pairs(gone, arrived)
        .into_iter()
        .map(|pair| (pair.from.path, pair.to.path))
        .collect();
    paths.sort();
    paths
}

#[test]
fn a_file_gone_is_followed_to_the_one_file_alike_that_arrived() {
    let gone = vec![
        row("/music/old/echoes.flac", Some(1), likeness(10, "Echoes")),
        row("/music/old/san tropez.flac", Some(1), likeness(20, "San Tropez")),
    ];
    let arrived = vec![
        row("/music/new/san tropez.flac", Some(2), likeness(20, "San Tropez")),
        row("/music/new/echoes.flac", Some(2), likeness(10, "Echoes")),
        row("/music/new/fearless.flac", Some(2), likeness(30, "Fearless")),
    ];

    assert_eq!(
        followed(gone, arrived),
        vec![
            (
                "/music/old/echoes.flac".to_owned(),
                "/music/new/echoes.flac".to_owned()
            ),
            (
                "/music/old/san tropez.flac".to_owned(),
                "/music/new/san tropez.flac".to_owned()
            ),
        ]
    );
}

#[test]
fn files_alike_in_twos_are_left_where_they_are() {
    let gone = vec![
        row("/music/a.flac", None, likeness(10, "Echoes")),
        row("/music/b.flac", None, likeness(10, "Echoes")),
    ];
    let arrived = vec![row("/music/c.flac", None, likeness(10, "Echoes"))];
    assert!(followed(gone, arrived).is_empty());

    let gone = vec![row("/music/a.flac", None, likeness(10, "Echoes"))];
    let arrived = vec![
        row("/music/c.flac", None, likeness(10, "Echoes")),
        row("/music/d.flac", None, likeness(10, "Echoes")),
    ];
    assert!(followed(gone, arrived).is_empty());
}

#[test]
fn a_file_followed_carries_its_rows_as_they_were() {
    let gone = vec![row("/music/a.flac", Some(4), likeness(10, "Echoes"))];
    let arrived = vec![row("/music/b.flac", Some(5), likeness(10, "Echoes"))];
    let paired = pairs(gone, arrived);
    assert_eq!(paired.len(), 1);
    assert_eq!(paired[0].from.album, Some(4));
    assert_eq!(paired[0].to.album, Some(5));
    assert!(pairs(Vec::new(), Vec::new()).is_empty());
}

#[test]
fn a_likeness_differing_in_any_part_is_another() {
    let mut other = likeness(10, "Echoes");
    other.artist = None;
    let gone = vec![row("/music/a.flac", None, likeness(10, "Echoes"))];
    let arrived = vec![row("/music/b.flac", None, other)];
    assert!(followed(gone, arrived).is_empty());
}
