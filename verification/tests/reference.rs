use resonate_library::ids::{Link, Mbid, Relation};
use resonate_library::reference::{
    may_be_pictured, portrait_urls, wikidata_urls, Credit, Medium, RecordingMatch, Release,
    ReleaseTrack,
};

const ECHOES: &str = "83d91898-7763-47d7-b03b-b92132375c47";

fn track(position: u32) -> ReleaseTrack {
    ReleaseTrack {
        position,
        number: position.to_string(),
        title: format!("track {position}"),
        artist: None,
        recording: None,
        track: None,
        length: None,
        isrc: None,
        links: Vec::new(),
    }
}

#[test]
fn a_release_is_credited_as_its_names_joined_the_way_musicbrainz_joins_them() {
    let release = Release {
        id: Mbid::new(ECHOES).expect("a well-formed mbid"),
        group: None,
        title: "Under the Covers".to_owned(),
        credit: vec![
            Credit {
                name: "Matthew Sweet".to_owned(),
                joined_by: " & ".to_owned(),
                mbid: None,
            },
            Credit {
                name: "Susanna Hoffs".to_owned(),
                joined_by: String::new(),
                mbid: None,
            },
        ],
        date: None,
        country: None,
        label: None,
        catalog_number: None,
        barcode: None,
        kind: None,
        disambiguation: None,
        has_front_cover: false,
        links: Vec::new(),
        media: vec![
            Medium {
                position: 1,
                format: None,
                title: None,
                tracks: vec![track(1), track(2)],
            },
            Medium {
                position: 2,
                format: None,
                title: None,
                tracks: vec![track(1)],
            },
        ],
    };

    assert_eq!(release.credited_as(), "Matthew Sweet & Susanna Hoffs");
    assert_eq!(release.track_count(), 3);
}

fn link(relation: Relation, url: &str) -> Link {
    Link {
        relation,
        url: url.to_owned(),
    }
}

#[test]
fn the_links_that_may_picture_an_artist_are_read_in_order() {
    let links = vec![
        link(Relation::Other, "https://example.org/home"),
        link(Relation::Image, "https://example.org/one.jpg"),
        link(Relation::Wikidata, "https://www.wikidata.org/wiki/Q2306"),
        link(Relation::Image, "https://example.org/two.jpg"),
    ];

    assert_eq!(
        portrait_urls(&links),
        vec!["https://example.org/one.jpg", "https://example.org/two.jpg"]
    );
    assert_eq!(
        wikidata_urls(&links),
        vec!["https://www.wikidata.org/wiki/Q2306"]
    );
    assert!(may_be_pictured(&links));
    assert!(may_be_pictured(&links[2..3]));
    assert!(!may_be_pictured(&links[..1]));
    assert!(!may_be_pictured(&[]));
}

#[test]
fn a_match_names_the_recording_it_matched() {
    let matched = RecordingMatch {
        recording: Mbid::new(ECHOES).expect("a well-formed mbid"),
        score: 97,
        title: "Echoes".to_owned(),
        credit: vec![Credit {
            name: "Pink Floyd".to_owned(),
            joined_by: String::new(),
            mbid: None,
        }],
        length: Some(1_411_000),
        isrcs: vec!["GBN9Y1100088".to_owned()],
        releases: Vec::new(),
    };

    assert_eq!(matched.credited_as(), "Pink Floyd");
    let recording = matched.into_recording();
    assert_eq!(recording.id.as_str(), ECHOES);
    assert_eq!(recording.title, "Echoes");
    assert_eq!(recording.length, Some(1_411_000));
    assert_eq!(recording.isrcs, vec!["GBN9Y1100088".to_owned()]);
}
