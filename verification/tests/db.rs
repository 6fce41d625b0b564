use resonate_library::db::{
    resumed, Resumed,
    album_order_by, and_roots, artist_order_by, clause, coded, counting, limit, listed, mbid_of,
    order_by, read_as, studied_as, under_roots, NamesStamp, RawArtistDetail, Reading,
};
use resonate_library::error::Error;
use resonate_library::query::{AlbumOrder, ArtistOrder, Direction, SortOrder};

const ECHOES: &str = "83d91898-7763-47d7-b03b-b92132375c47";

#[test]
fn names_read_at_a_stamp_hold_until_a_rename_or_another_connection_writes() {
    let read = NamesStamp {
        named: 3,
        written_elsewhere: Some(7),
    };
    assert!(read.still_holds_at(read));
    assert!(read.still_holds_at(NamesStamp {
        named: 3,
        written_elsewhere: None,
    }));
    assert!(!read.still_holds_at(NamesStamp {
        named: 4,
        written_elsewhere: Some(7),
    }));
    assert!(!read.still_holds_at(NamesStamp {
        named: 3,
        written_elsewhere: Some(8),
    }));
    let unstamped = NamesStamp {
        named: 3,
        written_elsewhere: None,
    };
    assert!(!unstamped.still_holds_at(read));
}

#[test]
fn a_study_is_asked_for_by_its_column_and_value() {
    assert_eq!(
        studied_as("verdict", "fake"),
        "EXISTS (SELECT 1 FROM track_studies s WHERE s.track_id = tracks.id AND s.verdict = 'fake')"
    );
}

#[test]
fn a_list_of_columns_counts_one_more_than_its_commas() {
    assert_eq!(listed("id"), 1);
    assert_eq!(listed("id, title, artist"), 3);
    assert_eq!(listed(""), 1);
}

#[test]
fn no_limit_asks_for_every_row() {
    assert_eq!(limit(None), -1);
    assert_eq!(limit(Some(25)), 25);
}

#[test]
fn an_order_is_read_the_way_round_asked() {
    let reading = Reading {
        up: "a",
        down: "a DESC",
    };
    assert_eq!(read_as(Direction::Ascending, reading), "a");
    assert_eq!(read_as(Direction::Descending, reading), "a DESC");
    assert_eq!(order_by(SortOrder::Relevance, Direction::Ascending, true), "rank");
    assert_eq!(
        order_by(SortOrder::Relevance, Direction::Descending, false),
        "tracks.album_id DESC, tracks.disc_number DESC, tracks.track_number DESC, tracks.title COLLATE NOCASE DESC"
    );
    assert_eq!(
        order_by(SortOrder::Title, Direction::Ascending, true),
        "tracks.title COLLATE NOCASE"
    );
    assert_eq!(
        order_by(SortOrder::Plays, Direction::Descending, false),
        "tracks.plays DESC, tracks.title COLLATE NOCASE"
    );
    assert_eq!(
        album_order_by(AlbumOrder::Relevance, Direction::Ascending, true),
        "matched.score, coalesce(a.release_title, a.title) COLLATE NOCASE"
    );
    assert_eq!(
        album_order_by(AlbumOrder::Title, Direction::Descending, false),
        "coalesce(a.release_title, a.title) COLLATE NOCASE DESC"
    );
    assert_eq!(
        artist_order_by(ArtistOrder::Name, Direction::Ascending, false),
        "r.name COLLATE NOCASE"
    );
    assert_eq!(
        artist_order_by(ArtistOrder::Relevance, Direction::Descending, true),
        "matched.score DESC, r.name COLLATE NOCASE DESC"
    );
}

#[test]
fn codes_are_asked_for_as_a_list_and_none_asks_for_nothing() {
    assert_eq!(coded("tracks.codec", &[]), "0");
    assert_eq!(coded("tracks.codec", &[3]), "tracks.codec IN (3)");
    assert_eq!(
        coded("tracks.codec", &[1, -2, 30]),
        "tracks.codec IN (1, -2, 30)"
    );
    assert_eq!(
        coded("c", &[i64::MIN]),
        "c IN (-9223372036854775808)"
    );
}

#[test]
fn filters_are_joined_into_one_clause_and_none_leaves_none() {
    assert_eq!(clause(&[]), "");
    assert_eq!(clause(&["a = 1".to_owned()]), " WHERE a = 1");
    assert_eq!(
        clause(&["a = 1".to_owned(), "b = 2".to_owned()]),
        " WHERE a = 1 AND b = 2"
    );
}

#[test]
fn the_roots_asked_narrow_a_listing_and_none_asks_for_every_root() {
    assert_eq!(
        and_roots("SELECT x WHERE y", 0),
        "SELECT x WHERE y ORDER BY tracks.path, tracks.span_start"
    );
    assert_eq!(
        and_roots("SELECT x WHERE y", 2),
        "SELECT x WHERE y AND roots.path IN (?, ?) ORDER BY tracks.path, tracks.span_start"
    );
    assert_eq!(
        under_roots("SELECT x", 1),
        "SELECT x WHERE roots.path IN (?) ORDER BY tracks.path, tracks.span_start"
    );
    assert_eq!(
        under_roots("SELECT x", 0),
        "SELECT x ORDER BY tracks.path, tracks.span_start"
    );
}

#[test]
fn a_count_is_read_only_where_it_is_one() {
    assert_eq!(counting(None), None);
    assert_eq!(counting(Some(12)), Some(12));
    assert_eq!(counting(Some(-1)), None);
    assert_eq!(counting(Some(4_294_967_296)), None);
    assert_eq!(counting(Some(4_294_967_295)), Some(u32::MAX));
}

#[test]
fn a_stored_identifier_reads_back_or_is_refused_as_no_identifier() {
    assert_eq!(mbid_of(None), Ok(None));
    assert_eq!(
        mbid_of(Some(ECHOES.to_owned())).map(|id| id.map(|id| id.as_str().to_owned())),
        Ok(Some(ECHOES.to_owned()))
    );
    assert_eq!(
        mbid_of(Some("echoes".to_owned())),
        Err(Error::NotAnMbid {
            text: "echoes".to_owned()
        })
    );
}

fn raw(mbid: Option<&str>) -> RawArtistDetail {
    RawArtistDetail {
        mbid: mbid.map(str::to_owned),
        sort_name: Some("Pink Floyd".to_owned()),
        kind: Some("Group".to_owned()),
        gender: None,
        country: Some("GB".to_owned()),
        area: None,
        began_in: None,
        began: Some("1965".to_owned()),
        ended: Some("2014".to_owned()),
        has_ended: true,
        disambiguation: None,
        asked: Some(5),
        answered: None,
        name: "Pink Floyd".to_owned(),
    }
}

#[test]
fn an_artists_profile_carries_what_the_catalog_stored() {
    let detail = raw(Some(ECHOES))
        .into_detail(Vec::new(), Vec::new(), 4)
        .expect("a stored identifier reads back");
    assert_eq!(detail.name, "Pink Floyd");
    assert_eq!(detail.mbid.map(|id| id.as_str().to_owned()), Some(ECHOES.to_owned()));
    assert_eq!(detail.span.begin.as_deref(), Some("1965"));
    assert!(detail.span.ended);
    assert_eq!(detail.asked, Some(5));
    assert_eq!(detail.releases_unheld, 4);

    assert!(raw(None).into_detail(Vec::new(), Vec::new(), 0).expect("no id").mbid.is_none());
    assert_eq!(
        raw(Some("nope")).into_detail(Vec::new(), Vec::new(), 0),
        Err(Error::NotAnMbid {
            text: "nope".to_owned()
        })
    );
}

fn keys(order: &str) -> Vec<String> {
    let mut keys = Vec::new();
    let mut depth = 0;
    let mut key = String::new();
    let mut chars = order.chars().peekable();
    while let Some(c) = chars.next() {
        match c {
            '(' => depth += 1,
            ')' => depth -= 1,
            _ => {}
        }
        if c == ',' && depth == 0 && chars.peek() == Some(&' ') {
            chars.next();
            keys.push(std::mem::take(&mut key));
        } else {
            key.push(c);
        }
    }
    keys.push(key);
    keys
}

fn turned(key: &str) -> String {
    match key.strip_suffix(" DESC") {
        Some(up) => up.to_owned(),
        None => format!("{key} DESC"),
    }
}

#[test]
fn read_downwards_every_pane_turns_each_key_it_is_read_by_upwards() {
    let tracks = [
        SortOrder::Relevance,
        SortOrder::AlbumThenTrack,
        SortOrder::Title,
        SortOrder::Artist,
        SortOrder::DateAdded,
        SortOrder::Duration,
        SortOrder::Plays,
        SortOrder::Played,
        SortOrder::Favourited,
    ];
    let albums = [
        AlbumOrder::Relevance,
        AlbumOrder::Title,
        AlbumOrder::Artist,
        AlbumOrder::Year,
        AlbumOrder::Tracks,
        AlbumOrder::Added,
        AlbumOrder::Favourited,
    ];
    for ranked in [false, true] {
        for sort in tracks {
            let up = keys(order_by(sort, Direction::Ascending, ranked));
            let down = keys(order_by(sort, Direction::Descending, ranked));
            assert_eq!(up.iter().map(|k| turned(k)).collect::<Vec<_>>(), down);
        }
        for sort in albums {
            let up = keys(album_order_by(sort, Direction::Ascending, ranked));
            let down = keys(album_order_by(sort, Direction::Descending, ranked));
            assert_eq!(up.iter().map(|k| turned(k)).collect::<Vec<_>>(), down);
            assert_eq!(
                up[0] == "matched.score",
                sort == AlbumOrder::Relevance && ranked
            );
        }
    }
    assert_eq!(
        keys(order_by(SortOrder::Plays, Direction::Descending, false)),
        vec!["tracks.plays DESC", "tracks.title COLLATE NOCASE"]
    );
}

#[test]
fn a_limit_past_the_largest_signed_number_wraps_to_every_row() {
    assert_eq!(limit(Some(i64::MAX as usize)), i64::MAX);
    assert!(limit(Some(usize::MAX)) < 0);
}

#[test]
fn a_kept_queue_resumes_its_rows_with_every_number_below_zero_read_as_zero() {
    let got = resumed(vec![Some("a"), Some("b")], &[1, -4, 0], 1, -20, true);
    assert_eq!(
        got,
        Some(Resumed { rows: vec!["a", "b"], order: vec![1, 0, 0], row: 1, at: 0, shuffle: true })
    );
    let negative_row = resumed(vec![Some("a")], &[], -3, 480, false);
    assert_eq!(
        negative_row,
        Some(Resumed { rows: vec!["a"], order: Vec::new(), row: 0, at: 480, shuffle: false })
    );
}

#[test]
fn a_kept_queue_with_no_rows_or_one_unopenable_resumes_nothing() {
    assert_eq!(resumed(Vec::<Option<&str>>::new(), &[0], 0, 0, false), None);
    assert_eq!(resumed(vec![Some("a"), None, Some("c")], &[0, 1, 2], 0, 0, false), None);
}
