use resonate_library::ids::{AlbumId, TrackId};
use resonate_library::retag::{
    confirmed, cover_offered, offered, pass_unread, runs_by_file, to_write, wanted, wrote,
    PassedOver,
    RetagOptions, TagEdit, TagField, TagSet, TrackToTag, Unwritten, Written,
};

fn row() -> TrackToTag {
    TrackToTag {
        id: TrackId::new(1).expect("a namable track"),
        path: "/music/echoes.flac".to_owned(),
        album_id: Some(AlbumId::new(1).expect("a namable album")),
        cut: false,
        vaulted: false,
        answered: true,
        title: "Echoes".to_owned(),
        artist: Some("Pink Floyd".to_owned()),
        artist_mbid: Some("83d91898-7763-47d7-b03b-b92132375c47".to_owned()),
        mbid: Some("b1a9c0de-1111-4222-8333-444455556666".to_owned()),
        release_track_mbid: None,
        isrc: None,
        track_number: Some(6),
        disc_number: None,
        album_answered: true,
        album: Some("Meddle".to_owned()),
        album_artist_answered: true,
        album_artist: Some("Pink Floyd".to_owned()),
        album_artist_mbid: None,
        album_mbid: Some("1c2d3e4f-5a6b-7c8d-9e0f-1a2b3c4d5e6f".to_owned()),
        release_group: None,
        date: Some("1971-10-30".to_owned()),
        label: None,
        catalog_number: None,
        barcode: None,
        track_total: Some(6),
        disc_total: Some(1),
    }
}

fn fields(edits: &[TagEdit]) -> Vec<TagField> {
    edits.iter().map(|edit| edit.field).collect()
}

#[test]
fn a_tag_the_file_already_carries_is_not_written_again() {
    let row = row();
    let held = TagSet {
        title: Some("Echoes".to_owned()),
        artist: Some("Pink Floyd".to_owned()),
        album: Some("Meddle".to_owned()),
        album_artist: Some("Pink Floyd".to_owned()),
        track_number: Some(6),
        track_total: Some(6),
        disc_number: None,
        disc_total: Some(1),
        date: Some("1971-10-30".to_owned()),
        musicbrainz_track_id: Some("b1a9c0de-1111-4222-8333-444455556666".to_owned()),
        musicbrainz_artist_id: Some("83d91898-7763-47d7-b03b-b92132375c47".to_owned()),
        musicbrainz_album_id: Some("1c2d3e4f-5a6b-7c8d-9e0f-1a2b3c4d5e6f".to_owned()),
        ..TagSet::default()
    };

    assert_eq!(wanted(&row, &held), Vec::new());
}

#[test]
fn only_the_fields_that_differ_are_written() {
    let row = row();
    let held = TagSet {
        title: Some("Echos".to_owned()),
        artist: Some("Pink Floyd".to_owned()),
        album: Some("Meddle".to_owned()),
        album_artist: Some("Pink Floyd".to_owned()),
        track_number: Some(6),
        track_total: Some(6),
        disc_total: Some(1),
        date: Some("1971-10-30".to_owned()),
        musicbrainz_track_id: Some("b1a9c0de-1111-4222-8333-444455556666".to_owned()),
        musicbrainz_artist_id: Some("83d91898-7763-47d7-b03b-b92132375c47".to_owned()),
        musicbrainz_album_id: Some("1c2d3e4f-5a6b-7c8d-9e0f-1a2b3c4d5e6f".to_owned()),
        ..TagSet::default()
    };

    assert_eq!(fields(&wanted(&row, &held)), vec![TagField::Title]);
}

#[test]
fn a_row_no_lookup_answered_offers_neither_of_the_names_it_read_off_the_file() {
    let row = TrackToTag {
        answered: false,
        album_answered: false,
        album_artist_answered: false,
        ..row()
    };

    let named = fields(&wanted(&row, &TagSet::default()));
    assert!(!named.contains(&TagField::Title), "{named:?}");
    assert!(!named.contains(&TagField::Artist), "{named:?}");
    assert!(!named.contains(&TagField::Album), "{named:?}");
    assert!(!named.contains(&TagField::AlbumArtist), "{named:?}");
    assert!(
        named.contains(&TagField::MusicBrainzTrackId),
        "an identifier is never a guess and is offered whatever answered: {named:?}"
    );
}

#[test]
fn a_blank_value_names_nothing_and_is_never_written() {
    let row = TrackToTag {
        title: "   ".to_owned(),
        artist: Some(String::new()),
        ..row()
    };

    let named = fields(&wanted(&row, &TagSet::default()));
    assert!(!named.contains(&TagField::Title), "{named:?}");
    assert!(!named.contains(&TagField::Artist), "{named:?}");
}

#[test]
fn what_was_written_is_what_the_catalog_follows() {
    let write = Written {
        track: TrackId::new(1).expect("a namable track"),
        path: "/music/echoes.flac".to_owned(),
        edits: vec![TagEdit {
            field: TagField::Title,
            value: "Echoes".to_owned(),
        }],
        picture: None,
    };

    assert_eq!(wrote(&write, TagField::Title).as_deref(), Some("Echoes"));
    assert_eq!(wrote(&write, TagField::Artist), None);
}

#[test]
fn what_is_offered_comes_trimmed_in_its_order_with_counts_written_out() {
    let row = TrackToTag {
        title: "  Echoes ".to_owned(),
        disc_number: Some(0),
        ..row()
    };
    let offered = offered(&row);
    let expected: Vec<(TagField, String)> = vec![
        (TagField::Title, "Echoes".to_owned()),
        (TagField::Artist, "Pink Floyd".to_owned()),
        (
            TagField::MusicBrainzTrackId,
            "b1a9c0de-1111-4222-8333-444455556666".to_owned(),
        ),
        (
            TagField::MusicBrainzArtistId,
            "83d91898-7763-47d7-b03b-b92132375c47".to_owned(),
        ),
        (TagField::TrackNumber, "6".to_owned()),
        (TagField::Album, "Meddle".to_owned()),
        (TagField::TrackTotal, "6".to_owned()),
        (TagField::DiscTotal, "1".to_owned()),
        (TagField::AlbumArtist, "Pink Floyd".to_owned()),
        (
            TagField::MusicBrainzAlbumId,
            "1c2d3e4f-5a6b-7c8d-9e0f-1a2b3c4d5e6f".to_owned(),
        ),
        (TagField::Date, "1971-10-30".to_owned()),
    ];
    assert_eq!(offered, expected);
}

#[test]
fn a_count_the_file_carries_is_read_as_its_digits() {
    let held = TagSet {
        track_number: Some(12),
        ..TagSet::default()
    };
    assert_eq!(TagField::TrackNumber.read(&held).as_deref(), Some("12"));
    assert_eq!(TagField::DiscNumber.read(&held), None);
}

#[test]
fn every_reason_a_file_is_passed_over_is_said_in_words() {
    assert_eq!(Unwritten::Cut.as_str(), "cut out of a file it shares");
    assert_eq!(
        Unwritten::Vaulted.as_str(),
        "kept in the vault, which nothing writes tags into"
    );
    assert_eq!(
        Unwritten::Unsupported.as_str(),
        "a format this build does not write tags to"
    );
    assert_eq!(Unwritten::Unreadable.as_str(), "its tags could not be read");
    assert_eq!(Unwritten::Refused.as_str(), "its tags could not be written");
    assert_eq!(
        Unwritten::Unconfirmed.as_str(),
        "what was written did not read back"
    );
    let passed = PassedOver {
        path: "/music/echoes.flac".to_owned(),
        why: Unwritten::Cut,
    };
    assert_eq!(passed.why, Unwritten::Cut);
    assert_eq!(RetagOptions::default().roots.len(), 0);
}

fn at(path: &str) -> TrackToTag {
    TrackToTag {
        path: path.to_owned(),
        ..row()
    }
}

#[test]
fn rows_sharing_a_file_run_together_and_a_shared_file_is_a_cut() {
    let rows = vec![at("/a.flac"), at("/b.flac"), at("/b.flac"), at("/c.flac"), at("/a.flac")];
    let runs = runs_by_file(&rows);
    assert_eq!(runs, vec![(0, 1), (1, 3), (3, 4), (4, 5)]);
    assert!(runs_by_file(&[]).is_empty());
    assert_eq!(pass_unread(&rows[1..3]), Some(Unwritten::Cut));
    assert_eq!(pass_unread(&rows[0..1]), None);

    let mut cut = row();
    cut.cut = true;
    assert_eq!(pass_unread(&[cut]), Some(Unwritten::Cut));
    let mut vaulted = row();
    vaulted.vaulted = true;
    assert_eq!(pass_unread(&[vaulted]), Some(Unwritten::Vaulted));
}

#[test]
fn a_cover_is_offered_only_to_a_file_that_carries_none() {
    assert_eq!(cover_offered(true, &row()), None);
    assert_eq!(cover_offered(false, &row()), row().album_id);
    let mut loose = row();
    loose.album_id = None;
    assert_eq!(cover_offered(false, &loose), None);
}

#[test]
fn a_file_that_wants_no_edit_and_no_cover_is_left_unchanged() {
    let row = row();
    let carried = TagSet {
        title: Some("Echoes".to_owned()),
        artist: Some("Pink Floyd".to_owned()),
        album: Some("Meddle".to_owned()),
        album_artist: Some("Pink Floyd".to_owned()),
        track_number: Some(6),
        track_total: Some(6),
        disc_total: Some(1),
        date: Some("1971-10-30".to_owned()),
        musicbrainz_track_id: Some("b1a9c0de-1111-4222-8333-444455556666".to_owned()),
        musicbrainz_artist_id: Some("83d91898-7763-47d7-b03b-b92132375c47".to_owned()),
        musicbrainz_album_id: Some("1c2d3e4f-5a6b-7c8d-9e0f-1a2b3c4d5e6f".to_owned()),
        ..TagSet::default()
    };
    assert_eq!(to_write(&row, &carried, None), None);
    let covered = to_write(&row, &carried, Some(vec![1, 2, 3])).expect("a cover to write");
    assert!(covered.edits.is_empty());
    assert_eq!(covered.picture, Some(vec![1, 2, 3]));

    let bare = to_write(&row, &TagSet::default(), None).expect("edits to write");
    assert_eq!(bare.track, row.id);
    assert_eq!(bare.path, row.path);
    assert_eq!(fields(&bare.edits), fields(&wanted(&row, &TagSet::default())));
}

fn echoes_write(picture: Option<Vec<u8>>) -> Written {
    Written {
        track: TrackId::new(1).expect("a namable track"),
        path: "/music/echoes.flac".to_owned(),
        edits: vec![
            TagEdit { field: TagField::Title, value: "Echoes".to_owned() },
            TagEdit { field: TagField::TrackNumber, value: "6".to_owned() },
        ],
        picture,
    }
}

#[test]
fn a_write_is_confirmed_when_every_tag_reads_back_as_written() {
    let held = TagSet {
        title: Some("Echoes".to_owned()),
        track_number: Some(6),
        ..TagSet::default()
    };
    assert!(confirmed(&echoes_write(None), &held, None));
}

#[test]
fn a_tag_that_reads_back_otherwise_leaves_the_write_unconfirmed() {
    let held = TagSet {
        title: Some("Echos".to_owned()),
        track_number: Some(6),
        ..TagSet::default()
    };
    assert!(!confirmed(&echoes_write(None), &held, None));
    let numbered_otherwise = TagSet {
        title: Some("Echoes".to_owned()),
        track_number: Some(7),
        ..TagSet::default()
    };
    assert!(!confirmed(&echoes_write(None), &numbered_otherwise, None));
}

#[test]
fn a_written_picture_must_read_back_byte_for_byte() {
    let held = TagSet {
        title: Some("Echoes".to_owned()),
        track_number: Some(6),
        ..TagSet::default()
    };
    let write = echoes_write(Some(vec![1, 2, 3]));
    assert!(confirmed(&write, &held, Some(&[1, 2, 3])));
    assert!(!confirmed(&write, &held, Some(&[1, 2, 4])));
    assert!(!confirmed(&write, &held, None));
}
