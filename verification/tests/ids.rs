use resonate_library::ids::{AlbumId, ArtistId, Mbid, PlaylistId, TrackId};
use resonate_library::model::{file_name_start, PlaylistFormat, SheetEncoding};

const ECHOES: &str = "83d91898-7763-47d7-b03b-b92132375c47";

#[test]
fn an_identifier_is_thirty_two_hex_digits_in_five_hyphenated_groups() {
    assert_eq!(Mbid::new(ECHOES).map(|id| id.as_str().to_owned()), Some(ECHOES.to_owned()));
    assert!(Mbid::new("83D91898-7763-47D7-B03B-B92132375C47").is_some());
    assert!(Mbid::new("83d91898-7763-47d7-b03b-b92132375c4").is_none());
    assert!(Mbid::new("83d91898x7763-47d7-b03b-b92132375c47").is_none());
    assert!(Mbid::new("83d91898-7763-47d7-b03b-b92132375c4g").is_none());
    assert!(Mbid::new("").is_none());
}

#[test]
fn identifiers_are_the_same_where_they_spell_the_same() {
    let one = Mbid::new(ECHOES).expect("a well-formed mbid");
    let again = one.copied();
    assert!(one.same(&again));
    assert_eq!(one, again);
    let other = Mbid::new("5b11f4ce-a62d-471e-81fc-a69a8278c7da").expect("a well-formed mbid");
    assert!(!one.same(&other));
}

#[test]
fn a_row_is_never_numbered_zero() {
    assert!(AlbumId::new(0).is_none());
    assert_eq!(AlbumId::new(7).map(AlbumId::get), Some(7));
    assert!(ArtistId::new(0).is_none());
    assert_eq!(TrackId::new(3).map(TrackId::get), Some(3));
    assert_eq!(PlaylistId::new(1).map(PlaylistId::get), Some(1));
}

#[test]
fn a_playlists_format_is_named_by_its_extension_whatever_its_case() {
    assert_eq!(PlaylistFormat::of("/music/road trip.PLS"), PlaylistFormat::Pls);
    assert_eq!(PlaylistFormat::of("mix.xspf"), PlaylistFormat::Xspf);
    assert_eq!(PlaylistFormat::of("mix.m3u8"), PlaylistFormat::M3u);
    assert_eq!(PlaylistFormat::of("mix.txt"), PlaylistFormat::M3u);
    assert_eq!(PlaylistFormat::of("/lists.pls/mix"), PlaylistFormat::M3u);
    assert_eq!(PlaylistFormat::of(".pls"), PlaylistFormat::M3u);
    assert_eq!(PlaylistFormat::Pls.extension(), "pls");
    assert_eq!(PlaylistFormat::M3u.extension(), "m3u8");
    assert_eq!(PlaylistFormat::Xspf.name(), "XSPF");
    assert_eq!(SheetEncoding::Windows1252.name(), "Windows-1252");
}

#[test]
fn a_file_name_starts_after_the_last_slash() {
    let path: Vec<char> = "/music/meddle/echoes.flac".chars().collect();
    assert_eq!(file_name_start(&path), 14);
    let bare: Vec<char> = "echoes".chars().collect();
    assert_eq!(file_name_start(&bare), 0);
    let folder: Vec<char> = "/music/".chars().collect();
    assert_eq!(file_name_start(&folder), 7);
}
