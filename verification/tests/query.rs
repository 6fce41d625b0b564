use resonate_library::query::{
    AlbumOrder, AlbumQuery, ArtistOrder, ArtistQuery, Direction, Kept, PlaylistOrder, RowOrder,
    SavedQuery, SortOrder, TrackQuery,
};

#[test]
fn a_direction_flipped_twice_is_the_one_it_was() {
    for direction in Direction::all() {
        assert_ne!(direction.flipped(), direction);
        assert_eq!(direction.flipped().flipped(), direction);
    }
    assert_eq!(Direction::Ascending.flipped(), Direction::Descending);
}

#[test]
fn each_order_is_read_its_own_way_round() {
    assert_eq!(SortOrder::all().len(), 9);
    assert_eq!(SortOrder::Title.reads(), Direction::Ascending);
    assert_eq!(SortOrder::Plays.reads(), Direction::Descending);
    assert_eq!(SortOrder::DateAdded.reads(), Direction::Descending);
    assert_eq!(AlbumOrder::all().len(), 7);
    assert_eq!(AlbumOrder::Artist.reads(), Direction::Ascending);
    assert_eq!(AlbumOrder::Year.reads(), Direction::Descending);
    assert_eq!(ArtistOrder::all().len(), 5);
    assert_eq!(ArtistOrder::Name.reads(), Direction::Ascending);
    assert_eq!(ArtistOrder::Albums.reads(), Direction::Descending);
    assert_eq!(PlaylistOrder::all().len(), 5);
    assert_eq!(PlaylistOrder::Name.reads(), Direction::Ascending);
    assert_eq!(PlaylistOrder::Played.reads(), Direction::Descending);
}

#[test]
fn only_the_order_of_the_files_is_not_read_off_the_catalog() {
    for order in RowOrder::all() {
        assert_eq!(order.reads_the_catalog(), order != RowOrder::File);
    }
    let kept = Kept::default();
    assert_eq!(kept.order, RowOrder::Album);
    assert_eq!(kept.reading, Direction::Ascending);
}

#[test]
fn a_saved_query_reads_back_as_the_query_it_was() {
    let saved = SavedQuery {
        text: Some("echoes".to_owned()),
        sort: SortOrder::Played,
        reading: Direction::Ascending,
        limit: Some(25),
    };
    let query = TrackQuery::saved(&saved);
    assert_eq!(query.text.as_deref(), Some("echoes"));
    assert_eq!(query.sort, SortOrder::Played);
    assert_eq!(query.reading, Direction::Ascending);
    assert_eq!(query.limit, Some(25));
    assert_eq!(query.offset, 0);
    assert!(query.album.is_none() && query.artist.is_none());
}

#[test]
fn every_query_starts_with_everything_in_its_own_order() {
    let tracks = TrackQuery::default();
    assert_eq!(tracks.sort, SortOrder::Relevance);
    assert_eq!(tracks.reading, Direction::Ascending);
    assert!(tracks.limit.is_none() && tracks.text.is_none());
    let albums = AlbumQuery::default();
    assert_eq!(albums.sort, AlbumOrder::Relevance);
    assert_eq!(albums.reading, Direction::Ascending);
    let artists = ArtistQuery::default();
    assert_eq!(artists.sort, ArtistOrder::Relevance);
    assert_eq!(artists.offset, 0);
}
