use resonate_library::ids::{AlbumId, ArtistId, TrackId};
use resonate_library::model::AlbumToAsk;
use resonate_library::sought::{
    born_in_the_pass, lift_one, queued as queue_for, rotated, Ask, Lifted, PassAction, PassEvent,
    PassState, Seek, Sought, Spent,
};

fn numbered_album(id: u64) -> AlbumToAsk {
    AlbumToAsk {
        id: AlbumId::new(id).expect("a non-zero id"),
        title: "Orbits".to_owned(),
        owner: None,
        track_count: 3,
        year: None,
        mbid: None,
        group: None,
        barcode: None,
        catalog_number: None,
        tagged_tracks: None,
        owner_mbid: None,
        has_cover: false,
        has_release_rows: false,
        rematch_only: false,
    }
}

fn numbered_artist(id: u64) -> ArtistId {
    ArtistId::new(id).expect("a non-zero id")
}

fn named(queue: &[Ask]) -> Vec<(char, u64)> {
    queue
        .iter()
        .map(|ask| match ask {
            Ask::Album(album) => ('a', album.id.get()),
            Ask::Track(track) => ('t', track.get()),
            Ask::Artist(artist) => ('r', artist.get()),
        })
        .collect()
}

fn lift(sought: &mut Sought, queue: &mut Vec<Ask>, from: usize) {
    for seek in sought.taken() {
        rotated(queue, from, seek);
    }
}

fn queued() -> Vec<Ask> {
    vec![
        Ask::Album(numbered_album(1)),
        Ask::Album(numbered_album(2)),
        Ask::Album(numbered_album(3)),
        Ask::Artist(numbered_artist(7)),
        Ask::Artist(numbered_artist(8)),
    ]
}

#[test]
fn what_was_sought_is_lifted_to_the_front_and_the_newest_leads() {
    let mut sought = Sought::default();
    sought.album(AlbumId::new(3).expect("a non-zero id"));
    sought.artist(ArtistId::new(8).expect("a non-zero id"));

    let mut queue = queued();
    lift(&mut sought, &mut queue, 0);

    assert_eq!(
        named(&queue),
        vec![('r', 8), ('a', 3), ('a', 1), ('a', 2), ('r', 7)]
    );
}

#[test]
fn a_seek_is_spent_once_and_names_nothing_the_queue_still_holds() {
    let mut sought = Sought::default();
    sought.album(AlbumId::new(2).expect("a non-zero id"));
    sought.album(AlbumId::new(99).expect("a non-zero id"));

    let mut queue = queued();
    lift(&mut sought, &mut queue, 0);
    assert_eq!(named(&queue).first().copied(), Some(('a', 2)));

    let mut again = queued();
    lift(&mut sought, &mut again, 0);
    assert_eq!(named(&again), named(&queued()));
}

#[test]
fn a_seek_asked_for_twice_is_held_once() {
    let mut sought = Sought::default();
    sought.album(AlbumId::new(3).expect("a non-zero id"));
    sought.album(AlbumId::new(2).expect("a non-zero id"));
    sought.album(AlbumId::new(3).expect("a non-zero id"));

    let mut queue = queued();
    lift(&mut sought, &mut queue, 0);

    assert_eq!(
        named(&queue),
        vec![('a', 3), ('a', 2), ('a', 1), ('r', 7), ('r', 8)]
    );
}

#[test]
fn what_has_been_asked_already_is_left_where_it_is() {
    let mut sought = Sought::default();
    sought.album(AlbumId::new(1).expect("a non-zero id"));

    let mut queue = queued();
    lift(&mut sought, &mut queue, 2);

    assert_eq!(named(&queue), named(&queued()));
}

#[test]
fn an_ask_is_for_what_was_sought_only_of_its_own_kind() {
    let album = Ask::Album(numbered_album(7));
    assert!(album.is(Seek::Album(AlbumId::new(7).expect("a non-zero id"))));
    assert!(!album.is(Seek::Artist(numbered_artist(7))));
    let artist = Ask::Artist(numbered_artist(7));
    assert!(artist.is(Seek::Artist(numbered_artist(7))));
    assert!(!artist.is(Seek::Album(AlbumId::new(7).expect("a non-zero id"))));
}

#[test]
fn lifting_what_is_not_queued_leaves_the_queue_as_it_was() {
    let mut queue = queued();
    assert!(!rotated(&mut queue, 0, Seek::Artist(numbered_artist(9))));
    assert_eq!(named(&queue), named(&queued()));
    assert!(rotated(&mut queue, 1, Seek::Artist(numbered_artist(7))));
    assert_eq!(
        named(&queue),
        vec![('a', 1), ('r', 7), ('a', 2), ('a', 3), ('r', 8)]
    );
}

fn rematched_album(id: u64) -> AlbumToAsk {
    let mut album = numbered_album(id);
    album.rematch_only = true;
    album
}

#[test]
fn a_spent_seek_is_passed_over_and_an_unspent_one_lifted() {
    let mut spent = Spent::new();
    let seven = Seek::Artist(numbered_artist(7));
    assert!(!spent.holds(seven));
    spent.spend(seven);
    assert!(spent.holds(seven));
    assert!(!spent.holds(Seek::Album(AlbumId::new(7).expect("a non-zero id"))));

    let mut queue = queued();
    assert_eq!(lift_one(&mut queue, 0, &spent, seven), Lifted::Spent);
    assert_eq!(named(&queue), named(&queued()));

    let three = Seek::Album(AlbumId::new(3).expect("a non-zero id"));
    assert_eq!(lift_one(&mut queue, 0, &spent, three), Lifted::Rotated);
    assert_eq!(
        named(&queue),
        vec![('a', 3), ('a', 1), ('a', 2), ('r', 7), ('r', 8)]
    );

    let absent = Seek::Album(AlbumId::new(40).expect("a non-zero id"));
    assert_eq!(lift_one(&mut queue, 0, &spent, absent), Lifted::NotQueued);
    assert_eq!(
        named(&queue),
        vec![('a', 3), ('a', 1), ('a', 2), ('r', 7), ('r', 8)]
    );
}

#[test]
fn a_pass_queues_albums_then_tracks_then_artists_each_to_the_limit() {
    let albums = vec![
        numbered_album(1),
        rematched_album(2),
        numbered_album(3),
        numbered_album(4),
    ];
    let tracks: Vec<TrackId> = [10, 11, 12]
        .iter()
        .map(|n| TrackId::new(*n).expect("a non-zero id"))
        .collect();
    let artists = vec![numbered_artist(20), numbered_artist(21), numbered_artist(22)];

    let (queue, rematch) = queue_for(albums.clone(), tracks.clone(), artists.clone(), Some(2));
    assert_eq!(
        named(&queue),
        vec![('a', 1), ('a', 3), ('t', 10), ('t', 11), ('r', 20), ('r', 21)]
    );
    assert_eq!(rematch.iter().map(|a| a.id.get()).collect::<Vec<_>>(), vec![2]);

    let (all, _) = queue_for(albums, tracks, artists, None);
    assert_eq!(
        named(&all),
        vec![
            ('a', 1),
            ('a', 3),
            ('a', 4),
            ('t', 10),
            ('t', 11),
            ('t', 12),
            ('r', 20),
            ('r', 21),
            ('r', 22)
        ]
    );
}

#[test]
fn artists_born_in_a_pass_are_those_not_asked_about_and_none_under_a_limit() {
    let mut spent = Spent::new();
    spent.spend(Seek::Artist(numbered_artist(21)));
    spent.spend(Seek::Album(AlbumId::new(22).expect("a non-zero id")));
    let artists = vec![numbered_artist(20), numbered_artist(21), numbered_artist(22)];

    let born = born_in_the_pass(artists.clone(), &spent, false);
    assert_eq!(born.iter().map(|a| a.get()).collect::<Vec<_>>(), vec![20, 22]);
    assert!(born_in_the_pass(artists, &spent, true).is_empty());
}

fn artist(id: u64) -> ArtistId {
    ArtistId::new(id).expect("a non-zero id")
}

#[test]
fn a_pass_lifts_then_asks_each_queued_item_in_turn_and_then_looks_for_artists_born_in_it() {
    let track = TrackId::new(7).expect("a non-zero id");
    let state = PassState::new(vec![Ask::Track(track), Ask::Artist(artist(3))]);
    let (state, action) = state.step(PassEvent::Ready(false), false);
    assert_eq!(action, PassAction::Lift);
    let (state, action) = state.step(PassEvent::Lifted, false);
    assert_eq!(action, PassAction::Ask(0));
    assert_eq!(state.asked, 1);
    let (state, action) = state.step(PassEvent::Ready(false), false);
    assert_eq!(action, PassAction::Lift);
    let (state, action) = state.step(PassEvent::Lifted, false);
    assert_eq!(action, PassAction::Ask(1));
    assert!(state.spent.holds(Seek::Artist(artist(3))));
    let (state, action) = state.step(PassEvent::Ready(false), false);
    assert_eq!(action, PassAction::FindDue);
    let (state, action) = state.step(PassEvent::Due(vec![artist(3), artist(5)]), false);
    assert_eq!(action, PassAction::GoOn);
    assert_eq!(state.queue.len(), 3);
    assert_eq!(state.queue[2], Ask::Artist(artist(5)));
    let (state, action) = state.step(PassEvent::Ready(false), false);
    assert_eq!(action, PassAction::Lift);
    let (state, action) = state.step(PassEvent::Lifted, false);
    assert_eq!(action, PassAction::Ask(2));
    let (state, action) = state.step(PassEvent::Ready(false), false);
    assert_eq!(action, PassAction::FindDue);
    let (_, action) = state.step(PassEvent::Due(vec![artist(3), artist(5)]), false);
    assert_eq!(action, PassAction::Settle);
}

#[test]
fn a_cancelled_pass_stops_and_a_limited_one_settles_once_its_queue_is_done() {
    let state = PassState::new(vec![Ask::Artist(artist(3))]);
    let (state, action) = state.step(PassEvent::Ready(true), true);
    assert_eq!(action, PassAction::Stop);
    assert_eq!(state.asked, 0);
    let (state, _) = state.step(PassEvent::Lifted, true);
    let (_, action) = state.step(PassEvent::Ready(false), true);
    assert_eq!(action, PassAction::Settle);
}

#[test]
fn a_seek_still_due_is_queued_as_the_next_ask() {
    let mut state = PassState::new(vec![Ask::Artist(artist(3))]);
    assert_eq!(state.lift(Seek::Artist(artist(9))), Lifted::NotQueued);
    state.queue_due(Ask::Artist(artist(9)));
    assert_eq!(state.queue[0], Ask::Artist(artist(9)));
    assert_eq!(state.lift(Seek::Artist(artist(3))), Lifted::Rotated);
    assert_eq!(state.queue[0], Ask::Artist(artist(3)));
}
