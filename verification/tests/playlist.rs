use resonate_library::error::Error;
use resonate_library::playlist::{
    anywhere, closed_up, doubled, dropping, folded, moved_from, moves, order_by, out_of_place,
    reseated, rows_in_order, sense, sorted_by, unwanted, up_to_the_end, wanted_name, Row, Span,
};
use resonate_library::query::{Direction, PlaylistOrder, RowOrder};

fn cut(path: &str, start: i64, frames: Option<i64>) -> Row {
    Row {
        path: path.to_owned(),
        start,
        frames,
    }
}

#[test]
fn the_first_row_out_of_place_is_found_and_the_rows_moved_are_counted() {
    let held = vec![
        Row::whole("/a.flac".to_owned()),
        cut("/b.cue", 0, Some(10)),
        cut("/b.cue", 10, Some(10)),
    ];
    let wanted = vec![
        Row::whole("/a.flac".to_owned()),
        cut("/b.cue", 10, Some(10)),
        cut("/b.cue", 0, Some(10)),
    ];
    assert_eq!(out_of_place(&held, &wanted), Some(1));
    assert_eq!(moved_from(&held, &wanted), 2);
    assert_eq!(out_of_place(&held, &held), None);
    assert_eq!(moved_from(&held, &held), 0);
    assert_eq!(out_of_place(&held, &held[..1]), None);
    assert!(held[1].same(&cut("/b.cue", 0, Some(10))));
    assert!(!held[1].same(&cut("/b.cue", 0, None)));
}

#[test]
fn a_span_is_cut_to_the_rows_held() {
    let rows = Span::between(9, 2);
    assert_eq!((rows.first(), rows.last(), rows.rows()), (2, 9, 8));
    assert_eq!(up_to_the_end(rows, 5), Some(Span::between(2, 4)));
    assert_eq!(up_to_the_end(rows, 20), Some(rows));
    assert_eq!(up_to_the_end(rows, 2), None);
    assert_eq!(up_to_the_end(rows, 0), None);
}

#[test]
fn a_word_is_found_anywhere_with_its_wildcards_escaped() {
    assert_eq!(anywhere("echoes"), "%echoes%");
    assert_eq!(anywhere("100%_a\\b"), "%100\\%\\_a\\\\b%");
    assert_eq!(anywhere(""), "%%");
}

#[test]
fn a_playlist_is_named_by_its_name_trimmed_and_a_blank_one_is_refused() {
    assert_eq!(
        wanted_name("  Road trip ").map(|name| name.as_str().to_owned()),
        Ok("Road trip".to_owned())
    );
    assert_eq!(wanted_name("   "), Err(Error::UnnamedPlaylist));
    assert_eq!(wanted_name(""), Err(Error::UnnamedPlaylist));
}

#[test]
fn a_name_is_folded_lowercased_and_composed() {
    assert_eq!(folded("Road Trip"), "road trip");
    assert_eq!(folded("E\u{301}CHOES"), "\u{e9}choes");
}

#[test]
fn the_rows_are_kept_in_the_order_asked_then_as_they_stand() {
    assert_eq!(sense(Direction::Ascending), "ASC");
    assert_eq!(sense(Direction::Descending), "DESC");
    assert_eq!(sorted_by(RowOrder::Title), vec!["tracks.title COLLATE NOCASE"]);
    assert_eq!(
        rows_in_order(RowOrder::Title, Direction::Descending),
        "tracks.id IS NULL, tracks.title COLLATE NOCASE DESC, e.position"
    );
    assert_eq!(
        rows_in_order(RowOrder::File, Direction::Ascending),
        "e.path COLLATE NOCASE ASC, e.position"
    );
    assert_eq!(
        rows_in_order(RowOrder::Album, Direction::Ascending),
        "tracks.id IS NULL, tracks.album_id ASC, tracks.disc_number ASC, \
         tracks.track_number ASC, tracks.title COLLATE NOCASE ASC, e.position"
    );
}

#[test]
fn pinned_playlists_lead_and_then_the_order_asked() {
    assert_eq!(
        order_by(PlaylistOrder::Name, Direction::Ascending),
        "CASE WHEN p.pinned IS NULL THEN 1 ELSE 0 END, p.pinned DESC, p.folded ASC, p.id ASC"
    );
    assert_eq!(
        order_by(PlaylistOrder::Plays, Direction::Descending),
        "CASE WHEN p.pinned IS NULL THEN 1 ELSE 0 END, p.pinned DESC, p.plays DESC, p.id DESC"
    );
}

fn dropped_on(model: &mut Vec<String>, rows: Span, to: usize) -> bool {
    let held = model.len();
    if rows.holds(to) || rows.last() >= held || to >= held {
        return false;
    }

    let under = model[to].clone();
    let taken = model.drain(rows.first()..=rows.last()).collect::<Vec<_>>();
    let beside = model
        .iter()
        .position(|row| *row == under)
        .expect("the row a span is dropped on is none of its own");
    let at = if to < rows.first() { beside } else { beside + 1 };
    model.splice(at..at, taken);
    true
}

fn taken_out(model: &mut Vec<String>, rows: Span) -> bool {
    let Some(last) = model.len().checked_sub(1) else {
        return false;
    };
    if rows.first() > last {
        return false;
    }

    model.drain(rows.first()..=rows.last().min(last));
    true
}

fn a_playlist_of(held: usize) -> Vec<String> {
    (0..held).map(|row| format!("/music/{row}.wav")).collect()
}

fn reseated_all(model: &[String], rows: Span, to: usize) -> Vec<String> {
    let mut placed = vec![String::new(); model.len()];
    for (position, path) in model.iter().enumerate() {
        placed[reseated(position, rows, to, model.len())] = path.clone();
    }
    placed
}

fn closed_up_all(model: &[String], rows: Span) -> Vec<String> {
    let kept = model.len() - rows.rows();
    let mut placed = vec![String::new(); kept];
    for (position, path) in model.iter().enumerate() {
        if !rows.holds(position) {
            placed[closed_up(position, rows)] = path.clone();
        }
    }
    placed
}

#[test]
fn every_edit_leaves_the_rows_numbered_from_zero_with_no_gap_and_none_lost() {
    for held in 1..9 {
        for one in 0..held + 2 {
            for other in 0..held + 2 {
                let rows = Span::between(one, other);
                for to in 0..held + 2 {
                    let mut model = a_playlist_of(held);
                    let allowed = moves(rows, to, held);
                    assert_eq!(allowed, dropped_on(&mut model, rows, to));
                    if allowed {
                        assert_eq!(reseated_all(&a_playlist_of(held), rows, to), model);
                    }
                }

                let mut model = a_playlist_of(held);
                let expected = taken_out(&mut model, rows);
                match up_to_the_end(rows, held) {
                    Some(held_rows) => {
                        assert!(expected);
                        assert_eq!(closed_up_all(&a_playlist_of(held), held_rows), model);
                    }
                    None => assert!(!expected),
                }
            }
        }
    }
}

#[test]
fn a_move_and_the_move_back_leave_the_rows_where_they_were() {
    for held in 2..9 {
        for one in 0..held {
            for other in 0..held {
                let rows = Span::between(one, other);
                for to in 0..held {
                    if rows.holds(to) {
                        continue;
                    }
                    let before = a_playlist_of(held);
                    let landing = rows.landing(to);
                    let back = Span::between(landing, landing + rows.rows() - 1);
                    let onto = if landing > rows.first() {
                        rows.first()
                    } else {
                        rows.last()
                    };

                    assert!(moves(rows, to, held));
                    let moved = reseated_all(&before, rows, to);
                    assert_ne!(moved, before);
                    assert!(moves(back, onto, held));
                    assert_eq!(reseated_all(&moved, back, onto), before);
                }
            }
        }
    }
}

#[test]
fn a_row_that_repeats_one_before_it_is_doubled_and_the_first_stays() {
    let rows = vec![
        Row::whole("/a.flac".to_owned()),
        cut("/b.cue", 0, Some(10)),
        Row::whole("/a.flac".to_owned()),
        cut("/b.cue", 10, Some(10)),
        cut("/b.cue", 0, Some(10)),
        cut("/b.cue", 0, None),
    ];
    let going = doubled(&rows);
    assert_eq!(going, vec![false, false, true, false, true, false]);
    let (first, kept) = dropping(&going).expect("a row goes");
    assert_eq!(first, 2);
    assert_eq!(kept, vec![3, 5]);
    assert_eq!((rows.len() - first) - kept.len(), 2);
}

#[test]
fn folding_leaves_no_two_rows_equal() {
    let rows: Vec<Row> = ["/c.flac", "/a.flac", "/c.flac", "/b.flac", "/a.flac", "/c.flac"]
        .iter()
        .map(|path| Row::whole((*path).to_owned()))
        .collect();
    let going = doubled(&rows);
    let (first, kept) = dropping(&going).expect("a row goes");
    let left: Vec<&Row> = rows[..first].iter().chain(kept.iter().map(|at| &rows[*at])).collect();
    assert_eq!(
        left.iter().map(|row| row.path.as_str()).collect::<Vec<_>>(),
        vec!["/c.flac", "/a.flac", "/b.flac"]
    );
}

#[test]
fn a_row_whose_file_is_gone_is_unwanted_and_does_not_make_a_later_one_a_double() {
    let rows = vec![
        Row::whole("/a.flac".to_owned()),
        Row::whole("/b.flac".to_owned()),
        Row::whole("/a.flac".to_owned()),
        Row::whole("/b.flac".to_owned()),
    ];
    let going = unwanted(&rows, &[false, true, false, false]);
    assert_eq!(going, vec![false, true, true, false]);
}

#[test]
fn nothing_is_dropped_where_no_row_goes() {
    assert_eq!(dropping(&[false, false]), None);
    assert_eq!(dropping(&[]), None);
    assert_eq!(dropping(&[true]), Some((0, Vec::new())));
}

#[test]
fn an_import_adds_only_the_rows_the_playlist_does_not_hold_already() {
    let held = vec![
        Row::whole("/a.flac".to_owned()),
        Row::whole("/b.flac".to_owned()),
        Row::whole("/a.flac".to_owned()),
    ];
    let wanted = vec![
        Row::whole("/a.flac".to_owned()),
        Row::whole("/c.flac".to_owned()),
        Row::whole("/a.flac".to_owned()),
        Row::whole("/a.flac".to_owned()),
        Row::whole("/b.flac".to_owned()),
    ];
    let (fresh, already) = resonate_library::playlist::fresh_of(&held, &wanted);
    assert_eq!(fresh, vec![1, 3]);
    assert_eq!(already, 3);
    assert_eq!(resonate_library::playlist::fresh_of(&[], &wanted).0, vec![0, 1, 2, 3, 4]);
}
