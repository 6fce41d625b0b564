use std::cmp::Ordering;

use resonate_library::organise::{
    deepest_first, destination_of, filed, filed_together, rendered_of, standing_at, Companion, Filed, Filing,
    Member, Move, Refusal, Refused, Sidecar, Standing,
};

fn member(from: &str, rendered: Option<&str>) -> Member {
    Member {
        from: from.to_owned(),
        root: "/music".to_owned(),
        rows: 1,
        rendered: rendered.map(str::to_owned),
    }
}

#[test]
fn a_file_already_where_the_layout_puts_it_is_unchanged_and_one_with_no_folder_is_loose() {
    let placed = member("/music/Pink Floyd/Meddle/01 Echoes.wav", Some("Pink Floyd/Meddle/01 Echoes.wav"));
    assert_eq!(filed(&placed, None, Ok(Vec::new())), Filing::Unchanged);
    let loose = member("/music/somewhere/whatever.wav", Some("Echoes.wav"));
    assert_eq!(filed(&loose, None, Ok(Vec::new())), Filing::Refused(Refusal::Loose));
    let nameless = member("/music/somewhere/whatever.wav", None);
    assert_eq!(filed(&nameless, None, Ok(Vec::new())), Filing::Refused(Refusal::Unidentified));
}

#[test]
fn a_file_moves_unless_something_stands_in_its_way_and_waits_for_one_that_goes() {
    let moving = member("/music/a.wav", Some("Pink Floyd/Meddle/01 Echoes.wav"));
    let collided = Standing::Stands(Refusal::Collided { with: "/music/b.wav".to_owned() });
    assert_eq!(
        filed(&moving, Some(collided), Ok(Vec::new())),
        Filing::Refused(Refusal::Collided { with: "/music/b.wav".to_owned() })
    );
    let sheet = Sidecar { from: "/music/a.cue".to_owned(), to: "/music/Pink Floyd/Meddle/01 Echoes.cue".to_owned() };
    assert_eq!(
        filed(&moving, Some(Standing::MayGo("/music/c.wav".to_owned())), Ok(vec![sheet.clone()])),
        Filing::Planned {
            planned: Move {
                from: "/music/a.wav".to_owned(),
                to: "/music/Pink Floyd/Meddle/01 Echoes.wav".to_owned(),
                rows: 1,
                companions: Vec::new(),
                sidecars: vec![sheet],
            },
            waits_for: Some("/music/c.wav".to_owned()),
        }
    );
    assert_eq!(
        filed(&moving, None, Err(Refusal::Collided { with: "/x.cue".to_owned() })),
        Filing::Refused(Refusal::Collided { with: "/x.cue".to_owned() })
    );
}

#[test]
fn rows_cut_out_of_one_file_file_it_in_the_one_folder_they_name_under_its_own_name() {
    let renders = vec![
        Some("Pink Floyd/Meddle/01 One of These Days.wav".to_owned()),
        Some("Pink Floyd/Meddle/06 Echoes.wav".to_owned()),
    ];
    assert_eq!(
        rendered_of(&renders, "/music/rips/Meddle.wav"),
        Some("Pink Floyd/Meddle/Meddle.wav".to_owned())
    );
    let split = vec![
        Some("Pink Floyd/Meddle/01.wav".to_owned()),
        Some("Pink Floyd/Obscured by Clouds/02.wav".to_owned()),
    ];
    assert_eq!(rendered_of(&split, "/music/rips/Meddle.wav"), None);
    assert_eq!(rendered_of(&[None], "/music/a.wav"), None);
    assert_eq!(destination_of("/music", "a/b.wav"), "/music/a/b.wav");
    assert_eq!(destination_of("/music/", "a/b.wav"), "/music/a/b.wav");
}

#[test]
fn what_stands_in_the_way_is_read_from_the_plan_before_the_disk() {
    let to = "/music/x.wav";
    assert_eq!(
        standing_at(to, Some("/music/w.wav".to_owned()), false, true, false, false, false),
        Some(Standing::Stands(Refusal::Collided { with: "/music/w.wav".to_owned() }))
    );
    assert_eq!(standing_at(to, None, false, true, false, false, false), None);
    assert_eq!(
        standing_at(to, None, true, false, false, false, false),
        Some(Standing::Stands(Refusal::SourceGone))
    );
    assert_eq!(standing_at(to, None, true, true, true, false, false), None);
    assert_eq!(standing_at(to, None, true, true, false, true, false), None);
    assert_eq!(standing_at(to, None, true, true, false, false, true), Some(Standing::MayGo(to.to_owned())));
    assert_eq!(
        standing_at(to, None, true, true, false, false, false),
        Some(Standing::Stands(Refusal::Collided { with: to.to_owned() }))
    );
}

#[test]
fn files_tied_by_a_sheet_move_together_into_one_folder_with_the_sheet() {
    let members = vec![
        member("/music/rips/a.wav", Some("Artist/Album/a.wav")),
        member("/music/Artist/Album/b.wav", Some("Artist/Album/b.wav")),
        member("/music/rips/c.wav", Some("Artist/Album/c.wav")),
    ];
    let sheets = vec!["/music/rips/album.cue".to_owned()];
    let together = filed_together(&members, &[None, None, None], &sheets, &[false]);
    assert_eq!(together.unchanged, 1);
    assert_eq!(
        together.filed,
        Filed::Moved(Move {
            from: "/music/rips/a.wav".to_owned(),
            to: "/music/Artist/Album/a.wav".to_owned(),
            rows: 1,
            companions: vec![Companion {
                from: "/music/rips/c.wav".to_owned(),
                to: "/music/Artist/Album/c.wav".to_owned(),
                rows: 1,
            }],
            sidecars: vec![Sidecar {
                from: "/music/rips/album.cue".to_owned(),
                to: "/music/Artist/Album/album.cue".to_owned(),
            }],
        })
    );
    let taken = filed_together(&members, &[None, None, None], &sheets, &[true]);
    assert!(matches!(taken.filed, Filed::Refused(ref all) if all.len() == 3));
}

#[test]
fn files_tied_by_a_sheet_are_refused_together_and_the_one_at_fault_says_why() {
    let sheets = vec!["/music/rips/album.cue".to_owned()];
    let shares = Refusal::SharesASheet { sheet: "/music/rips/album.cue".to_owned() };
    let unnamed = vec![
        member("/music/rips/a.wav", Some("Artist/Album/a.wav")),
        member("/music/rips/b.wav", None),
    ];
    let together = filed_together(&unnamed, &[None, None], &sheets, &[false]);
    assert_eq!(together.unchanged, 0);
    assert_eq!(
        together.filed,
        Filed::Refused(vec![
            Refused { from: "/music/rips/a.wav".to_owned(), refusal: shares.clone() },
            Refused { from: "/music/rips/b.wav".to_owned(), refusal: Refusal::Unidentified },
        ])
    );
    let apart = vec![
        member("/music/rips/a.wav", Some("Artist/Album/a.wav")),
        member("/music/rips/b.wav", Some("Artist/Other/b.wav")),
    ];
    let together = filed_together(&apart, &[None, None], &sheets, &[false]);
    assert_eq!(
        together.filed,
        Filed::Refused(vec![
            Refused { from: "/music/rips/a.wav".to_owned(), refusal: shares.clone() },
            Refused { from: "/music/rips/b.wav".to_owned(), refusal: shares.clone() },
        ])
    );
    let blocked = vec![
        member("/music/rips/a.wav", Some("Artist/Album/a.wav")),
        member("/music/rips/b.wav", Some("Artist/Album/b.wav")),
    ];
    let together = filed_together(
        &blocked,
        &[None, Some(Standing::MayGo("/music/Artist/Album/b.wav".to_owned()))],
        &sheets,
        &[false],
    );
    assert_eq!(
        together.filed,
        Filed::Refused(vec![
            Refused { from: "/music/rips/a.wav".to_owned(), refusal: shares },
            Refused {
                from: "/music/rips/b.wav".to_owned(),
                refusal: Refusal::Collided { with: "/music/Artist/Album/b.wav".to_owned() },
            },
        ])
    );
    let none = filed_together(&[], &[], &[], &[]);
    assert_eq!(none.filed, Filed::Nothing);
}

#[test]
fn deeper_folders_come_before_the_folders_that_hold_them() {
    assert_eq!(deepest_first("/music/a/b", "/music/a"), Ordering::Less);
    assert_eq!(deepest_first("/music/a", "/music/a/b"), Ordering::Greater);
    assert_eq!(deepest_first("/music/a", "/music/b"), Ordering::Less);
    assert_eq!(deepest_first("/music/b", "/music/a"), Ordering::Greater);
    assert_eq!(deepest_first("/music/a", "/music/a"), Ordering::Equal);
}
