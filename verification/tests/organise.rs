use resonate_library::error::{Error, LayoutFault};
use resonate_library::organise::{
    as_one_component, largest_prefix_within, without_padding, Field, Layout, Named, Naming,
    Piece, COMPONENT_BYTES, DEFAULT_LAYOUT,
};

fn comfortably_numb() -> Named<'static> {
    Named {
        album_artist: Some("Pink Floyd"),
        artist: Some("Pink Floyd"),
        album: Some("The Wall"),
        title: "Comfortably Numb",
        year: Some(1979),
        disc: Some(2),
        discs: 2,
        track: Some(6),
        extension: Some("flac"),
    }
}

fn read(template: &str) -> Layout {
    Layout::read(template).expect("a layout this build writes is a layout it reads")
}

fn fault(template: &str) -> (usize, LayoutFault) {
    match Layout::read(template) {
        Err(Error::LayoutSyntax { at, fault }) => (at, fault),
        otherwise => panic!("{template:?} was read as {otherwise:?}"),
    }
}

fn rendered(layout: &Layout, named: &Named<'_>) -> String {
    layout
        .render(named, Naming::Anything)
        .expect("this layout names a destination for this track")
}

#[test]
fn a_portable_name_writes_what_a_windows_volume_refuses_as_a_dash() {
    let title = "What's Going On? <Live: Take 2> *\\|\"";

    assert_eq!(
        as_one_component(title, COMPONENT_BYTES, Naming::Portable),
        "What's Going On- -Live- Take 2- ----"
    );
    assert_eq!(as_one_component(title, COMPONENT_BYTES, Naming::Anything), title);
}

#[test]
fn a_layout_is_segments_of_literals_and_fields_and_a_field_it_does_not_know_names_what_was_written(
) {
    let layout = read("{albumartist}/{disc}{track} {title}");

    assert_eq!(layout.segments().len(), 2);
    assert_eq!(
        layout.segments()[0].pieces().to_vec(),
        vec![Piece::Named(Field::AlbumArtist)]
    );
    assert_eq!(
        layout.segments()[1].pieces().to_vec(),
        vec![
            Piece::Named(Field::Disc),
            Piece::Named(Field::Track),
            Piece::Literal(" ".into()),
            Piece::Named(Field::Title),
        ]
    );

    let Err(Error::UnknownLayoutField { field }) = Layout::read("{album}/{genre}") else {
        panic!("a field no track carries was read as one it does");
    };
    assert_eq!(field.as_str(), "genre");
}

#[test]
fn a_layout_that_would_leave_the_root_is_refused_at_the_moment_it_is_read() {
    assert_eq!(fault(""), (0, LayoutFault::Empty));
    assert_eq!(fault("/{album}"), (0, LayoutFault::EmptySegment));
    assert_eq!(fault("{album}/"), (8, LayoutFault::EmptySegment));
    assert_eq!(fault("{album}//{title}"), (8, LayoutFault::EmptySegment));

    assert!(matches!(
        Layout::read("../{album}"),
        Err(Error::LayoutEscapes { segment: 0 })
    ));
    assert!(matches!(
        Layout::read("{album}/."),
        Err(Error::LayoutEscapes { segment: 1 })
    ));
    assert!(matches!(
        Layout::read("{album}/.."),
        Err(Error::LayoutEscapes { segment: 1 })
    ));

    let layout = read("{albumartist}/{title}");
    let mut named = comfortably_numb();
    named.album_artist = Some("/etc");
    named.title = "../../passwd";
    assert_eq!(rendered(&layout, &named), "-etc/..-..-passwd.flac");
}

#[test]
fn a_brace_is_written_by_doubling_it_and_an_unclosed_one_is_a_fault_at_its_own_offset() {
    let layout = read("{{{album}}}");
    assert_eq!(
        layout.segments()[0].pieces().to_vec(),
        vec![
            Piece::Literal("{".into()),
            Piece::Named(Field::Album),
            Piece::Literal("}".into()),
        ]
    );
    assert_eq!(rendered(&layout, &comfortably_numb()), "{The Wall}.flac");

    assert_eq!(fault("{album}/{title"), (8, LayoutFault::Unclosed));
    assert_eq!(fault("{album}/a}b"), (9, LayoutFault::Unopened));
    assert_eq!(fault("{album}/{}"), (8, LayoutFault::EmptyField));
}

#[test]
fn a_fault_is_placed_at_its_byte_and_not_its_character() {
    assert_eq!(fault("é/{"), (3, LayoutFault::Unclosed));
    assert_eq!(fault("音楽/{album}}"), (14, LayoutFault::Unopened));
}

#[test]
fn the_default_layout_reads_back_as_the_one_this_build_ships() {
    assert_eq!(Layout::default(), read(DEFAULT_LAYOUT));
    assert_eq!(
        rendered(&Layout::default(), &comfortably_numb()),
        "Pink Floyd/The Wall/2-06 Comfortably Numb.flac"
    );
}

#[test]
fn a_layout_writes_itself_back_as_the_template_it_was_read_from() {
    for template in [
        DEFAULT_LAYOUT,
        "{artist}/{year} {album}/{track} {title}",
        "{albumartist}/{album}/{disc}{track} {title}.{ext}",
        "{{braced}}/{album}/{title}",
        "one/two/{title}",
    ] {
        assert_eq!(read(template).to_string(), template);
        assert_eq!(read(&read(template).to_string()), read(template));
    }
}

#[test]
fn every_field_the_enum_names_is_a_field_the_reader_knows() {
    for field in Field::all() {
        assert_eq!(Field::read(field.as_str()), Some(field));

        let sharing = Field::all()
            .into_iter()
            .filter(|other| other.as_str() == field.as_str())
            .count();
        assert_eq!(sharing, 1, "{field:?} is written under a name another claims");
    }
    assert_eq!(Field::read("genre"), None);
    assert_eq!(Field::read(""), None);
}

#[test]
fn a_segment_that_resolves_to_nothing_is_dropped_and_a_file_name_that_does_leaves_no_destination(
) {
    let layout = read(DEFAULT_LAYOUT);
    let mut named = comfortably_numb();
    named.album_artist = None;
    assert_eq!(rendered(&layout, &named), "The Wall/2-06 Comfortably Numb.flac");

    let ending_in_a_year = read("{album}/{year}");
    let mut undated = comfortably_numb();
    undated.year = None;
    assert_eq!(ending_in_a_year.render(&undated, Naming::Anything), None);
    assert_eq!(rendered(&ending_in_a_year, &comfortably_numb()), "The Wall/1979.flac");
}

#[test]
fn a_track_number_is_two_digits_and_an_unknown_one_is_nothing() {
    let layout = read("{track} {title}");
    let mut named = comfortably_numb();

    assert_eq!(rendered(&layout, &named), "06 Comfortably Numb.flac");

    named.track = Some(112);
    assert_eq!(rendered(&layout, &named), "112 Comfortably Numb.flac");

    named.track = None;
    assert_eq!(rendered(&layout, &named), "Comfortably Numb.flac");
}

#[test]
fn a_year_is_written_in_four_digits() {
    let layout = read("{year} {title}");
    let mut named = comfortably_numb();
    named.year = Some(7);
    assert_eq!(rendered(&layout, &named), "0007 Comfortably Numb.flac");
    named.year = Some(-5);
    assert_eq!(rendered(&layout, &named), "-005 Comfortably Numb.flac");
    named.year = Some(12345);
    assert_eq!(rendered(&layout, &named), "12345 Comfortably Numb.flac");
}

#[test]
fn a_disc_is_written_only_where_the_release_has_more_than_one_of_them() {
    let layout = read("{disc}{track} {title}");
    let mut named = comfortably_numb();

    assert_eq!(rendered(&layout, &named), "2-06 Comfortably Numb.flac");

    named.discs = 1;
    named.disc = Some(1);
    assert_eq!(rendered(&layout, &named), "06 Comfortably Numb.flac");

    named.discs = 2;
    named.disc = None;
    assert_eq!(rendered(&layout, &named), "06 Comfortably Numb.flac");
}

#[test]
fn the_extension_is_appended_only_where_the_layout_does_not_name_it() {
    let named = comfortably_numb();

    assert_eq!(rendered(&read("{title}"), &named), "Comfortably Numb.flac");
    assert_eq!(rendered(&read("{title}.{ext}"), &named), "Comfortably Numb.flac");
    assert_eq!(
        rendered(&read("{track} {title} [{ext}]"), &named),
        "06 Comfortably Numb [flac]"
    );

    let mut unlabelled = named;
    unlabelled.extension = None;
    assert_eq!(rendered(&read("{title}"), &unlabelled), "Comfortably Numb");
}

#[test]
fn a_compilation_has_no_owner_to_file_under_so_its_album_folder_sits_under_the_root() {
    let named = Named {
        album_artist: None,
        artist: Some("Kylie Minogue"),
        album: Some("Now That's What I Call Music! 50"),
        title: "Can't Get You Out of My Head",
        year: Some(2001),
        disc: Some(1),
        discs: 2,
        track: Some(1),
        extension: Some("flac"),
    };

    let destination = read(DEFAULT_LAYOUT)
        .render(&named, Naming::Anything)
        .expect("a compilation is still filed somewhere");

    assert_eq!(
        destination,
        "Now That's What I Call Music! 50/1-01 Can't Get You Out of My Head.flac"
    );
    assert!(!destination.starts_with("Kylie Minogue"));
}

#[test]
fn a_separator_in_a_name_is_replaced_and_a_control_character_is_dropped() {
    let layout = read("{artist}/{title}");
    let mut named = comfortably_numb();
    named.artist = Some("AC/DC");
    named.title = "Ba\u{7}ck in Bla\u{7f}ck\nAgain";

    assert_eq!(rendered(&layout, &named), "AC-DC/Back in BlackAgain.flac");
}

#[test]
fn a_component_is_cut_to_the_bytes_a_filesystem_holds_and_never_mid_character() {
    let chanted = "音".repeat(300);
    let layout = read("{album}/{title}");
    let mut named = comfortably_numb();
    named.album = Some(&chanted);
    named.title = &chanted;

    let destination = layout
        .render(&named, Naming::Anything)
        .expect("a long name is cut rather than refused");
    let mut components = destination.split('/');

    let folder = components.next().expect("the album folder is the first component");
    assert_eq!(folder.len(), 255);
    assert_eq!(folder.chars().count(), 85);

    let file = components.next().expect("the file name is the second component");
    assert_eq!(file.len(), 254);
    assert_eq!(file.chars().count(), 88);
    assert!(file.ends_with(".flac"));

    let cut_on_a_space = format!("{}{}", "a".repeat(249), " bbbbbbbbbb");
    named.album = Some("The Wall");
    named.title = &cut_on_a_space;
    assert_eq!(
        rendered(&layout, &named),
        format!("The Wall/{}.flac", "a".repeat(249))
    );
}

#[test]
fn a_component_that_is_only_dots_or_only_spaces_resolves_to_nothing() {
    let layout = read("{album}/{title}");
    let mut named = comfortably_numb();

    for nothing in ["...", "   ", "..", ".", " . "] {
        named.album = Some(nothing);
        assert_eq!(
            rendered(&layout, &named),
            "Comfortably Numb.flac",
            "{nothing:?} was kept as a folder"
        );
    }

    named.album = Some("...And Justice for All");
    assert_eq!(
        rendered(&layout, &named),
        "...And Justice for All/Comfortably Numb.flac"
    );

    named.title = "Alive.";
    assert_eq!(rendered(&layout, &named), "...And Justice for All/Alive.flac");

    named.title = "..";
    assert_eq!(layout.render(&named, Naming::Anything), None);
}

#[test]
fn a_prefix_is_cut_at_the_last_whole_character_and_padding_is_taken_off_both_ends() {
    assert_eq!(largest_prefix_within("aé音", 6), "aé音");
    assert_eq!(largest_prefix_within("aé音", 5), "aé");
    assert_eq!(largest_prefix_within("aé音", 2), "a");
    assert_eq!(largest_prefix_within("aé音", 0), "");
    assert_eq!(without_padding("  . Alive. . "), ". Alive");
    assert_eq!(without_padding(" \t"), "");
}

use resonate_library::organise::{trailing, walked, Move, Companion, Plan, Step};

#[test]
fn a_move_waiting_on_another_is_ordered_behind_it() {
    let mut state = vec![Step::Unwalked; 2];
    assert_eq!(walked(&[Some(1), None], &mut state), vec![1, 0]);
    assert_eq!(state, vec![Step::Ordered, Step::Ordered]);

    let mut state = vec![Step::Unwalked; 4];
    assert_eq!(walked(&[Some(1), Some(2), None, Some(0)], &mut state), vec![2, 1, 0, 3]);
}

#[test]
fn moves_waiting_on_each_other_and_on_a_doomed_one_are_never_ordered() {
    let mut state = vec![Step::Unwalked; 3];
    assert_eq!(walked(&[Some(1), Some(0), None], &mut state), vec![2]);
    assert_eq!(state, vec![Step::Doomed, Step::Doomed, Step::Ordered]);

    let mut state = vec![Step::Doomed, Step::Unwalked, Step::Unwalked];
    assert_eq!(walked(&[None, Some(0), Some(1)], &mut state), Vec::<usize>::new());
    assert_eq!(state, vec![Step::Doomed; 3]);

    let mut state = vec![Step::Unwalked; 3];
    assert_eq!(walked(&[Some(1), Some(2), Some(1)], &mut state), Vec::<usize>::new());
}

#[test]
fn a_sheet_named_after_a_track_trails_its_stem_with_a_dot() {
    assert_eq!(trailing("/music/Echoes.cue", "Echoes"), Some(".cue"));
    assert_eq!(trailing("/music/Echoes.live.cue", "Echoes"), Some(".live.cue"));
    assert_eq!(trailing("/music/Echoes2.cue", "Echoes"), None);
    assert_eq!(trailing("/music/Echoes", "Echoes"), None);
    assert_eq!(trailing("Echoes.cue", "Echoes"), Some(".cue"));
}

#[test]
fn a_plan_counts_each_move_and_each_file_moving_with_it() {
    let moving = Move {
        from: "/a/1.flac".to_owned(),
        to: "/b/1.flac".to_owned(),
        rows: 1,
        companions: vec![Companion {
            from: "/a/2.flac".to_owned(),
            to: "/b/2.flac".to_owned(),
            rows: 2,
        }],
        sidecars: Vec::new(),
    };
    assert_eq!(
        moving.files(),
        vec![("/a/1.flac", "/b/1.flac"), ("/a/2.flac", "/b/2.flac")]
    );
    let plan = Plan {
        moves: vec![moving.clone(), Move { companions: Vec::new(), ..moving }],
        ..Plan::default()
    };
    assert_eq!(plan.files_moving(), 3);
}

use resonate_library::organise::{refused_now, tally, Refusal, Refused, Tally};
use resonate_library::progress::OrganiseProgress;

#[test]
fn a_move_refused_as_it_is_made_is_counted_under_its_refusal() {
    let progress = OrganiseProgress::default();
    let planned = Move {
        from: "/music/a.flac".to_owned(),
        to: "/music/Pink Floyd/Meddle/a.flac".to_owned(),
        rows: 1,
        companions: Vec::new(),
        sidecars: Vec::new(),
    };
    let refused = refused_now(&progress, &planned, Refusal::SourceGone);
    assert_eq!(
        refused,
        Refused {
            from: "/music/a.flac".to_owned(),
            refusal: Refusal::SourceGone,
        }
    );
    refused_now(
        &progress,
        &planned,
        Refusal::Collided {
            with: "/music/b.flac".to_owned(),
        },
    );
    refused_now(&progress, &planned, Refusal::Loose);
    let stats = progress.snapshot();
    assert_eq!((stats.failed, stats.collided, stats.unidentified), (1, 1, 1));
}

#[test]
fn every_component_of_a_rendered_path_is_something_short_and_clean() {
    let long_album = "Ünïcödé Äłbüm ".repeat(40);
    let named = Named {
        album_artist: Some(" ./.. "),
        artist: Some("AC/DC"),
        album: Some(long_album.as_str()),
        title: "Back\u{7}In\tBlack: <Live>?...",
        year: Some(1980),
        disc: Some(1),
        discs: 1,
        track: Some(1),
        extension: Some("flac"),
    };
    let layout = read("{albumartist}/{artist}/{album}/{title}");
    for naming in [Naming::Anything, Naming::Portable] {
        let destination = layout
            .render(&named, naming)
            .expect("the title names a file");
        for component in destination.split('/') {
            assert!(!component.is_empty(), "{destination:?}");
            assert!(component != "." && component != "..", "{destination:?}");
            assert!(component.len() <= COMPONENT_BYTES, "{destination:?}");
            assert!(!component.chars().any(|c| c.is_control()), "{destination:?}");
            if naming == Naming::Portable {
                assert!(!component.chars().any(|c| "\\:*?\"<>|".contains(c)), "{destination:?}");
            }
        }
    }
}

#[test]
fn each_refusal_is_counted_under_one_counter() {
    assert_eq!(tally(&Refusal::Unidentified), Tally::Unidentified);
    assert_eq!(tally(&Refusal::Loose), Tally::Unidentified);
    assert_eq!(tally(&Refusal::Collided { with: "/music/b.flac".to_owned() }), Tally::Collided);
    assert_eq!(tally(&Refusal::SharesASheet { sheet: "/music/a.cue".to_owned() }), Tally::Collided);
    assert_eq!(tally(&Refusal::SourceGone), Tally::Failed);
    assert_eq!(tally(&Refusal::Unmoved { kind: "busy".to_owned() }), Tally::Failed);
}
