use resonate_library::fingerprint::{
    after_answer, recognition_of, unprinted, Fingerprinters, Heard, Printed, Recognition,
};
use resonate_library::ids::Mbid;
use resonate_library::reference::RecordingMatch;

fn hit(id: &str) -> RecordingMatch {
    RecordingMatch {
        recording: Mbid::new(id).expect("a well-formed mbid"),
        score: 90,
        title: "Echoes".to_owned(),
        credit: Vec::new(),
        length: None,
        isrcs: Vec::new(),
        releases: Vec::new(),
    }
}

const ONE: &str = "83d91898-7763-47d7-b03b-b92132375c47";
const TWO: &str = "5b11f4ce-a62d-471e-81fc-a69a8278c7da";

#[test]
fn the_first_fingerprinter_to_recognise_anything_is_taken_and_nothing_refused() {
    let found = recognition_of(vec![
        None,
        Some(Printed::Nothing),
        Some(Printed::Recognised(Vec::new())),
        Some(Printed::Recognised(vec![hit(ONE)])),
        Some(Printed::Recognised(vec![hit(TWO)])),
    ]);
    assert_eq!(found.matches.len(), 1);
    assert_eq!(found.matches[0].recording.as_str(), ONE);
    assert!(!found.refused);
}

#[test]
fn where_none_recognises_anything_a_refusal_is_remembered() {
    let refused = recognition_of(vec![Some(Printed::Nothing), None]);
    assert!(refused.matches.is_empty());
    assert!(refused.refused);

    let quiet = recognition_of(vec![Some(Printed::Nothing)]);
    assert_eq!(quiet, Recognition::default());
    assert_eq!(recognition_of(Vec::new()), Recognition::default());
}

#[test]
fn one_answer_ends_the_asking_only_where_it_recognises_something() {
    assert_eq!(
        after_answer(false, None),
        Heard::Asking { refused: true }
    );
    assert_eq!(
        after_answer(true, Some(Printed::Nothing)),
        Heard::Asking { refused: true }
    );
    assert_eq!(
        after_answer(false, Some(Printed::Recognised(Vec::new()))),
        Heard::Asking { refused: false }
    );
    assert_eq!(
        after_answer(true, Some(Printed::Recognised(vec![hit(ONE)]))),
        Heard::Done(Recognition {
            matches: vec![hit(ONE)],
            refused: false,
        })
    );
}

#[test]
fn the_stub_is_the_only_fingerprinter_until_one_is_registered_and_a_name_registers_once() {
    let none = Fingerprinters::none("stub");
    assert!(!none.has_a_source());
    assert_eq!(none.names(), vec![unprinted().to_owned()]);

    let registered = Fingerprinters::none("stub")
        .and(unprinted().to_owned(), "stub")
        .and(unprinted().to_owned(), "stub");
    assert_eq!(registered.names().len(), 1);
    assert!(!registered.has_a_source());
}

#[test]
fn a_source_registered_again_is_asked_last_and_once() {
    let printers = Fingerprinters::none("stub")
        .and("acoustid".to_owned(), "first")
        .and("audd".to_owned(), "second")
        .and("acoustid".to_owned(), "again");
    assert!(printers.has_a_source());
    assert_eq!(
        printers.names(),
        vec!["unprinted".to_owned(), "audd".to_owned(), "acoustid".to_owned()]
    );
    assert_eq!(printers.printers()[2].1, "again");
}
