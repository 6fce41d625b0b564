use resonate_library::import::{costliest_first, Effort};

#[test]
fn the_costliest_copies_are_worked_through_first_and_ties_keep_their_order() {
    let costs = vec![
        (Effort::Copied, 10),
        (Effort::Packed, 5),
        (Effort::Encoded, 100),
        (Effort::Packed, 7),
        (Effort::Copied, 10),
    ];
    assert_eq!(costliest_first(&costs), vec![3, 1, 2, 0, 4]);
    assert!(costliest_first(&[]).is_empty());
}
