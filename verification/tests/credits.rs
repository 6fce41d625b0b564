use resonate_library::credits::{every_member_held, members_of};

#[test]
fn a_credit_is_read_as_the_names_its_joins_separate() {
    assert_eq!(
        members_of("Adam Skorupa & Krzysztof Wierzynkiewicz"),
        vec!["Adam Skorupa", "Krzysztof Wierzynkiewicz"]
    );
    assert_eq!(
        members_of("Joris de Man; Julie Elven"),
        vec!["Joris de Man", "Julie Elven"]
    );
    assert_eq!(
        members_of("Percival, Marcin Przybyłowicz and Mikolai Stroinski"),
        vec!["Percival", "Marcin Przybyłowicz", "Mikolai Stroinski"]
    );
    assert_eq!(
        members_of("Kanye West Feat. Jay-Z"),
        vec!["Kanye West", "Jay-Z"]
    );
}

#[test]
fn a_name_with_no_join_in_it_is_one_member() {
    assert_eq!(
        members_of("Marcin Przybyłowicz"),
        vec!["Marcin Przybyłowicz"]
    );
    assert_eq!(members_of("Andrew"), vec!["Andrew"]);
    assert_eq!(members_of("Xavier"), vec!["Xavier"]);
    assert!(members_of("  ").is_empty());
}

#[test]
fn a_member_is_trimmed_and_an_empty_one_is_dropped() {
    assert_eq!(members_of("  Ada  &  & Grace "), vec!["Ada", "Grace"]);
    assert_eq!(members_of("Ada x Grace"), vec!["Ada", "Grace"]);
    assert!(members_of("").is_empty());
}

#[test]
fn a_credit_is_credited_to_each_member_held_as_an_artist() {
    let credit = "Adam Skorupa & Krzysztof Wierzynkiewicz";
    let members = members_of(credit);
    assert_eq!(
        every_member_held(credit, &members, &[Some(1), Some(2)]),
        Some(vec![1, 2])
    );
    assert_eq!(every_member_held(credit, &members, &[Some(1), Some(1)]), None);
    assert_eq!(every_member_held(credit, &members, &[Some(1), None]), None);
    assert_eq!(
        every_member_held("A, B & A", &["A", "B", "A"], &[Some(4), Some(5), Some(4)]),
        Some(vec![4, 5])
    );
    assert_eq!(
        every_member_held("Pink Floyd", &["Pink Floyd", "Roger"], &[Some(1), Some(2)]),
        None
    );
    assert_eq!(every_member_held("X & ", &["", "X"], &[Some(1), Some(2)]), None);
}
