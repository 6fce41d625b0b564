use resonate_library::error::{FieldName, PlaylistName, SchemaFingerprint, TagName};

#[test]
fn a_fingerprint_is_shown_as_eight_hexadecimal_digits() {
    assert_eq!(SchemaFingerprint(0).written(), "00000000");
    assert_eq!(SchemaFingerprint(0xdead_beef).written(), "deadbeef");
    assert_eq!(SchemaFingerprint(0x1f).written(), "0000001f");
    assert_eq!(SchemaFingerprint(u32::MAX).written(), "ffffffff");
}

#[test]
fn a_name_carries_the_text_it_was_made_from() {
    assert_eq!(TagName::new("artist").as_str(), "artist");
    assert_eq!(PlaylistName::new("Road trip").as_str(), "Road trip");
    assert_eq!(FieldName::new("mood").as_str(), "mood");
}
