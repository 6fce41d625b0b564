use resonate_library::mounts::{components_of, pieces_of, unescaped_mount, words_of};
use resonate_library::organise::Naming;

fn chars(text: &str) -> Vec<char> {
    text.chars().collect()
}

fn strings(parts: Vec<Vec<char>>) -> Vec<String> {
    parts.into_iter().map(|part| part.into_iter().collect()).collect()
}

#[test]
fn a_root_on_a_windows_volume_is_named_in_what_that_volume_takes() {
    let table = "/dev/nvme0n1p2 / ext4 rw,relatime 0 0\n\
                 /dev/sdb1 /run/media/me/My\\040Stick vfat rw 0 0\n\
                 /dev/sdc1 /mnt/Shared ntfs3 rw 0 0\n\
                 /dev/sdc2 /mnt/Shared/inner btrfs rw 0 0\n";

    assert_eq!(
        Naming::in_table(table, "/run/media/me/My Stick/Music"),
        Naming::Portable
    );
    assert_eq!(Naming::in_table(table, "/mnt/Shared/Media"), Naming::Portable);
    assert_eq!(
        Naming::in_table(table, "/mnt/Shared/inner/Music"),
        Naming::Anything,
        "a volume mounted inside a Windows one was named by the outer one"
    );
    assert_eq!(Naming::in_table(table, "/home/me/Music"), Naming::Anything);
}

#[test]
fn a_mount_point_is_unescaped_where_its_escapes_are_octal_bytes() {
    assert_eq!(unescaped_mount("My\\040Stick"), "My Stick");
    assert_eq!(unescaped_mount("a\\999"), "a\\999");
    assert_eq!(unescaped_mount("a\\"), "a\\");
    assert_eq!(unescaped_mount("a\\12"), "a\n");
    assert_eq!(unescaped_mount("\\+12"), "\n");
    assert_eq!(unescaped_mount("\\400x"), "\\400x");
    assert_eq!(unescaped_mount("\\101\\102"), "AB");
}

#[test]
fn a_path_is_read_as_its_components() {
    assert_eq!(
        strings(components_of(&chars("/mnt//Shared/./inner/"))),
        vec!["/", "mnt", "Shared", "inner"]
    );
    assert_eq!(strings(components_of(&chars("./a/b"))), vec![".", "a", "b"]);
    assert_eq!(strings(components_of(&chars("a/../b"))), vec!["a", "..", "b"]);
    assert!(components_of(&chars("")).is_empty());
}

#[test]
fn a_table_is_read_line_by_line_and_word_by_word() {
    assert_eq!(
        strings(pieces_of(&chars("one\ntwo\n\nthree\n"), '\n')),
        vec!["one", "two", "", "three"]
    );
    assert_eq!(
        strings(words_of(&chars("  /dev/sda1\t/  ext4 \r"))),
        vec!["/dev/sda1", "/", "ext4"]
    );
    assert_eq!(
        Naming::in_table("/dev/sda1 / vfat rw 0 0\r\n", "/music"),
        Naming::Portable
    );
    assert_eq!(Naming::in_table("", "/music"), Naming::Anything);
    assert_eq!(Naming::in_table("/dev/sda1 /music\n", "/music"), Naming::Anything);
}
