use resonate_library::sheet::{extinf, numbering, titled, Described};

fn described(title: &str, artist: Option<&str>, seconds: Option<u64>) -> Described {
    Described {
        title: title.to_owned(),
        artist: artist.map(str::to_owned),
        seconds,
    }
}

#[test]
fn an_entry_is_titled_by_its_artist_and_title_or_its_title_alone() {
    assert_eq!(
        titled(&described("Echoes", Some("Pink Floyd"), None)),
        "Pink Floyd - Echoes"
    );
    assert_eq!(titled(&described("Echoes", None, None)), "Echoes");
}

#[test]
fn an_extinf_line_leads_with_the_seconds_or_minus_one() {
    assert_eq!(
        extinf(&described("Echoes", Some("Pink Floyd"), Some(1411))),
        "1411,Pink Floyd - Echoes"
    );
    assert_eq!(extinf(&described("Echoes", None, None)), "-1,Echoes");
    assert_eq!(extinf(&described("", None, Some(0))), "0,");
}

#[test]
fn a_numbered_key_is_read_whatever_the_case_of_its_name() {
    assert_eq!(numbering("File3", "File"), Some(3));
    assert_eq!(numbering("file12", "File"), Some(12));
    assert_eq!(numbering("FILE+7", "File"), Some(7));
    assert_eq!(numbering("File", "File"), None);
    assert_eq!(numbering("File+", "File"), None);
    assert_eq!(numbering("Title1", "File"), None);
    assert_eq!(numbering("Fil", "File"), None);
    assert_eq!(numbering("File1x", "File"), None);
    assert_eq!(numbering("File-1", "File"), None);
    assert_eq!(numbering("File4294967295", "File"), Some(4_294_967_295));
    assert_eq!(numbering("File4294967296", "File"), None);
    assert_eq!(numbering("Filé1", "File"), None);
}

#[test]
fn an_m3u_sheet_lists_every_line_that_is_not_a_comment_under_its_last_name() {
    let read = resonate_library::sheet::m3u_read(
        "#EXTM3U\r\n#PLAYLIST: Drive \r\n#EXTINF:42,Orbits\r\n  /music/a.flac  \n\n#PLAYLIST:\nb.flac\n#PLAYLIST:Night\n",
    );
    assert_eq!(read.declared.as_deref(), Some("Night"));
    assert_eq!(read.rows, vec!["/music/a.flac".to_owned(), "b.flac".to_owned()]);
    assert_eq!(read.promised, None);
    assert_eq!(resonate_library::sheet::m3u_read("").rows.len(), 0);
}

#[test]
fn a_pls_sheet_lists_its_files_by_number_and_keeps_its_promise() {
    let read = resonate_library::sheet::pls_read(
        "[playlist]\nFile2=b.flac\nfile1 = a.flac\nTitle1=A\nx-gnome-title= Drive \nFile2=c.flac\nNumberOfEntries=3\nVersion=2\nFileX=d.flac\nno equals here\n",
    );
    assert_eq!(read.declared.as_deref(), Some("Drive"));
    assert_eq!(read.promised, Some(3));
    assert_eq!(
        read.rows,
        vec!["a.flac".to_owned(), "b.flac".to_owned(), "c.flac".to_owned()]
    );
    let unpromised = resonate_library::sheet::pls_read("NumberOfEntries=3\nNumberOfEntries=many\n");
    assert_eq!(unpromised.promised, None);
    assert_eq!(unpromised.declared, None);
}

#[test]
fn a_numbered_key_named_past_ascii_matches_those_characters_exactly() {
    assert_eq!(numbering("Fïle3", "Fïle"), Some(3));
    assert_eq!(numbering("fïle3", "Fïle"), Some(3));
    assert_eq!(numbering("FÏle3", "Fïle"), None);
    assert_eq!(numbering("Fï", "Fïle"), None);
}
