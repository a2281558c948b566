use cosmic_pim_mail::folder::{
    decode_modified_utf7, encode_modified_utf7, from_list_entry, sort_for_display,
    NameAttribute as A, SpecialUse,
};

#[test]
fn modified_utf7_round_trips_the_names_that_break_naive_clients() {
    for (utf8, wire) in [
        ("Inbox", "Inbox"),
        ("Wichtig", "Wichtig"),
        ("Παραλήπτες", "&A6ADsQPBA7EDuwOuA8ADxAO1A8I-"),
        ("受信箱", "&U9dP4Xux-"),
        ("R&D", "R&-D"),
        ("Ünread/Später", "&ANw-nread/Sp&AOQ-ter"),
    ] {
        assert_eq!(encode_modified_utf7(utf8), wire, "encoding {utf8:?}");
        assert_eq!(decode_modified_utf7(wire), utf8, "decoding {wire:?}");
    }
}

#[test]
fn a_malformed_run_degrades_to_raw_text_rather_than_failing() {
    // One server quirk must not take the whole folder list with it.
    assert_eq!(decode_modified_utf7("&not-base64-!!-"), "&not-base64-!!-");
    assert_eq!(decode_modified_utf7("trailing&"), "trailing&");
}

#[test]
fn the_server_declaration_beats_the_name_heuristic() {
    let folder = from_list_entry("Papierkorb", Some('/'), &[A::Trash]);
    assert_eq!(folder.special_use, Some(SpecialUse::Trash));
    assert_eq!(folder.display_name, "Papierkorb");
}

#[test]
fn names_are_matched_when_the_server_declares_nothing() {
    for (name, expected) in [
        ("Sent Items", SpecialUse::Sent),
        ("INBOX/Drafts", SpecialUse::Drafts),
        ("[Gmail]/All Mail", SpecialUse::Archive),
        ("Junk E-mail", SpecialUse::Junk),
    ] {
        assert_eq!(
            from_list_entry(name, Some('/'), &[]).special_use,
            Some(expected),
            "{name}"
        );
    }
}

#[test]
fn inbox_is_recognised_whatever_its_case() {
    for name in ["INBOX", "Inbox", "inbox"] {
        assert_eq!(
            from_list_entry(name, Some('/'), &[]).special_use,
            Some(SpecialUse::Inbox)
        );
    }
}

#[test]
fn only_the_leaf_segment_names_a_role() {
    // `Archive/Work` is a folder inside the archive, not the archive.
    assert_eq!(
        from_list_entry("Archive/Work", Some('/'), &[]).special_use,
        None
    );
    assert_eq!(
        from_list_entry("Work/Archive", Some('/'), &[]).special_use,
        Some(SpecialUse::Archive)
    );
}

#[test]
fn the_servers_delimiter_is_used_not_a_hardcoded_slash() {
    // Courier and maildir++ use '.', and splitting those on '/' produces
    // one folder with dots in its name instead of a tree.
    let folder = from_list_entry("INBOX.Projects.Alpha", Some('.'), &[]);
    assert_eq!(folder.path(), vec!["INBOX", "Projects", "Alpha"]);
    assert_eq!(folder.leaf_name(), "Alpha");
    assert_eq!(folder.depth(), 2);
}

#[test]
fn a_noselect_placeholder_is_marked_rather_than_looking_empty() {
    let folder = from_list_entry("Archive", Some('/'), &[A::NoSelect]);
    assert!(
        folder.no_select,
        "SELECTing this is an error, not an empty mailbox"
    );
}

#[test]
fn local_names_are_filesystem_safe_and_derived_from_the_wire_name() {
    // Derived from the wire name so a change to our decoder cannot orphan
    // messages already on disk.
    let folder = from_list_entry("INBOX.Παραλήπτες", Some('.'), &[]);
    let local = folder.local_name();
    assert!(!local.contains('.'), "a path separator survived: {local}");
    assert!(!local.contains('/'));
    assert!(local.starts_with("INBOX"));
}

#[test]
fn display_order_puts_the_standard_mailboxes_first() {
    let mut folders = vec![
        from_list_entry("Work", Some('/'), &[]),
        from_list_entry("Trash", Some('/'), &[]),
        from_list_entry("INBOX", Some('/'), &[]),
        from_list_entry("Archive", Some('/'), &[]),
        from_list_entry("Aardvark", Some('/'), &[]),
    ];
    sort_for_display(&mut folders);
    let names: Vec<&str> = folders.iter().map(|f| f.display_name.as_str()).collect();
    assert_eq!(names, ["INBOX", "Archive", "Trash", "Aardvark", "Work"]);
}

#[test]
fn a_name_outside_the_basic_plane_round_trips() {
    let name = "Fun \u{1F600} & games";
    let wire = encode_modified_utf7(name);
    assert_eq!(wire, "Fun &2D3eAA- &- games");
    assert_eq!(decode_modified_utf7(&wire), name);
}

#[test]
fn every_local_name_is_one_path_component() {
    let folder = from_list_entry("a/b%c.d", Some('/'), &[]);
    let local = folder.local_name();
    assert!(!local.contains('/') && !local.contains('.'), "{local}");
    let other = from_list_entry("a_b%c.d", Some('/'), &[]);
    assert_ne!(local, other.local_name());
}

#[test]
fn children_stand_directly_under_their_parents() {
    let mut folders: Vec<_> = ["Work/Alpha", "Work-old", "Work", "work/alpha/deep", "Z"]
        .iter()
        .map(|name| from_list_entry(name, Some('/'), &[]))
        .collect();
    sort_for_display(&mut folders);
    let names: Vec<&str> = folders.iter().map(|f| f.display_name.as_str()).collect();
    assert_eq!(names, ["Work", "Work/Alpha", "work/alpha/deep", "Work-old", "Z"]);
}
