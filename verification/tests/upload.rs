use rooted::upload::{name_for_digest, prepare_upload, sanitize, to_hex_lower};

#[test]
fn stored_names_keep_a_recognisable_filename() {
    assert_eq!(sanitize("Sunday talk.txt"), "Sunday talk.txt");
    assert_eq!(sanitize("../../etc/passwd"), "_.._etc_passwd");
    assert_eq!(sanitize(" .hidden. "), "hidden");
    assert_eq!(sanitize("..."), "");
    assert_eq!(sanitize("naïve café.md"), "naïve café.md");
    assert_eq!(sanitize("a/b\\c:d"), "a_b_c_d");
}

#[test]
fn digests_are_written_in_lower_case_hex() {
    assert_eq!(to_hex_lower(&vec![0x00, 0x0f, 0xa0, 0xff]), "000fa0ff");
    assert_eq!(to_hex_lower(&vec![]), "");
}

#[test]
fn uploads_are_content_addressed() {
    let u = prepare_upload("Notes.TXT", &b"abc".to_vec()).unwrap();
    assert_eq!(u.format, "txt");
    assert_eq!(u.sha256, "ba7816bf8f01cfea414140de5dae2223b00361a396177a9cb410ff61f20015ad");
    assert_eq!(u.stored_name, "ba7816bf8f01-Notes.TXT");
    assert_eq!(u.byte_size, 3);
}

#[test]
fn empty_or_unreadable_uploads_are_refused() {
    assert_eq!(prepare_upload("talk.txt", &vec![]).unwrap_err(), "'talk.txt' is empty");
    assert!(prepare_upload("clip.mov", &b"x".to_vec()).unwrap_err().contains("isn't a format"));
}

#[test]
fn a_stored_name_is_the_digest_prefix_and_the_clean_name() {
    let digest = vec![0x01, 0x23, 0x45, 0x67, 0x89, 0xab, 0xcd, 0xef];
    assert_eq!(name_for_digest("a/b.txt", &digest), "0123456789ab-a_b.txt");
    assert_eq!(name_for_digest("..", &digest), "0123456789ab-");
}

#[test]
fn sanitized_names_hold_no_separator_and_keep_their_letters() {
    let name = sanitize("..\\..//x:y 1.pdf ");
    assert!(!name.contains('/') && !name.contains('\\'));
    assert!(!name.starts_with('.') && !name.ends_with(' '));
    let letters = |s: &str| s.chars().filter(|c| c.is_alphanumeric()).collect::<String>();
    assert_eq!(letters(&name), letters("..\\..//x:y 1.pdf "));
    assert_eq!(name, "_..__x_y 1.pdf");
}
