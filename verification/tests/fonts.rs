use helix::runtime::fonts::{family_names, family_query, is_file_backed, FontFace, FontFamily};

#[test]
fn generic_names_ask_for_generic_families() {
    assert_eq!(family_query("serif"), FontFamily::Serif);
    assert_eq!(family_query("sans-serif"), FontFamily::SansSerif);
    assert_eq!(family_query("monospace"), FontFamily::Monospace);
    assert_eq!(family_query("cursive"), FontFamily::Cursive);
    assert_eq!(family_query("fantasy"), FontFamily::Fantasy);
    assert_eq!(family_query("Serif"), FontFamily::Name("Serif".into()));
}

#[test]
fn family_names_are_the_first_of_each_face() {
    let faces = vec![
        FontFace { families: vec!["A".into(), "B".into()], file_backed: true },
        FontFace { families: vec![], file_backed: false },
        FontFace { families: vec!["A".into()], file_backed: false },
    ];
    assert_eq!(family_names(&faces), vec!["A", "A"]);
    assert!(is_file_backed(&faces, 0));
    assert!(!is_file_backed(&faces, 2));
    assert!(!is_file_backed(&faces, 3));
}
