use anise_orbit::cli::{anise_file_name, validate_merge_files, CliErrors};

#[test]
fn converted_file_names() {
    assert_eq!(anise_file_name("de438s.bsp"), "de438s.anise");
    assert_eq!(anise_file_name("data/de440.bsp"), "data/de440.anise");
    assert_eq!(anise_file_name("a.bsp.bsp"), "a.anise.anise");
    assert_eq!(anise_file_name("x.bspx"), "x.anisex");
    assert_eq!(anise_file_name("noext"), "noext");
    assert_eq!(anise_file_name(".bs"), ".bs");
    assert_eq!(anise_file_name(""), "");
    assert_eq!(anise_file_name("\u{e9}t\u{e9}.bsp"), "\u{e9}t\u{e9}.anise");
    for name in ["de438s.bsp", "a.bsp.bsp", "..bspbsp.bsp", "x.BSP", "\u{1f680}.bsp"].iter() {
        assert_eq!(anise_file_name(name), name.replace(".bsp", ".anise"));
    }
}

#[test]
fn merges_need_two_files() {
    match validate_merge_files(1) {
        Err(CliErrors::ArgumentError(msg)) => assert_eq!(msg, "Need at least two files to merge together"),
        Ok(()) => panic!("one file cannot be merged"),
    }
    assert!(validate_merge_files(0).is_err());
    assert!(validate_merge_files(2).is_ok());
    assert!(validate_merge_files(5).is_ok());
}
