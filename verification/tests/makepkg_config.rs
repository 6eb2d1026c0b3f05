use rua::rua_paths::{is_overridden_location_var, parse_makepkg_config, validate_pkgext};

#[test]
fn config_records_split_at_nul_bytes() {
    let parsed = parse_makepkg_config("PKGEXT=.pkg.tar.zst\0CARCH=x86_64\0").unwrap();
    assert_eq!(
        parsed,
        vec![
            ("PKGEXT".to_string(), ".pkg.tar.zst".to_string()),
            ("CARCH".to_string(), "x86_64".to_string()),
        ]
    );
    assert_eq!(parse_makepkg_config("").unwrap(), vec![]);
    assert_eq!(
        parse_makepkg_config("A=b=c\0").unwrap(),
        vec![("A".to_string(), "b=c".to_string())]
    );
    assert!(parse_makepkg_config("NOSEPARATOR\0").is_err());
}

#[test]
fn only_the_tar_suffix_set_is_accepted() {
    assert!(validate_pkgext(".pkg.tar"));
    assert!(validate_pkgext(".pkg.tar.xz"));
    assert!(validate_pkgext(".pkg.tar.zst"));
    assert!(!validate_pkgext(".pkg.tar.bz2"));
    assert!(!validate_pkgext(""));
}

#[test]
fn staging_locations_are_overridden() {
    assert!(is_overridden_location_var("PKGDEST"));
    assert!(is_overridden_location_var("BUILDDIR"));
    assert!(!is_overridden_location_var("PKGEXT"));
}
