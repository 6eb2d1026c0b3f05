use rua::srcinfo::parse_srcinfo;
use rua::srcinfo_to_pkgbuild::static_pkgbuild;
use rua::to_install::srcinfo_to_pkginfo;

const SAMPLE: &str = "\
pkgbase = demo
\tpkgver = 1.2
\tpkgrel = 3
\tarch = x86_64
\tarch = aarch64
\tmakedepends = cmake
\tsource = https://example.invalid/demo-1.2.tar.gz
\tsource_x86_64 = extra-bit.bin
\tsha256sums = abc123
\tsha256sums_x86_64 = def456

pkgname = demo
\tdepends = glibc>=2.0

pkgname = demo-docs
";

#[test]
fn parses_base_and_packages() {
    let s = parse_srcinfo(SAMPLE).unwrap();
    assert_eq!(s.pkgbase, "demo");
    assert_eq!(s.pkgver, "1.2");
    assert_eq!(s.pkgrel, "3");
    assert_eq!(s.epoch, None);
    assert_eq!(s.arch, vec!["x86_64", "aarch64"]);
    assert_eq!(s.pkgs.len(), 2);
    assert_eq!(s.pkgs[0].pkgname, "demo");
    assert_eq!(s.pkgs[1].pkgname, "demo-docs");
    assert_eq!(s.source.len(), 2);
    assert_eq!(s.source[0].arch, None);
    assert_eq!(s.source[0].vec, vec!["https://example.invalid/demo-1.2.tar.gz"]);
    assert_eq!(s.source[1].arch, Some("x86_64".to_string()));
    assert_eq!(s.source[1].vec, vec!["extra-bit.bin"]);
    assert_eq!(s.makedepends[0].vec, vec!["cmake"]);
    assert_eq!(s.pkgs[0].depends[0].vec, vec!["glibc>=2.0"]);
}

#[test]
fn rejects_incomplete_metadata() {
    assert!(parse_srcinfo("").is_err());
    assert!(parse_srcinfo("pkgver = 1\n").is_err());
    assert!(parse_srcinfo("pkgbase = x\npkgver = 1\npkgrel = 1\n").is_err());
    assert!(parse_srcinfo("pkgbase = x\nbroken line\npkgname = x\n").is_err());
}

#[test]
fn synthesized_script_carries_the_arrays_verbatim() {
    let s = parse_srcinfo(SAMPLE).unwrap();
    let pkgbuild = static_pkgbuild(&s);
    let expected = "pkgname='tmp'\n\
pkgver='1'\n\
pkgrel='1'\n\
arch=(\n  'x86_64'\n  'aarch64')\n\
source=(\n  'https://example.invalid/demo-1.2.tar.gz')\n\
source_x86_64=(\n  'extra-bit.bin')\n\
sha256sums=(\n  'abc123')\n\
sha256sums_x86_64=(\n  'def456')\n";
    assert_eq!(pkgbuild, expected);
}

#[test]
fn pkginfos_aggregate_applicable_dependencies() {
    let s = parse_srcinfo(SAMPLE).unwrap();
    let infos = srcinfo_to_pkginfo(&s, "x86_64").unwrap();
    assert_eq!(infos.len(), 2);
    assert_eq!(infos[0].name, "demo");
    assert_eq!(infos[0].base, "demo");
    assert_eq!(infos[0].dependencies, vec!["glibc", "cmake"]);
    assert_eq!(infos[1].name, "demo-docs");
    assert_eq!(infos[1].dependencies, vec!["cmake"]);
}
