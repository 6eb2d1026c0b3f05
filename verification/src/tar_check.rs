//! Verification of built archives: choosing the decompressor from the file
//! name, classifying the entries of the tar stream, the interactive review
//! menu, and the common-suffix computation that maps archive names back to
//! package names.

use vstd::prelude::*;
use crate::text;

verus! {

/// The compression wrapped around a tar stream, told by file name.
pub enum ArchiveKind {
    Plain,
    Xz,
    Gz,
    Zstd,
}

/// Picks the decompressor for an archive file name, by its suffix.
/// Only the tar suffix set is analyzable; any other name is refused.
pub fn archive_kind(tar_str: &str) -> (r: Option<ArchiveKind>)
    ensures
        match r {
            Some(ArchiveKind::Plain) => text::ends_with(tar_str@, ".tar"@),
            Some(ArchiveKind::Xz) => text::ends_with(tar_str@, ".tar.xz"@) || text::ends_with(
                tar_str@,
                ".tar.lzma"@,
            ),
            Some(ArchiveKind::Gz) => text::ends_with(tar_str@, ".tar.gz"@) || text::ends_with(
                tar_str@,
                ".tar.gzip"@,
            ),
            Some(ArchiveKind::Zstd) => text::ends_with(tar_str@, ".tar.zst"@) || text::ends_with(
                tar_str@,
                ".tar.zstd"@,
            ),
            None => {
                &&& !text::ends_with(tar_str@, ".tar"@)
                &&& !text::ends_with(tar_str@, ".tar.xz"@)
                &&& !text::ends_with(tar_str@, ".tar.lzma"@)
                &&& !text::ends_with(tar_str@, ".tar.gz"@)
                &&& !text::ends_with(tar_str@, ".tar.gzip"@)
                &&& !text::ends_with(tar_str@, ".tar.zst"@)
                &&& !text::ends_with(tar_str@, ".tar.zstd"@)
            },
        },
{
    let name = text::chars_of(tar_str);
    if text::ends_with_chars(&name, &text::chars_of(".tar")) {
        Some(ArchiveKind::Plain)
    } else if text::ends_with_chars(&name, &text::chars_of(".tar.xz")) || text::ends_with_chars(
        &name,
        &text::chars_of(".tar.lzma"),
    ) {
        Some(ArchiveKind::Xz)
    } else if text::ends_with_chars(&name, &text::chars_of(".tar.gz")) || text::ends_with_chars(
        &name,
        &text::chars_of(".tar.gzip"),
    ) {
        Some(ArchiveKind::Gz)
    } else if text::ends_with_chars(&name, &text::chars_of(".tar.zst")) || text::ends_with_chars(
        &name,
        &text::chars_of(".tar.zstd"),
    ) {
        Some(ArchiveKind::Zstd)
    } else {
        None
    }
}

/// One entry of a tar stream: its path and its mode bits.
pub struct TarEntry {
    pub path: String,
    pub mode: u32,
}

/// A path that counts as a file of the package: not a directory (no
/// trailing slash) and not package metadata (no leading dot).
pub open spec fn is_normal_path(p: Seq<char>) -> bool {
    &&& !(p.len() > 0 && p[p.len() - 1] == '/')
    &&& !(p.len() > 0 && p[0] == '.')
}

/// The normal paths among the entries, in order.
pub open spec fn normal_of(es: Seq<TarEntry>) -> Seq<Seq<char>>
    decreases es.len(),
{
    if es.len() == 0 {
        Seq::empty()
    } else {
        let rest = normal_of(es.drop_last());
        if is_normal_path(es.last().path@) {
            rest.push(es.last().path@)
        } else {
            rest
        }
    }
}

/// The normal paths with any execute bit set, in order.
pub open spec fn executable_of(es: Seq<TarEntry>) -> Seq<Seq<char>>
    decreases es.len(),
{
    if es.len() == 0 {
        Seq::empty()
    } else {
        let rest = executable_of(es.drop_last());
        if is_normal_path(es.last().path@) && (es.last().mode & 0o111) != 0 {
            rest.push(es.last().path@)
        } else {
            rest
        }
    }
}

/// The paths whose mode exceeds `0o777` (setuid, setgid or sticky bits),
/// in order.
pub open spec fn suid_of(es: Seq<TarEntry>) -> Seq<Seq<char>>
    decreases es.len(),
{
    if es.len() == 0 {
        Seq::empty()
    } else {
        let rest = suid_of(es.drop_last());
        if es.last().mode > 0o777 {
            rest.push(es.last().path@)
        } else {
            rest
        }
    }
}

/// Whether some entry is the post-install script `.INSTALL`.
pub open spec fn has_install_of(es: Seq<TarEntry>) -> bool {
    exists|i: int| 0 <= i < es.len() && (#[trigger] es[i]).path@ == ".INSTALL"@
}

/// What one pass over the archive's entries gathers for the menu.
pub struct ArchiveSummary {
    pub all_files: Vec<String>,
    pub executable_files: Vec<String>,
    pub suid_files: Vec<String>,
    pub has_install: bool,
}

impl ArchiveSummary {
    /// The collected view of each field.
    pub open spec fn wf(&self, es: Seq<TarEntry>) -> bool {
        &&& self.all_files@.map_values(|s: String| s@) == normal_of(es)
        &&& self.executable_files@.map_values(|s: String| s@) == executable_of(es)
        &&& self.suid_files@.map_values(|s: String| s@) == suid_of(es)
        &&& self.has_install == has_install_of(es)
    }
}

/// Walks the entries once and collects the file lists the review menu
/// offers: all normal files, the executable ones, the over-`0o777` ones,
/// and whether a post-install script is present. An archive with no entry
/// above `0o777` yields an empty setuid list, which is announced as such.
pub fn summarize_archive(entries: &Vec<TarEntry>) -> (r: ArchiveSummary)
    ensures
        r.wf(entries@),
{
    let mut all_files: Vec<String> = Vec::new();
    let mut executable_files: Vec<String> = Vec::new();
    let mut suid_files: Vec<String> = Vec::new();
    let mut has_install = false;
    let install_name = text::chars_of(".INSTALL");
    let n = entries.len();
    let mut i: usize = 0;
    while i < n
        invariant
            i <= n,
            n == entries@.len(),
            install_name@ == ".INSTALL"@,
            all_files@.map_values(|s: String| s@) == normal_of(entries@.subrange(0, i as int)),
            executable_files@.map_values(|s: String| s@) == executable_of(
                entries@.subrange(0, i as int),
            ),
            suid_files@.map_values(|s: String| s@) == suid_of(entries@.subrange(0, i as int)),
            has_install == has_install_of(entries@.subrange(0, i as int)),
        decreases n - i,
    {
        let path_chars = text::chars_of(entries[i].path.as_str());
        let ends_slash = path_chars.len() > 0 && path_chars[path_chars.len() - 1] == '/';
        let starts_dot = path_chars.len() > 0 && path_chars[0] == '.';
        let is_normal = !ends_slash && !starts_dot;
        let mode = entries[i].mode;
        proof {
            assert(entries@.subrange(0, i + 1).drop_last() =~= entries@.subrange(0, i as int));
            assert(entries@.subrange(0, i + 1).last() == entries@[i as int]);
        }
        if is_normal {
            all_files.push(entries[i].path.clone());
            proof {
                assert(all_files@.map_values(|s: String| s@) =~= normal_of(
                    entries@.subrange(0, i + 1),
                ));
            }
        }
        if is_normal && (mode & 0o111) != 0 {
            executable_files.push(entries[i].path.clone());
            proof {
                assert(executable_files@.map_values(|s: String| s@) =~= executable_of(
                    entries@.subrange(0, i + 1),
                ));
            }
        }
        if mode > 0o777 {
            suid_files.push(entries[i].path.clone());
            proof {
                assert(suid_files@.map_values(|s: String| s@) =~= suid_of(
                    entries@.subrange(0, i + 1),
                ));
            }
        }
        if text::chars_eq(&path_chars, &install_name) {
            has_install = true;
            proof {
                assert(entries@.subrange(0, i + 1)[i as int].path@ == ".INSTALL"@);
            }
        }
        proof {
            if !is_normal {
                assert(all_files@.map_values(|s: String| s@) =~= normal_of(
                    entries@.subrange(0, i + 1),
                ));
            }
            if !(is_normal && (mode & 0o111) != 0) {
                assert(executable_files@.map_values(|s: String| s@) =~= executable_of(
                    entries@.subrange(0, i + 1),
                ));
            }
            if !(mode > 0o777) {
                assert(suid_files@.map_values(|s: String| s@) =~= suid_of(
                    entries@.subrange(0, i + 1),
                ));
            }
            if has_install_of(entries@.subrange(0, i + 1)) && !has_install_of(
                entries@.subrange(0, i as int),
            ) && entries@[i as int].path@ != ".INSTALL"@ {
                let wit = choose|k: int|
                    0 <= k < i + 1 && (#[trigger] entries@.subrange(0, i + 1)[k]).path@
                        == ".INSTALL"@;
                assert(0 <= wit < i);
                assert(entries@.subrange(0, i as int)[wit].path@ == ".INSTALL"@);
            }
        }
        i = i + 1;
    }
    proof {
        assert(entries@.subrange(0, n as int) =~= entries@);
    }
    ArchiveSummary { all_files, executable_files, suid_files, has_install }
}

/// What one menu answer does during archive review.
pub enum TarMenuAction {
    ListSuid,
    ListExecutable,
    ListMissing,
    ListAll,
    ShowInstall,
    OpenShell,
    Accept,
    Quit,
    AskAgain,
}

/// Maps one line of user input to the review action it selects. Accepting
/// with `o` is available in every state; listing the setuid files needs
/// some to exist, and showing the install script needs one to be present.
/// Any other input asks again.
pub fn tar_menu_action(input: &str, has_install: bool, has_suid: bool) -> (r: TarMenuAction)
    ensures
        ({
            let s = input@;
            match r {
                TarMenuAction::ListSuid => s == "s"@ && has_suid,
                TarMenuAction::ListExecutable => s == "e"@,
                TarMenuAction::ListMissing => s == "f"@,
                TarMenuAction::ListAll => s == "l"@,
                TarMenuAction::ShowInstall => s == "i"@ && has_install,
                TarMenuAction::OpenShell => s == "t"@,
                TarMenuAction::Accept => s == "o"@,
                TarMenuAction::Quit => s == "q"@,
                TarMenuAction::AskAgain => {
                    &&& !(s == "s"@ && has_suid)
                    &&& s != "e"@
                    &&& s != "f"@
                    &&& s != "l"@
                    &&& !(s == "i"@ && has_install)
                    &&& s != "t"@
                    &&& s != "o"@
                    &&& s != "q"@
                },
            }
        }),
{
    let c = text::chars_of(input);
    if text::chars_eq(&c, &text::chars_of("s")) && has_suid {
        TarMenuAction::ListSuid
    } else if text::chars_eq(&c, &text::chars_of("e")) {
        TarMenuAction::ListExecutable
    } else if text::chars_eq(&c, &text::chars_of("f")) {
        TarMenuAction::ListMissing
    } else if text::chars_eq(&c, &text::chars_of("l")) {
        TarMenuAction::ListAll
    } else if text::chars_eq(&c, &text::chars_of("i")) && has_install {
        TarMenuAction::ShowInstall
    } else if text::chars_eq(&c, &text::chars_of("t")) {
        TarMenuAction::OpenShell
    } else if text::chars_eq(&c, &text::chars_of("o")) {
        TarMenuAction::Accept
    } else if text::chars_eq(&c, &text::chars_of("q")) {
        TarMenuAction::Quit
    } else {
        TarMenuAction::AskAgain
    }
}

/// Whether stripping the last `k` characters of some file name gives a
/// whitelisted name.
pub open spec fn suffix_found(
    names: Seq<Seq<char>>,
    whitelist: Seq<Seq<char>>,
    k: int,
) -> bool {
    exists|i: int, j: int|
        0 <= i < names.len() && 0 <= j < whitelist.len() && k <= names[i].len()
            && #[trigger] names[i].subrange(0, names[i].len() - k) == #[trigger] whitelist[j]
}

fn whitelist_has(whitelist: &Vec<Vec<char>>, prefix: &Vec<char>) -> (r: bool)
    ensures
        r == exists|j: int| 0 <= j < whitelist@.len() && (#[trigger] whitelist@[j])@ == prefix@,
{
    let n = whitelist.len();
    let mut j: usize = 0;
    while j < n
        invariant
            j <= n,
            n == whitelist@.len(),
            forall|k: int| 0 <= k < j ==> (#[trigger] whitelist@[k])@ != prefix@,
        decreases n - j,
    {
        if text::chars_eq(&whitelist[j], prefix) {
            return true;
        }
        j = j + 1;
    }
    false
}

/// The length of the common suffix that archive file names carry beyond
/// the package name: the smallest `k` such that some file name with its
/// last `k` characters stripped is in the whitelist, bounded above by the
/// shortest file name's length (the bound itself is returned when no such
/// `k` lies below it; an empty file list gives `0`).
pub fn common_suffix_length(pkg_names: &Vec<String>, archive_whitelist: &Vec<String>) -> (r:
    usize)
    ensures
        ({
            let names = text::str_views(pkg_names@);
            let wl = text::str_views(archive_whitelist@);
            &&& forall|i: int| 0 <= i < names.len() ==> r <= (#[trigger] names[i]).len()
            &&& forall|k: int| 0 <= k < r ==> !suffix_found(names, wl, k)
            &&& (suffix_found(names, wl, r as int) || (names.len() > 0 && exists|i: int|
                0 <= i < names.len() && (#[trigger] names[i]).len() == r) || (names.len() == 0
                && r == 0))
        }),
{
    let mut names: Vec<Vec<char>> = Vec::new();
    let mut i: usize = 0;
    let n = pkg_names.len();
    while i < n
        invariant
            i <= n,
            n == pkg_names@.len(),
            names@.len() == i,
            forall|k: int| 0 <= k < i ==> (#[trigger] names@[k])@ == pkg_names@[k]@,
        decreases n - i,
    {
        names.push(text::chars_of(pkg_names[i].as_str()));
        i = i + 1;
    }
    let mut wl: Vec<Vec<char>> = Vec::new();
    let mut i: usize = 0;
    let m = archive_whitelist.len();
    while i < m
        invariant
            i <= m,
            m == archive_whitelist@.len(),
            wl@.len() == i,
            forall|k: int| 0 <= k < i ==> (#[trigger] wl@[k])@ == archive_whitelist@[k]@,
        decreases m - i,
    {
        wl.push(text::chars_of(archive_whitelist[i].as_str()));
        i = i + 1;
    }
    let ghost names_v = text::str_views(pkg_names@);
    let ghost wl_v = text::str_views(archive_whitelist@);

    // the shortest file name bounds the suffix length
    let mut min_len: usize = 0;
    let mut have_min = false;
    let mut i: usize = 0;
    while i < n
        invariant
            i <= n,
            n == names@.len(),
            n == names_v.len(),
            names_v == text::str_views(pkg_names@),
            forall|k: int| 0 <= k < n ==> (#[trigger] names@[k])@ == names_v[k],
            have_min == (i > 0),
            have_min ==> forall|k: int| 0 <= k < i ==> min_len <= (#[trigger] names_v[k]).len(),
            have_min ==> exists|k: int| 0 <= k < i && (#[trigger] names_v[k]).len() == min_len,
            !have_min ==> min_len == 0,
        decreases n - i,
    {
        let l = names[i].len();
        if !have_min || l < min_len {
            min_len = l;
            have_min = true;
        }
        i = i + 1;
    }

    let mut suffix_length: usize = 0;
    while suffix_length < min_len
        invariant
            n == names@.len(),
            n == names_v.len(),
            m == wl@.len(),
            m == wl_v.len(),
            names_v == text::str_views(pkg_names@),
            wl_v == text::str_views(archive_whitelist@),
            forall|k: int| 0 <= k < n ==> (#[trigger] names@[k])@ == names_v[k],
            forall|k: int| 0 <= k < m ==> (#[trigger] wl@[k])@ == wl_v[k],
            suffix_length <= min_len,
            forall|k: int| 0 <= k < n ==> min_len <= (#[trigger] names_v[k]).len(),
            n > 0 ==> exists|k: int| 0 <= k < n && (#[trigger] names_v[k]).len() == min_len,
            n == 0 ==> min_len == 0,
            forall|k: int| 0 <= k < suffix_length ==> !suffix_found(names_v, wl_v, k),
        decreases min_len - suffix_length,
    {
        let mut i: usize = 0;
        while i < n
            invariant
                i <= n,
                n == names@.len(),
                n == names_v.len(),
                m == wl@.len(),
                m == wl_v.len(),
                names_v == text::str_views(pkg_names@),
                wl_v == text::str_views(archive_whitelist@),
                forall|k: int| 0 <= k < n ==> (#[trigger] names@[k])@ == names_v[k],
                forall|k: int| 0 <= k < m ==> (#[trigger] wl@[k])@ == wl_v[k],
                suffix_length < min_len,
                forall|k: int| 0 <= k < n ==> min_len <= (#[trigger] names_v[k]).len(),
                forall|k: int| 0 <= k < suffix_length ==> !suffix_found(names_v, wl_v, k),
                forall|ii: int, j: int|
                    0 <= ii < i && 0 <= j < m ==> #[trigger] names_v[ii].subrange(
                        0,
                        names_v[ii].len() - suffix_length,
                    ) != #[trigger] wl_v[j],
            decreases n - i,
        {
            let name_len = names[i].len();
            let prefix = text::sub_chars(&names[i], 0, name_len - suffix_length);
            if whitelist_has(&wl, &prefix) {
                proof {
                    let j = choose|j: int|
                        0 <= j < wl@.len() && (#[trigger] wl@[j])@ == prefix@;
                    assert(names_v[i as int].subrange(
                        0,
                        names_v[i as int].len() - suffix_length,
                    ) == wl_v[j]);
                    assert(suffix_found(names_v, wl_v, suffix_length as int));
                    assert(forall|ii: int|
                        0 <= ii < names_v.len() ==> suffix_length <= (
                        #[trigger] names_v[ii]).len());
                    assert(forall|k: int|
                        0 <= k < suffix_length ==> !suffix_found(names_v, wl_v, k));
                }
                return suffix_length;
            }
            proof {
                assert(prefix@ == names_v[i as int].subrange(
                    0,
                    names_v[i as int].len() - suffix_length,
                ));
                assert(forall|j: int| 0 <= j < m ==> (#[trigger] wl_v[j]) != prefix@) by {
                    if exists|j: int| 0 <= j < m && (#[trigger] wl_v[j]) == prefix@ {
                        let j = choose|j: int| 0 <= j < m && (#[trigger] wl_v[j]) == prefix@;
                        assert((wl@[j])@ == prefix@);
                    }
                }
            }
            i = i + 1;
        }
        proof {
            assert(!suffix_found(names_v, wl_v, suffix_length as int));
        }
        suffix_length = suffix_length + 1;
    }
    min_len
}

} // verus!
