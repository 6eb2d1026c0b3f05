//! The contract of one sandboxed build-tool invocation: the environment
//! overrides and the arguments that pick the build phase.

use vstd::prelude::*;
use vstd::string::StringExecFns;
use crate::text;
use crate::text::matches_at;

verus! {

fn string_lit(s: &str) -> (r: String)
    ensures
        r@ == s@,
{
    let mut r = String::new();
    r.append(s);
    r
}

/// The environment every sandboxed build-tool run gets: each staging
/// variable pointed at the chosen work directory, so user configuration
/// cannot redirect what the build writes.
pub fn makepkg_env_overrides(makepkg_dir: &str) -> (r: Vec<(String, String)>)
    ensures
        text::str_views(r@.map_values(|p: (String, String)| p.0)) =~= seq![
            "PKGDEST"@,
            "SRCDEST"@,
            "SRCPKGDEST"@,
            "LOGDEST"@,
            "BUILDDIR"@,
        ],
        forall|i: int| 0 <= i < r@.len() ==> (#[trigger] r@[i]).1@ == makepkg_dir@,
{
    let mut r: Vec<(String, String)> = Vec::new();
    r.push((string_lit("PKGDEST"), string_lit(makepkg_dir)));
    r.push((string_lit("SRCDEST"), string_lit(makepkg_dir)));
    r.push((string_lit("SRCPKGDEST"), string_lit(makepkg_dir)));
    r.push((string_lit("LOGDEST"), string_lit(makepkg_dir)));
    r.push((string_lit("BUILDDIR"), string_lit(makepkg_dir)));
    r
}

/// The build-tool arguments of one build: `--force` only when asked for,
/// and the network unshared only for an offline build.
pub fn build_args(offline: bool, force: bool) -> (r: (bool, Vec<String>))
    ensures
        r.0 == offline,
        force ==> text::str_views(r.1@) =~= seq!["makepkg"@, "--force"@],
        !force ==> text::str_views(r.1@) =~= seq!["makepkg"@],
{
    let mut args: Vec<String> = Vec::new();
    args.push(string_lit("makepkg"));
    if force {
        args.push(string_lit("--force"));
    }
    proof {
        if force {
            assert(text::str_views(args@) =~= seq!["makepkg"@, "--force"@]);
        } else {
            assert(text::str_views(args@) =~= seq!["makepkg"@]);
        }
    }
    (offline, args)
}

/// The build-tool arguments that print a recipe's metadata: run with the
/// network unshared and the recipe's version held.
pub fn srcinfo_args() -> (r: Vec<String>)
    ensures
        text::str_views(r@) =~= seq!["makepkg"@, "--holdver"@, "--printsrcinfo"@],
{
    let mut args: Vec<String> = Vec::new();
    args.push(string_lit("makepkg"));
    args.push(string_lit("--holdver"));
    args.push(string_lit("--printsrcinfo"));
    proof {
        assert(text::str_views(args@) =~= seq!["makepkg"@, "--holdver"@, "--printsrcinfo"@]);
    }
    args
}


/// The text with every occurrence of `pat` replaced by `val`, scanning
/// left to right without overlap.
pub open spec fn replaced(t: Seq<char>, pat: Seq<char>, val: Seq<char>) -> Seq<char>
    decreases t.len(),
{
    if pat.len() <= 0 {
        t
    } else if t.len() < pat.len() {
        t
    } else if t.subrange(0, pat.len() as int) == pat {
        val + replaced(t.subrange(pat.len() as int, t.len() as int), pat, val)
    } else {
        seq![t[0]] + replaced(t.drop_first(), pat, val)
    }
}

/// Replaces every occurrence of `pat` by `val`, left to right.
pub(crate) fn replace_all_chars(t: &Vec<char>, pat: &Vec<char>, val: &Vec<char>) -> (r: Vec<
    char,
>)
    requires
        pat@.len() >= 1,
    ensures
        r@ == replaced(t@, pat@, val@),
{
    let n = t.len();
    let pn = pat.len();
    let mut out: Vec<char> = Vec::new();
    let mut i: usize = 0;
    proof {
        assert(t@.subrange(0, n as int) =~= t@);
    }
    while i < n
        invariant
            i <= n,
            n == t@.len(),
            1 <= pn == pat@.len(),
            replaced(t@, pat@, val@) == out@ + replaced(
                t@.subrange(i as int, n as int),
                pat@,
                val@,
            ),
        decreases n - i,
    {
        let rest_len = n - i;
        if rest_len >= pn && matches_at(t, pat, i) {
            text::push_all(&mut out, val);
            proof {
                let tail = t@.subrange(i as int, n as int);
                assert(tail.subrange(0, pn as int) =~= pat@);
                assert(tail.subrange(pn as int, tail.len() as int) =~= t@.subrange(
                    i + pn,
                    n as int,
                ));
                assert(replaced(tail, pat@, val@) == val@ + replaced(
                    t@.subrange(i + pn, n as int),
                    pat@,
                    val@,
                ));
            }
            i = i + pn;
        } else {
            out.push(t[i]);
            proof {
                let tail = t@.subrange(i as int, n as int);
                if tail.len() >= pn {
                    assert(tail.subrange(0, pn as int) != pat@) by {
                        if tail.subrange(0, pn as int) == pat@ {
                            assert(text::occurs_at(t@, pat@, i as int)) by {
                                assert(t@.subrange(i as int, i + pn) =~= tail.subrange(
                                    0,
                                    pn as int,
                                ));
                            }
                        }
                    }
                }
                assert(tail.drop_first() =~= t@.subrange(i + 1, n as int));
                assert(replaced(tail, pat@, val@) == seq![tail[0]] + replaced(
                    t@.subrange(i + 1, n as int),
                    pat@,
                    val@,
                ));
                assert(tail[0] == t@[i as int]);
            }
            i = i + 1;
        }
    }
    proof {
        assert(t@.subrange(n as int, n as int) =~= Seq::<char>::empty());
        assert(out@ =~= replaced(t@, pat@, val@));
    }
    out
}

/// The text handed to the static checker's standard input: the wrapper
/// template with every `%PKGBUILD%` placeholder replaced by the build
/// script under check.
pub fn shellcheck_stdin(template: &str, pkgbuild: &str) -> (r: String)
    ensures
        r@ == replaced(template@, "%PKGBUILD%"@, pkgbuild@),
{
    let t = text::chars_of(template);
    let pat = text::chars_of("%PKGBUILD%");
    proof {
        reveal_strlit("%PKGBUILD%");
    }
    let val = text::chars_of(pkgbuild);
    let out = replace_all_chars(&t, &pat, &val);
    text::string_of(&out)
}

/// The file the static check reads: standard input when no target is
/// given, the directory's build script for a directory, the path itself
/// otherwise.
pub fn shellcheck_target(target: &Option<String>, target_is_dir: bool) -> (r: String)
    ensures
        match target {
            None => r@ == "/dev/stdin"@,
            Some(p) => {
                if target_is_dir {
                    r@ == p@ + "/PKGBUILD"@
                } else {
                    r@ == p@
                }
            },
        },
{
    match target {
        None => text::string_of(&text::chars_of("/dev/stdin")),
        Some(p) => {
            if target_is_dir {
                let mut out: Vec<char> = Vec::new();
                text::push_str_chars(&mut out, p.as_str());
                text::push_str_chars(&mut out, "/PKGBUILD");
                text::string_of(&out)
            } else {
                p.clone()
            }
        },
    }
}

} // verus!
