//! Reading the build tool's configuration as the path initialization
//! needs it: `VAR=VALUE` records separated by NUL bytes, the archive
//! suffix it allows, and the staging variables it overrides.

use vstd::prelude::*;
use crate::error::RuaError;
use crate::text;

verus! {

/// The index of the first NUL, or the length when there is none.
pub open spec fn nul_cut(s: Seq<char>) -> int
    decreases s.len(),
{
    if s.len() == 0 {
        0
    } else if s[0] == '\0' {
        0
    } else {
        1 + nul_cut(s.drop_first())
    }
}

proof fn lemma_nul_cut(s: Seq<char>)
    ensures
        0 <= nul_cut(s) <= s.len(),
        forall|j: int| 0 <= j < nul_cut(s) ==> s[j] != '\0',
        nul_cut(s) < s.len() ==> s[nul_cut(s)] == '\0',
    decreases s.len(),
{
    if s.len() > 0 && s[0] != '\0' {
        lemma_nul_cut(s.drop_first());
        assert forall|j: int| 0 <= j < nul_cut(s) implies s[j] != '\0' by {
            if j > 0 {
                assert(s[j] == s.drop_first()[j - 1]);
            }
        }
    }
}

/// The NUL-terminated records of the configuration text, a trailing
/// empty record dropped.
pub open spec fn config_records(s: Seq<char>) -> Seq<Seq<char>>
    decreases s.len(),
{
    if s.len() == 0 {
        Seq::empty()
    } else {
        let c = nul_cut(s);
        if c < 0 || c >= s.len() {
            seq![s]
        } else {
            seq![s.subrange(0, c)] + config_records(s.subrange(c + 1, s.len() as int))
        }
    }
}

proof fn lemma_config_records_step(s: Seq<char>, c: int)
    requires
        0 <= c < s.len(),
        s[c] == '\0',
        forall|j: int| 0 <= j < c ==> s[j] != '\0',
    ensures
        config_records(s) == seq![s.subrange(0, c)] + config_records(
            s.subrange(c + 1, s.len() as int),
        ),
{
    lemma_nul_cut(s);
    if nul_cut(s) < c {
        assert(s[nul_cut(s)] != '\0');
        assert(false);
    }
    if nul_cut(s) > c {
        assert(s[c] != '\0');
        assert(false);
    }
}

/// The index of the first `=`, or the length when there is none.
pub open spec fn sep_cut(s: Seq<char>) -> int
    decreases s.len(),
{
    if s.len() == 0 {
        0
    } else if s[0] == '=' {
        0
    } else {
        1 + sep_cut(s.drop_first())
    }
}

proof fn lemma_sep_cut(s: Seq<char>)
    ensures
        0 <= sep_cut(s) <= s.len(),
        forall|j: int| 0 <= j < sep_cut(s) ==> s[j] != '=',
        sep_cut(s) < s.len() ==> s[sep_cut(s)] == '=',
    decreases s.len(),
{
    if s.len() > 0 && s[0] != '=' {
        lemma_sep_cut(s.drop_first());
        assert forall|j: int| 0 <= j < sep_cut(s) implies s[j] != '=' by {
            if j > 0 {
                assert(s[j] == s.drop_first()[j - 1]);
            }
        }
    }
}

/// What one record means: the text before its first `=` names the
/// variable, the text after it is the value; a record without `=` is
/// malformed.
pub open spec fn record_kv(s: Seq<char>) -> Option<(Seq<char>, Seq<char>)> {
    let c = sep_cut(s);
    if 0 <= c < s.len() {
        Some((s.subrange(0, c), s.subrange(c + 1, s.len() as int)))
    } else {
        None
    }
}

/// Parses the configuration text into its `VAR=VALUE` records, in order.
/// Fails exactly when some record lacks a separator.
pub fn parse_makepkg_config(config: &str) -> (r: Result<Vec<(String, String)>, RuaError>)
    ensures
        ({
            let records = config_records(config@);
            match r {
                Ok(es) => {
                    &&& es@.len() == records.len()
                    &&& forall|i: int|
                        0 <= i < records.len() ==> record_kv(#[trigger] records[i]) == Some(
                            ((#[trigger] es@[i]).0@, es@[i].1@),
                        )
                },
                Err(_) => exists|i: int|
                    0 <= i < records.len() && record_kv(#[trigger] records[i]) is None,
            }
        }),
{
    let chars = text::chars_of(config);
    let n = chars.len();
    let mut records: Vec<Vec<char>> = Vec::new();
    let mut st: usize = 0;
    let mut i: usize = 0;
    proof {
        assert(chars@.subrange(0, n as int) =~= chars@);
    }
    while i < n
        invariant
            st <= i <= n,
            n == chars@.len(),
            chars@ == config@,
            forall|j: int| st <= j < i ==> chars@[j] != '\0',
            config_records(config@) == records@.map_values(|l: Vec<char>| l@)
                + config_records(config@.subrange(st as int, n as int)),
        decreases n - i,
    {
        if chars[i] == '\0' {
            let piece = text::sub_chars(&chars, st, i);
            records.push(piece);
            proof {
                let tail = config@.subrange(st as int, n as int);
                let c = i - st;
                assert(tail[c] == '\0');
                assert(forall|j: int| 0 <= j < c ==> tail[j] != '\0') by {
                    assert(forall|j: int| 0 <= j < c ==> tail[j] == config@[st + j]);
                }
                lemma_config_records_step(tail, c);
                assert(tail.subrange(0, c) =~= config@.subrange(st as int, i as int));
                assert(tail.subrange(c + 1, tail.len() as int) =~= config@.subrange(
                    i + 1,
                    n as int,
                ));
                assert(records@.map_values(|l: Vec<char>| l@) =~= records@.map_values(
                    |l: Vec<char>| l@,
                ).subrange(0, records@.len() - 1) + seq![config@.subrange(st as int, i as int)]);
                assert(config_records(config@) =~= records@.map_values(|l: Vec<char>| l@)
                    + config_records(config@.subrange(i + 1, n as int)));
            }
            st = i + 1;
        }
        i = i + 1;
    }
    if st < n {
        let piece = text::sub_chars(&chars, st, n);
        records.push(piece);
        proof {
            let tail = config@.subrange(st as int, n as int);
            lemma_nul_cut(tail);
            if nul_cut(tail) < tail.len() {
                assert(tail[nul_cut(tail)] == '\0');
                assert(config@[st + nul_cut(tail)] == '\0');
                assert(false);
            }
            assert(config_records(tail) =~= seq![tail]);
            assert(records@.map_values(|l: Vec<char>| l@) =~= records@.map_values(
                |l: Vec<char>| l@,
            ).subrange(0, records@.len() - 1) + seq![tail]);
        }
    } else {
        proof {
            assert(config@.subrange(st as int, n as int) =~= Seq::<char>::empty());
        }
    }
    proof {
        assert(config_records(config@) =~= records@.map_values(|l: Vec<char>| l@));
    }

    let mut es: Vec<(String, String)> = Vec::new();
    let m = records.len();
    let mut i: usize = 0;
    while i < m
        invariant
            i <= m,
            m == records@.len(),
            config_records(config@) == records@.map_values(|l: Vec<char>| l@),
            es@.len() == i,
            forall|k: int|
                0 <= k < i ==> record_kv((#[trigger] records@[k])@) == Some(
                    ((#[trigger] es@[k]).0@, es@[k].1@),
                ),
        decreases m - i,
    {
        let rec = &records[i];
        let rn = rec.len();
        let mut c: usize = 0;
        while c < rn && rec[c] != '='
            invariant
                c <= rn,
                rn == rec@.len(),
                forall|j: int| 0 <= j < c ==> rec@[j] != '=',
            decreases rn - c,
        {
            c = c + 1;
        }
        proof {
            lemma_sep_cut(rec@);
            if c < sep_cut(rec@) {
                assert(rec@[c as int] != '=');
                assert(false);
            }
            if c > sep_cut(rec@) {
                assert(rec@[sep_cut(rec@)] == '=');
                assert(false);
            }
        }
        if c == rn {
            proof {
                assert(record_kv(records@[i as int]@) is None);
                assert(config_records(config@)[i as int] == records@[i as int]@);
            }
            return Err(RuaError::new(text::string_of(&text::chars_of(
                "Malformed configuration record: no separator",
            ))));
        }
        let key = text::string_of(&text::sub_chars(rec, 0, c));
        let value = text::string_of(&text::sub_chars(rec, c + 1, rn));
        es.push((key, value));
        i = i + 1;
    }
    Ok(es)
}

/// Whether this archive suffix is one the verifier can analyze; any other
/// configured suffix is refused.
pub fn validate_pkgext(value: &str) -> (r: bool)
    ensures
        r == (value@ == ".pkg.tar"@ || value@ == ".pkg.tar.xz"@ || value@ == ".pkg.tar.lzma"@
            || value@ == ".pkg.tar.gz"@ || value@ == ".pkg.tar.gzip"@ || value@
            == ".pkg.tar.zst"@ || value@ == ".pkg.tar.zstd"@),
{
    let v = text::chars_of(value);
    text::chars_eq(&v, &text::chars_of(".pkg.tar")) || text::chars_eq(
        &v,
        &text::chars_of(".pkg.tar.xz"),
    ) || text::chars_eq(&v, &text::chars_of(".pkg.tar.lzma")) || text::chars_eq(
        &v,
        &text::chars_of(".pkg.tar.gz"),
    ) || text::chars_eq(&v, &text::chars_of(".pkg.tar.gzip")) || text::chars_eq(
        &v,
        &text::chars_of(".pkg.tar.zst"),
    ) || text::chars_eq(&v, &text::chars_of(".pkg.tar.zstd"))
}

/// Whether this configuration variable names a staging location that the
/// safety model overrides rather than honors.
pub fn is_overridden_location_var(key: &str) -> (r: bool)
    ensures
        r == (key@ == "PKGDEST"@ || key@ == "SRCDEST"@ || key@ == "SRCPKGDEST"@ || key@
            == "LOGDEST"@ || key@ == "BUILDDIR"@),
{
    let k = text::chars_of(key);
    text::chars_eq(&k, &text::chars_of("PKGDEST")) || text::chars_eq(
        &k,
        &text::chars_of("SRCDEST"),
    ) || text::chars_eq(&k, &text::chars_of("SRCPKGDEST")) || text::chars_eq(
        &k,
        &text::chars_of("LOGDEST"),
    ) || text::chars_eq(&k, &text::chars_of("BUILDDIR"))
}

} // verus!
