//! The recipe metadata format: a key-value text with `key = value` lines,
//! `#` comments and blank separators, where repeated keys form lists and a
//! `_<arch>` key suffix selects an architecture. Parsed into the recipe's
//! base fields and its split packages.

use vstd::prelude::*;
use vstd::string::StringExecFns;
use crate::error::RuaError;
use crate::text;

verus! {

/// Whitespace that is trimmed around lines, keys and values.
pub open spec fn is_space(c: char) -> bool {
    c == ' ' || c == '\t' || c == '\r'
}

/// The number of leading whitespace characters.
pub open spec fn front_ws(s: Seq<char>) -> int
    decreases s.len(),
{
    if s.len() == 0 {
        0
    } else if is_space(s[0]) {
        1 + front_ws(s.drop_first())
    } else {
        0
    }
}

/// The number of trailing whitespace characters.
pub open spec fn back_ws(s: Seq<char>) -> int
    decreases s.len(),
{
    if s.len() == 0 {
        0
    } else if is_space(s.last()) {
        1 + back_ws(s.drop_last())
    } else {
        0
    }
}

/// The string with leading and trailing whitespace removed.
pub open spec fn trimmed(s: Seq<char>) -> Seq<char> {
    let f = front_ws(s);
    let b = back_ws(s);
    if f + b <= s.len() {
        s.subrange(f, s.len() - b)
    } else {
        Seq::empty()
    }
}

proof fn lemma_front_ws(s: Seq<char>)
    ensures
        0 <= front_ws(s) <= s.len(),
        forall|j: int| 0 <= j < front_ws(s) ==> is_space(s[j]),
        front_ws(s) < s.len() ==> !is_space(s[front_ws(s)]),
    decreases s.len(),
{
    if s.len() > 0 && is_space(s[0]) {
        lemma_front_ws(s.drop_first());
        assert forall|j: int| 0 <= j < front_ws(s) implies is_space(s[j]) by {
            if j > 0 {
                assert(s[j] == s.drop_first()[j - 1]);
            }
        }
    }
}

proof fn lemma_back_ws(s: Seq<char>)
    ensures
        0 <= back_ws(s) <= s.len(),
        forall|j: int| s.len() - back_ws(s) <= j < s.len() ==> is_space(#[trigger] s[j]),
        back_ws(s) < s.len() ==> !is_space(s[s.len() - back_ws(s) - 1]),
    decreases s.len(),
{
    if s.len() > 0 && is_space(s.last()) {
        lemma_back_ws(s.drop_last());
        assert forall|j: int| s.len() - back_ws(s) <= j < s.len() implies is_space(
            #[trigger] s[j],
        ) by {
            if j < s.len() - 1 {
                assert(s[j] == s.drop_last()[j]);
            }
        }
    }
}

proof fn lemma_front_back_ws(s: Seq<char>)
    ensures
        front_ws(s) + back_ws(s) <= s.len() || (front_ws(s) == s.len() && back_ws(s) == s.len()),
    decreases s.len(),
{
    lemma_front_ws(s);
    lemma_back_ws(s);
    if front_ws(s) + back_ws(s) > s.len() && front_ws(s) < s.len() {
        if back_ws(s) < s.len() {
            let b = s.len() - back_ws(s) - 1;
            if b < front_ws(s) {
                assert(is_space(s[b]));
            }
            assert(false);
        } else {
            assert(is_space(s[front_ws(s)]));
            assert(false);
        }
    }
    if front_ws(s) == s.len() && back_ws(s) < s.len() {
        assert(is_space(s[s.len() - back_ws(s) - 1]));
        assert(false);
    }
}

/// Trims whitespace from both ends.
pub fn trim_chars(s: &Vec<char>) -> (r: Vec<char>)
    ensures
        r@ == trimmed(s@),
{
    let n = s.len();
    let mut lo: usize = 0;
    while lo < n && (s[lo] == ' ' || s[lo] == '\t' || s[lo] == '\r')
        invariant
            lo <= n,
            n == s@.len(),
            forall|j: int| 0 <= j < lo ==> is_space(s@[j]),
        decreases n - lo,
    {
        lo = lo + 1;
    }
    proof {
        lemma_front_ws(s@);
        if lo < front_ws(s@) {
            assert(!is_space(s@[lo as int]));
            assert(false);
        }
        if lo > front_ws(s@) {
            assert(is_space(s@[front_ws(s@)]));
            assert(false);
        }
    }
    let mut hi: usize = n;
    while hi > lo && (s[hi - 1] == ' ' || s[hi - 1] == '\t' || s[hi - 1] == '\r')
        invariant
            lo <= hi <= n,
            n == s@.len(),
            lo as int == front_ws(s@),
            forall|j: int| hi <= j < n ==> is_space(#[trigger] s@[j]),
        decreases hi,
    {
        hi = hi - 1;
    }
    proof {
        lemma_back_ws(s@);
        lemma_front_back_ws(s@);
        if hi > lo {
            // hi is the end of the trimmed text
            if hi < s@.len() - back_ws(s@) {
                assert(is_space(s@[hi as int]));
                assert(false);
            }
            if hi > s@.len() - back_ws(s@) {
                assert(!is_space(s@[s@.len() - back_ws(s@) - 1]));
                assert(is_space(s@[hi - 1]));
                assert(false);
            }
            assert(trimmed(s@) == s@.subrange(lo as int, hi as int));
        } else {
            // everything is whitespace
            assert(forall|j: int| 0 <= j < n ==> is_space(#[trigger] s@[j])) by {
                assert(forall|j: int| 0 <= j < lo ==> is_space(#[trigger] s@[j]));
            }
            if front_ws(s@) < s@.len() {
                assert(!is_space(s@[front_ws(s@)]));
                assert(false);
            }
            assert(trimmed(s@) =~= Seq::<char>::empty());
        }
    }
    text::sub_chars(s, lo, hi)
}

/// The index of the first newline, or the length when there is none.
pub open spec fn nl_cut(s: Seq<char>) -> int
    decreases s.len(),
{
    if s.len() == 0 {
        0
    } else if s[0] == '\n' {
        0
    } else {
        1 + nl_cut(s.drop_first())
    }
}

proof fn lemma_nl_cut(s: Seq<char>)
    ensures
        0 <= nl_cut(s) <= s.len(),
        forall|j: int| 0 <= j < nl_cut(s) ==> s[j] != '\n',
        nl_cut(s) < s.len() ==> s[nl_cut(s)] == '\n',
    decreases s.len(),
{
    if s.len() > 0 && s[0] != '\n' {
        lemma_nl_cut(s.drop_first());
        assert forall|j: int| 0 <= j < nl_cut(s) implies s[j] != '\n' by {
            if j > 0 {
                assert(s[j] == s.drop_first()[j - 1]);
            }
        }
    }
}

/// The lines of the text, split at newlines.
pub open spec fn split_lines(s: Seq<char>) -> Seq<Seq<char>>
    decreases s.len(),
{
    let c = nl_cut(s);
    if c < 0 || c >= s.len() {
        seq![s]
    } else {
        seq![s.subrange(0, c)] + split_lines(s.subrange(c + 1, s.len() as int))
    }
}

proof fn lemma_split_lines_step(s: Seq<char>, c: int)
    requires
        0 <= c < s.len(),
        s[c] == '\n',
        forall|j: int| 0 <= j < c ==> s[j] != '\n',
    ensures
        split_lines(s) == seq![s.subrange(0, c)] + split_lines(s.subrange(c + 1, s.len() as int)),
{
    lemma_nl_cut(s);
    if nl_cut(s) < c {
        assert(s[nl_cut(s)] != '\n');
        assert(false);
    }
    if nl_cut(s) > c {
        assert(s[c] != '\n');
        assert(false);
    }
}

/// Splits a character vector into its lines.
pub fn split_lines_chars(s: &Vec<char>) -> (r: Vec<Vec<char>>)
    ensures
        r@.map_values(|l: Vec<char>| l@) == split_lines(s@),
{
    let n = s.len();
    let mut r: Vec<Vec<char>> = Vec::new();
    let mut st: usize = 0;
    let mut i: usize = 0;
    proof {
        assert(s@.subrange(0, n as int) =~= s@);
        assert(r@.map_values(|l: Vec<char>| l@) =~= Seq::<Seq<char>>::empty());
    }
    while i < n
        invariant
            st <= i <= n,
            n == s@.len(),
            forall|j: int| st <= j < i ==> s@[j] != '\n',
            split_lines(s@) == r@.map_values(|l: Vec<char>| l@) + split_lines(
                s@.subrange(st as int, n as int),
            ),
        decreases n - i,
    {
        if s[i] == '\n' {
            let line = text::sub_chars(s, st, i);
            r.push(line);
            proof {
                let tail = s@.subrange(st as int, n as int);
                let c = i - st;
                assert(tail[c] == '\n');
                assert(forall|j: int| 0 <= j < c ==> tail[j] != '\n') by {
                    assert(forall|j: int| 0 <= j < c ==> tail[j] == s@[st + j]);
                }
                lemma_split_lines_step(tail, c);
                assert(tail.subrange(0, c) =~= s@.subrange(st as int, i as int));
                assert(tail.subrange(c + 1, tail.len() as int) =~= s@.subrange(
                    i + 1,
                    n as int,
                ));
                assert(r@.map_values(|l: Vec<char>| l@) =~= r@.map_values(
                    |l: Vec<char>| l@,
                ).subrange(0, r@.len() - 1) + seq![s@.subrange(st as int, i as int)]);
                assert(split_lines(s@) =~= r@.map_values(|l: Vec<char>| l@) + split_lines(
                    s@.subrange(i + 1, n as int),
                ));
            }
            st = i + 1;
        }
        i = i + 1;
    }
    let line = text::sub_chars(s, st, n);
    r.push(line);
    proof {
        let tail = s@.subrange(st as int, n as int);
        lemma_nl_cut(tail);
        if nl_cut(tail) < tail.len() {
            assert(tail[nl_cut(tail)] == '\n');
            assert(s@[st + nl_cut(tail)] == '\n');
            assert(false);
        }
        assert(split_lines(tail) =~= seq![tail]);
        assert(r@.map_values(|l: Vec<char>| l@) =~= r@.map_values(|l: Vec<char>| l@).subrange(
            0,
            r@.len() - 1,
        ) + seq![tail]);
        assert(r@.map_values(|l: Vec<char>| l@) =~= split_lines(s@));
    }
    r
}

/// The index of the first `=`, or the length when there is none.
pub open spec fn eq_cut(s: Seq<char>) -> int
    decreases s.len(),
{
    if s.len() == 0 {
        0
    } else if s[0] == '=' {
        0
    } else {
        1 + eq_cut(s.drop_first())
    }
}

proof fn lemma_eq_cut(s: Seq<char>)
    ensures
        0 <= eq_cut(s) <= s.len(),
        forall|j: int| 0 <= j < eq_cut(s) ==> s[j] != '=',
        eq_cut(s) < s.len() ==> s[eq_cut(s)] == '=',
    decreases s.len(),
{
    if s.len() > 0 && s[0] != '=' {
        lemma_eq_cut(s.drop_first());
        assert forall|j: int| 0 <= j < eq_cut(s) implies s[j] != '=' by {
            if j > 0 {
                assert(s[j] == s.drop_first()[j - 1]);
            }
        }
    }
}

/// The index of the first `_`, or the length when there is none.
pub open spec fn us_cut(s: Seq<char>) -> int
    decreases s.len(),
{
    if s.len() == 0 {
        0
    } else if s[0] == '_' {
        0
    } else {
        1 + us_cut(s.drop_first())
    }
}

proof fn lemma_us_cut(s: Seq<char>)
    ensures
        0 <= us_cut(s) <= s.len(),
        forall|j: int| 0 <= j < us_cut(s) ==> s[j] != '_',
        us_cut(s) < s.len() ==> s[us_cut(s)] == '_',
    decreases s.len(),
{
    if s.len() > 0 && s[0] != '_' {
        lemma_us_cut(s.drop_first());
        assert forall|j: int| 0 <= j < us_cut(s) implies s[j] != '_' by {
            if j > 0 {
                assert(s[j] == s.drop_first()[j - 1]);
            }
        }
    }
}

/// One parsed line, in the specification's terms.
pub enum LineView {
    /// Empty after trimming, or a comment.
    Blank,
    /// A line that is neither blank nor `key = value`.
    Malformed,
    /// A `key = value` line: the key's stem, the architecture its `_`
    /// suffix selects, and the value.
    Pair { key: Seq<char>, arch: Option<Seq<char>>, value: Seq<char> },
}

/// What a raw line means: trim it; blank lines and `#` comments carry
/// nothing; otherwise the text before the first `=` (trimmed) is the key
/// — empty keys are malformed, a `_` splits off the architecture — and
/// the text after it (trimmed) is the value. A line without `=` is
/// malformed.
pub open spec fn line_view(raw: Seq<char>) -> LineView {
    let t = trimmed(raw);
    if t.len() == 0 || t[0] == '#' {
        LineView::Blank
    } else {
        let e = eq_cut(t);
        if e == t.len() {
            LineView::Malformed
        } else {
            let key = trimmed(t.subrange(0, e));
            let value = trimmed(t.subrange(e + 1, t.len() as int));
            if key.len() == 0 {
                LineView::Malformed
            } else {
                let u = us_cut(key);
                if u == key.len() {
                    LineView::Pair { key, arch: None, value }
                } else {
                    LineView::Pair {
                        key: key.subrange(0, u),
                        arch: Some(key.subrange(u + 1, key.len() as int)),
                        value,
                    }
                }
            }
        }
    }
}

/// One parsed `key = value` line.
pub struct SrcEntry {
    pub key: String,
    pub arch: Option<String>,
    pub value: String,
}

/// The view of a parsed entry.
pub open spec fn entry_view(e: SrcEntry) -> LineView {
    LineView::Pair {
        key: e.key@,
        arch: match e.arch {
            Some(a) => Some(a@),
            None => None,
        },
        value: e.value@,
    }
}

/// Parses one raw line.
pub fn parse_line(raw: &Vec<char>) -> (r: Result<Option<SrcEntry>, RuaError>)
    ensures
        match r {
            Ok(Some(e)) => entry_view(e) == line_view(raw@),
            Ok(None) => line_view(raw@) is Blank,
            Err(_) => line_view(raw@) is Malformed,
        },
{
    let t = trim_chars(raw);
    if t.len() == 0 || t[0] == '#' {
        return Ok(None);
    }
    let n = t.len();
    let mut e: usize = 0;
    while e < n && t[e] != '='
        invariant
            e <= n,
            n == t@.len(),
            forall|j: int| 0 <= j < e ==> t@[j] != '=',
        decreases n - e,
    {
        e = e + 1;
    }
    proof {
        lemma_eq_cut(t@);
        if e < eq_cut(t@) {
            assert(t@[e as int] != '=');
            assert(false);
        }
        if e > eq_cut(t@) {
            assert(t@[eq_cut(t@)] == '=');
            assert(false);
        }
    }
    if e == n {
        return Err(RuaError::new(String::from_str("malformed metadata line: no separator")));
    }
    let key_part = trim_chars(&text::sub_chars(&t, 0, e));
    let value_part = trim_chars(&text::sub_chars(&t, e + 1, n));
    if key_part.len() == 0 {
        return Err(RuaError::new(String::from_str("malformed metadata line: empty key")));
    }
    let kn = key_part.len();
    let mut u: usize = 0;
    while u < kn && key_part[u] != '_'
        invariant
            u <= kn,
            kn == key_part@.len(),
            forall|j: int| 0 <= j < u ==> key_part@[j] != '_',
        decreases kn - u,
    {
        u = u + 1;
    }
    proof {
        lemma_us_cut(key_part@);
        if u < us_cut(key_part@) {
            assert(key_part@[u as int] != '_');
            assert(false);
        }
        if u > us_cut(key_part@) {
            assert(key_part@[us_cut(key_part@)] == '_');
            assert(false);
        }
    }
    let value = text::string_of(&value_part);
    if u == kn {
        Ok(Some(SrcEntry { key: text::string_of(&key_part), arch: None, value }))
    } else {
        let key = text::string_of(&text::sub_chars(&key_part, 0, u));
        let arch = text::string_of(&text::sub_chars(&key_part, u + 1, kn));
        Ok(Some(SrcEntry { key, arch: Some(arch), value }))
    }
}

/// The views of the entries a text parses to, in order, with blank lines
/// dropped — meaningful only when no line is malformed.
pub open spec fn entries_of(lines: Seq<Seq<char>>) -> Seq<LineView>
    decreases lines.len(),
{
    if lines.len() == 0 {
        Seq::empty()
    } else {
        let rest = entries_of(lines.drop_last());
        if line_view(lines.last()) is Pair {
            rest.push(line_view(lines.last()))
        } else {
            rest
        }
    }
}

/// Whether some line of the text is malformed.
pub open spec fn any_malformed(lines: Seq<Seq<char>>) -> bool {
    exists|i: int| 0 <= i < lines.len() && line_view(#[trigger] lines[i]) is Malformed
}

/// Parses a metadata text into its `key = value` entries, in order.
/// Fails exactly when some line is malformed.
pub fn parse_entries(content: &str) -> (r: Result<Vec<SrcEntry>, RuaError>)
    ensures
        ({
            let lines = split_lines(content@);
            match r {
                Ok(es) => !any_malformed(lines) && es@.map_values(|e: SrcEntry| entry_view(e))
                    == entries_of(lines),
                Err(_) => any_malformed(lines),
            }
        }),
{
    let chars = text::chars_of(content);
    let lines = split_lines_chars(&chars);
    let ghost lines_v = split_lines(content@);
    let mut es: Vec<SrcEntry> = Vec::new();
    let n = lines.len();
    let mut i: usize = 0;
    while i < n
        invariant
            i <= n,
            n == lines@.len(),
            lines@.map_values(|l: Vec<char>| l@) == lines_v,
            lines_v == split_lines(content@),
            forall|j: int| 0 <= j < i ==> !(line_view(#[trigger] lines_v[j]) is Malformed),
            es@.map_values(|e: SrcEntry| entry_view(e)) == entries_of(
                lines_v.subrange(0, i as int),
            ),
        decreases n - i,
    {
        proof {
            assert(lines_v[i as int] == lines@[i as int]@);
            assert(lines_v.subrange(0, i + 1).drop_last() =~= lines_v.subrange(0, i as int));
            assert(lines_v.subrange(0, i + 1).last() == lines_v[i as int]);
        }
        match parse_line(&lines[i]) {
            Ok(Some(e)) => {
                es.push(e);
                proof {
                    assert(es@.map_values(|e2: SrcEntry| entry_view(e2)) =~= entries_of(
                        lines_v.subrange(0, i + 1),
                    ));
                }
            },
            Ok(None) => {
                proof {
                    assert(es@.map_values(|e2: SrcEntry| entry_view(e2)) =~= entries_of(
                        lines_v.subrange(0, i + 1),
                    ));
                }
            },
            Err(err) => {
                proof {
                    assert(line_view(lines_v[i as int]) is Malformed);
                }
                return Err(err);
            },
        }
        i = i + 1;
    }
    proof {
        assert(lines_v.subrange(0, n as int) =~= lines_v);
        if any_malformed(lines_v) {
            let j = choose|j: int|
                0 <= j < lines_v.len() && line_view(#[trigger] lines_v[j]) is Malformed;
        }
    }
    Ok(es)
}


/// One architecture's values for a list key: `arch` is `None` for the
/// architecture-independent list.
pub struct ArchVec {
    pub arch: Option<String>,
    pub vec: Vec<String>,
}

/// The view of one architecture's values.
pub struct ArchVecView {
    pub arch: Option<Seq<char>>,
    pub vec: Seq<Seq<char>>,
}

/// The view of an optional string.
pub open spec fn opt_view(o: Option<String>) -> Option<Seq<char>> {
    match o {
        Some(x) => Some(x@),
        None => None,
    }
}

/// The view of an `ArchVec`.
pub open spec fn av_view(a: ArchVec) -> ArchVecView {
    ArchVecView { arch: opt_view(a.arch), vec: text::str_views(a.vec@) }
}

/// The views of a list of `ArchVec`s.
pub open spec fn av_views(avs: Seq<ArchVec>) -> Seq<ArchVecView> {
    avs.map_values(|a: ArchVec| av_view(a))
}

/// The position of the row for this architecture, or `-1`.
pub open spec fn av_index(vs: Seq<ArchVecView>, arch: Option<Seq<char>>) -> int
    decreases vs.len(),
{
    if vs.len() == 0 {
        -1
    } else if vs.last().arch == arch {
        vs.len() - 1
    } else {
        av_index(vs.drop_last(), arch)
    }
}

/// Appends one value under its architecture: to the row already holding
/// that architecture, or as a new row at the end.
pub open spec fn av_add(vs: Seq<ArchVecView>, arch: Option<Seq<char>>, value: Seq<char>) -> Seq<
    ArchVecView,
> {
    let i = av_index(vs, arch);
    if 0 <= i < vs.len() {
        vs.update(i, ArchVecView { arch, vec: vs[i].vec.push(value) })
    } else {
        vs.push(ArchVecView { arch, vec: seq![value] })
    }
}

/// The architecture-grouped values of `key` among the entries in
/// `[lo, hi)`, rows in first-appearance order, values in entry order.
pub open spec fn gathered(es: Seq<LineView>, lo: int, hi: int, key: Seq<char>) -> Seq<
    ArchVecView,
>
    decreases hi - lo,
{
    if lo >= hi || hi < 1 {
        Seq::empty()
    } else {
        let rest = gathered(es, lo, hi - 1, key);
        if 0 <= hi - 1 < es.len() && es[hi - 1] is Pair && es[hi - 1]->Pair_key == key {
            av_add(rest, es[hi - 1]->Pair_arch, es[hi - 1]->Pair_value)
        } else {
            rest
        }
    }
}

/// The plain (architecture-free) values of `key` among the entries in
/// `[lo, hi)`, in order.
pub open spec fn plain_values(es: Seq<LineView>, lo: int, hi: int, key: Seq<char>) -> Seq<
    Seq<char>,
>
    decreases hi - lo,
{
    if lo >= hi || hi < 1 {
        Seq::empty()
    } else {
        let rest = plain_values(es, lo, hi - 1, key);
        if 0 <= hi - 1 < es.len() && es[hi - 1] is Pair && es[hi - 1]->Pair_key == key && es[hi
            - 1]->Pair_arch is None {
            rest.push(es[hi - 1]->Pair_value)
        } else {
            rest
        }
    }
}

/// The last plain value of `key` among the entries in `[lo, hi)`.
pub open spec fn last_value(es: Seq<LineView>, lo: int, hi: int, key: Seq<char>) -> Option<
    Seq<char>,
>
    decreases hi - lo,
{
    if lo >= hi || hi < 1 {
        None
    } else if 0 <= hi - 1 < es.len() && es[hi - 1] is Pair && es[hi - 1]->Pair_key == key && es[
        hi - 1]->Pair_arch is None {
        Some(es[hi - 1]->Pair_value)
    } else {
        last_value(es, lo, hi - 1, key)
    }
}

/// The positions of the plain entries for `key`, in order.
pub open spec fn key_positions(es: Seq<LineView>, key: Seq<char>) -> Seq<int>
    decreases es.len(),
{
    if es.len() == 0 {
        Seq::empty()
    } else {
        let rest = key_positions(es.drop_last(), key);
        if es.last() is Pair && es.last()->Pair_key == key && es.last()->Pair_arch is None {
            rest.push(es.len() - 1)
        } else {
            rest
        }
    }
}

/// Whether this entry is a plain `key = value` pair for `key`.
pub open spec fn is_plain_pair(e: LineView, key: Seq<char>) -> bool {
    e is Pair && e->Pair_key == key && e->Pair_arch is None
}

/// One split package of a recipe.
pub struct SrcinfoPackage {
    pub pkgname: String,
    pub depends: Vec<ArchVec>,
}

/// A parsed recipe metadata file.
pub struct Srcinfo {
    pub pkgbase: String,
    pub pkgver: String,
    pub pkgrel: String,
    pub epoch: Option<String>,
    pub arch: Vec<String>,
    pub source: Vec<ArchVec>,
    pub md5sums: Vec<ArchVec>,
    pub sha1sums: Vec<ArchVec>,
    pub sha224sums: Vec<ArchVec>,
    pub sha256sums: Vec<ArchVec>,
    pub sha384sums: Vec<ArchVec>,
    pub sha512sums: Vec<ArchVec>,
    pub makedepends: Vec<ArchVec>,
    pub checkdepends: Vec<ArchVec>,
    pub pkgs: Vec<SrcinfoPackage>,
}

/// Gathers the architecture-grouped values of `key` in `[lo, hi)`.
fn gather_arch_vecs(entries: &Vec<SrcEntry>, lo: usize, hi: usize, key: &str) -> (r: Vec<
    ArchVec,
>)
    requires
        lo <= hi <= entries@.len(),
    ensures
        av_views(r@) == gathered(
            entries@.map_values(|e: SrcEntry| entry_view(e)),
            lo as int,
            hi as int,
            key@,
        ),
{
    let ghost es = entries@.map_values(|e: SrcEntry| entry_view(e));
    let key_chars = text::chars_of(key);
    let mut r: Vec<ArchVec> = Vec::new();
    let mut i: usize = lo;
    proof {
        assert(av_views(r@) =~= gathered(es, lo as int, lo as int, key@));
    }
    while i < hi
        invariant
            lo <= i <= hi <= entries@.len(),
            es == entries@.map_values(|e: SrcEntry| entry_view(e)),
            key_chars@ == key@,
            av_views(r@) == gathered(es, lo as int, i as int, key@),
        decreases hi - i,
    {
        proof {
            assert(es[i as int] == entry_view(entries@[i as int]));
        }
        if text::chars_eq(&text::chars_of(entries[i].key.as_str()), &key_chars) {
            // find the row for this entry's architecture
            let m = r.len();
            let mut at: usize = 0;
            let mut found = false;
            let mut j: usize = m;
            proof {
                assert(av_views(r@).subrange(0, m as int) =~= av_views(r@));
            }
            while j > 0
                invariant
                    j <= m,
                    m == r@.len(),
                    i < entries@.len(),
                    !found ==> av_index(av_views(r@).subrange(0, j as int),
                        opt_view(entries@[i as int].arch)) == av_index(
                        av_views(r@),
                        opt_view(entries@[i as int].arch),
                    ),
                    found ==> at < m && av_views(r@)[at as int].arch == opt_view(
                        entries@[i as int].arch,
                    ) && at as int == av_index(av_views(r@), opt_view(entries@[i as int].arch)),
                decreases j,
            {
                if !found {
                    let same = match (&r[j - 1].arch, &entries[i].arch) {
                        (Option::None, Option::None) => true,
                        (Option::Some(a), Option::Some(b)) => text::chars_eq(
                            &text::chars_of(a.as_str()),
                            &text::chars_of(b.as_str()),
                        ),
                        _ => false,
                    };
                    if same {
                        found = true;
                        at = j - 1;
                        proof {
                            assert(av_views(r@)[j - 1].arch == opt_view(
                                entries@[i as int].arch,
                            ));
                            assert(av_index(av_views(r@).subrange(0, j as int), av_views(
                                r@,
                            )[j - 1].arch) == j - 1);
                        }
                    } else {
                        proof {
                            assert(av_views(r@)[j - 1].arch != opt_view(
                                entries@[i as int].arch,
                            ));
                            assert(av_views(r@).subrange(0, j as int).drop_last()
                                =~= av_views(r@).subrange(0, j - 1));
                        }
                    }
                }
                j = j - 1;
            }
            let value = entries[i].value.clone();
            let ghost pre = av_views(r@);
            let ghost arch_v = opt_view(entries@[i as int].arch);
            if found {
                let kept_arch = if r[at].arch.is_some() {
                    Some(r[at].arch.as_ref().unwrap().clone())
                } else {
                    None
                };
                proof {
                    assert(opt_view(kept_arch) == pre[at as int].arch);
                }
                let mut vec = Vec::new();
                core::mem::swap(&mut vec, &mut r[at].vec);
                vec.push(value);
                proof {
                    assert(text::str_views(vec@) =~= pre[at as int].vec.push(
                        entries@[i as int].value@,
                    ));
                }
                r[at] = ArchVec { arch: kept_arch, vec };
                proof {
                    assert(av_views(r@) =~~= pre.update(at as int, ArchVecView {
                        arch: arch_v,
                        vec: pre[at as int].vec.push(entries@[i as int].value@),
                    }));
                    lemma_av_index(pre, arch_v);
                    assert(av_index(pre, arch_v) == at as int);
                    assert(av_views(r@) =~~= av_add(pre, arch_v, entries@[i as int].value@));
                }
            } else {
                proof {
                    assert(pre.subrange(0, pre.len() as int) =~= pre);
                    assert(av_index(pre, arch_v) == -1 || !(0 <= av_index(pre, arch_v)
                        < pre.len())) by {
                        lemma_av_index(pre, arch_v);
                        if 0 <= av_index(pre, arch_v) < pre.len() {
                            assert(found);
                        }
                    }
                }
                let arch = match &entries[i].arch {
                    Option::None => None,
                    Option::Some(a) => Some(a.clone()),
                };
                let mut vec = Vec::new();
                vec.push(value);
                r.push(ArchVec { arch, vec });
                proof {
                    assert(opt_view(r@.last().arch) == arch_v);
                    assert(text::str_views(r@.last().vec@) =~= seq![entries@[i as int].value@]);
                    assert(av_views(r@) =~~= pre.push(ArchVecView {
                        arch: arch_v,
                        vec: seq![entries@[i as int].value@],
                    }));
                    assert(av_views(r@) =~~= av_add(pre, arch_v, entries@[i as int].value@));
                }
            }
            proof {
                assert(es[i as int] is Pair && es[i as int]->Pair_key == key@);
                assert(gathered(es, lo as int, i + 1, key@) == av_add(
                    gathered(es, lo as int, i as int, key@),
                    es[i as int]->Pair_arch,
                    es[i as int]->Pair_value,
                ));
                assert(es[i as int]->Pair_arch == arch_v);
                assert(es[i as int]->Pair_value == entries@[i as int].value@);
            }
        } else {
            proof {
                assert(es[i as int]->Pair_key == entries@[i as int].key@);
                assert(!(es[i as int] is Pair && es[i as int]->Pair_key == key@));
                assert(gathered(es, lo as int, i + 1, key@) == gathered(
                    es,
                    lo as int,
                    i as int,
                    key@,
                ));
            }
        }
        i = i + 1;
    }
    r
}

proof fn lemma_av_index(vs: Seq<ArchVecView>, arch: Option<Seq<char>>)
    ensures
        av_index(vs, arch) == -1 || (0 <= av_index(vs, arch) < vs.len() && vs[av_index(
            vs,
            arch,
        )].arch == arch),
        av_index(vs, arch) == -1 ==> forall|j: int| 0 <= j < vs.len() ==> (
        #[trigger] vs[j]).arch != arch,
    decreases vs.len(),
{
    if vs.len() > 0 && vs.last().arch != arch {
        lemma_av_index(vs.drop_last(), arch);
        if av_index(vs, arch) == -1 {
            assert forall|j: int| 0 <= j < vs.len() implies (#[trigger] vs[j]).arch != arch by {
                if j < vs.len() - 1 {
                    assert(vs.drop_last()[j] == vs[j]);
                }
            }
        } else {
            assert(vs.drop_last()[av_index(vs, arch)] == vs[av_index(vs, arch)]);
        }
    }
}


/// Collects the plain values of `key` in `[lo, hi)`.
fn plain_values_of(entries: &Vec<SrcEntry>, lo: usize, hi: usize, key: &str) -> (r: Vec<String>)
    requires
        lo <= hi <= entries@.len(),
    ensures
        text::str_views(r@) == plain_values(
            entries@.map_values(|e: SrcEntry| entry_view(e)),
            lo as int,
            hi as int,
            key@,
        ),
{
    let ghost es = entries@.map_values(|e: SrcEntry| entry_view(e));
    let key_chars = text::chars_of(key);
    let mut r: Vec<String> = Vec::new();
    let mut i: usize = lo;
    proof {
        assert(text::str_views(r@) =~= plain_values(es, lo as int, lo as int, key@));
    }
    while i < hi
        invariant
            lo <= i <= hi <= entries@.len(),
            es == entries@.map_values(|e: SrcEntry| entry_view(e)),
            key_chars@ == key@,
            text::str_views(r@) == plain_values(es, lo as int, i as int, key@),
        decreases hi - i,
    {
        proof {
            assert(es[i as int] == entry_view(entries@[i as int]));
        }
        if text::chars_eq(&text::chars_of(entries[i].key.as_str()), &key_chars)
            && entries[i].arch.is_none() {
            r.push(entries[i].value.clone());
            proof {
                assert(text::str_views(r@) =~= plain_values(es, lo as int, i + 1, key@));
            }
        } else {
            proof {
                assert(text::str_views(r@) =~= plain_values(es, lo as int, i + 1, key@));
            }
        }
        i = i + 1;
    }
    r
}

/// Finds the last plain value of `key` in `[lo, hi)`.
fn last_value_of(entries: &Vec<SrcEntry>, lo: usize, hi: usize, key: &str) -> (r: Option<
    String,
>)
    requires
        lo <= hi <= entries@.len(),
    ensures
        opt_view(r) == last_value(
            entries@.map_values(|e: SrcEntry| entry_view(e)),
            lo as int,
            hi as int,
            key@,
        ),
{
    let ghost es = entries@.map_values(|e: SrcEntry| entry_view(e));
    let key_chars = text::chars_of(key);
    let mut r: Option<String> = None;
    let mut i: usize = lo;
    while i < hi
        invariant
            lo <= i <= hi <= entries@.len(),
            es == entries@.map_values(|e: SrcEntry| entry_view(e)),
            key_chars@ == key@,
            opt_view(r) == last_value(es, lo as int, i as int, key@),
        decreases hi - i,
    {
        proof {
            assert(es[i as int] == entry_view(entries@[i as int]));
        }
        if text::chars_eq(&text::chars_of(entries[i].key.as_str()), &key_chars)
            && entries[i].arch.is_none() {
            r = Some(entries[i].value.clone());
        }
        i = i + 1;
    }
    r
}

proof fn lemma_key_positions(es: Seq<LineView>, key: Seq<char>)
    ensures
        forall|p: int|
            0 <= p < key_positions(es, key).len() ==> 0 <= #[trigger] key_positions(es, key)[p]
                < es.len() && is_plain_pair(es[key_positions(es, key)[p]], key),
        forall|p1: int, p2: int|
            0 <= p1 < p2 < key_positions(es, key).len() ==> #[trigger] key_positions(
                es,
                key,
            )[p1] < #[trigger] key_positions(es, key)[p2],
    decreases es.len(),
{
    if es.len() > 0 {
        lemma_key_positions(es.drop_last(), key);
        let ps = key_positions(es, key);
        let psp = key_positions(es.drop_last(), key);
        assert forall|p: int| 0 <= p < ps.len() implies 0 <= #[trigger] ps[p] < es.len()
            && is_plain_pair(es[ps[p]], key) by {
            if p < psp.len() {
                assert(ps[p] == psp[p]);
                assert(es.drop_last()[psp[p]] == es[psp[p]]);
            }
        }
    }
}

/// Finds the positions of the plain entries for `key`, in order.
fn key_positions_of(entries: &Vec<SrcEntry>, key: &str) -> (r: Vec<usize>)
    ensures
        r@.map_values(|x: usize| x as int) == key_positions(
            entries@.map_values(|e: SrcEntry| entry_view(e)),
            key@,
        ),
{
    let ghost es = entries@.map_values(|e: SrcEntry| entry_view(e));
    let key_chars = text::chars_of(key);
    let mut r: Vec<usize> = Vec::new();
    let n = entries.len();
    let mut i: usize = 0;
    proof {
        assert(es.subrange(0, 0) =~= Seq::<LineView>::empty());
        assert(r@.map_values(|x: usize| x as int) =~= key_positions(es.subrange(0, 0), key@));
    }
    while i < n
        invariant
            i <= n,
            n == entries@.len(),
            es == entries@.map_values(|e: SrcEntry| entry_view(e)),
            key_chars@ == key@,
            r@.map_values(|x: usize| x as int) == key_positions(es.subrange(0, i as int), key@),
        decreases n - i,
    {
        proof {
            assert(es[i as int] == entry_view(entries@[i as int]));
            assert(es.subrange(0, i + 1).drop_last() =~= es.subrange(0, i as int));
            assert(es.subrange(0, i + 1).last() == es[i as int]);
        }
        if text::chars_eq(&text::chars_of(entries[i].key.as_str()), &key_chars)
            && entries[i].arch.is_none() {
            r.push(i);
            proof {
                assert(r@.map_values(|x: usize| x as int) =~= key_positions(
                    es.subrange(0, i + 1),
                    key@,
                ));
            }
        } else {
            proof {
                assert(r@.map_values(|x: usize| x as int) =~= key_positions(
                    es.subrange(0, i + 1),
                    key@,
                ));
            }
        }
        i = i + 1;
    }
    proof {
        assert(es.subrange(0, n as int) =~= es);
    }
    r
}

/// Whether a metadata text is complete: no malformed line, the first
/// entry names the build unit, some package is declared, and version and
/// release are present before the first package section.
pub open spec fn srcinfo_text_ok(lines: Seq<Seq<char>>) -> bool {
    let es = entries_of(lines);
    let ps = key_positions(es, "pkgname"@);
    let base_hi = if ps.len() > 0 {
        ps[0]
    } else {
        es.len() as int
    };
    &&& !any_malformed(lines)
    &&& es.len() > 0
    &&& is_plain_pair(es[0], "pkgbase"@)
    &&& ps.len() > 0
    &&& last_value(es, 0, base_hi, "pkgver"@) is Some
    &&& last_value(es, 0, base_hi, "pkgrel"@) is Some
}

/// Parses a whole metadata text into the recipe it describes. Fails
/// exactly when the text is not a complete metadata file.
pub fn parse_srcinfo(content: &str) -> (r: Result<Srcinfo, RuaError>)
    ensures
        ({
            let lines = split_lines(content@);
            let es = entries_of(lines);
            let ps = key_positions(es, "pkgname"@);
            let base_hi = if ps.len() > 0 {
                ps[0]
            } else {
                es.len() as int
            };
            match r {
                Ok(s) => {
                    &&& srcinfo_text_ok(lines)
                    &&& s.pkgbase@ == es[0]->Pair_value
                    &&& last_value(es, 0, base_hi, "pkgver"@) == Some(s.pkgver@)
                    &&& last_value(es, 0, base_hi, "pkgrel"@) == Some(s.pkgrel@)
                    &&& opt_view(s.epoch) == last_value(es, 0, base_hi, "epoch"@)
                    &&& text::str_views(s.arch@) == plain_values(es, 0, base_hi, "arch"@)
                    &&& av_views(s.source@) == gathered(es, 0, base_hi, "source"@)
                    &&& av_views(s.md5sums@) == gathered(es, 0, base_hi, "md5sums"@)
                    &&& av_views(s.sha1sums@) == gathered(es, 0, base_hi, "sha1sums"@)
                    &&& av_views(s.sha224sums@) == gathered(es, 0, base_hi, "sha224sums"@)
                    &&& av_views(s.sha256sums@) == gathered(es, 0, base_hi, "sha256sums"@)
                    &&& av_views(s.sha384sums@) == gathered(es, 0, base_hi, "sha384sums"@)
                    &&& av_views(s.sha512sums@) == gathered(es, 0, base_hi, "sha512sums"@)
                    &&& av_views(s.makedepends@) == gathered(es, 0, base_hi, "makedepends"@)
                    &&& av_views(s.checkdepends@) == gathered(es, 0, base_hi, "checkdepends"@)
                    &&& s.pkgs@.len() == ps.len()
                    &&& forall|p: int|
                        0 <= p < ps.len() ==> {
                            let st = ps[p];
                            let en = if p + 1 < ps.len() {
                                ps[p + 1]
                            } else {
                                es.len() as int
                            };
                            &&& (#[trigger] s.pkgs@[p]).pkgname@ == es[st]->Pair_value
                            &&& av_views(s.pkgs@[p].depends@) == gathered(
                                es,
                                st + 1,
                                en,
                                "depends"@,
                            )
                        }
                },
                Err(_) => !srcinfo_text_ok(lines),
            }
        }),
{
    let ghost lines = split_lines(content@);
    let entries = parse_entries(content)?;
    let ghost es = entries@.map_values(|e: SrcEntry| entry_view(e));
    proof {
        assert(es == entries_of(lines));
    }
    let n = entries.len();
    if n == 0 {
        return Err(RuaError::new(String::from_str("empty metadata file")));
    }
    let pkgbase_key = text::chars_of("pkgbase");
    if !(text::chars_eq(&text::chars_of(entries[0].key.as_str()), &pkgbase_key)
        && entries[0].arch.is_none()) {
        proof {
            assert(es[0] == entry_view(entries@[0]));
        }
        return Err(RuaError::new(String::from_str("metadata must start with its base name")));
    }
    proof {
        assert(es[0] == entry_view(entries@[0]));
        assert(is_plain_pair(es[0], "pkgbase"@));
    }
    let pkgbase = entries[0].value.clone();
    let ps = key_positions_of(&entries, "pkgname");
    proof {
        lemma_key_positions(es, "pkgname"@);
    }
    if ps.len() == 0 {
        return Err(RuaError::new(String::from_str("metadata declares no package")));
    }
    let base_hi = ps[0];
    proof {
        assert(ps@.map_values(|x: usize| x as int)[0] == key_positions(es, "pkgname"@)[0]);
        assert(base_hi <= entries@.len());
    }
    let pkgver = match last_value_of(&entries, 0, base_hi, "pkgver") {
        Some(v) => v,
        None => {
            return Err(RuaError::new(String::from_str("metadata lacks a version")));
        },
    };
    let pkgrel = match last_value_of(&entries, 0, base_hi, "pkgrel") {
        Some(v) => v,
        None => {
            return Err(RuaError::new(String::from_str("metadata lacks a release number")));
        },
    };
    let epoch = last_value_of(&entries, 0, base_hi, "epoch");
    let arch = plain_values_of(&entries, 0, base_hi, "arch");
    let source = gather_arch_vecs(&entries, 0, base_hi, "source");
    let md5sums = gather_arch_vecs(&entries, 0, base_hi, "md5sums");
    let sha1sums = gather_arch_vecs(&entries, 0, base_hi, "sha1sums");
    let sha224sums = gather_arch_vecs(&entries, 0, base_hi, "sha224sums");
    let sha256sums = gather_arch_vecs(&entries, 0, base_hi, "sha256sums");
    let sha384sums = gather_arch_vecs(&entries, 0, base_hi, "sha384sums");
    let sha512sums = gather_arch_vecs(&entries, 0, base_hi, "sha512sums");
    let makedepends = gather_arch_vecs(&entries, 0, base_hi, "makedepends");
    let checkdepends = gather_arch_vecs(&entries, 0, base_hi, "checkdepends");

    let mut pkgs: Vec<SrcinfoPackage> = Vec::new();
    let np = ps.len();
    let mut p: usize = 0;
    while p < np
        invariant
            p <= np,
            np == ps@.len(),
            es == entries_of(lines),
            es == entries@.map_values(|e: SrcEntry| entry_view(e)),
            ps@.map_values(|x: usize| x as int) == key_positions(es, "pkgname"@),
            forall|q: int|
                0 <= q < key_positions(es, "pkgname"@).len() ==> 0 <= #[trigger] key_positions(
                    es,
                    "pkgname"@,
                )[q] < es.len() && is_plain_pair(es[key_positions(es, "pkgname"@)[q]],
                    "pkgname"@),
            forall|q1: int, q2: int|
                0 <= q1 < q2 < key_positions(es, "pkgname"@).len() ==> #[trigger] key_positions(
                    es,
                    "pkgname"@,
                )[q1] < #[trigger] key_positions(es, "pkgname"@)[q2],
            pkgs@.len() == p,
            forall|q: int|
                0 <= q < p ==> {
                    let st = key_positions(es, "pkgname"@)[q];
                    let en = if q + 1 < key_positions(es, "pkgname"@).len() {
                        key_positions(es, "pkgname"@)[q + 1]
                    } else {
                        es.len() as int
                    };
                    &&& (#[trigger] pkgs@[q]).pkgname@ == es[st]->Pair_value
                    &&& av_views(pkgs@[q].depends@) == gathered(es, st + 1, en, "depends"@)
                },
        decreases np - p,
    {
        let st = ps[p];
        let en = if p + 1 < np {
            ps[p + 1]
        } else {
            entries.len()
        };
        proof {
            assert(ps@.map_values(|x: usize| x as int)[p as int] == key_positions(
                es,
                "pkgname"@,
            )[p as int]);
            if p + 1 < np {
                assert(ps@.map_values(|x: usize| x as int)[p + 1] == key_positions(
                    es,
                    "pkgname"@,
                )[p + 1]);
            }
            assert(st < entries@.len());
            assert(st + 1 <= en <= entries@.len());
            assert(es[st as int] == entry_view(entries@[st as int]));
        }
        let pkgname = entries[st].value.clone();
        let depends = gather_arch_vecs(&entries, st + 1, en, "depends");
        pkgs.push(SrcinfoPackage { pkgname, depends });
        p = p + 1;
    }
    Ok(Srcinfo {
        pkgbase,
        pkgver,
        pkgrel,
        epoch,
        arch,
        source,
        md5sums,
        sha1sums,
        sha224sums,
        sha256sums,
        sha384sums,
        sha512sums,
        makedepends,
        checkdepends,
        pkgs,
    })
}

/// The values a recipe's architecture-split list yields on one machine:
/// the architecture-independent row and the row for that architecture,
/// in row order.
pub open spec fn supported_of(avs: Seq<ArchVecView>, arch: Seq<char>) -> Seq<Seq<char>>
    decreases avs.len(),
{
    if avs.len() == 0 {
        Seq::empty()
    } else {
        let rest = supported_of(avs.drop_last(), arch);
        if avs.last().arch is None || avs.last().arch == Some(arch) {
            rest + avs.last().vec
        } else {
            rest
        }
    }
}

/// Flattens the rows that apply to the given architecture.
pub fn supported_values(vecs: &Vec<ArchVec>, arch: &str) -> (r: Vec<String>)
    ensures
        text::str_views(r@) == supported_of(av_views(vecs@), arch@),
{
    let arch_chars = text::chars_of(arch);
    let mut r: Vec<String> = Vec::new();
    let n = vecs.len();
    let mut i: usize = 0;
    proof {
        assert(av_views(vecs@).subrange(0, 0) =~= Seq::<ArchVecView>::empty());
        assert(text::str_views(r@) =~= supported_of(av_views(vecs@).subrange(0, 0), arch@));
    }
    while i < n
        invariant
            i <= n,
            n == vecs@.len(),
            arch_chars@ == arch@,
            text::str_views(r@) == supported_of(av_views(vecs@).subrange(0, i as int), arch@),
        decreases n - i,
    {
        proof {
            assert(av_views(vecs@).subrange(0, i + 1).drop_last() =~= av_views(
                vecs@,
            ).subrange(0, i as int));
            assert(av_views(vecs@).subrange(0, i + 1).last() == av_views(vecs@)[i as int]);
        }
        let applies = match &vecs[i].arch {
            Option::None => true,
            Option::Some(a) => text::chars_eq(&text::chars_of(a.as_str()), &arch_chars),
        };
        if applies {
            let ghost pre = r@;
            let m = vecs[i].vec.len();
            let mut j: usize = 0;
            while j < m
                invariant
                    j <= m,
                    i < n,
                    n == vecs@.len(),
                    m == vecs@[i as int].vec@.len(),
                    r@.len() == pre.len() + j,
                    forall|k: int| 0 <= k < pre.len() ==> #[trigger] r@[k] == pre[k],
                    forall|k: int|
                        pre.len() <= k < r@.len() ==> (#[trigger] r@[k])@ == vecs@[
                            i as int].vec@[k - pre.len()]@,
                decreases m - j,
            {
                r.push(vecs[i].vec[j].clone());
                j = j + 1;
            }
            proof {
                assert(av_views(vecs@)[i as int] == av_view(vecs@[i as int]));
                assert(text::str_views(r@) =~= text::str_views(pre) + av_views(
                    vecs@,
                )[i as int].vec);
                assert(text::str_views(pre) == supported_of(
                    av_views(vecs@).subrange(0, i as int),
                    arch@,
                ));
                assert(text::str_views(r@) =~= supported_of(
                    av_views(vecs@).subrange(0, i + 1),
                    arch@,
                ));
            }
        } else {
            proof {
                assert(av_views(vecs@)[i as int].arch is Some);
                assert(av_views(vecs@)[i as int].arch != Some(arch@));
                assert(text::str_views(r@) =~= supported_of(
                    av_views(vecs@).subrange(0, i + 1),
                    arch@,
                ));
            }
        }
        i = i + 1;
    }
    proof {
        assert(av_views(vecs@).subrange(0, n as int) =~= av_views(vecs@));
    }
    r
}

} // verus!
