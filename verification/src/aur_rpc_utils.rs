//! Normalization of dependency atoms and batching of remote index queries.

use vstd::prelude::*;
use vstd::string::StringExecFns;
use crate::error::RuaError;
use crate::text;

verus! {

/// Remote info queries are chunked at this many names per call.
pub const BATCH_SIZE: usize = 200;

/// How many batches a query list of the given length is dispatched in:
/// its length divided by `BATCH_SIZE`, rounded up.
pub open spec fn batch_count(len: int) -> int {
    (len + BATCH_SIZE - 1) / (BATCH_SIZE as int)
}

/// A character that begins a version constraint in a dependency atom.
pub open spec fn is_constraint_char(c: char) -> bool {
    c == '=' || c == '<' || c == '>'
}

/// The number of characters before the first version-constraint character,
/// or the whole length when there is none.
pub open spec fn cut_len(s: Seq<char>) -> int
    decreases s.len(),
{
    if s.len() == 0 {
        0
    } else if is_constraint_char(s[0]) {
        0
    } else {
        1 + cut_len(s.drop_first())
    }
}

proof fn lemma_cut_len(s: Seq<char>)
    ensures
        0 <= cut_len(s) <= s.len(),
        forall|j: int| 0 <= j < cut_len(s) ==> !is_constraint_char(s[j]),
        cut_len(s) < s.len() ==> is_constraint_char(s[cut_len(s)]),
    decreases s.len(),
{
    if s.len() != 0 && !is_constraint_char(s[0]) {
        lemma_cut_len(s.drop_first());
        assert(forall|j: int|
            1 <= j < cut_len(s) ==> !is_constraint_char(#[trigger] s[j])) by {
            assert(forall|j: int| 1 <= j < cut_len(s) ==> #[trigger] s[j]
                == s.drop_first()[j - 1]);
        }
    }
}

/// A dependency atom with any version constraint stripped.
pub open spec fn stripped(s: Seq<char>) -> Seq<char> {
    s.subrange(0, cut_len(s))
}

/// A character the recipe-name grammar accepts anywhere.
pub open spec fn name_char_ok(c: char) -> bool {
    ('a' <= c && c <= 'z') || ('0' <= c && c <= '9') || c == '@' || c == '_' || c == '+'
        || c == '.' || c == '-'
}

/// A character the recipe-name grammar accepts at the start: names may not
/// begin with a dot or a hyphen.
pub open spec fn name_start_ok(c: char) -> bool {
    ('a' <= c && c <= 'z') || ('0' <= c && c <= '9') || c == '@' || c == '_' || c == '+'
}

/// The recipe-name grammar.
pub open spec fn valid_package_name(s: Seq<char>) -> bool {
    &&& s.len() >= 1
    &&& name_start_ok(s[0])
    &&& forall|i: int| 1 <= i < s.len() ==> name_char_ok(#[trigger] s[i])
}

/// What normalization makes of an atom: the constraint suffix stripped,
/// then ASCII-lowercased.
pub open spec fn cleaned_name(s: Seq<char>) -> Seq<char> {
    text::lower_seq(stripped(s))
}

fn name_char_accepted(c: char) -> (r: bool)
    ensures
        r == name_char_ok(c),
{
    ('a' <= c && c <= 'z') || ('0' <= c && c <= '9') || c == '@' || c == '_' || c == '+'
        || c == '.' || c == '-'
}

fn name_start_accepted(c: char) -> (r: bool)
    ensures
        r == name_start_ok(c),
{
    ('a' <= c && c <= 'z') || ('0' <= c && c <= '9') || c == '@' || c == '_' || c == '+'
}

fn is_valid_name(s: &Vec<char>) -> (r: bool)
    ensures
        r == valid_package_name(s@),
{
    if s.len() == 0 {
        return false;
    }
    if !name_start_accepted(s[0]) {
        return false;
    }
    let n = s.len();
    let mut i: usize = 1;
    while i < n
        invariant
            1 <= i <= n,
            n == s@.len(),
            forall|j: int| 1 <= j < i ==> name_char_ok(#[trigger] s@[j]),
        decreases n - i,
    {
        if !name_char_accepted(s[i]) {
            return false;
        }
        i = i + 1;
    }
    true
}

/// Normalizes a dependency atom: strips everything from the first `=`, `<`
/// or `>` on, ASCII-lowercases the rest, and accepts the result only when
/// it matches the recipe-name grammar. Every name returned matches that
/// grammar.
pub fn clean_package_name(name: &str) -> (r: Option<String>)
    ensures
        match r {
            Some(n) => n@ == cleaned_name(name@) && valid_package_name(n@),
            None => !valid_package_name(cleaned_name(name@)),
        },
{
    let chars = text::chars_of(name);
    let n = chars.len();
    let mut cut: usize = 0;
    while cut < n && !(chars[cut] == '=' || chars[cut] == '<' || chars[cut] == '>')
        invariant
            cut <= n,
            n == chars@.len(),
            forall|j: int| 0 <= j < cut ==> !is_constraint_char(#[trigger] chars@[j]),
        decreases n - cut,
    {
        cut = cut + 1;
    }
    proof {
        lemma_cut_len(chars@);
        assert(cut < n ==> is_constraint_char(chars@[cut as int]));
        if cut < cut_len(chars@) {
            assert(!is_constraint_char(chars@[cut as int]));
            assert(false);
        }
        if cut > cut_len(chars@) {
            assert(is_constraint_char(chars@[cut_len(chars@)]));
            assert(false);
        }
        assert(cut == cut_len(chars@));
    }
    let head = text::sub_chars(&chars, 0, cut);
    let lowered = text::lower_chars(&head);
    if is_valid_name(&lowered) {
        Some(text::string_of(&lowered))
    } else {
        None
    }
}

/// Normalizes an atom and turns a name the grammar refuses into an error,
/// as resolution must stop on such an atom.
pub fn clean_and_check_package_name(name: &str) -> (r: Result<String, RuaError>)
    ensures
        match r {
            Ok(n) => n@ == cleaned_name(name@) && valid_package_name(n@),
            Err(_) => !valid_package_name(cleaned_name(name@)),
        },
{
    match clean_package_name(name) {
        Some(n) => Ok(n),
        None => {
            let mut msg = String::new();
            msg.append("Unexpected package name ");
            msg.append(name);
            Err(RuaError::new(msg))
        },
    }
}

/// Takes the chunk that the next remote info call is dispatched with: the
/// last `BATCH_SIZE` queued names, or all of them when fewer are queued.
pub fn take_batch(queue: &mut Vec<String>) -> (chunk: Vec<String>)
    ensures
        ({
            let len = old(queue)@.len() as int;
            let k = if len >= BATCH_SIZE as int {
                BATCH_SIZE as int
            } else {
                len
            };
            &&& chunk@ == old(queue)@.subrange(len - k, len)
            &&& final(queue)@ == old(queue)@.subrange(0, len - k)
        }),
{
    let len = queue.len();
    let split_at = if len >= BATCH_SIZE {
        len - BATCH_SIZE
    } else {
        0
    };
    let chunk = queue.split_off(split_at);
    proof {
        let len = old(queue)@.len() as int;
        let k = if len >= BATCH_SIZE as int {
            BATCH_SIZE as int
        } else {
            len
        };
        assert(chunk@ =~= old(queue)@.subrange(len - k, len));
        assert(queue@ =~= old(queue)@.subrange(0, len - k));
    }
    chunk
}

/// Splits a query list into the batches that are dispatched for it, in
/// order: chunks of `BATCH_SIZE` from the front, the last one shorter when
/// the length is no multiple of it. The number of batches is exactly the
/// length divided by `BATCH_SIZE`, rounded up.
pub fn plan_batches(names: &Vec<String>) -> (batches: Vec<Vec<String>>)
    ensures
        batches@.len() == batch_count(names@.len() as int),
        forall|bi: int| 0 <= bi < batches@.len() ==> {
            let start = bi * (BATCH_SIZE as int);
            let end = if start + (BATCH_SIZE as int) <= names@.len() {
                start + (BATCH_SIZE as int)
            } else {
                names@.len() as int
            };
            (#[trigger] batches@[bi])@.map_values(|s: String| s@) == names@.subrange(start, end)
                .map_values(|s: String| s@)
        },
{
    let n = names.len();
    let mut batches: Vec<Vec<String>> = Vec::new();
    let mut start: usize = 0;
    while start < n
        invariant
            start <= n,
            n == names@.len(),
            start == n || start as int == batches@.len() * (BATCH_SIZE as int),
            batches@.len() == batch_count(start as int),
            forall|bi: int| 0 <= bi < batches@.len() ==> {
                let s0 = bi * (BATCH_SIZE as int);
                let e0 = if s0 + (BATCH_SIZE as int) <= n {
                    s0 + (BATCH_SIZE as int)
                } else {
                    n as int
                };
                (#[trigger] batches@[bi])@.map_values(|s: String| s@) == names@.subrange(s0, e0)
                    .map_values(|s: String| s@)
            },
        decreases n - start,
    {
        let end = if n - start > BATCH_SIZE {
            start + BATCH_SIZE
        } else {
            n
        };
        let mut chunk: Vec<String> = Vec::new();
        let mut j: usize = start;
        while j < end
            invariant
                start <= j <= end <= n,
                n == names@.len(),
                chunk@.len() == j - start,
                forall|k: int| 0 <= k < chunk@.len() ==> (#[trigger] chunk@[k])@
                    == names@[start + k]@,
            decreases end - j,
        {
            chunk.push(names[j].clone());
            j = j + 1;
        }
        proof {
            assert(chunk@.map_values(|s: String| s@) =~= names@.subrange(
                start as int,
                end as int,
            ).map_values(|s: String| s@));
        }
        batches.push(chunk);
        start = end;
    }
    batches
}

} // verus!
