//! Synthesis of a minimal build script from a recipe's metadata: only the
//! fields the build tool's source-fetch phase needs, with every source and
//! checksum array carried over verbatim, single-quoted.

use vstd::prelude::*;
use vstd::string::StringExecFns;
use crate::srcinfo::{av_views, ArchVec, ArchVecView, Srcinfo};
use crate::terminal_util::{escaped_arg, escaped_body, push_escaped_body};
use crate::text;

verus! {

/// One `key='value'` line.
pub open spec fn field_line(key: Seq<char>, value: Seq<char>) -> Seq<char> {
    key + seq!['='] + escaped_arg(value) + seq!['\n']
}

/// The quoted items of an array, one per indented line.
pub open spec fn array_items(values: Seq<Seq<char>>) -> Seq<char>
    decreases values.len(),
{
    if values.len() == 0 {
        Seq::empty()
    } else {
        array_items(values.drop_last()) + seq!['\n', ' ', ' '] + escaped_arg(values.last())
    }
}

/// One `key=(...)` array block.
pub open spec fn array_block(key: Seq<char>, values: Seq<Seq<char>>) -> Seq<char> {
    key + seq!['='] + seq!['('] + array_items(values) + seq![')'] + seq!['\n']
}

/// The array blocks of an architecture-split list, the architecture
/// appended to the key with an underscore where one is set.
pub open spec fn arrays_block(key: Seq<char>, avs: Seq<ArchVecView>) -> Seq<char>
    decreases avs.len(),
{
    if avs.len() == 0 {
        Seq::empty()
    } else {
        arrays_block(key, avs.drop_last()) + (match avs.last().arch {
            Option::None => array_block(key, avs.last().vec),
            Option::Some(a) => array_block(key + seq!['_'] + a, avs.last().vec),
        })
    }
}

/// The whole synthesized build script for a recipe: placeholder name and
/// version, the architecture list, and every source and checksum array.
pub open spec fn pkgbuild_of(s: Srcinfo) -> Seq<char> {
    field_line("pkgname"@, "tmp"@) + field_line("pkgver"@, "1"@) + field_line("pkgrel"@, "1"@)
        + array_block("arch"@, text::str_views(s.arch@)) + arrays_block(
        "source"@,
        av_views(s.source@),
    ) + arrays_block("md5sums"@, av_views(s.md5sums@)) + arrays_block(
        "sha1sums"@,
        av_views(s.sha1sums@),
    ) + arrays_block("sha224sums"@, av_views(s.sha224sums@)) + arrays_block(
        "sha256sums"@,
        av_views(s.sha256sums@),
    ) + arrays_block("sha384sums"@, av_views(s.sha384sums@)) + arrays_block(
        "sha512sums"@,
        av_views(s.sha512sums@),
    )
}

/// Escapes a value for single quotes: each quote becomes `'\''`.
pub fn escape_value(value: &str) -> (r: String)
    ensures
        r@ == escaped_body(value@),
{
    let chars = text::chars_of(value);
    let mut out: Vec<char> = Vec::new();
    push_escaped_body(&mut out, &chars);
    text::string_of(&out)
}

/// Appends one `key='value'` line.
pub fn push_field(pkgbuild: &mut String, key: &str, value: &str)
    ensures
        final(pkgbuild)@ == old(pkgbuild)@ + field_line(key@, value@),
{
    let mut line: Vec<char> = Vec::new();
    text::push_str_chars(&mut line, key);
    line.push('=');
    line.push('\'');
    push_escaped_body(&mut line, &text::chars_of(value));
    line.push('\'');
    line.push('\n');
    proof {
        assert(line@ =~= field_line(key@, value@));
    }
    let line_str = text::string_of(&line);
    pkgbuild.append(line_str.as_str());
}

/// Appends one `key=(...)` array block.
pub fn push_array(pkgbuild: &mut String, key: &str, values: &Vec<String>)
    ensures
        final(pkgbuild)@ == old(pkgbuild)@ + array_block(key@, text::str_views(values@)),
{
    let mut block: Vec<char> = Vec::new();
    text::push_str_chars(&mut block, key);
    block.push('=');
    block.push('(');
    let ghost head = block@;
    let n = values.len();
    let mut i: usize = 0;
    proof {
        assert(text::str_views(values@).subrange(0, 0) =~= Seq::<Seq<char>>::empty());
        assert(block@ =~= head + array_items(text::str_views(values@).subrange(0, 0)));
    }
    while i < n
        invariant
            i <= n,
            n == values@.len(),
            block@ == head + array_items(text::str_views(values@).subrange(0, i as int)),
        decreases n - i,
    {
        block.push('\n');
        block.push(' ');
        block.push(' ');
        block.push('\'');
        push_escaped_body(&mut block, &text::chars_of(values[i].as_str()));
        block.push('\'');
        proof {
            assert(text::str_views(values@).subrange(0, i + 1).drop_last() =~= text::str_views(
                values@,
            ).subrange(0, i as int));
            assert(text::str_views(values@).subrange(0, i + 1).last() == values@[i as int]@);
            assert(block@ =~= head + array_items(text::str_views(values@).subrange(0, i + 1)));
        }
        i = i + 1;
    }
    block.push(')');
    block.push('\n');
    proof {
        assert(text::str_views(values@).subrange(0, n as int) =~= text::str_views(values@));
        assert(block@ =~= array_block(key@, text::str_views(values@)));
    }
    let block_str = text::string_of(&block);
    pkgbuild.append(block_str.as_str());
}

/// Appends the array blocks of an architecture-split list.
pub fn push_arrays(pkgbuild: &mut String, key: &str, arch_values: &Vec<ArchVec>)
    ensures
        final(pkgbuild)@ == old(pkgbuild)@ + arrays_block(key@, av_views(arch_values@)),
{
    let n = arch_values.len();
    let mut i: usize = 0;
    proof {
        assert(av_views(arch_values@).subrange(0, 0) =~= Seq::<ArchVecView>::empty());
        assert(pkgbuild@ =~= old(pkgbuild)@ + arrays_block(
            key@,
            av_views(arch_values@).subrange(0, 0),
        ));
    }
    while i < n
        invariant
            i <= n,
            n == arch_values@.len(),
            pkgbuild@ == old(pkgbuild)@ + arrays_block(
                key@,
                av_views(arch_values@).subrange(0, i as int),
            ),
        decreases n - i,
    {
        proof {
            assert(av_views(arch_values@).subrange(0, i + 1).drop_last() =~= av_views(
                arch_values@,
            ).subrange(0, i as int));
            assert(av_views(arch_values@).subrange(0, i + 1).last() == av_views(
                arch_values@,
            )[i as int]);
        }
        match &arch_values[i].arch {
            Option::Some(a) => {
                let mut full_key: Vec<char> = Vec::new();
                text::push_str_chars(&mut full_key, key);
                full_key.push('_');
                text::push_str_chars(&mut full_key, a.as_str());
                proof {
                    assert(full_key@ =~= key@ + seq!['_'] + a@);
                }
                let full_key_str = text::string_of(&full_key);
                push_array(pkgbuild, full_key_str.as_str(), &arch_values[i].vec);
            },
            Option::None => {
                push_array(pkgbuild, key, &arch_values[i].vec);
            },
        }
        proof {
            assert(pkgbuild@ =~= old(pkgbuild)@ + arrays_block(
                key@,
                av_views(arch_values@).subrange(0, i + 1),
            ));
        }
        i = i + 1;
    }
    proof {
        assert(av_views(arch_values@).subrange(0, n as int) =~= av_views(arch_values@));
    }
}

/// Synthesizes the minimal build script whose source-fetch phase matches
/// the recipe's: placeholder identity fields, the architecture list, and
/// every source and checksum array verbatim.
pub fn static_pkgbuild(src: &Srcinfo) -> (r: String)
    ensures
        r@ == pkgbuild_of(*src),
{
    let mut pkgbuild = String::new();
    push_field(&mut pkgbuild, "pkgname", "tmp");
    push_field(&mut pkgbuild, "pkgver", "1");
    push_field(&mut pkgbuild, "pkgrel", "1");
    push_array(&mut pkgbuild, "arch", &src.arch);
    push_arrays(&mut pkgbuild, "source", &src.source);
    push_arrays(&mut pkgbuild, "md5sums", &src.md5sums);
    push_arrays(&mut pkgbuild, "sha1sums", &src.sha1sums);
    push_arrays(&mut pkgbuild, "sha224sums", &src.sha224sums);
    push_arrays(&mut pkgbuild, "sha256sums", &src.sha256sums);
    push_arrays(&mut pkgbuild, "sha384sums", &src.sha384sums);
    push_arrays(&mut pkgbuild, "sha512sums", &src.sha512sums);
    proof {
        assert(pkgbuild@ =~= pkgbuild_of(*src));
    }
    pkgbuild
}

} // verus!
