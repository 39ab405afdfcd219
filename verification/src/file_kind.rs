//! Which files the tree and the file association open.
//!
//! A file is a target when the last component of its path ends with `.md` or
//! `.markdown`, compared without regard to ASCII case. A name made of the
//! extension alone (`.md`) is a target too; directory names are never looked at.

use vstd::prelude::*;
use crate::text::{ascii_lower, ascii_lower_char, ascii_lower_seq, chars_of};

verus! {

/// Whether `c` separates path components (`/` or `\`).
pub open spec fn is_separator(c: char) -> bool {
    c == '/' || c == '\\'
}

/// Index of the last separator in `p`, or -1 when there is none.
pub open spec fn last_separator(p: Seq<char>) -> int
    decreases p.len(),
{
    if p.len() == 0 {
        -1
    } else if is_separator(p.last()) {
        p.len() - 1
    } else {
        last_separator(p.drop_last())
    }
}

pub proof fn lemma_last_separator_bounds(p: Seq<char>)
    ensures
        -1 <= last_separator(p) < p.len(),
        last_separator(p) >= 0 ==> is_separator(p[last_separator(p)]),
        forall|k: int| last_separator(p) < k < p.len() ==> !is_separator(#[trigger] p[k]),
    decreases p.len(),
{
    if p.len() > 0 && !is_separator(p.last()) {
        let q = p.drop_last();
        lemma_last_separator_bounds(q);
        assert forall|k: int| last_separator(p) < k < p.len() implies !is_separator(#[trigger] p[k]) by {
            if k < q.len() {
                assert(p[k] == q[k]);
            }
        }
    }
}

/// Characterises `last_separator` by a position `j` that starts the final run
/// of non-separator characters.
pub proof fn lemma_last_separator_at(p: Seq<char>, j: int)
    requires
        0 <= j <= p.len(),
        forall|k: int| j <= k < p.len() ==> !is_separator(#[trigger] p[k]),
        j == 0 || is_separator(p[j - 1]),
    ensures
        last_separator(p) == j - 1,
    decreases p.len(),
{
    if p.len() > j {
        assert(!is_separator(p[p.len() - 1]));
        lemma_last_separator_at(p.drop_last(), j);
    }
}

/// The final name of a path: the last component that is neither empty nor
/// `.`; empty when there is none or when the path ends in `..`.
pub open spec fn file_name(p: Seq<char>) -> Seq<char>
    decreases p.len(),
{
    let i = last_separator(p);
    let segment = p.subrange(i + 1, p.len() as int);
    if segment.len() == 0 || segment =~= seq!['.'] {
        if i < 0 {
            Seq::empty()
        } else {
            proof {
                lemma_last_separator_bounds(p);
            }
            file_name(p.subrange(0, i))
        }
    } else if segment =~= seq!['.', '.'] {
        Seq::empty()
    } else {
        segment
    }
}

/// `name` ends with `.` followed by `extension`, with at least one character
/// for the dot.
pub open spec fn has_extension(name: Seq<char>, extension: Seq<char>) -> bool {
    &&& name.len() > extension.len()
    &&& name.subrange(name.len() - extension.len(), name.len() as int) =~= extension
    &&& name[name.len() - extension.len() - 1] == '.'
}

/// The Markdown extensions, in lower case.
pub open spec fn md_extension() -> Seq<char> {
    seq!['m', 'd']
}

pub open spec fn markdown_extension() -> Seq<char> {
    seq!['m', 'a', 'r', 'k', 'd', 'o', 'w', 'n']
}

/// Whether a path names a Markdown target.
pub open spec fn is_markdown(path: Seq<char>) -> bool {
    let name = ascii_lower_seq(file_name(path));
    has_extension(name, md_extension()) || has_extension(name, markdown_extension())
}

/// Returns the bounds of the final name of `chars`, as `file_name` defines it.
fn file_name_range(chars: &Vec<char>) -> (r: (usize, usize))
    ensures
        r.0 <= r.1 <= chars.len(),
        chars@.subrange(r.0 as int, r.1 as int) =~= file_name(chars@),
{
    let mut end: usize = chars.len();
    assert(chars@.subrange(0, end as int) =~= chars@);
    loop
        invariant
            end <= chars.len(),
            file_name(chars@.subrange(0, end as int)) == file_name(chars@),
        decreases end,
    {
        let ghost p = chars@.subrange(0, end as int);
        let mut start: usize = end;
        while start > 0 && !(chars[start - 1] == '/' || chars[start - 1] == '\\')
            invariant
                start <= end <= chars.len(),
                p == chars@.subrange(0, end as int),
                forall|k: int| start <= k < end ==> !is_separator(#[trigger] chars@[k]),
            decreases start,
        {
            start = start - 1;
        }
        proof {
            assert forall|k: int| start <= k < p.len() implies !is_separator(#[trigger] p[k]) by {
                assert(p[k] == chars@[k]);
            }
            if start > 0 {
                assert(p[start - 1] == chars@[start - 1]);
            }
            lemma_last_separator_at(p, start as int);
        }
        let ghost segment = p.subrange(start as int, end as int);
        let len = end - start;
        if len == 0 || (len == 1 && chars[start] == '.') {
            if len == 1 {
                assert(segment =~= seq!['.']);
            }
            if start == 0 {
                assert(file_name(p) =~= Seq::<char>::empty());
                assert(chars@.subrange(0, 0) =~= Seq::<char>::empty());
                return (0, 0);
            }
            let ghost q = p.subrange(0, start - 1);
            assert(q =~= chars@.subrange(0, start - 1));
            end = start - 1;
        } else if len == 2 && chars[start] == '.' && chars[start + 1] == '.' {
            assert(segment =~= seq!['.', '.']);
            assert(chars@.subrange(0, 0) =~= Seq::<char>::empty());
            return (0, 0);
        } else {
            proof {
                if segment =~= seq!['.'] {
                    assert(segment[0] == chars@[start as int]);
                }
                if segment =~= seq!['.', '.'] {
                    assert(segment[0] == chars@[start as int]);
                    assert(segment[1] == chars@[start + 1]);
                }
            }
            assert(chars@.subrange(start as int, end as int) =~= segment);
            return (start, end);
        }
    }
}

/// Whether `chars[start..end]`, lower-cased, ends with `.` and `extension`.
fn name_has_extension(chars: &Vec<char>, start: usize, end: usize, extension: &[char]) -> (r: bool)
    requires
        start <= end <= chars.len(),
    ensures
        r == has_extension(ascii_lower_seq(chars@.subrange(start as int, end as int)), extension@),
{
    let ghost name = ascii_lower_seq(chars@.subrange(start as int, end as int));
    let len = end - start;
    if len <= extension.len() {
        return false;
    }
    let base = end - extension.len();
    let mut i: usize = 0;
    while i < extension.len()
        invariant
            i <= extension.len(),
            start <= end <= chars.len(),
            end - start > extension.len(),
            base == end - extension.len(),
            name.len() == end - start,
            start < base,
            name == ascii_lower_seq(chars@.subrange(start as int, end as int)),
            forall|k: int| 0 <= k < i ==> name[name.len() - extension.len() + k] == extension@[k],
        decreases extension.len() - i,
    {
        if ascii_lower_char(chars[base + i]) != extension[i] {
            assert(name[name.len() - extension.len() + i] == ascii_lower(chars@[base + i]));
            assert(name.subrange(name.len() - extension.len(), name.len() as int)[i as int]
                != extension@[i as int]);
            return false;
        }
        i = i + 1;
    }
    assert(name.subrange(name.len() - extension.len(), name.len() as int) =~= extension@);
    let dot = ascii_lower_char(chars[base - 1]);
    assert(name[name.len() - extension.len() - 1] == ascii_lower(chars@[base - 1]));
    dot == '.'
}

/// Whether `path` names a Markdown target (`.md` or `.markdown`, ASCII case
/// ignored, only the final name considered).
pub fn is_markdown_path(path: &str) -> (r: bool)
    ensures
        r == is_markdown(path@),
{
    let chars = chars_of(path);
    let (start, end) = file_name_range(&chars);
    let md: [char; 2] = ['m', 'd'];
    let markdown: [char; 8] = ['m', 'a', 'r', 'k', 'd', 'o', 'w', 'n'];
    assert(md@ =~= md_extension());
    assert(markdown@ =~= markdown_extension());
    name_has_extension(&chars, start, end, &md) || name_has_extension(&chars, start, end, &markdown)
}

} // verus!
