//! Files to open from the command line (a file association passes the
//! documents' absolute paths as arguments).

use vstd::prelude::*;
use crate::file_kind::{is_markdown, is_markdown_path};
use crate::path_list::{distinct, list_contains, push_once, views};

verus! {

/// The Markdown paths among `args`, in order, each once.
pub open spec fn markdown_files(args: Seq<Seq<char>>) -> Seq<Seq<char>>
    decreases args.len(),
{
    if args.len() == 0 {
        Seq::empty()
    } else {
        let prev = markdown_files(args.drop_last());
        if is_markdown(args.last()) {
            push_once(prev, args.last())
        } else {
            prev
        }
    }
}

/// Picks the files to open from the arguments (without `argv[0]`): the
/// Markdown paths in the order given, each once. The caller opens them in
/// order and activates the last one. Paths are compared as text, so the
/// caller passes canonical paths.
pub fn files_to_open(args: &[String]) -> (r: Vec<String>)
    ensures
        views(r@) == markdown_files(views(args@)),
{
    let mut files: Vec<String> = Vec::new();
    let ghost a = views(args@);
    let mut k: usize = 0;
    while k < args.len()
        invariant
            k <= args.len(),
            a == views(args@),
            views(files@) == markdown_files(a.take(k as int)),
        decreases args.len() - k,
    {
        assert(a.take(k + 1).drop_last() =~= a.take(k as int));
        assert(a.take(k + 1).last() == args@[k as int]@);
        if is_markdown_path(args[k].as_str()) && !list_contains(&files, &args[k]) {
            let ghost before = views(files@);
            files.push(args[k].clone());
            assert(views(files@) =~= before.push(args@[k as int]@));
        }
        k = k + 1;
    }
    assert(a.take(k as int) =~= a);
    files
}

/// Every Markdown argument is opened, exactly once, and nothing else is:
/// the files to open are distinct Markdown paths taken from the arguments,
/// and each Markdown argument is among them.
pub proof fn files_to_open_are_the_distinct_markdown_arguments(args: Seq<Seq<char>>)
    ensures
        distinct(markdown_files(args)),
        forall|k: int| 0 <= k < markdown_files(args).len() ==> is_markdown(#[trigger] markdown_files(args)[k]) && args.contains(
            markdown_files(args)[k],
        ),
        forall|j: int| 0 <= j < args.len() && is_markdown(#[trigger] args[j]) ==> markdown_files(args).contains(args[j]),
    decreases args.len(),
{
    if args.len() > 0 {
        let prev_args = args.drop_last();
        files_to_open_are_the_distinct_markdown_arguments(prev_args);
        let prev = markdown_files(prev_args);
        let last = args.last();
        let cur = markdown_files(args);
        assert(args[args.len() - 1] == last);
        assert forall|x: Seq<char>| prev_args.contains(x) implies args.contains(x) by {
            let m = choose|m: int| 0 <= m < prev_args.len() && prev_args[m] == x;
            assert(args[m] == x);
        }
        if is_markdown(last) {
            crate::path_list::lemma_push_once_all(prev, last);
        }
        assert forall|k: int| 0 <= k < cur.len() implies is_markdown(#[trigger] cur[k]) && args.contains(cur[k]) by {
            assert(cur.contains(cur[k]));
            if is_markdown(last) {
                assert(prev.contains(cur[k]) || cur[k] == last);
                if prev.contains(cur[k]) {
                    let m = choose|m: int| 0 <= m < prev.len() && prev[m] == cur[k];
                    assert(is_markdown(prev[m]) && prev_args.contains(prev[m]));
                }
            } else {
                assert(prev[k] == cur[k]);
            }
        }
        assert forall|j: int| 0 <= j < args.len() && is_markdown(#[trigger] args[j]) implies cur.contains(args[j]) by {
            if j < args.len() - 1 {
                assert(prev_args[j] == args[j]);
                assert(prev.contains(args[j]));
                if is_markdown(last) {
                    assert(cur.contains(args[j]));
                }
            }
        }
    }
}

} // verus!
