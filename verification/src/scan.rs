//! Listing one directory level for the tree.
//!
//! Only folders and `.md` / `.markdown` files are shown; hidden, system and
//! reparse-point entries, names that could not be opened again by their path,
//! and noise folders (version control, dependencies, build output, tool
//! folders) are left out. Folders come first, then files, each in natural
//! order. Reading the directory happens outside the library and hands the
//! entries here.

use vstd::prelude::*;
use crate::file_kind::{is_markdown, is_markdown_path};
use crate::ipc::types::{FileNode, FileNodeKind, ScanResult};
use crate::natural_order::{Order, flip, natural_rank, natural_rank_is_antisymmetric, natural_rank_of};
use crate::path_guard::{is_valid_name, valid_segment};
use crate::text::{ascii_lower, chars_of, string_of};

verus! {

/// Hidden attribute.
pub const FILE_ATTRIBUTE_HIDDEN: u32 = 0x2;

/// System attribute.
pub const FILE_ATTRIBUTE_SYSTEM: u32 = 0x4;

/// Reparse point: symbolic links and junctions.
pub const FILE_ATTRIBUTE_REPARSE_POINT: u32 = 0x400;

/// The attributes that leave an entry out of the tree.
pub const EXCLUDED_ATTRIBUTES: u32 = 0x406;

/// Folder names left out of the tree, compared ignoring ASCII case.
pub open spec fn excluded_names() -> Seq<Seq<char>> {
    seq![
        ".git"@, ".hg"@, ".svn"@, "node_modules"@, ".venv"@, "venv"@, "vendor"@, "target"@, "dist"@, "build"@,
        "out"@, "bin"@, "obj"@, ".next"@, ".turbo"@, "__pycache__"@, ".mypy_cache"@, ".pytest_cache"@, ".vs"@,
        ".idea"@, ".vscode"@,
    ]
}

/// The excluded folder names.
pub fn excluded_directory_names() -> (r: [&'static str; 21])
    ensures
        forall|k: int| 0 <= k < 21 ==> (#[trigger] r@[k])@ == excluded_names()[k],
{
    [
        ".git",
        ".hg",
        ".svn",
        "node_modules",
        ".venv",
        "venv",
        "vendor",
        "target",
        "dist",
        "build",
        "out",
        "bin",
        "obj",
        ".next",
        ".turbo",
        "__pycache__",
        ".mypy_cache",
        ".pytest_cache",
        ".vs",
        ".idea",
        ".vscode",
    ]
}

/// Equality ignoring ASCII case, as `str::eq_ignore_ascii_case` defines it.
pub open spec fn same_ignoring_ascii_case(a: Seq<char>, b: Seq<char>) -> bool {
    a.len() == b.len() && forall|k: int| 0 <= k < a.len() ==> ascii_lower(#[trigger] a[k]) == ascii_lower(b[k])
}

/// Whether a folder name is one of the excluded names.
pub open spec fn excluded_directory(name: Seq<char>) -> bool {
    exists|k: int| 0 <= k < 21 && same_ignoring_ascii_case(#[trigger] excluded_names()[k], name)
}

fn same_ignoring_case(a: &Vec<char>, b: &Vec<char>) -> (r: bool)
    ensures
        r == same_ignoring_ascii_case(a@, b@),
{
    if a.len() != b.len() {
        return false;
    }
    let mut k: usize = 0;
    while k < a.len()
        invariant
            a.len() == b.len(),
            k <= a.len(),
            forall|m: int| 0 <= m < k ==> ascii_lower(#[trigger] a@[m]) == ascii_lower(b@[m]),
        decreases a.len() - k,
    {
        if crate::text::ascii_lower_char(a[k]) != crate::text::ascii_lower_char(b[k]) {
            return false;
        }
        k = k + 1;
    }
    true
}

/// Whether a folder name is excluded from the tree.
pub fn is_excluded_directory(name: &str) -> (r: bool)
    ensures
        r == excluded_directory(name@),
{
    let wanted = chars_of(name);
    let names = excluded_directory_names();
    let mut k: usize = 0;
    while k < 21
        invariant
            k <= 21,
            wanted@ == name@,
            forall|j: int| 0 <= j < 21 ==> (#[trigger] names@[j])@ == excluded_names()[j],
            forall|j: int| 0 <= j < k ==> !same_ignoring_ascii_case(#[trigger] excluded_names()[j], name@),
        decreases 21 - k,
    {
        let candidate = chars_of(names[k]);
        assert(candidate@ == excluded_names()[k as int]);
        if same_ignoring_case(&candidate, &wanted) {
            return true;
        }
        k = k + 1;
    }
    false
}

/// The sort rank of a kind: folders first.
pub open spec fn kind_rank(kind: FileNodeKind) -> u8 {
    match kind {
        FileNodeKind::Directory => 0,
        FileNodeKind::Markdown => 1,
    }
}

/// The sort rank of a kind: folders first.
pub fn kind_order(kind: FileNodeKind) -> (r: u8)
    ensures
        r == kind_rank(kind),
{
    match kind {
        FileNodeKind::Directory => 0,
        FileNodeKind::Markdown => 1,
    }
}

/// What the listing says of one entry's metadata.
#[derive(Debug, Clone, Copy, PartialEq, Eq, Structural)]
pub struct EntryMetadata {
    pub attributes: u32,
    pub is_dir: bool,
}

/// One entry of a directory listing.
#[derive(Debug, Clone, PartialEq, Eq)]
pub struct ListedEntry {
    /// The name, or `None` when it is not valid Unicode.
    pub name: Option<String>,
    /// The metadata, or `None` when it could not be read.
    pub metadata: Option<EntryMetadata>,
    /// For a folder: whether it has a child the tree would show (or could
    /// not be read, so that expanding it reports the failure).
    pub has_visible_child: bool,
}

/// The kind under which an entry is shown, or `None` when it is left out.
pub open spec fn visible_kind(e: ListedEntry) -> Option<FileNodeKind> {
    match (e.metadata, e.name) {
        (Some(m), Some(n)) => if m.attributes & EXCLUDED_ATTRIBUTES != 0 || !valid_segment(n@) {
            None
        } else if m.is_dir {
            if excluded_directory(n@) {
                None
            } else {
                Some(FileNodeKind::Directory)
            }
        } else if is_markdown(n@) {
            Some(FileNodeKind::Markdown)
        } else {
            None
        },
        _ => None,
    }
}

/// The kind under which an entry is shown, or `None` when it is left out.
pub fn entry_kind(entry: &ListedEntry) -> (r: Option<FileNodeKind>)
    ensures
        r == visible_kind(*entry),
{
    match (&entry.metadata, &entry.name) {
        (Some(m), Some(n)) => {
            if m.attributes & EXCLUDED_ATTRIBUTES != 0 || !is_valid_name(n.as_str()) {
                None
            } else if m.is_dir {
                if is_excluded_directory(n.as_str()) {
                    None
                } else {
                    Some(FileNodeKind::Directory)
                }
            } else if is_markdown_path(n.as_str()) {
                Some(FileNodeKind::Markdown)
            } else {
                None
            }
        },
        _ => None,
    }
}

/// Whether some entry is shown.
pub open spec fn any_visible(s: Seq<ListedEntry>) -> bool {
    exists|k: int| 0 <= k < s.len() && visible_kind(#[trigger] s[k]) is Some
}

/// Whether a folder has a child the tree would show. A folder that cannot
/// be read counts as having one, so that expanding it shows the failure
/// rather than an empty folder.
pub fn has_visible_child(listing: Option<&[ListedEntry]>) -> (r: bool)
    ensures
        r == match listing {
            None => true,
            Some(l) => any_visible(l@),
        },
{
    match listing {
        None => true,
        Some(entries) => {
            let mut k: usize = 0;
            while k < entries.len()
                invariant
                    k <= entries.len(),
                    listing == Some(entries),
                    forall|j: int| 0 <= j < k ==> visible_kind(#[trigger] entries@[j]) is None,
                decreases entries.len() - k,
            {
                if entry_kind(&entries[k]).is_some() {
                    assert(visible_kind(entries@[k as int]) is Some);
                    assert(any_visible(entries@));
                    return true;
                }
                k = k + 1;
            }
            false
        },
    }
}

/// The workspace-relative path of a child: the name alone under the root.
pub open spec fn joined(parent: Seq<char>, name: Seq<char>) -> Seq<char> {
    if parent.len() == 0 {
        name
    } else {
        parent.push('/') + name
    }
}

/// Joins a parent's workspace-relative path and a name.
pub fn join_relative(parent: &str, name: &str) -> (r: String)
    ensures
        r@ == joined(parent@, name@),
{
    let p = chars_of(parent);
    if p.len() == 0 {
        return name.to_owned();
    }
    let n = chars_of(name);
    let mut out = p;
    out.push('/');
    let ghost head = out@;
    let mut k: usize = 0;
    while k < n.len()
        invariant
            k <= n.len(),
            out@ == head + n@.take(k as int),
        decreases n.len() - k,
    {
        out.push(n[k]);
        assert(n@.take(k + 1) =~= n@.take(k as int).push(n@[k as int]));
        k = k + 1;
    }
    assert(n@.take(k as int) =~= n@);
    string_of(out.as_slice())
}

/// The tree element of an entry under `parent`, or `None` when it is left out.
pub open spec fn node_of(e: ListedEntry, parent: Seq<char>) -> Option<(Seq<char>, Seq<char>, FileNodeKind, Option<bool>)> {
    match visible_kind(e) {
        None => None,
        Some(kind) => {
            let n = e.name->0@;
            Some((joined(parent, n), n, kind, if kind == FileNodeKind::Directory { Some(e.has_visible_child) } else { None }))
        },
    }
}

/// The content of a tree element.
pub open spec fn node_view(n: FileNode) -> (Seq<char>, Seq<char>, FileNodeKind, Option<bool>) {
    (n.path@, n.name@, n.kind, n.has_children)
}

/// Makes the tree element of an entry under `parent`; `None` when it is left out.
pub fn to_node(entry: &ListedEntry, parent: &str) -> (r: Option<FileNode>)
    ensures
        match r {
            Some(n) => node_of(*entry, parent@) == Some(node_view(n)),
            None => node_of(*entry, parent@) is None,
        },
{
    match entry_kind(entry) {
        None => None,
        Some(kind) => {
            let name = match &entry.name {
                Some(n) => n.clone(),
                None => {
                    return None;
                },
            };
            let has_children = match kind {
                FileNodeKind::Directory => Some(entry.has_visible_child),
                FileNodeKind::Markdown => None,
            };
            Some(FileNode { path: join_relative(parent, name.as_str()), name, kind, has_children })
        },
    }
}

/// The tree order of two elements: folders first, then natural order of
/// the names.
#[verifier::opaque]
pub open spec fn node_order(a: FileNode, b: FileNode) -> Order {
    if kind_rank(a.kind) < kind_rank(b.kind) {
        Order::Less
    } else if kind_rank(b.kind) < kind_rank(a.kind) {
        Order::Greater
    } else {
        natural_rank(a.name@, b.name@)
    }
}

fn compare_nodes(a: &FileNode, b: &FileNode) -> (r: Order)
    ensures
        r == node_order(*a, *b),
{
    proof {
        reveal(node_order);
    }
    let ka = kind_order(a.kind);
    let kb = kind_order(b.kind);
    if ka < kb {
        Order::Less
    } else if kb < ka {
        Order::Greater
    } else {
        let x = chars_of(a.name.as_str());
        let y = chars_of(b.name.as_str());
        natural_rank_of(&x, &y)
    }
}

/// Whether consecutive elements are in tree order.
pub open spec fn in_tree_order(s: Seq<FileNode>) -> bool {
    forall|i: int| 0 <= i < s.len() - 1 ==> #[trigger] node_order(s[i], s[i + 1]) != Order::Greater
}

proof fn lemma_node_order_flip(a: FileNode, b: FileNode)
    ensures
        node_order(b, a) == flip(node_order(a, b)),
{
    reveal(node_order);
    natural_rank_is_antisymmetric(a.name@, b.name@);
}

/// Inserting an element after every element not above it, and before the
/// next one, keeps the sequence in tree order.
proof fn lemma_insert_in_order(s: Seq<FileNode>, j: int, node: FileNode)
    requires
        0 <= j <= s.len(),
        in_tree_order(s),
        forall|m: int| 0 <= m < j ==> node_order(node, #[trigger] s[m]) != Order::Less,
        j < s.len() ==> node_order(node, s[j]) == Order::Less,
    ensures
        in_tree_order(s.insert(j, node)),
{
    let t = s.insert(j, node);
    if j > 0 {
        lemma_node_order_flip(node, s[j - 1]);
    }
    assert forall|i: int| 0 <= i < t.len() - 1 implies #[trigger] node_order(t[i], t[i + 1]) != Order::Greater by {
        if i + 1 < j {
            assert(t[i] == s[i] && t[i + 1] == s[i + 1]);
            assert(node_order(s[i], s[i + 1]) != Order::Greater);
        } else if i + 1 == j {
            assert(t[i] == s[i] && t[i + 1] == node);
        } else if i == j {
            assert(t[i] == node && t[i + 1] == s[i]);
        } else {
            let k = i - 1;
            assert(t[i] == s[k] && t[i + 1] == s[k + 1]);
            assert(node_order(s[k], s[k + 1]) != Order::Greater);
        }
    }
}

/// In tree order no Markdown file comes before a folder: every element after
/// a Markdown file is a Markdown file.
pub proof fn folders_come_before_files(s: Seq<FileNode>)
    requires
        in_tree_order(s),
    ensures
        forall|i: int, j: int|
            0 <= i < j < s.len() && #[trigger] s[i].kind == FileNodeKind::Markdown ==> #[trigger] s[j].kind
                == FileNodeKind::Markdown,
    decreases s.len(),
{
    if s.len() > 1 {
        let prev = s.drop_last();
        assert(in_tree_order(prev)) by {
            assert forall|i: int| 0 <= i < prev.len() - 1 implies #[trigger] node_order(prev[i], prev[i + 1]) != Order::Greater by {
                assert(prev[i] == s[i] && prev[i + 1] == s[i + 1]);
                assert(node_order(s[i], s[i + 1]) != Order::Greater);
            }
        }
        folders_come_before_files(prev);
        let n = s.len() - 1;
        let k = n - 1;
        assert(node_order(s[k], s[k + 1]) != Order::Greater);
        assert(k + 1 == n);
        reveal(node_order);
        assert forall|i: int, j: int|
            0 <= i < j < s.len() && #[trigger] s[i].kind == FileNodeKind::Markdown implies #[trigger] s[j].kind
                == FileNodeKind::Markdown by {
            if j < n {
                assert(prev[i] == s[i] && prev[j] == s[j]);
            } else if i < n - 1 {
                assert(prev[i] == s[i] && prev[n - 1] == s[n - 1]);
            }
        }
    }
}

/// Sorts elements into tree order, keeping the order of equal ones.
fn sort_nodes(nodes: Vec<FileNode>) -> (r: Vec<FileNode>)
    ensures
        r@.to_multiset() == nodes@.to_multiset(),
        in_tree_order(r@),
{
    let mut sorted: Vec<FileNode> = Vec::new();
    let mut rest = nodes;
    let total = rest.len();
    let ghost all = rest@;
    assert(all.take(0) =~= Seq::<FileNode>::empty());
    assert(all.skip(0) =~= all);
    assert(sorted@ =~= Seq::<FileNode>::empty());
    let mut taken: usize = 0;
    while rest.len() > 0
        invariant
            taken + rest@.len() == all.len(),
            all.len() <= usize::MAX,
            rest@ == all.skip(taken as int),
            sorted@.to_multiset() == all.take(taken as int).to_multiset(),
            in_tree_order(sorted@),
        decreases rest@.len(),
    {
        let node = rest.remove(0);
        proof {
            assert(all.take(taken + 1) =~= all.take(taken as int).push(node));
            assert(rest@ =~= all.skip(taken + 1));
            vstd::seq_lib::to_multiset_build(all.take(taken as int), node);
        }
        let mut j: usize = 0;
        while j < sorted.len() && compare_nodes(&node, &sorted[j]) != Order::Less
            invariant
                j <= sorted.len(),
                forall|m: int| 0 <= m < j ==> node_order(node, #[trigger] sorted@[m]) != Order::Less,
            decreases sorted.len() - j,
        {
            j = j + 1;
        }
        let ghost s = sorted@;
        proof {
            lemma_insert_in_order(s, j as int, node);
            vstd::seq_lib::to_multiset_insert(s, j as int, node);
        }
        sorted.insert(j, node);
        taken = taken + 1;
    }
    assert(all.take(taken as int) =~= all);
    sorted
}

/// The tree elements of a listing under `parent`, in listing order.
pub open spec fn listed_nodes(listing: Seq<ListedEntry>, parent: Seq<char>) -> Seq<(Seq<char>, Seq<char>, FileNodeKind, Option<bool>)>
    decreases listing.len(),
{
    if listing.len() == 0 {
        Seq::empty()
    } else {
        match node_of(listing.last(), parent) {
            Some(n) => listed_nodes(listing.drop_last(), parent).push(n),
            None => listed_nodes(listing.drop_last(), parent),
        }
    }
}

/// Lists one directory level from its entries: the shown elements, folders
/// first, each kind in natural order. `relative` is the directory's
/// workspace-relative path (empty for the root) and is returned as it is.
pub fn scan_result(relative: &str, listing: &[ListedEntry]) -> (r: ScanResult)
    ensures
        r.path@ == relative@,
        r.entries@.map_values(|n: FileNode| node_view(n)).to_multiset() == listed_nodes(listing@, relative@).to_multiset(),
        in_tree_order(r.entries@),
        forall|i: int, j: int|
            0 <= i < j < r.entries@.len() && #[trigger] r.entries@[i].kind == FileNodeKind::Markdown
                ==> #[trigger] r.entries@[j].kind == FileNodeKind::Markdown,
{
    let mut nodes: Vec<FileNode> = Vec::new();
    let mut k: usize = 0;
    while k < listing.len()
        invariant
            k <= listing.len(),
            nodes@.map_values(|n: FileNode| node_view(n)) == listed_nodes(listing@.take(k as int), relative@),
        decreases listing.len() - k,
    {
        assert(listing@.take(k + 1).drop_last() =~= listing@.take(k as int));
        assert(listing@.take(k + 1).last() == listing@[k as int]);
        match to_node(&listing[k], relative) {
            Some(node) => {
                let ghost before = nodes@.map_values(|n: FileNode| node_view(n));
                nodes.push(node);
                assert(nodes@.map_values(|n: FileNode| node_view(n)) =~= before.push(node_view(node)));
            },
            None => {},
        }
        k = k + 1;
    }
    assert(listing@.take(k as int) =~= listing@);
    let ghost unsorted = nodes@;
    let entries = sort_nodes(nodes);
    proof {
        lemma_map_multiset(entries@, unsorted);
        folders_come_before_files(entries@);
    }
    ScanResult { path: relative.to_owned(), entries }
}

/// Sequences with the same elements have images with the same elements.
proof fn lemma_map_multiset(a: Seq<FileNode>, b: Seq<FileNode>)
    requires
        a.to_multiset() == b.to_multiset(),
    ensures
        a.map_values(|n: FileNode| node_view(n)).to_multiset() == b.map_values(|n: FileNode| node_view(n)).to_multiset(),
    decreases a.len(),
{
    broadcast use vstd::seq_lib::group_to_multiset_ensures;

    if a.len() == 0 {
        assert(b.len() == 0) by {
            if b.len() > 0 {
                assert(b.to_multiset().count(b[0]) > 0);
            }
        }
        assert(a.map_values(|n: FileNode| node_view(n)) =~= Seq::empty());
        assert(b.map_values(|n: FileNode| node_view(n)) =~= Seq::empty());
    } else {
        let x = a.last();
        assert(b.to_multiset().count(x) > 0);
        let i = choose|i: int| 0 <= i < b.len() && b[i] == x;
        vstd::seq_lib::to_multiset_remove(b, i);
        assert(a.drop_last().push(x) =~= a);
        assert(a.drop_last().to_multiset() == b.remove(i).to_multiset()) by {
            assert(a.to_multiset() == a.drop_last().to_multiset().insert(x));
            assert(a.drop_last().to_multiset() =~= a.to_multiset().remove(x));
        }
        lemma_map_multiset(a.drop_last(), b.remove(i));
        let f = |n: FileNode| node_view(n);
        assert(a.map_values(f) =~= a.drop_last().map_values(f).push(node_view(x)));
        assert(b.remove(i).map_values(f) =~= b.map_values(f).remove(i));
        vstd::seq_lib::to_multiset_remove(b.map_values(f), i);
        assert(b.map_values(f).to_multiset() =~= b.map_values(f).remove(i).to_multiset().insert(node_view(x)));
    }
}

} // verus!
