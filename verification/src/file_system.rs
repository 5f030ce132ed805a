//! In-memory hierarchical file store: a tree of named files and directories
//! with path-based lookup, rooted at a single directory.

use crate::text::{
    collapsed, concat3, concat5, lemma_path_segments_wf, lemma_split_of_join, path_segments,
    split_path, str_eq,
};
use vstd::prelude::*;

verus! {

/// One node of the file tree: a file with text content, or a directory with
/// an ordered (insertion-order) sequence of child nodes.
pub enum FSNode {
    File { name: String, content: String },
    Directory { name: String, children: Vec<FSNode> },
}

/// Mathematical model of a node: the same tree, over `Seq<char>` names and
/// contents.
pub enum Entry {
    File { name: Seq<char>, content: Seq<char> },
    Dir { name: Seq<char>, entries: Seq<Entry> },
}

pub open spec fn node_view(n: FSNode) -> Entry
    decreases n,
{
    match n {
        FSNode::File { name, content } => Entry::File { name: name@, content: content@ },
        FSNode::Directory { name, children } => Entry::Dir {
            name: name@,
            entries: nodes_view(children@),
        },
    }
}

pub open spec fn nodes_view(s: Seq<FSNode>) -> Seq<Entry>
    decreases s,
{
    if s.len() == 0 {
        Seq::empty()
    } else {
        seq![node_view(s[0])] + nodes_view(s.subrange(1, s.len() as int))
    }
}

pub broadcast proof fn lemma_nodes_view_len(s: Seq<FSNode>)
    ensures
        #[trigger] nodes_view(s).len() == s.len(),
    decreases s.len(),
{
    if s.len() > 0 {
        lemma_nodes_view_len(s.subrange(1, s.len() as int));
    }
}

pub broadcast proof fn lemma_nodes_view_index(s: Seq<FSNode>, i: int)
    requires
        0 <= i < s.len(),
    ensures
        nodes_view(s).len() == s.len(),
        #[trigger] nodes_view(s)[i] == node_view(s[i]),
    decreases s.len(),
{
    lemma_nodes_view_len(s);
    if i > 0 {
        lemma_nodes_view_index(s.subrange(1, s.len() as int), i - 1);
    }
}

impl View for FSNode {
    type V = Entry;

    open spec fn view(&self) -> Entry {
        node_view(*self)
    }
}

/// The name of a node, whichever variant it is.
pub open spec fn entry_name(e: Entry) -> Seq<char> {
    match e {
        Entry::File { name, .. } => name,
        Entry::Dir { name, .. } => name,
    }
}

/// The children of a directory; a file has none.
pub open spec fn entries_of(e: Entry) -> Seq<Entry> {
    match e {
        Entry::Dir { entries, .. } => entries,
        Entry::File { .. } => Seq::empty(),
    }
}

/// The content of a file; a directory has none.
pub open spec fn content_of(e: Entry) -> Seq<char> {
    match e {
        Entry::File { content, .. } => content,
        Entry::Dir { .. } => Seq::empty(),
    }
}

/// The same node carrying a new name.
pub open spec fn with_name(e: Entry, name: Seq<char>) -> Entry {
    match e {
        Entry::File { content, .. } => Entry::File { name, content },
        Entry::Dir { entries, .. } => Entry::Dir { name, entries },
    }
}

/// Selects any node with the given name.
pub open spec fn named_any(name: Seq<char>) -> spec_fn(Entry) -> bool {
    |e: Entry| entry_name(e) == name
}

/// Selects a directory with the given name.
pub open spec fn named_dir(name: Seq<char>) -> spec_fn(Entry) -> bool {
    |e: Entry| e is Dir && entry_name(e) == name
}

/// Selects a file with the given name.
pub open spec fn named_file(name: Seq<char>) -> spec_fn(Entry) -> bool {
    |e: Entry| e is File && entry_name(e) == name
}

/// The index of the first node satisfying `p`, or `es.len()` if none does.
pub open spec fn first_match(es: Seq<Entry>, p: spec_fn(Entry) -> bool) -> int
    decreases es.len(),
{
    if es.len() == 0 {
        0
    } else if p(es[0]) {
        0
    } else {
        1 + first_match(es.subrange(1, es.len() as int), p)
    }
}

/// Whether some node satisfies `p`.
pub open spec fn has_match(es: Seq<Entry>, p: spec_fn(Entry) -> bool) -> bool {
    exists|i: int| 0 <= i < es.len() && p(#[trigger] es[i])
}

pub proof fn lemma_first_match(es: Seq<Entry>, p: spec_fn(Entry) -> bool)
    ensures
        0 <= first_match(es, p) <= es.len(),
        has_match(es, p) <==> first_match(es, p) < es.len(),
        first_match(es, p) < es.len() ==> p(es[first_match(es, p)]),
        forall|j: int| 0 <= j < first_match(es, p) ==> !p(#[trigger] es[j]),
    decreases es.len(),
{
    if es.len() > 0 && !p(es[0]) {
        let tail = es.subrange(1, es.len() as int);
        lemma_first_match(tail, p);
        assert forall|j: int| 0 <= j < first_match(es, p) implies !p(#[trigger] es[j]) by {
            if j > 0 {
                assert(es[j] == tail[j - 1]);
            }
        }
        if has_match(es, p) {
            let w = choose|i: int| 0 <= i < es.len() && p(#[trigger] es[i]);
            assert(tail[w - 1] == es[w]);
            assert(has_match(tail, p));
        }
        if has_match(tail, p) {
            let w = choose|i: int| 0 <= i < tail.len() && p(#[trigger] tail[i]);
            assert(es[w + 1] == tail[w]);
            assert(has_match(es, p));
        }
    }
}

/// The outcome of resolving a path: the node reached, a missing directory, or
/// a traversal through a file (with the offending segment).
pub enum Resolved {
    Found(Entry),
    NotFound,
    NotDir(Seq<char>),
}

/// Path resolution: descend from `e` through directory children named by the
/// successive segments; the empty path resolves to `e` itself.
pub open spec fn resolve(e: Entry, segs: Seq<Seq<char>>) -> Resolved
    decreases segs.len(),
{
    if segs.len() == 0 {
        Resolved::Found(e)
    } else {
        match e {
            Entry::File { .. } => Resolved::NotDir(segs[0]),
            Entry::Dir { entries, .. } => {
                let i = first_match(entries, named_dir(segs[0]));
                if i < entries.len() {
                    resolve(entries[i], segs.subrange(1, segs.len() as int))
                } else {
                    Resolved::NotFound
                }
            },
        }
    }
}

/// Within one directory, names are unique per variant kind: two distinct
/// children may share a name only if one is a file and the other a directory.
pub open spec fn names_unique(es: Seq<Entry>) -> bool {
    forall|i: int, j: int|
        #![trigger es[i], es[j]]
        0 <= i < j < es.len() ==> !(entry_name(es[i]) == entry_name(es[j]) && ((es[i] is Dir)
            <==> (es[j] is Dir)))
}

/// Well-formedness of a node: every directory in the tree has per-kind unique
/// child names.
pub open spec fn entry_wf(e: Entry) -> bool
    decreases e,
{
    match e {
        Entry::File { .. } => true,
        Entry::Dir { entries, .. } => names_unique(entries) && entries_wf(entries),
    }
}

pub open spec fn entries_wf(es: Seq<Entry>) -> bool
    decreases es,
{
    if es.len() == 0 {
        true
    } else {
        entry_wf(es[0]) && entries_wf(es.subrange(1, es.len() as int))
    }
}

pub proof fn lemma_entries_wf_iff(es: Seq<Entry>)
    ensures
        entries_wf(es) <==> (forall|i: int| 0 <= i < es.len() ==> entry_wf(#[trigger] es[i])),
    decreases es.len(),
{
    if es.len() > 0 {
        let tail = es.subrange(1, es.len() as int);
        lemma_entries_wf_iff(tail);
        assert(forall|i: int| 0 <= i < tail.len() ==> tail[i] == es[i + 1]);
        if entry_wf(es[0]) && (forall|i: int| 0 <= i < tail.len() ==> entry_wf(#[trigger] tail[i])) {
            assert forall|i: int| 0 <= i < es.len() implies entry_wf(#[trigger] es[i]) by {
                if i > 0 {
                    assert(es[i] == tail[i - 1]);
                }
            }
        }
    }
}

/// The tree `e` with the entries of the directory at `segs` rewritten by `f`.
/// Meaningful only when `resolve(e, segs)` finds a directory.
pub open spec fn with_entries(
    e: Entry,
    segs: Seq<Seq<char>>,
    f: spec_fn(Seq<Entry>) -> Seq<Entry>,
) -> Entry
    decreases segs.len(),
{
    match e {
        Entry::File { .. } => e,
        Entry::Dir { name, entries } => {
            if segs.len() == 0 {
                Entry::Dir { name, entries: f(entries) }
            } else {
                let i = first_match(entries, named_dir(segs[0]));
                if i < entries.len() {
                    Entry::Dir {
                        name,
                        entries: entries.update(
                            i,
                            with_entries(entries[i], segs.subrange(1, segs.len() as int), f),
                        ),
                    }
                } else {
                    e
                }
            }
        },
    }
}

/// Appends a file child.
pub open spec fn add_file_op(name: Seq<char>, content: Seq<char>) -> spec_fn(Seq<Entry>) -> Seq<
    Entry,
> {
    |es: Seq<Entry>| es.push(Entry::File { name, content })
}

/// Appends an empty directory child.
pub open spec fn add_dir_op(name: Seq<char>) -> spec_fn(Seq<Entry>) -> Seq<Entry> {
    |es: Seq<Entry>| es.push(Entry::Dir { name, entries: Seq::empty() })
}

/// Renames the first child named `old_name`, if any.
pub open spec fn rename_op(old_name: Seq<char>, new_name: Seq<char>) -> spec_fn(Seq<Entry>) -> Seq<
    Entry,
> {
    |es: Seq<Entry>|
        {
            let i = first_match(es, named_any(old_name));
            if i < es.len() {
                es.update(i, with_name(es[i], new_name))
            } else {
                es
            }
        }
}

/// Removes the first child named `name`.
pub open spec fn remove_op(name: Seq<char>) -> spec_fn(Seq<Entry>) -> Seq<Entry> {
    |es: Seq<Entry>| es.remove(first_match(es, named_any(name)))
}

pub broadcast proof fn lemma_nodes_view_push(s: Seq<FSNode>, x: FSNode)
    ensures
        #[trigger] nodes_view(s.push(x)) == nodes_view(s).push(node_view(x)),
{
    lemma_nodes_view_len(s);
    lemma_nodes_view_len(s.push(x));
    assert forall|i: int| 0 <= i < s.push(x).len() implies nodes_view(s.push(x))[i] == nodes_view(
        s,
    ).push(node_view(x))[i] by {
        lemma_nodes_view_index(s.push(x), i);
        if i < s.len() {
            lemma_nodes_view_index(s, i);
            assert(s.push(x)[i] == s[i]);
        }
    }
    assert(nodes_view(s.push(x)) =~= nodes_view(s).push(node_view(x)));
}

pub broadcast proof fn lemma_nodes_view_update(s: Seq<FSNode>, i: int, x: FSNode)
    requires
        0 <= i < s.len(),
    ensures
        #[trigger] nodes_view(s.update(i, x)) == nodes_view(s).update(i, node_view(x)),
{
    lemma_nodes_view_len(s);
    lemma_nodes_view_len(s.update(i, x));
    assert forall|t: int| 0 <= t < s.update(i, x).len() implies nodes_view(s.update(i, x))[t]
        == nodes_view(s).update(i, node_view(x))[t] by {
        lemma_nodes_view_index(s.update(i, x), t);
        if t != i {
            lemma_nodes_view_index(s, t);
            assert(s.update(i, x)[t] == s[t]);
        }
    }
    assert(nodes_view(s.update(i, x)) =~= nodes_view(s).update(i, node_view(x)));
}

pub broadcast proof fn lemma_nodes_view_remove(s: Seq<FSNode>, i: int)
    requires
        0 <= i < s.len(),
    ensures
        #[trigger] nodes_view(s.remove(i)) == nodes_view(s).remove(i),
{
    lemma_nodes_view_len(s);
    lemma_nodes_view_len(s.remove(i));
    assert forall|t: int| 0 <= t < s.remove(i).len() implies nodes_view(s.remove(i))[t]
        == nodes_view(s).remove(i)[t] by {
        lemma_nodes_view_index(s.remove(i), t);
        if t < i {
            lemma_nodes_view_index(s, t);
        } else {
            lemma_nodes_view_index(s, t + 1);
        }
    }
    assert(nodes_view(s.remove(i)) =~= nodes_view(s).remove(i));
}

/// Which children an executable scan matches.
#[derive(Clone, Copy)]
enum NameKind {
    AnyKind,
    DirKind,
    FileKind,
}

spec fn kind_pred(k: NameKind, name: Seq<char>) -> spec_fn(Entry) -> bool {
    match k {
        NameKind::AnyKind => named_any(name),
        NameKind::DirKind => named_dir(name),
        NameKind::FileKind => named_file(name),
    }
}

/// Index of the first child matching `k`/`name`, or `children.len()` if none.
fn find_named(children: &Vec<FSNode>, name: &str, k: NameKind) -> (r: usize)
    ensures
        r <= children@.len(),
        r as int == first_match(nodes_view(children@), kind_pred(k, name@)),
{
    let ghost es = nodes_view(children@);
    let ghost p = kind_pred(k, name@);
    proof {
        lemma_first_match(es, p);
        lemma_nodes_view_len(children@);
    }
    let n = children.len();
    let mut j: usize = 0;
    while j < n
        invariant
            j <= n,
            n == children@.len(),
            es == nodes_view(children@),
            es.len() == n,
            p == kind_pred(k, name@),
            forall|t: int| 0 <= t < j ==> !p(#[trigger] es[t]),
        decreases n - j,
    {
        proof {
            lemma_nodes_view_index(children@, j as int);
        }
        let hit: bool = match &children[j] {
            FSNode::File { name: nm, .. } => {
                let kind_ok = match k {
                    NameKind::AnyKind => true,
                    NameKind::FileKind => true,
                    NameKind::DirKind => false,
                };
                kind_ok && str_eq(nm.as_str(), name)
            },
            FSNode::Directory { name: nm, .. } => {
                let kind_ok = match k {
                    NameKind::AnyKind => true,
                    NameKind::DirKind => true,
                    NameKind::FileKind => false,
                };
                kind_ok && str_eq(nm.as_str(), name)
            },
        };
        if hit {
            proof {
                assert(p(es[j as int]));
                lemma_first_match(es, p);
                assert(has_match(es, p));
            }
            return j;
        }
        proof {
            assert(!p(es[j as int]));
        }
        j += 1;
    }
    proof {
        lemma_first_match(es, p);
        if has_match(es, p) {
            let w = choose|i: int| 0 <= i < es.len() && p(#[trigger] es[i]);
            assert(!p(es[w]));
        }
    }
    n
}

/// How a mutating tree operation ended.
enum OpOutcome {
    Done,
    DupName,
    NoSuchDir,
    NoSuchNode,
    NotEmptyDir,
    FileInPath,
}

/// The path segments not yet consumed at `depth`.
spec fn rest_of(segs: Seq<Seq<char>>, depth: int) -> Seq<Seq<char>> {
    segs.subrange(depth, segs.len() as int)
}

/// Appends a new file or empty directory named `name` under the directory
/// reached by the segments from `depth` on, unless a same-kind sibling with
/// that name exists.
fn insert_child_at(
    node: &mut FSNode,
    segs: &Vec<String>,
    depth: usize,
    as_dir: bool,
    name: &str,
    content: &str,
) -> (r: OpOutcome)
    requires
        depth <= segs@.len(),
        old(node)@ is Dir,
        entry_wf(old(node)@),
    ensures
        entry_wf(final(node)@),
        entry_name(final(node)@) == entry_name(old(node)@),
        final(node)@ is Dir,
        ({
            let rest = rest_of(segs.deep_view(), depth as int);
            let child = if as_dir {
                Entry::Dir { name: name@, entries: Seq::empty() }
            } else {
                Entry::File { name: name@, content: content@ }
            };
            let dup = if as_dir {
                named_dir(name@)
            } else {
                named_file(name@)
            };
            let op = if as_dir {
                add_dir_op(name@)
            } else {
                add_file_op(name@, content@)
            };
            match resolve(old(node)@, rest) {
                Resolved::Found(d) => {
                    if has_match(entries_of(d), dup) {
                        r is DupName && final(node)@ == old(node)@
                    } else {
                        r is Done && final(node)@ == with_entries(old(node)@, rest, op)
                    }
                },
                Resolved::NotFound => r is NoSuchDir && final(node)@ == old(node)@,
                Resolved::NotDir(_) => r is FileInPath && final(node)@ == old(node)@,
            }
        }),
    decreases segs@.len() - depth,
{
    let ghost rest = rest_of(segs.deep_view(), depth as int);
    match node {
        FSNode::Directory { name: dir_name, children } => {
            let ghost prev = children@;
            let ghost es = nodes_view(prev);
            proof {
                lemma_nodes_view_len(prev);
            }
            if depth == segs.len() {
                proof {
                    assert(rest =~= Seq::<Seq<char>>::empty());
                }
                let dup_idx = if as_dir {
                    find_named(children, name, NameKind::DirKind)
                } else {
                    find_named(children, name, NameKind::FileKind)
                };
                let ghost dup = if as_dir {
                    named_dir(name@)
                } else {
                    named_file(name@)
                };
                proof {
                    lemma_first_match(es, dup);
                }
                if dup_idx < children.len() {
                    return OpOutcome::DupName;
                }
                let new_node = if as_dir {
                    FSNode::Directory { name: name.to_owned(), children: Vec::new() }
                } else {
                    FSNode::File { name: name.to_owned(), content: content.to_owned() }
                };
                let ghost child = node_view(new_node);
                proof {
                    if as_dir {
                        assert(nodes_view(Seq::<FSNode>::empty()) =~= Seq::<Entry>::empty());
                        assert(child == (Entry::Dir {
                            name: name@,
                            entries: Seq::<Entry>::empty(),
                        }));
                    }
                }
                children.push(new_node);
                proof {
                    lemma_nodes_view_push(prev, new_node);
                    assert(nodes_view(children@) == es.push(child));
                    // per-kind uniqueness is kept: no same-kind sibling had this name
                    assert forall|i: int, j: int|
                        #![trigger es.push(child)[i], es.push(child)[j]]
                        0 <= i < j < es.push(child).len() implies !(entry_name(es.push(child)[i])
                        == entry_name(es.push(child)[j]) && ((es.push(child)[i] is Dir) <==> (
                    es.push(child)[j] is Dir))) by {
                        if j == es.len() {
                            assert(!dup(es[i]));
                        } else {
                            assert(es.push(child)[i] == es[i] && es.push(child)[j] == es[j]);
                        }
                    }
                    lemma_entries_wf_iff(es);
                    lemma_entries_wf_iff(es.push(child));
                    assert(entry_wf(child)) by {
                        if as_dir {
                            assert(entries_wf(Seq::<Entry>::empty()));
                        }
                    }
                    assert forall|t: int| 0 <= t < es.push(child).len() implies entry_wf(
                        #[trigger] es.push(child)[t],
                    ) by {
                        if t < es.len() {
                            assert(es.push(child)[t] == es[t]);
                        }
                    }
                }
                OpOutcome::Done
            } else {
                let seg: &String = &segs[depth];
                let idx = find_named(children, seg.as_str(), NameKind::DirKind);
                let ghost p = named_dir(seg@);
                proof {
                    lemma_first_match(es, p);
                    assert(segs.deep_view()[depth as int] == seg@);
                    assert(rest[0] == seg@);
                }
                if idx == children.len() {
                    return OpOutcome::NoSuchDir;
                }
                proof {
                    lemma_nodes_view_index(prev, idx as int);
                    lemma_entries_wf_iff(es);
                    assert(p(es[idx as int]));
                    assert(entry_wf(es[idx as int]));
                }
                let ghost child0 = es[idx as int];
                let child_ref = &mut children[idx];
                let outcome = insert_child_at(child_ref, segs, depth + 1, as_dir, name, content);
                proof {
                    let rest2 = rest_of(segs.deep_view(), depth + 1);
                    assert(rest2 =~= rest.subrange(1, rest.len() as int));
                    assert(resolve(old(node)@, rest) == resolve(child0, rest2));
                    let x = children@[idx as int];
                    assert(children@ =~= prev.update(idx as int, x));
                    lemma_nodes_view_update(prev, idx as int, x);
                    let es2 = es.update(idx as int, node_view(x));
                    assert(nodes_view(children@) == es2);
                    // pointwise names and kinds are unchanged, so uniqueness is kept
                    assert forall|i: int, j: int|
                        #![trigger es2[i], es2[j]]
                        0 <= i < j < es2.len() implies !(entry_name(es2[i]) == entry_name(es2[j])
                        && ((es2[i] is Dir) <==> (es2[j] is Dir))) by {
                        assert(entry_name(es2[i]) == entry_name(es[i]) && ((es2[i] is Dir) <==> (
                        es[i] is Dir)));
                        assert(entry_name(es2[j]) == entry_name(es[j]) && ((es2[j] is Dir) <==> (
                        es[j] is Dir)));
                    }
                    lemma_entries_wf_iff(es);
                    lemma_entries_wf_iff(es2);
                    assert forall|t: int| 0 <= t < es2.len() implies entry_wf(
                        #[trigger] es2[t],
                    ) by {
                        if t != idx as int {
                            assert(es2[t] == es[t]);
                        }
                    }
                    if node_view(x) == child0 {
                        assert(es2 =~= es);
                    }
                }
                outcome
            }
        },
        FSNode::File { .. } => {
            proof {
                assert(false);
            }
            OpOutcome::FileInPath
        },
    }
}

/// Removes the first child named `name` of the directory reached by the
/// segments from `depth` on, unless that child is a non-empty directory.
fn remove_child_at(node: &mut FSNode, segs: &Vec<String>, depth: usize, name: &str) -> (r:
    OpOutcome)
    requires
        depth <= segs@.len(),
        old(node)@ is Dir,
        entry_wf(old(node)@),
    ensures
        entry_wf(final(node)@),
        entry_name(final(node)@) == entry_name(old(node)@),
        final(node)@ is Dir,
        ({
            let rest = rest_of(segs.deep_view(), depth as int);
            match resolve(old(node)@, rest) {
                Resolved::Found(d) => {
                    let es = entries_of(d);
                    let i = first_match(es, named_any(name@));
                    if i == es.len() {
                        r is NoSuchNode && final(node)@ == old(node)@
                    } else if es[i] is Dir && entries_of(es[i]).len() > 0 {
                        r is NotEmptyDir && final(node)@ == old(node)@
                    } else {
                        r is Done && final(node)@ == with_entries(
                            old(node)@,
                            rest,
                            remove_op(name@),
                        )
                    }
                },
                Resolved::NotFound => r is NoSuchDir && final(node)@ == old(node)@,
                Resolved::NotDir(_) => r is FileInPath && final(node)@ == old(node)@,
            }
        }),
    decreases segs@.len() - depth,
{
    let ghost rest = rest_of(segs.deep_view(), depth as int);
    match node {
        FSNode::Directory { name: dir_name, children } => {
            let ghost prev = children@;
            let ghost es = nodes_view(prev);
            proof {
                lemma_nodes_view_len(prev);
            }
            if depth == segs.len() {
                proof {
                    assert(rest =~= Seq::<Seq<char>>::empty());
                }
                let idx = find_named(children, name, NameKind::AnyKind);
                proof {
                    lemma_first_match(es, named_any(name@));
                }
                if idx == children.len() {
                    return OpOutcome::NoSuchNode;
                }
                proof {
                    lemma_nodes_view_index(prev, idx as int);
                }
                let target_blocks: bool = match &children[idx] {
                    FSNode::Directory { children: sub, .. } => {
                        proof {
                            lemma_nodes_view_len(sub@);
                        }
                        sub.len() > 0
                    },
                    FSNode::File { .. } => false,
                };
                if target_blocks {
                    return OpOutcome::NotEmptyDir;
                }
                children.remove(idx);
                proof {
                    lemma_nodes_view_remove(prev, idx as int);
                    let es2 = es.remove(idx as int);
                    assert(nodes_view(children@) == es2);
                    assert forall|i: int, j: int|
                        #![trigger es2[i], es2[j]]
                        0 <= i < j < es2.len() implies !(entry_name(es2[i]) == entry_name(es2[j])
                        && ((es2[i] is Dir) <==> (es2[j] is Dir))) by {
                        let i0 = if i < idx as int {
                            i
                        } else {
                            i + 1
                        };
                        let j0 = if j < idx as int {
                            j
                        } else {
                            j + 1
                        };
                        assert(es2[i] == es[i0] && es2[j] == es[j0]);
                    }
                    lemma_entries_wf_iff(es);
                    lemma_entries_wf_iff(es2);
                    assert forall|t: int| 0 <= t < es2.len() implies entry_wf(
                        #[trigger] es2[t],
                    ) by {
                        let t0 = if t < idx as int {
                            t
                        } else {
                            t + 1
                        };
                        assert(es2[t] == es[t0]);
                    }
                }
                OpOutcome::Done
            } else {
                let seg: &String = &segs[depth];
                let idx = find_named(children, seg.as_str(), NameKind::DirKind);
                let ghost p = named_dir(seg@);
                proof {
                    lemma_first_match(es, p);
                    assert(segs.deep_view()[depth as int] == seg@);
                    assert(rest[0] == seg@);
                }
                if idx == children.len() {
                    return OpOutcome::NoSuchDir;
                }
                proof {
                    lemma_nodes_view_index(prev, idx as int);
                    lemma_entries_wf_iff(es);
                    assert(p(es[idx as int]));
                    assert(entry_wf(es[idx as int]));
                }
                let ghost child0 = es[idx as int];
                let child_ref = &mut children[idx];
                let outcome = remove_child_at(child_ref, segs, depth + 1, name);
                proof {
                    let rest2 = rest_of(segs.deep_view(), depth + 1);
                    assert(rest2 =~= rest.subrange(1, rest.len() as int));
                    assert(resolve(old(node)@, rest) == resolve(child0, rest2));
                    let x = children@[idx as int];
                    assert(children@ =~= prev.update(idx as int, x));
                    lemma_nodes_view_update(prev, idx as int, x);
                    let es2 = es.update(idx as int, node_view(x));
                    assert(nodes_view(children@) == es2);
                    assert forall|i: int, j: int|
                        #![trigger es2[i], es2[j]]
                        0 <= i < j < es2.len() implies !(entry_name(es2[i]) == entry_name(es2[j])
                        && ((es2[i] is Dir) <==> (es2[j] is Dir))) by {
                        assert(entry_name(es2[i]) == entry_name(es[i]) && ((es2[i] is Dir) <==> (
                        es[i] is Dir)));
                        assert(entry_name(es2[j]) == entry_name(es[j]) && ((es2[j] is Dir) <==> (
                        es[j] is Dir)));
                    }
                    lemma_entries_wf_iff(es);
                    lemma_entries_wf_iff(es2);
                    assert forall|t: int| 0 <= t < es2.len() implies entry_wf(
                        #[trigger] es2[t],
                    ) by {
                        if t != idx as int {
                            assert(es2[t] == es[t]);
                        }
                    }
                    if node_view(x) == child0 {
                        assert(es2 =~= es);
                    }
                }
                outcome
            }
        },
        FSNode::File { .. } => {
            proof {
                assert(false);
            }
            OpOutcome::FileInPath
        },
    }
}

/// Renames the first child named `old_name` of the directory reached by the
/// segments from `depth` on; a missing `old_name` is a silent success, any
/// sibling already named `new_name` is a failure.
fn rename_child_at(
    node: &mut FSNode,
    segs: &Vec<String>,
    depth: usize,
    old_name: &str,
    new_name: &str,
) -> (r: OpOutcome)
    requires
        depth <= segs@.len(),
        old(node)@ is Dir,
        entry_wf(old(node)@),
    ensures
        entry_wf(final(node)@),
        entry_name(final(node)@) == entry_name(old(node)@),
        final(node)@ is Dir,
        ({
            let rest = rest_of(segs.deep_view(), depth as int);
            match resolve(old(node)@, rest) {
                Resolved::Found(d) => {
                    let es = entries_of(d);
                    if has_match(es, named_any(new_name@)) {
                        r is DupName && final(node)@ == old(node)@
                    } else if first_match(es, named_any(old_name@)) == es.len() {
                        r is Done && final(node)@ == old(node)@
                    } else {
                        r is Done && final(node)@ == with_entries(
                            old(node)@,
                            rest,
                            rename_op(old_name@, new_name@),
                        )
                    }
                },
                Resolved::NotFound => r is NoSuchDir && final(node)@ == old(node)@,
                Resolved::NotDir(_) => r is FileInPath && final(node)@ == old(node)@,
            }
        }),
    decreases segs@.len() - depth,
{
    let ghost rest = rest_of(segs.deep_view(), depth as int);
    match node {
        FSNode::Directory { name: dir_name, children } => {
            let ghost prev = children@;
            let ghost es = nodes_view(prev);
            proof {
                lemma_nodes_view_len(prev);
            }
            if depth == segs.len() {
                proof {
                    assert(rest =~= Seq::<Seq<char>>::empty());
                }
                let dup_idx = find_named(children, new_name, NameKind::AnyKind);
                proof {
                    lemma_first_match(es, named_any(new_name@));
                }
                if dup_idx < children.len() {
                    return OpOutcome::DupName;
                }
                let idx = find_named(children, old_name, NameKind::AnyKind);
                proof {
                    lemma_first_match(es, named_any(old_name@));
                }
                if idx == children.len() {
                    return OpOutcome::Done;
                }
                proof {
                    lemma_nodes_view_index(prev, idx as int);
                }
                let fresh = new_name.to_owned();
                let target = &mut children[idx];
                match target {
                    FSNode::File { name: nm, .. } => {
                        *nm = fresh;
                    },
                    FSNode::Directory { name: nm, .. } => {
                        *nm = fresh;
                    },
                }
                proof {
                    let x = children@[idx as int];
                    assert(node_view(x) == with_name(es[idx as int], new_name@));
                    assert(children@ =~= prev.update(idx as int, x));
                    lemma_nodes_view_update(prev, idx as int, x);
                    let es2 = es.update(idx as int, with_name(es[idx as int], new_name@));
                    assert(nodes_view(children@) == es2);
                    assert(es2 == rename_op(old_name@, new_name@)(es));
                    assert forall|i: int, j: int|
                        #![trigger es2[i], es2[j]]
                        0 <= i < j < es2.len() implies !(entry_name(es2[i]) == entry_name(es2[j])
                        && ((es2[i] is Dir) <==> (es2[j] is Dir))) by {
                        if i != idx as int && j != idx as int {
                            assert(es2[i] == es[i] && es2[j] == es[j]);
                        } else {
                            assert(!named_any(new_name@)(es[i]) && !named_any(new_name@)(es[j]));
                        }
                    }
                    lemma_entries_wf_iff(es);
                    lemma_entries_wf_iff(es2);
                    assert forall|t: int| 0 <= t < es2.len() implies entry_wf(
                        #[trigger] es2[t],
                    ) by {
                        if t != idx as int {
                            assert(es2[t] == es[t]);
                        } else {
                            assert(entry_wf(es[t]));
                        }
                    }
                }
                OpOutcome::Done
            } else {
                let seg: &String = &segs[depth];
                let idx = find_named(children, seg.as_str(), NameKind::DirKind);
                let ghost p = named_dir(seg@);
                proof {
                    lemma_first_match(es, p);
                    assert(segs.deep_view()[depth as int] == seg@);
                    assert(rest[0] == seg@);
                }
                if idx == children.len() {
                    return OpOutcome::NoSuchDir;
                }
                proof {
                    lemma_nodes_view_index(prev, idx as int);
                    lemma_entries_wf_iff(es);
                    assert(p(es[idx as int]));
                    assert(entry_wf(es[idx as int]));
                }
                let ghost child0 = es[idx as int];
                let child_ref = &mut children[idx];
                let outcome = rename_child_at(child_ref, segs, depth + 1, old_name, new_name);
                proof {
                    let rest2 = rest_of(segs.deep_view(), depth + 1);
                    assert(rest2 =~= rest.subrange(1, rest.len() as int));
                    assert(resolve(old(node)@, rest) == resolve(child0, rest2));
                    let x = children@[idx as int];
                    assert(children@ =~= prev.update(idx as int, x));
                    lemma_nodes_view_update(prev, idx as int, x);
                    let es2 = es.update(idx as int, node_view(x));
                    assert(nodes_view(children@) == es2);
                    assert forall|i: int, j: int|
                        #![trigger es2[i], es2[j]]
                        0 <= i < j < es2.len() implies !(entry_name(es2[i]) == entry_name(es2[j])
                        && ((es2[i] is Dir) <==> (es2[j] is Dir))) by {
                        assert(entry_name(es2[i]) == entry_name(es[i]) && ((es2[i] is Dir) <==> (
                        es[i] is Dir)));
                        assert(entry_name(es2[j]) == entry_name(es[j]) && ((es2[j] is Dir) <==> (
                        es[j] is Dir)));
                    }
                    lemma_entries_wf_iff(es);
                    lemma_entries_wf_iff(es2);
                    assert forall|t: int| 0 <= t < es2.len() implies entry_wf(
                        #[trigger] es2[t],
                    ) by {
                        if t != idx as int {
                            assert(es2[t] == es[t]);
                        }
                    }
                    if node_view(x) == child0 {
                        assert(es2 =~= es);
                    }
                }
                outcome
            }
        },
        FSNode::File { .. } => {
            proof {
                assert(false);
            }
            OpOutcome::FileInPath
        },
    }
}

proof fn lemma_first_match_congruent(es1: Seq<Entry>, es2: Seq<Entry>, p: spec_fn(Entry) -> bool)
    requires
        es1.len() == es2.len(),
        forall|k: int| 0 <= k < es1.len() ==> p(#[trigger] es1[k]) == p(#[trigger] es2[k]),
    ensures
        first_match(es1, p) == first_match(es2, p),
    decreases es1.len(),
{
    if es1.len() > 0 && !p(es1[0]) {
        let t1 = es1.subrange(1, es1.len() as int);
        let t2 = es2.subrange(1, es2.len() as int);
        assert forall|k: int| 0 <= k < t1.len() implies p(#[trigger] t1[k]) == p(
            #[trigger] t2[k],
        ) by {
            assert(t1[k] == es1[k + 1] && t2[k] == es2[k + 1]);
        }
        lemma_first_match_congruent(t1, t2, p);
    }
}

/// Rewriting the entries of the directory a path resolves to leaves the path
/// resolving to that directory, now carrying the rewritten entries.
pub proof fn lemma_with_entries_resolve(e: Entry, segs: Seq<Seq<char>>, f: spec_fn(Seq<Entry>) -> Seq<Entry>)
    requires
        resolve(e, segs) matches Resolved::Found(d) && d is Dir,
    ensures
        ({
            let d = found_entry(resolve(e, segs));
            resolve(with_entries(e, segs, f), segs) == Resolved::Found(
                Entry::Dir { name: entry_name(d), entries: f(entries_of(d)) },
            )
        }),
    decreases segs.len(),
{
    if segs.len() == 0 {
    } else {
        let es = entries_of(e);
        let p = named_dir(segs[0]);
        let i = first_match(es, p);
        lemma_first_match(es, p);
        let rest = segs.subrange(1, segs.len() as int);
        lemma_with_entries_resolve(es[i], rest, f);
        let w = with_entries(es[i], rest, f);
        assert(w is Dir && entry_name(w) == entry_name(es[i]));
        let es2 = es.update(i, w);
        assert forall|k: int| 0 <= k < es.len() implies p(#[trigger] es[k]) == p(
            #[trigger] es2[k],
        ) by {}
        lemma_first_match_congruent(es2, es, p);
    }
}

/// Appending an entry appends its listing label.
pub proof fn lemma_listing_push(es: Seq<Entry>, x: Entry)
    ensures
        listing_of(es.push(x)) == listing_of(es).push(listed_name(x)),
{
    assert(listing_of(es.push(x)) =~= listing_of(es).push(listed_name(x)));
}

/// Creating a child and then listing its parent shows the new name last: a
/// directory prefixed with `/`, a file bare; the earlier children keep their
/// order and labels.
pub proof fn lemma_create_then_list(
    root: Entry,
    segs: Seq<Seq<char>>,
    name: Seq<char>,
    content: Seq<char>,
)
    requires
        resolve(root, segs) matches Resolved::Found(d) && d is Dir,
    ensures
        ({
            let d = found_entry(resolve(root, segs));
            &&& resolve(with_entries(root, segs, add_dir_op(name)), segs) matches Resolved::Found(
                d2,
            ) && listing_of(entries_of(d2)) == listing_of(entries_of(d)).push(seq!['/'] + name)
            &&& resolve(with_entries(root, segs, add_file_op(name, content)), segs)
                matches Resolved::Found(d3) && listing_of(entries_of(d3)) == listing_of(
                entries_of(d),
            ).push(name)
        }),
{
    let d = found_entry(resolve(root, segs));
    lemma_with_entries_resolve(root, segs, add_dir_op(name));
    lemma_with_entries_resolve(root, segs, add_file_op(name, content));
    lemma_listing_push(entries_of(d), Entry::Dir { name, entries: Seq::empty() });
    lemma_listing_push(entries_of(d), Entry::File { name, content });
}

/// A file just created under a directory with no same-named file reads back
/// exactly the content it was created with.
pub proof fn lemma_create_then_read(
    root: Entry,
    segs: Seq<Seq<char>>,
    name: Seq<char>,
    content: Seq<char>,
)
    requires
        resolve(root, segs) matches Resolved::Found(d) && d is Dir,
        !has_match(entries_of(found_entry(resolve(root, segs))), named_file(name)),
    ensures
        ({
            let d = found_entry(resolve(root, segs));
            let after = resolve(with_entries(root, segs, add_file_op(name, content)), segs);
            &&& after matches Resolved::Found(d2) && {
                let i = first_match(entries_of(d2), named_file(name));
                &&& i < entries_of(d2).len()
                &&& entries_of(d2)[i] is File
                &&& content_of(entries_of(d2)[i]) == content
            }
        }),
{
    let d = found_entry(resolve(root, segs));
    let es = entries_of(d);
    let p = named_file(name);
    lemma_with_entries_resolve(root, segs, add_file_op(name, content));
    let es2 = es.push(Entry::File { name, content });
    lemma_first_match(es2, p);
    assert(p(es2[es.len() as int]));
    assert(has_match(es2, p));
    let i = first_match(es2, p);
    if i < es.len() {
        assert(es2[i] == es[i]);
        assert(has_match(es, p));
    }
}

/// Deleting a child removes exactly its listing entry: the remaining
/// siblings keep their relative order and labels.
pub proof fn lemma_delete_keeps_order(root: Entry, segs: Seq<Seq<char>>, name: Seq<char>)
    requires
        resolve(root, segs) matches Resolved::Found(d) && d is Dir,
        first_match(entries_of(found_entry(resolve(root, segs))), named_any(name)) < entries_of(
            found_entry(resolve(root, segs)),
        ).len(),
    ensures
        ({
            let d = found_entry(resolve(root, segs));
            let i = first_match(entries_of(d), named_any(name));
            resolve(with_entries(root, segs, remove_op(name)), segs) matches Resolved::Found(d2)
                && listing_of(entries_of(d2)) == listing_of(entries_of(d)).remove(i)
        }),
{
    let d = found_entry(resolve(root, segs));
    let es = entries_of(d);
    lemma_first_match(es, named_any(name));
    let i = first_match(es, named_any(name));
    lemma_with_entries_resolve(root, segs, remove_op(name));
    assert forall|t: int| 0 <= t < listing_of(es.remove(i)).len() implies listing_of(es.remove(i))[t]
        == listing_of(es).remove(i)[t] by {
        if t < i {
            assert(es.remove(i)[t] == es[t]);
        } else {
            assert(es.remove(i)[t] == es[t + 1]);
        }
    }
    assert(listing_of(es.remove(i)) =~= listing_of(es).remove(i));
}

/// Resolving a path is the same as resolving it with redundant slashes
/// collapsed and leading and trailing slashes removed.
pub proof fn lemma_resolve_collapsed(e: Entry, p: Seq<char>)
    ensures
        resolve(e, path_segments(collapsed(p))) == resolve(e, path_segments(p)),
{
    lemma_path_segments_wf(p);
    lemma_split_of_join(path_segments(p));
}

/// Why a lookup failed: no directory child with the next segment's name, or
/// the walk ran into a file.
#[derive(Debug)]
enum LookupFail {
    Missing,
    ThroughFile,
}

/// The listing label of a node: a directory name is prefixed with `/`, a file
/// name is bare.
pub open spec fn listed_name(e: Entry) -> Seq<char> {
    match e {
        Entry::File { name, .. } => name,
        Entry::Dir { name, .. } => seq!['/'] + name,
    }
}

/// The listing of a directory's children, in order.
pub open spec fn listing_of(es: Seq<Entry>) -> Seq<Seq<char>> {
    Seq::new(es.len(), |i: int| listed_name(es[i]))
}

/// Shared-reference walk to the directory named by the segments from `depth`.
fn resolve_ref<'a>(node: &'a FSNode, segs: &Vec<String>, depth: usize) -> (r: Result<
    &'a FSNode,
    LookupFail,
>)
    requires
        depth <= segs@.len(),
    ensures
        ({
            let rest = rest_of(segs.deep_view(), depth as int);
            match resolve(node@, rest) {
                Resolved::Found(d) => r matches Ok(p) && p@ == d,
                Resolved::NotFound => r matches Err(f) && f is Missing,
                Resolved::NotDir(_) => r matches Err(f) && f is ThroughFile,
            }
        }),
    decreases segs@.len() - depth,
{
    let ghost rest = rest_of(segs.deep_view(), depth as int);
    if depth == segs.len() {
        proof {
            assert(rest =~= Seq::<Seq<char>>::empty());
        }
        return Ok(node);
    }
    match node {
        FSNode::File { .. } => Err(LookupFail::ThroughFile),
        FSNode::Directory { children, .. } => {
            let ghost es = nodes_view(children@);
            proof {
                lemma_nodes_view_len(children@);
            }
            let seg: &String = &segs[depth];
            let idx = find_named(children, seg.as_str(), NameKind::DirKind);
            let ghost p = named_dir(seg@);
            proof {
                lemma_first_match(es, p);
                assert(segs.deep_view()[depth as int] == seg@);
                assert(rest[0] == seg@);
            }
            if idx == children.len() {
                return Err(LookupFail::Missing);
            }
            proof {
                lemma_nodes_view_index(children@, idx as int);
                assert(rest_of(segs.deep_view(), depth + 1) =~= rest.subrange(
                    1,
                    rest.len() as int,
                ));
            }
            resolve_ref(&children[idx], segs, depth + 1)
        },
    }
}

/// The node a successful resolution found.
pub open spec fn found_entry(r: Resolved) -> Entry {
    match r {
        Resolved::Found(e) => e,
        _ => Entry::File { name: seq![], content: seq![] },
    }
}

/// Mutable walk to the node named by the segments from `depth`; the caller
/// must know the walk succeeds. What the walk hands out is pinned; how later
/// writes through it show up in the tree is not stated, as the prophecy of a
/// returned mutable borrow does not survive the enum pattern it crosses.
fn resolve_mut<'a>(node: &'a mut FSNode, segs: &Vec<String>, depth: usize) -> (r: &'a mut FSNode)
    requires
        depth <= segs@.len(),
        resolve(old(node)@, rest_of(segs.deep_view(), depth as int)) is Found,
    ensures
        (*r)@ == found_entry(resolve(old(node)@, rest_of(segs.deep_view(), depth as int))),
    decreases segs@.len() - depth,
{
    let ghost rest = rest_of(segs.deep_view(), depth as int);
    if depth == segs.len() {
        proof {
            assert(rest =~= Seq::<Seq<char>>::empty());
        }
        return node;
    }
    match node {
        FSNode::File { .. } => vstd::pervasive::unreached(),
        FSNode::Directory { children, .. } => {
            let ghost prev = children@;
            let ghost es = nodes_view(prev);
            proof {
                lemma_nodes_view_len(prev);
            }
            let seg: &String = &segs[depth];
            let idx = find_named(children, seg.as_str(), NameKind::DirKind);
            let ghost p = named_dir(seg@);
            proof {
                lemma_first_match(es, p);
                assert(segs.deep_view()[depth as int] == seg@);
                assert(rest[0] == seg@);
            }
            proof {
                assert(idx < children@.len());
                lemma_nodes_view_index(prev, idx as int);
                assert(p(es[idx as int]));
                assert(rest_of(segs.deep_view(), depth + 1) =~= rest.subrange(
                    1,
                    rest.len() as int,
                ));
            }
            let child_ref = &mut children[idx];
            resolve_mut(child_ref, segs, depth + 1)
        },
    }
}

/// Error text for a file-name collision on `create_file`.
pub open spec fn msg_file_exists(name: Seq<char>) -> Seq<char> {
    "A file with the name '"@ + name + "' already exists"@
}

/// Error text for a directory-name collision on `create_directory`.
pub open spec fn msg_dir_exists(name: Seq<char>) -> Seq<char> {
    "A directory with the name '"@ + name + "' already exists"@
}

/// Error text for a parent path that does not resolve.
pub open spec fn msg_dir_not_found(path: Seq<char>) -> Seq<char> {
    "Directory '"@ + path + "' not found"@
}

/// Error text for a missing file on `read_file`.
pub open spec fn msg_file_not_found(name: Seq<char>, path: Seq<char>) -> Seq<char> {
    "File '"@ + name + "' not found in '"@ + path + "'"@
}

/// Error text for any-kind name collision on `rename_node`.
pub open spec fn msg_node_exists(name: Seq<char>) -> Seq<char> {
    "A node with the name '"@ + name + "' already exists"@
}

/// Error text for deleting a non-empty directory.
pub open spec fn msg_dir_not_empty(name: Seq<char>) -> Seq<char> {
    "Directory '"@ + name + "' is not empty"@
}

/// Error text for a missing node on `delete_node`.
pub open spec fn msg_node_not_found(name: Seq<char>, path: Seq<char>) -> Seq<char> {
    "Node '"@ + name + "' not found in '"@ + path + "'"@
}

/// Error text for a path that runs through a file.
pub open spec fn msg_not_a_directory(part: Seq<char>) -> Seq<char> {
    "'"@ + part + "' is not a directory"@
}

/// Error text for reading or listing a path that is not a directory.
pub open spec fn msg_path_not_a_directory(path: Seq<char>) -> Seq<char> {
    "Path '"@ + path + "' is not a directory"@
}

/// An in-memory file system: exclusive owner of the root directory.
pub struct FileSystem {
    root: FSNode,
}

impl View for FileSystem {
    type V = Entry;

    closed spec fn view(&self) -> Entry {
        self.root@
    }
}

impl FileSystem {
    /// The root is a directory and the whole tree is well-formed.
    pub open spec fn wf(&self) -> bool {
        self@ is Dir && entry_wf(self@)
    }

    /// Creates a file system holding one empty root directory.
    pub fn new() -> (fs: Self)
        ensures
            fs@ == (Entry::Dir { name: "root"@, entries: Seq::<Entry>::empty() }),
            fs.wf(),
    {
        let fs = Self {
            root: FSNode::Directory { name: String::from_str("root"), children: Vec::new() },
        };
        proof {
            assert(fs@ matches Entry::Dir { name, entries } && entries =~= Seq::<Entry>::empty());
        }
        fs
    }

    /// Creates a file named `name` with `content` under the directory at
    /// `path`. Fails if the parent does not resolve or a sibling *file*
    /// already bears the name; a sibling directory with the name is allowed.
    pub fn create_file(&mut self, path: &str, name: &str, content: &str) -> (r: Result<
        (),
        String,
    >)
        requires
            old(self).wf(),
        ensures
            final(self).wf(),
            ({
                let segs = path_segments(path@);
                match resolve(old(self)@, segs) {
                    Resolved::Found(d) => {
                        if has_match(entries_of(d), named_file(name@)) {
                            &&& r matches Err(m) && m@ == msg_file_exists(name@)
                            &&& final(self)@ == old(self)@
                        } else {
                            &&& r is Ok
                            &&& final(self)@ == with_entries(
                                old(self)@,
                                segs,
                                add_file_op(name@, content@),
                            )
                        }
                    },
                    Resolved::NotFound => {
                        &&& r matches Err(m) && m@ == msg_dir_not_found(path@)
                        &&& final(self)@ == old(self)@
                    },
                    Resolved::NotDir(_) => r is Err && final(self)@ == old(self)@,
                }
            }),
    {
        let segs = split_path(path);
        proof {
            assert(rest_of(segs.deep_view(), 0) =~= path_segments(path@));
        }
        match insert_child_at(&mut self.root, &segs, 0, false, name, content) {
            OpOutcome::Done => Ok(()),
            OpOutcome::DupName => Err(concat3("A file with the name '", name, "' already exists")),
            OpOutcome::NoSuchDir => Err(concat3("Directory '", path, "' not found")),
            _ => Err(concat3("'", path, "' is not a directory")),
        }
    }

    /// Creates an empty directory named `name` under the directory at `path`.
    /// Fails if the parent does not resolve or a sibling *directory* already
    /// bears the name; a sibling file with the name is allowed.
    pub fn create_directory(&mut self, path: &str, name: &str) -> (r: Result<(), String>)
        requires
            old(self).wf(),
        ensures
            final(self).wf(),
            ({
                let segs = path_segments(path@);
                match resolve(old(self)@, segs) {
                    Resolved::Found(d) => {
                        if has_match(entries_of(d), named_dir(name@)) {
                            &&& r matches Err(m) && m@ == msg_dir_exists(name@)
                            &&& final(self)@ == old(self)@
                        } else {
                            &&& r is Ok
                            &&& final(self)@ == with_entries(old(self)@, segs, add_dir_op(name@))
                        }
                    },
                    Resolved::NotFound => {
                        &&& r matches Err(m) && m@ == msg_dir_not_found(path@)
                        &&& final(self)@ == old(self)@
                    },
                    Resolved::NotDir(_) => r is Err && final(self)@ == old(self)@,
                }
            }),
    {
        let segs = split_path(path);
        proof {
            assert(rest_of(segs.deep_view(), 0) =~= path_segments(path@));
        }
        match insert_child_at(&mut self.root, &segs, 0, true, name, "") {
            OpOutcome::Done => Ok(()),
            OpOutcome::DupName => Err(
                concat3("A directory with the name '", name, "' already exists"),
            ),
            OpOutcome::NoSuchDir => Err(concat3("Directory '", path, "' not found")),
            _ => Err(concat3("'", path, "' is not a directory")),
        }
    }

    /// Deletes the child named `name` (file or directory) of the directory at
    /// `path`. Deleting a non-empty directory fails; the other children keep
    /// their relative order.
    pub fn delete_node(&mut self, path: &str, name: &str) -> (r: Result<(), String>)
        requires
            old(self).wf(),
        ensures
            final(self).wf(),
            ({
                let segs = path_segments(path@);
                match resolve(old(self)@, segs) {
                    Resolved::Found(d) => {
                        let es = entries_of(d);
                        let i = first_match(es, named_any(name@));
                        if i == es.len() {
                            &&& r matches Err(m) && m@ == msg_node_not_found(name@, path@)
                            &&& final(self)@ == old(self)@
                        } else if es[i] is Dir && entries_of(es[i]).len() > 0 {
                            &&& r matches Err(m) && m@ == msg_dir_not_empty(name@)
                            &&& final(self)@ == old(self)@
                        } else {
                            &&& r is Ok
                            &&& final(self)@ == with_entries(old(self)@, segs, remove_op(name@))
                        }
                    },
                    Resolved::NotFound => {
                        &&& r matches Err(m) && m@ == msg_dir_not_found(path@)
                        &&& final(self)@ == old(self)@
                    },
                    Resolved::NotDir(_) => r is Err && final(self)@ == old(self)@,
                }
            }),
    {
        let segs = split_path(path);
        proof {
            assert(rest_of(segs.deep_view(), 0) =~= path_segments(path@));
        }
        match remove_child_at(&mut self.root, &segs, 0, name) {
            OpOutcome::Done => Ok(()),
            OpOutcome::NoSuchNode => Err(
                concat5("Node '", name, "' not found in '", path, "'"),
            ),
            OpOutcome::NotEmptyDir => Err(concat3("Directory '", name, "' is not empty")),
            OpOutcome::NoSuchDir => Err(concat3("Directory '", path, "' not found")),
            _ => Err(concat3("'", path, "' is not a directory")),
        }
    }

    /// Renames the child named `old_name` of the directory at `path` to
    /// `new_name`. Fails if any sibling, file or directory, already bears
    /// `new_name`; renaming a missing node is a silent no-op.
    pub fn rename_node(&mut self, path: &str, old_name: &str, new_name: &str) -> (r: Result<
        (),
        String,
    >)
        requires
            old(self).wf(),
        ensures
            final(self).wf(),
            ({
                let segs = path_segments(path@);
                match resolve(old(self)@, segs) {
                    Resolved::Found(d) => {
                        let es = entries_of(d);
                        if has_match(es, named_any(new_name@)) {
                            &&& r matches Err(m) && m@ == msg_node_exists(new_name@)
                            &&& final(self)@ == old(self)@
                        } else if first_match(es, named_any(old_name@)) == es.len() {
                            &&& r is Ok
                            &&& final(self)@ == old(self)@
                        } else {
                            &&& r is Ok
                            &&& final(self)@ == with_entries(
                                old(self)@,
                                segs,
                                rename_op(old_name@, new_name@),
                            )
                        }
                    },
                    Resolved::NotFound => {
                        &&& r matches Err(m) && m@ == msg_dir_not_found(path@)
                        &&& final(self)@ == old(self)@
                    },
                    Resolved::NotDir(_) => r is Err && final(self)@ == old(self)@,
                }
            }),
    {
        let segs = split_path(path);
        proof {
            assert(rest_of(segs.deep_view(), 0) =~= path_segments(path@));
        }
        match rename_child_at(&mut self.root, &segs, 0, old_name, new_name) {
            OpOutcome::Done => Ok(()),
            OpOutcome::DupName => Err(concat3("A node with the name '", new_name, "' already exists")),
            OpOutcome::NoSuchDir => Err(concat3("Directory '", path, "' not found")),
            _ => Err(concat3("'", path, "' is not a directory")),
        }
    }

    /// Resolves `path` to a directory node of the tree.
    pub fn find_directory(&self, path: &str) -> (r: Result<&FSNode, String>)
        ensures
            ({
                let segs = path_segments(path@);
                match resolve(self@, segs) {
                    Resolved::Found(d) => r matches Ok(p) && p@ == d,
                    Resolved::NotFound => r matches Err(m) && m@ == msg_dir_not_found(path@),
                    Resolved::NotDir(_) => r matches Err(m) && m@ == msg_not_a_directory(path@),
                }
            }),
    {
        let segs = split_path(path);
        proof {
            assert(rest_of(segs.deep_view(), 0) =~= path_segments(path@));
        }
        match resolve_ref(&self.root, &segs, 0) {
            Ok(node) => Ok(node),
            Err(LookupFail::Missing) => Err(concat3("Directory '", path, "' not found")),
            Err(LookupFail::ThroughFile) => Err(concat3("'", path, "' is not a directory")),
        }
    }

    /// Resolves `path` to a directory node of the tree, mutably. On failure
    /// the tree is untouched; on success the handed-out node is the resolved
    /// one (what later writes through it do to the tree is outside this
    /// contract).
    pub fn find_directory_mut(&mut self, path: &str) -> (r: Result<&mut FSNode, String>)
        ensures
            ({
                let segs = path_segments(path@);
                match resolve(old(self)@, segs) {
                    Resolved::Found(d) => r matches Ok(p) && (*p)@ == d,
                    Resolved::NotFound => {
                        &&& r matches Err(m) && m@ == msg_dir_not_found(path@)
                        &&& final(self)@ == old(self)@
                    },
                    Resolved::NotDir(_) => {
                        &&& r matches Err(m) && m@ == msg_not_a_directory(path@)
                        &&& final(self)@ == old(self)@
                    },
                }
            }),
    {
        let segs = split_path(path);
        proof {
            assert(rest_of(segs.deep_view(), 0) =~= path_segments(path@));
        }
        match resolve_ref(&self.root, &segs, 0) {
            Ok(_) => {},
            Err(LookupFail::Missing) => {
                return Err(concat3("Directory '", path, "' not found"));
            },
            Err(LookupFail::ThroughFile) => {
                return Err(concat3("'", path, "' is not a directory"));
            },
        }
        Ok(resolve_mut(&mut self.root, &segs, 0))
    }

    /// Returns the content of the file named `name` in the directory at
    /// `path`.
    pub fn read_file(&self, path: &str, name: &str) -> (r: Result<&str, String>)
        ensures
            ({
                let segs = path_segments(path@);
                match resolve(self@, segs) {
                    Resolved::Found(d) => {
                        if d is Dir {
                            let es = entries_of(d);
                            let i = first_match(es, named_file(name@));
                            if i < es.len() {
                                r matches Ok(c) && c@ == content_of(es[i])
                            } else {
                                r matches Err(m) && m@ == msg_file_not_found(name@, path@)
                            }
                        } else {
                            r matches Err(m) && m@ == msg_path_not_a_directory(path@)
                        }
                    },
                    Resolved::NotFound => r matches Err(m) && m@ == msg_dir_not_found(path@),
                    Resolved::NotDir(_) => r matches Err(m) && m@ == msg_not_a_directory(path@),
                }
            }),
    {
        let dir = match self.find_directory(path) {
            Ok(d) => d,
            Err(e) => {
                return Err(e);
            },
        };
        match dir {
            FSNode::Directory { children, .. } => {
                let ghost es = nodes_view(children@);
                let idx = find_named(children, name, NameKind::FileKind);
                proof {
                    lemma_first_match(es, named_file(name@));
                    lemma_nodes_view_len(children@);
                }
                if idx < children.len() {
                    proof {
                        lemma_nodes_view_index(children@, idx as int);
                    }
                    match &children[idx] {
                        FSNode::File { content, .. } => Ok(content.as_str()),
                        FSNode::Directory { .. } => vstd::pervasive::unreached(),
                    }
                } else {
                    Err(concat5("File '", name, "' not found in '", path, "'"))
                }
            },
            FSNode::File { .. } => Err(concat3("Path '", path, "' is not a directory")),
        }
    }

    /// Lists the children of the directory at `path`, in order, each
    /// directory name prefixed with `/` and each file name bare.
    pub fn list_directory(&self, path: &str) -> (r: Result<Vec<String>, String>)
        ensures
            ({
                let segs = path_segments(path@);
                match resolve(self@, segs) {
                    Resolved::Found(d) => {
                        if d is Dir {
                            r matches Ok(names) && names.deep_view() == listing_of(entries_of(d))
                        } else {
                            r matches Err(m) && m@ == msg_path_not_a_directory(path@)
                        }
                    },
                    Resolved::NotFound => r matches Err(m) && m@ == msg_dir_not_found(path@),
                    Resolved::NotDir(_) => r matches Err(m) && m@ == msg_not_a_directory(path@),
                }
            }),
    {
        let dir = match self.find_directory(path) {
            Ok(d) => d,
            Err(e) => {
                return Err(e);
            },
        };
        match dir {
            FSNode::Directory { children, .. } => {
                let ghost es = nodes_view(children@);
                proof {
                    lemma_nodes_view_len(children@);
                }
                let mut names: Vec<String> = Vec::new();
                let mut j: usize = 0;
                proof {
                    assert(names.deep_view() =~= listing_of(es).subrange(0, 0));
                }
                while j < children.len()
                    invariant
                        j <= children@.len(),
                        es == nodes_view(children@),
                        es.len() == children@.len(),
                        names.deep_view() == listing_of(es).subrange(0, j as int),
                    decreases children@.len() - j,
                {
                    proof {
                        lemma_nodes_view_index(children@, j as int);
                    }
                    let ghost old_dv = names.deep_view();
                    match &children[j] {
                        FSNode::File { name, .. } => {
                            names.push(name.clone());
                        },
                        FSNode::Directory { name, .. } => {
                            let mut label = String::new();
                            label.append("/");
                            label.append(name.as_str());
                            proof {
                                reveal_strlit("/");
                                assert(label@ =~= seq!['/'] + name@);
                            }
                            names.push(label);
                        },
                    }
                    proof {
                        assert(names.deep_view() =~= old_dv.push(listed_name(es[j as int])));
                        assert(names.deep_view() =~= listing_of(es).subrange(0, j + 1));
                    }
                    j += 1;
                }
                proof {
                    assert(names.deep_view() =~= listing_of(es));
                }
                Ok(names)
            },
            FSNode::File { .. } => Err(concat3("Path '", path, "' is not a directory")),
        }
    }
}

} // verus!
