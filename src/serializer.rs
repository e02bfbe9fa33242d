//! Turns a group mapping back into tsml text.
use vstd::prelude::*;
use crate::tree::{push_char, push_chars, FileTree, Groups, Tags, TsmlError};

verus! {

broadcast use vstd::std_specs::vec::axiom_vec_index_decreases;

/// Four spaces per level.
pub open spec fn indent_text(levels: nat) -> Seq<char>
    decreases levels,
{
    if levels == 0 {
        seq![]
    } else {
        indent_text((levels - 1) as nat) + seq![' ', ' ', ' ', ' ']
    }
}

/// The names separated by `", "`.
pub open spec fn join_tags(tags: Seq<Seq<char>>) -> Seq<char>
    decreases tags.len(),
{
    if tags.len() == 0 {
        seq![]
    } else if tags.len() == 1 {
        tags[0]
    } else {
        join_tags(tags.drop_last()) + seq![',', ' '] + tags.last()
    }
}

/// The rendering of a node's direct tags: `"(a, b) "`, or nothing when it has none.
pub open spec fn tags_text(extra: Option<Tags>) -> Seq<char> {
    match extra {
        Some(t) => if t.direct().len() == 0 {
            seq![]
        } else {
            seq!['('] + join_tags(t.direct()) + seq![')', ' ']
        },
        None => seq![],
    }
}

/// Where the path segment that ends at index `e` starts.
pub open spec fn segment_start(p: Seq<char>, e: int) -> int
    decreases e,
{
    if e <= 0 || e > p.len() {
        0
    } else if p[e - 1] == '/' {
        e
    } else {
        segment_start(p, e - 1)
    }
}

/// The file name of the first `e` characters of a path: its last
/// component, where empty and `.` components do not count, and a last
/// component `..` means there is none (the empty result).
pub open spec fn file_name_upto(p: Seq<char>, e: int) -> Seq<char>
    decreases e,
{
    if e <= 0 || e > p.len() {
        seq![]
    } else if p[e - 1] == '/' {
        file_name_upto(p, e - 1)
    } else {
        let b = segment_start(p, e);
        let seg = p.subrange(b, e);
        if 0 <= b < e && seg == seq!['.'] {
            file_name_upto(p, b)
        } else if seg == seq!['.', '.'] {
            seq![]
        } else {
            seg
        }
    }
}

/// The file name of a path; empty when it has none.
pub open spec fn file_name_of(p: Seq<char>) -> Seq<char> {
    file_name_upto(p, p.len() as int)
}

pub open spec fn quoted(s: Seq<char>) -> Seq<char> {
    seq!['"'] + s + seq!['"']
}

/// The line of one node, or `None` when its name, or the name of its
/// target, has no final segment.
pub open spec fn line_text(t: FileTree, depth: nat) -> Option<Seq<char>> {
    let name = file_name_of(t.spec_path());
    let head = indent_text(depth) + tags_text(t.spec_extra()) + quoted(name);
    if name.len() == 0 {
        None
    } else {
        match t {
            FileTree::Regular { .. } => Some(head + seq!['\n']),
            FileTree::Directory { .. } => Some(head + seq![':', ' ', '[', '\n']),
            FileTree::Symlink { target_path, .. } => {
                let target = file_name_of(target_path@);
                if target.len() == 0 {
                    None
                } else {
                    Some(head + seq![' ', '>', ' '] + quoted(target) + seq!['\n'])
                }
            },
        }
    }
}

/// The closing line of a directory whose line stands at `depth`.
pub open spec fn close_text(depth: nat) -> Seq<char> {
    indent_text(depth) + seq![']', '\n']
}

/// The text of a node and of all nodes below it, in pre-order.
pub open spec fn node_text(t: FileTree, depth: nat) -> Option<Seq<char>>
    decreases t, 0int,
{
    match line_text(t, depth) {
        None => None,
        Some(line) => match t {
            FileTree::Directory { children, .. } => match nodes_text(
                children,
                children.len() as int,
                depth + 1,
            ) {
                Some(inner) => Some(line + inner + close_text(depth)),
                None => None,
            },
            _ => Some(line),
        },
    }
}

/// The text of the first `n` nodes of `v`, one after the other.
pub open spec fn nodes_text(v: Vec<FileTree>, n: int, depth: nat) -> Option<Seq<char>>
    decreases v, n,
{
    if n <= 0 || n > v.len() {
        Some(seq![])
    } else {
        match nodes_text(v, n - 1, depth) {
            Some(before) => match node_text(v[n - 1], depth) {
                Some(last) => Some(before + last),
                None => None,
            },
            None => None,
        }
    }
}

/// The number of levels of a tree: 1 for a node without children.
pub open spec fn height(t: FileTree) -> nat
    decreases t, 0int,
{
    match t {
        FileTree::Directory { children, .. } => 1 + nodes_height(children, children.len() as int),
        _ => 1,
    }
}

/// The largest height among the first `n` nodes of `v`.
pub open spec fn nodes_height(v: Vec<FileTree>, n: int) -> nat
    decreases v, n,
{
    if n <= 0 || n > v.len() {
        0
    } else {
        let h = height(v[n - 1]);
        let rest = nodes_height(v, n - 1);
        if h > rest {
            h
        } else {
            rest
        }
    }
}

proof fn lemma_nodes_height(v: Vec<FileTree>, n: int, i: int)
    requires
        0 <= i < n <= v.len(),
    ensures
        height(v[i]) <= nodes_height(v, n),
    decreases n,
{
    if i < n - 1 {
        lemma_nodes_height(v, n - 1, i);
    }
}

/// A group's name with its trailing `/` characters removed.
pub open spec fn trim_slashes(s: Seq<char>) -> Seq<char>
    decreases s.len(),
{
    if s.len() > 0 && s.last() == '/' {
        trim_slashes(s.drop_last())
    } else {
        s
    }
}

/// The marker line of a group; nothing for `main`.
pub open spec fn group_header(key: Seq<char>) -> Seq<char> {
    if key == seq!['m', 'a', 'i', 'n'] {
        seq![]
    } else {
        seq!['-', ' ', '['] + trim_slashes(key) + seq![']', '\n']
    }
}

/// `b` starts with `a`.
pub open spec fn extends(a: Seq<char>, b: Seq<char>) -> bool {
    a.len() <= b.len() && b.subrange(0, a.len() as int) == a
}

/// The tags of a node, if any, hold each name once.
pub open spec fn tags_ok(extra: Option<Tags>) -> bool {
    match extra {
        Some(t) => t.wf(),
        None => true,
    }
}

/// Every node of a tree has well-formed tags.
pub open spec fn tree_tags_ok(t: FileTree) -> bool
    decreases t, 0int,
{
    tags_ok(t.spec_extra()) && match t {
        FileTree::Directory { children, .. } => nodes_tags_ok(children, children.len() as int),
        _ => true,
    }
}

/// Every node of the first `n` trees of `v` has well-formed tags.
pub open spec fn nodes_tags_ok(v: Vec<FileTree>, n: int) -> bool
    decreases v, n,
{
    if n <= 0 || n > v.len() {
        true
    } else {
        nodes_tags_ok(v, n - 1) && tree_tags_ok(v[n - 1])
    }
}

proof fn lemma_nodes_tags_ok(v: Vec<FileTree>, n: int, i: int)
    requires
        0 <= i < n <= v.len(),
        nodes_tags_ok(v, n),
    ensures
        tree_tags_ok(v[i]),
    decreases n,
{
    if i < n - 1 {
        lemma_nodes_tags_ok(v, n - 1, i);
    }
}

/// The text of one group: a marker line unless it is `main`, then its nodes.
pub open spec fn group_text(key: Seq<char>, files: Vec<FileTree>) -> Option<Seq<char>> {
    let header = group_header(key);
    match nodes_text(files, files.len() as int, 0) {
        Some(body) => Some(header + body),
        None => None,
    }
}

/// The text of the first `n` groups, separated by empty lines.
pub open spec fn groups_text(map: Seq<(String, Vec<FileTree>)>, n: int) -> Option<Seq<char>>
    decreases n,
{
    if n <= 0 || n > map.len() {
        Some(seq![])
    } else {
        match groups_text(map, n - 1) {
            Some(before) => match group_text(map[n - 1].0@, map[n - 1].1) {
                Some(g) => Some(
                    if n == 1 {
                        g
                    } else {
                        before + seq!['\n'] + g
                    },
                ),
                None => None,
            },
            None => None,
        }
    }
}

/// Writes `levels` indentation steps.
fn indent(text: &mut String, levels: usize)
    ensures
        final(text)@ == old(text)@ + indent_text(levels as nat),
{
    let mut i: usize = 0;
    while i < levels
        invariant
            i <= levels,
            text@ == old(text)@ + indent_text(i as nat),
        decreases levels - i,
    {
        push_chars(text, "    ");
        proof {
            reveal_strlit("    ");
            assert(text@ == old(text)@ + indent_text((i + 1) as nat));
        }
        i = i + 1;
    }
}

/// Writes the direct tags of a node, if it has any.
fn add_tags(text: &mut String, tags: &Option<Tags>)
    ensures
        final(text)@ == old(text)@ + tags_text(*tags),
{
    if let Some(tags) = tags {
        let n = tags.direct_tags.len();
        if n > 0 {
            push_char(text, '(');
            let ghost start = text@;
            let mut i: usize = 0;
            while i < n
                invariant
                    n == tags.direct_tags@.len(),
                    i <= n,
                    text@ == start + join_tags(tags.direct().subrange(0, i as int)),
                decreases n - i,
            {
                let ghost before = text@;
                if i > 0 {
                    push_chars(text, ", ");
                    proof {
                        reveal_strlit(", ");
                    }
                }
                push_chars(text, tags.direct_tags[i].as_str());
                proof {
                    let d = tags.direct().subrange(0, i + 1);
                    assert(d.drop_last() == tags.direct().subrange(0, i as int));
                    if i == 0 {
                        assert(d.len() == 1);
                    }
                }
                i = i + 1;
            }
            assert(tags.direct().subrange(0, n as int) == tags.direct());
            push_chars(text, ") ");
            proof {
                reveal_strlit(") ");
            }
        }
    }
}

/// Writes the closing line of a directory whose line stands at `at_indent_level`.
fn close_bracket(text: &mut String, at_indent_level: usize)
    ensures
        final(text)@ == old(text)@ + close_text(at_indent_level as nat),
{
    indent(text, at_indent_level);
    push_chars(text, "]\n");
    proof {
        reveal_strlit("]\n");
    }
}

proof fn lemma_segment_start(p: Seq<char>, e: int)
    requires
        0 <= e <= p.len(),
    ensures
        0 <= segment_start(p, e) <= e,
    decreases e,
{
    if e > 0 && p[e - 1] != '/' {
        lemma_segment_start(p, e - 1);
    }
}

/// The file name of a path, as `file_name_of` describes it.
fn file_name(path: &String) -> (r: String)
    ensures
        r@ == file_name_of(path@),
{
    let s = path.as_str();
    let n = s.unicode_len();
    let mut end = n;
    loop
        invariant
            n == s@.len(),
            s@ == path@,
            end <= n,
            file_name_upto(s@, end as int) == file_name_of(s@),
        decreases end,
    {
        if end == 0 {
            return String::new();
        }
        if s.get_char(end - 1) == '/' {
            end = end - 1;
        } else {
            let mut b = end - 1;
            while b > 0 && s.get_char(b - 1) != '/'
                invariant
                    b < end <= n,
                    n == s@.len(),
                    s@[end - 1] != '/',
                    segment_start(s@, end as int) == segment_start(s@, b as int),
                decreases b,
            {
                b = b - 1;
            }
            let ghost seg = s@.subrange(b as int, end as int);
            if end - b == 1 && s.get_char(b) == '.' {
                assert(seg =~= seq!['.']);
                end = b;
            } else if end - b == 2 && s.get_char(b) == '.' && s.get_char(b + 1) == '.' {
                assert(seg =~= seq!['.', '.']);
                return String::new();
            } else {
                assert(seg != seq!['.']) by {
                    if seg == seq!['.'] {
                        assert(seq!['.'].len() == 1 && seq!['.'][0] == '.');
                        assert(seg[0] == s@[b as int]);
                    }
                }
                assert(seg != seq!['.', '.']) by {
                    if seg == seq!['.', '.'] {
                        assert(seq!['.', '.'].len() == 2 && seq!['.', '.'][0] == '.' && seq!['.', '.'][1] == '.');
                        assert(seg[0] == s@[b as int]);
                        assert(seg[1] == s@[b + 1]);
                    }
                }
                let mut r = String::new();
                push_chars(&mut r, s.substring_char(b, end));
                return r;
            }
        }
    }
}

/// Writes a node and everything below it, one line each, with the closing
/// line of each directory after its last child.
fn add_node(text: &mut String, t: &FileTree, depth: usize) -> (r: Result<(), TsmlError>)
    requires
        depth + height(*t) <= usize::MAX,
        tree_tags_ok(*t),
    ensures
        extends(old(text)@, final(text)@),
        r is Ok <==> node_text(*t, depth as nat) is Some,
        r is Ok ==> final(text)@ == old(text)@ + node_text(*t, depth as nat)->Some_0,
        r is Err ==> r matches Err(TsmlError::PathWithoutName),
    decreases t, 0int,
{
    let name = file_name(t.path());
    if name.unicode_len() == 0 {
        assert(text@.subrange(0, text@.len() as int) =~= text@);
        return Err(TsmlError::PathWithoutName);
    }
    indent(text, depth);
    add_tags(text, t.extra());
    push_char(text, '"');
    push_chars(text, name.as_str());
    push_char(text, '"');
    match t {
        FileTree::Regular { .. } => {
            push_char(text, '\n');
            assert(text@ == old(text)@ + line_text(*t, depth as nat)->Some_0);
            assert(text@.subrange(0, old(text)@.len() as int) =~= old(text)@);
            Ok(())
        },
        FileTree::Symlink { target_path, .. } => {
            let target = file_name(target_path);
            if target.unicode_len() == 0 {
                assert(text@.subrange(0, old(text)@.len() as int) =~= old(text)@);
                return Err(TsmlError::PathWithoutName);
            }
            push_chars(text, " > \"");
            push_chars(text, target.as_str());
            push_chars(text, "\"\n");
            proof {
                reveal_strlit(" > \"");
                reveal_strlit("\"\n");
                assert(text@ == old(text)@ + line_text(*t, depth as nat)->Some_0);
            }
            assert(text@.subrange(0, old(text)@.len() as int) =~= old(text)@);
            Ok(())
        },
        FileTree::Directory { children, .. } => {
            push_chars(text, ": [\n");
            proof {
                reveal_strlit(": [\n");
                assert(text@ == old(text)@ + line_text(*t, depth as nat)->Some_0);
            }
            let ghost mid = text@;
            assert(mid.subrange(0, old(text)@.len() as int) =~= old(text)@);
            let r = add_children(text, children, depth + 1);
            if r.is_err() {
                assert(text@.subrange(0, old(text)@.len() as int) =~= old(text)@);
                return r;
            }
            close_bracket(text, depth);
            assert(text@ == old(text)@ + node_text(*t, depth as nat)->Some_0);
            assert(text@.subrange(0, old(text)@.len() as int) =~= old(text)@);
            Ok(())
        },
    }
}

/// Writes the nodes of `v` one after the other.
fn add_children(text: &mut String, v: &Vec<FileTree>, depth: usize) -> (r: Result<(), TsmlError>)
    requires
        depth + nodes_height(*v, v.len() as int) <= usize::MAX,
        nodes_tags_ok(*v, v.len() as int),
    ensures
        extends(old(text)@, final(text)@),
        r is Ok <==> nodes_text(*v, v.len() as int, depth as nat) is Some,
        r is Ok ==> final(text)@ == old(text)@ + nodes_text(*v, v.len() as int, depth as nat)->Some_0,
        r is Err ==> r matches Err(TsmlError::PathWithoutName),
    decreases v, 1int,
{
    let mut i: usize = 0;
    while i < v.len()
        invariant
            i <= v.len(),
            depth + nodes_height(*v, v.len() as int) <= usize::MAX,
            nodes_tags_ok(*v, v.len() as int),
            nodes_text(*v, i as int, depth as nat) is Some,
            text@ == old(text)@ + nodes_text(*v, i as int, depth as nat)->Some_0,
        decreases v.len() - i,
    {
        proof {
            lemma_nodes_height(*v, v.len() as int, i as int);
            lemma_nodes_tags_ok(*v, v.len() as int, i as int);
        }
        let ghost mid = text@;
        assert(mid.subrange(0, old(text)@.len() as int) =~= old(text)@);
        let r = add_node(text, &v[i], depth);
        if r.is_err() {
            assert(text@.subrange(0, old(text)@.len() as int) =~= old(text)@);
            proof {
                lemma_nodes_text_none(*v, i as int + 1, v.len() as int, depth as nat);
            }
            return r;
        }
        i = i + 1;
    }
    assert(text@.subrange(0, old(text)@.len() as int) =~= old(text)@);
    Ok(())
}

proof fn lemma_nodes_text_none(v: Vec<FileTree>, i: int, n: int, depth: nat)
    requires
        0 < i <= n <= v.len(),
        nodes_text(v, i, depth) is None,
    ensures
        nodes_text(v, n, depth) is None,
    decreases n - i,
{
    if i < n {
        lemma_nodes_text_none(v, i + 1, n, depth);
    }
}

fn is_main(key: &str) -> (r: bool)
    ensures
        r == (key@ == seq!['m', 'a', 'i', 'n']),
{
    if key.unicode_len() != 4 {
        return false;
    }
    let r = key.get_char(0) == 'm' && key.get_char(1) == 'a' && key.get_char(2) == 'i'
        && key.get_char(3) == 'n';
    assert(r ==> key@ =~= seq!['m', 'a', 'i', 'n']);
    r
}

/// Writes one group: its marker line, unless it is `main`, then its nodes.
fn add_group_to_tsml(text: &mut String, key: &str, files: &Vec<FileTree>) -> (r: Result<
    (),
    TsmlError,
>)
    requires
        nodes_height(*files, files.len() as int) <= usize::MAX,
        nodes_tags_ok(*files, files.len() as int),
    ensures
        extends(old(text)@ + group_header(key@), final(text)@),
        r is Ok <==> group_text(key@, *files) is Some,
        r is Ok ==> final(text)@ == old(text)@ + group_text(key@, *files)->Some_0,
        r is Err ==> r matches Err(TsmlError::PathWithoutName),
{
    if !is_main(key) {
        let mut end = key.unicode_len();
        assert(key@.subrange(0, end as int) == key@);
        while end > 0 && key.get_char(end - 1) == '/'
            invariant
                end <= key@.len(),
                trim_slashes(key@) == trim_slashes(key@.subrange(0, end as int)),
            decreases end,
        {
            assert(key@.subrange(0, end as int).drop_last() == key@.subrange(0, end - 1));
            end = end - 1;
        }
        assert(trim_slashes(key@) == key@.subrange(0, end as int));
        push_chars(text, "- [");
        let mut i: usize = 0;
        let ghost start = text@;
        while i < end
            invariant
                end <= key@.len(),
                i <= end,
                text@ == start + key@.subrange(0, i as int),
            decreases end - i,
        {
            push_char(text, key.get_char(i));
            assert(key@.subrange(0, i + 1) == key@.subrange(0, i as int).push(key@[i as int]));
            i = i + 1;
        }
        push_chars(text, "]\n");
        proof {
            reveal_strlit("- [");
            reveal_strlit("]\n");
            assert(text@ == old(text)@ + (seq!['-', ' ', '['] + trim_slashes(key@) + seq![']', '\n']));
        }
    }
    let ghost mid = text@;
    assert(mid == old(text)@ + group_header(key@));
    let r = add_children(text, files, 0);
    assert(text@.subrange(0, mid.len() as int) =~= mid);
    if r.is_ok() {
        assert(text@ == old(text)@ + group_text(key@, *files)->Some_0);
    }
    r
}

/// The tsml text of a group mapping: each group in turn, separated by an
/// empty line. Fails when a node's name or a symlink's target has no final
/// path segment.
pub fn groups_to_tsml(groups: &Groups) -> (r: Result<String, TsmlError>)
    requires
        groups.wf(),
        forall|i: int|
            0 <= i < groups.map@.len() ==> nodes_tags_ok(
                #[trigger] groups.map@[i].1,
                groups.map@[i].1.len() as int,
            ),
        forall|i: int|
            0 <= i < groups.map@.len() ==> nodes_height(
                #[trigger] groups.map@[i].1,
                groups.map@[i].1.len() as int,
            ) <= usize::MAX,
    ensures
        r is Ok <==> groups_text(groups.map@, groups.map@.len() as int) is Some,
        r is Ok ==> r->Ok_0@ == groups_text(groups.map@, groups.map@.len() as int)->Some_0,
        r is Err ==> r matches Err(TsmlError::PathWithoutName),
{
    let mut text = String::new();
    let mut i: usize = 0;
    while i < groups.map.len()
        invariant
            i <= groups.map@.len(),
            forall|j: int|
                0 <= j < groups.map@.len() ==> nodes_height(
                    #[trigger] groups.map@[j].1,
                    groups.map@[j].1.len() as int,
                ) <= usize::MAX,
            forall|j: int|
                0 <= j < groups.map@.len() ==> nodes_tags_ok(
                    #[trigger] groups.map@[j].1,
                    groups.map@[j].1.len() as int,
                ),
            groups_text(groups.map@, i as int) is Some,
            text@ == groups_text(groups.map@, i as int)->Some_0,
        decreases groups.map@.len() - i,
    {
        if i != 0 {
            push_char(&mut text, '\n');
        }
        let (key, files) = &groups.map[i];
        let r = add_group_to_tsml(&mut text, key.as_str(), files);
        if r.is_err() {
            proof {
                lemma_groups_text_none(groups.map@, i as int + 1, groups.map@.len() as int);
            }
            return Err(TsmlError::PathWithoutName);
        }
        i = i + 1;
    }
    Ok(text)
}

proof fn lemma_groups_text_none(map: Seq<(String, Vec<FileTree>)>, i: int, n: int)
    requires
        0 < i <= n <= map.len(),
        groups_text(map, i) is None,
    ensures
        groups_text(map, n) is None,
    decreases n - i,
{
    if i < n {
        lemma_groups_text_none(map, i + 1, n);
    }
}

} // verus!
