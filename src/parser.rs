//! Turns a sequence of tokens into a group mapping.
//!
//! Two stacks rebuild the nesting from the flat token stream: one holds the
//! nodes read and not yet placed, the other how many of them belong to each
//! open bracket level, innermost last.
use vstd::prelude::*;
use crate::lexer::{LexToken, SpannedLexToken};
use crate::laws::lemma_group_order;
use crate::tree::{
    dedup, distinct, groups_wf, keys, map_nodes, nodes, push_char, push_chars, strs, tags_view, FileTree, GroupsMap, Node,
    Tags, TagsView, TsmlError,
};

verus! {

broadcast use vstd::std_specs::vec::axiom_vec_index_decreases;

/// The kinds of parse errors.
#[derive(Debug)]
pub enum ParserErrorKind {
    /// The text ends while a bracket is still open.
    BracketUnclosed,
    /// A closing bracket with no open bracket to close.
    BracketUnexpectedClose,
    /// An opening bracket with no entry before it to turn into a directory.
    BracketUnexpectedOpen,
    /// A comma outside any brackets.
    CommasOutsideOfBrackets,
    /// A symlink arrow with no value after it.
    MissingSymlinkTarget,
    /// A tag list while another one is still waiting for its entry.
    TagAfterTag,
    /// A value right after another, with no separator between them.
    ValueAfterValue,
    /// A group marker inside brackets.
    GroupInsideBrackets,
    /// A group marker followed by something else than a newline.
    GroupNotFollowedByNewline,
    /// A symlink arrow that does not follow a value.
    UnexpectedSymlinkArrow,
}

/// Where a token stands: its line (from 1), its column (in bytes from the
/// start of the line, from 0) and its byte offset in the text.
#[derive(Debug, Clone, Copy)]
pub struct TokenPosition {
    pub line: usize,
    pub column: usize,
    pub start_index: usize,
}

impl TokenPosition {
    pub fn new(line: usize, column: usize, start_index: usize) -> (r: TokenPosition)
        ensures
            r.line == line,
            r.column == column,
            r.start_index == start_index,
    {
        TokenPosition { line, column, start_index }
    }
}

pub open spec fn is_newline(t: LexToken) -> bool {
    t is Separator && t->Separator_0 == '\n'
}

/// How parsing the tokens from index `i` on ends: `None` when it succeeds,
/// else the kind of the first error and the index of the token it is
/// reported at (for an unclosed bracket, the innermost one left open). The state is the bracket depth,
/// whether an entry was read at the innermost level since it was opened,
/// whether a value was read since the last separator, whether a non-empty
/// tag list waits for its entry, and whether the last entry read is a
/// symlink.
pub open spec fn outcome(
    ts: Seq<SpannedLexToken>,
    i: int,
    depth: nat,
    read: bool,
    busy: bool,
    tags_pending: bool,
    top_symlink: bool,
    opens: Seq<int>,
) -> Option<(ParserErrorKind, int)>
    decreases ts.len() - i,
{
    if i < 0 || i >= ts.len() {
        if depth != 0 {
            Some((ParserErrorKind::BracketUnclosed, opens.last()))
        } else {
            None
        }
    } else {
        match ts[i].token {
            LexToken::Value(_) => if busy {
                Some((ParserErrorKind::ValueAfterValue, i))
            } else if i + 1 < ts.len() && ts[i + 1].token is SymlinkArrow {
                if i + 2 < ts.len() && ts[i + 2].token is Value {
                    outcome(ts, i + 3, depth, true, true, false, true, opens)
                } else {
                    Some((ParserErrorKind::MissingSymlinkTarget, i + 1))
                }
            } else {
                outcome(ts, i + 1, depth, true, true, false, false, opens)
            },
            LexToken::OpenBracket => if !read || top_symlink {
                Some((ParserErrorKind::BracketUnexpectedOpen, i))
            } else {
                outcome(ts, i + 1, depth + 1, false, false, tags_pending, false, opens.push(i))
            },
            LexToken::CloseBracket => if depth == 0 {
                Some((ParserErrorKind::BracketUnexpectedClose, i))
            } else {
                outcome(ts, i + 1, (depth - 1) as nat, false, busy, tags_pending, false, opens.drop_last())
            },
            LexToken::Separator(c) => if depth == 0 && c == ',' {
                Some((ParserErrorKind::CommasOutsideOfBrackets, i))
            } else {
                outcome(ts, i + 1, depth, read, false, tags_pending, top_symlink, opens)
            },
            LexToken::Group(_) => if depth != 0 {
                Some((ParserErrorKind::GroupInsideBrackets, i))
            } else if i + 1 < ts.len() && !is_newline(ts[i + 1].token) {
                Some((ParserErrorKind::GroupNotFollowedByNewline, i))
            } else {
                outcome(ts, i + 1, depth, false, busy, false, false, opens)
            },
            LexToken::Tags(list) => if tags_pending {
                Some((ParserErrorKind::TagAfterTag, i))
            } else {
                outcome(ts, i + 1, depth, read, busy, list.len() > 0, top_symlink, opens)
            },
            LexToken::SymlinkArrow => Some((ParserErrorKind::UnexpectedSymlinkArrow, i)),
            _ => outcome(ts, i + 1, depth, read, busy, tags_pending, top_symlink, opens),
        }
    }
}

/// The number of newline separators among the first `n` tokens.
pub open spec fn newlines(ts: Seq<SpannedLexToken>, n: int) -> nat
    decreases n,
{
    if n <= 0 || n > ts.len() {
        0
    } else {
        newlines(ts, n - 1) + if is_newline(ts[n - 1].token) {
            1nat
        } else {
            0nat
        }
    }
}

/// The byte offset where the line of token `n` starts: just after the
/// last newline separator before it, or 0.
pub open spec fn line_start(ts: Seq<SpannedLexToken>, n: int) -> int
    decreases n,
{
    if n <= 0 || n > ts.len() {
        0
    } else if is_newline(ts[n - 1].token) {
        ts[n - 1].end as int
    } else {
        line_start(ts, n - 1)
    }
}

/// The position of token `k`: its line, its column in bytes from the
/// start of its line, and its byte offset.
pub open spec fn position_at(ts: Seq<SpannedLexToken>, k: int) -> TokenPosition {
    TokenPosition {
        line: (1 + newlines(ts, k)) as usize,
        column: if ts[k].start >= line_start(ts, k) {
            (ts[k].start - line_start(ts, k)) as usize
        } else {
            0
        },
        start_index: ts[k].start,
    }
}

/// How parsing a whole token sequence ends.
pub open spec fn parse_outcome(ts: Seq<SpannedLexToken>) -> Option<(ParserErrorKind, int)> {
    outcome(ts, 0, 0, false, false, false, false, seq![])
}

pub open spec fn main_name() -> Seq<char> {
    seq!['m', 'a', 'i', 'n']
}

/// The group names seen among the first `n` tokens, in the order in which
/// each was first seen, after `main`.
pub open spec fn seen_groups(ts: Seq<SpannedLexToken>, n: int) -> Seq<Seq<char>>
    decreases n,
{
    if n <= 0 || n > ts.len() {
        seq![main_name()]
    } else {
        let before = seen_groups(ts, n - 1);
        match ts[n - 1].token {
            LexToken::Group(g) => if before.contains(g@) {
                before
            } else {
                before.push(g@)
            },
            _ => before,
        }
    }
}

/// The number of opening brackets among the first `n` tokens.
pub open spec fn count_open(ts: Seq<SpannedLexToken>, n: int) -> nat
    decreases n,
{
    if n <= 0 || n > ts.len() {
        0
    } else {
        count_open(ts, n - 1) + if ts[n - 1].token is OpenBracket {
            1nat
        } else {
            0nat
        }
    }
}

/// The number of closing brackets among the first `n` tokens.
pub open spec fn count_close(ts: Seq<SpannedLexToken>, n: int) -> nat
    decreases n,
{
    if n <= 0 || n > ts.len() {
        0
    } else {
        count_close(ts, n - 1) + if ts[n - 1].token is CloseBracket {
            1nat
        } else {
            0nat
        }
    }
}

pub open spec fn node_path(n: Node) -> Seq<char> {
    match n {
        Node::Regular(p, _) => p,
        Node::Directory(p, _, _) => p,
        Node::Symlink(p, _, _) => p,
    }
}

pub open spec fn node_tags(n: Node) -> TagsView {
    match n {
        Node::Regular(_, t) => t,
        Node::Directory(_, _, t) => t,
        Node::Symlink(_, _, t) => t,
    }
}

/// Adds `ns` at the end of the entry of group `g`.
pub open spec fn add_to(m: Seq<(Seq<char>, Seq<Node>)>, g: Seq<char>, ns: Seq<Node>) -> Seq<
    (Seq<char>, Seq<Node>),
> {
    Seq::new(m.len(), |j: int| if m[j].0 == g { (m[j].0, m[j].1 + ns) } else { m[j] })
}

pub open spec fn names_of(m: Seq<(Seq<char>, Seq<Node>)>) -> Seq<Seq<char>> {
    m.map_values(|e: (Seq<char>, Seq<Node>)| e.0)
}

/// The group mapping that the tokens from index `i` on build, before
/// paths are flattened, from a node stack, a count stack, the current
/// group and the mapping built so far. A value pushes a node (a symlink
/// when an arrow and a target follow it) and counts it at the innermost
/// level; an opening bracket turns the last node into an empty directory
/// and opens a level; a closing bracket moves as many nodes as its level
/// counted into the directory before them; a group marker adds the group
/// if it is new, moves the stack to the current group and switches to it.
/// At the end the stack goes to the current group. A tag list waits, as
/// `pending`, for the next value, which takes it as its direct tags; one
/// that waits at a group marker becomes the group tags of every value up to
/// the next marker.
pub open spec fn build(
    ts: Seq<SpannedLexToken>,
    i: int,
    stack: Seq<Node>,
    counts: Seq<usize>,
    group: Seq<char>,
    m: Seq<(Seq<char>, Seq<Node>)>,
    pending: Seq<Seq<char>>,
    gtags: Seq<Seq<char>>,
) -> Seq<(Seq<char>, Seq<Node>)>
    decreases ts.len() - i,
{
    if i < 0 || i >= ts.len() {
        add_to(m, group, stack)
    } else {
        match ts[i].token {
            LexToken::Value(v) => {
                let c = counts.update(counts.len() - 1, (counts.last() + 1) as usize);
                let tags = Some((dedup(pending), dedup(gtags)));
                if i + 2 < ts.len() && ts[i + 1].token is SymlinkArrow && ts[i + 2].token is Value {
                    build(
                        ts,
                        i + 3,
                        stack.push(Node::Symlink(v@, ts[i + 2].token->Value_0@, tags)),
                        c,
                        group,
                        m,
                        seq![],
                        gtags,
                    )
                } else {
                    build(ts, i + 1, stack.push(Node::Regular(v@, tags)), c, group, m, seq![], gtags)
                }
            },
            LexToken::OpenBracket => build(
                ts,
                i + 1,
                stack.update(
                    stack.len() - 1,
                    Node::Directory(node_path(stack.last()), seq![], node_tags(stack.last())),
                ),
                counts.push(0),
                group,
                m,
                pending,
                gtags,
            ),
            LexToken::CloseBracket => {
                let k = stack.len() - counts.last();
                let base = stack.subrange(0, k);
                build(
                    ts,
                    i + 1,
                    base.update(
                        k - 1,
                        Node::Directory(
                            node_path(base[k - 1]),
                            stack.subrange(k, stack.len() as int),
                            node_tags(base[k - 1]),
                        ),
                    ),
                    counts.drop_last(),
                    group,
                    m,
                    pending,
                    gtags,
                )
            },
            LexToken::Group(g) => {
                let m1 = if names_of(m).contains(g@) {
                    m
                } else {
                    m.push((g@, seq![]))
                };
                build(ts, i + 1, seq![], seq![0], g@, add_to(m1, group, stack), seq![], pending)
            },
            LexToken::Tags(list) => build(ts, i + 1, stack, counts, group, m, strs(list@), gtags),
            _ => build(ts, i + 1, stack, counts, group, m, pending, gtags),
        }
    }
}

/// A node with its paths rewritten to start with `prefix`, recursively.
pub open spec fn flatten_node(n: Node, prefix: Seq<char>) -> Node
    decreases n,
{
    match n {
        Node::Regular(p, g) => Node::Regular(joined(prefix, p), g),
        Node::Symlink(p, t, g) => Node::Symlink(joined(prefix, p), t, g),
        Node::Directory(p, cs, g) => Node::Directory(
            joined(prefix, p),
            Seq::new(
                cs.len(),
                |i: int|
                    if 0 <= i < cs.len() {
                        flatten_node(cs[i], joined(prefix, p))
                    } else {
                        Node::Regular(seq![], None)
                    },
            ),
            g,
        ),
    }
}

/// Each group's nodes flattened from the group root.
pub open spec fn flatten_map(m: Seq<(Seq<char>, Seq<Node>)>) -> Seq<(Seq<char>, Seq<Node>)> {
    m.map_values(
        |e: (Seq<char>, Seq<Node>)| (e.0, e.1.map_values(|n: Node| flatten_node(n, seq![]))),
    )
}

/// The shapes of the group mapping that parsing the tokens yields, where
/// it succeeds.
pub open spec fn parse_spec(ts: Seq<SpannedLexToken>) -> Seq<(Seq<char>, Seq<Node>)> {
    flatten_map(raw_groups(ts))
}

/// The group mapping that the tokens build, before paths are flattened.
pub open spec fn raw_groups(ts: Seq<SpannedLexToken>) -> Seq<(Seq<char>, Seq<Node>)> {
    build(ts, 0, seq![], seq![0], main_name(), seq![(main_name(), seq![])], seq![], seq![])
}

/// `name` after `prefix`, with a `/` between them when `prefix` is not empty.
pub open spec fn joined(prefix: Seq<char>, name: Seq<char>) -> Seq<char> {
    if prefix.len() == 0 {
        name
    } else {
        prefix + seq!['/'] + name
    }
}

/// `new` is `orig` with each path rewritten to start at the group root:
/// the path of each node is that of its parent, then its own.
pub open spec fn flattened(orig: FileTree, new: FileTree, prefix: Seq<char>) -> bool
    decreases orig, 0int,
{
    &&& new.spec_path() == joined(prefix, orig.spec_path())
    &&& new.spec_extra() == orig.spec_extra()
    &&& match orig {
        FileTree::Regular { .. } => new is Regular,
        FileTree::Symlink { target_path, .. } => new is Symlink && new->Symlink_target_path
            == target_path,
        FileTree::Directory { children, .. } => new is Directory && new->Directory_children.len()
            == children.len() && all_flattened(
            children,
            new->Directory_children,
            new.spec_path(),
            children.len() as int,
        ),
    }
}

/// The first `n` nodes of `new` are those of `orig`, flattened under `prefix`.
pub open spec fn all_flattened(
    orig: Vec<FileTree>,
    new: Vec<FileTree>,
    prefix: Seq<char>,
    n: int,
) -> bool
    decreases orig, n,
{
    if n <= 0 || n > orig.len() {
        true
    } else {
        all_flattened(orig, new, prefix, n - 1) && flattened(orig[n - 1], new[n - 1], prefix)
    }
}

proof fn lemma_all_flattened(orig: Vec<FileTree>, new: Vec<FileTree>, prefix: Seq<char>, n: int, k: int)
    requires
        0 <= k < n <= orig.len(),
        all_flattened(orig, new, prefix, n),
    ensures
        flattened(orig[k], new[k], prefix),
    decreases n,
{
    if k < n - 1 {
        lemma_all_flattened(orig, new, prefix, n - 1, k);
    }
}

fn copy_names(v: &Vec<String>) -> (r: Vec<String>)
    ensures
        strs(r@) == strs(v@),
        r@.len() == v@.len(),
{
    let mut r: Vec<String> = Vec::new();
    let mut i: usize = 0;
    while i < v.len()
        invariant
            i <= v@.len(),
            strs(r@) == strs(v@).subrange(0, i as int),
        decreases v@.len() - i,
    {
        let ghost before = r@;
        r.push(v[i].clone());
        assert(strs(r@) =~= strs(before).push(v@[i as int]@));
        assert(strs(v@).subrange(0, i + 1) =~= strs(v@).subrange(0, i as int).push(v@[i as int]@));
        i = i + 1;
    }
    assert(strs(v@).subrange(0, i as int) =~= strs(v@));
    r
}

fn contains_name(v: &Vec<String>, s: &String) -> (r: bool)
    ensures
        r == strs(v@).contains(s@),
{
    let mut i: usize = 0;
    while i < v.len()
        invariant
            i <= v@.len(),
            forall|j: int| 0 <= j < i ==> v@[j]@ != s@,
        decreases v@.len() - i,
    {
        if v[i] == *s {
            assert(strs(v@)[i as int] == s@);
            return true;
        }
        i = i + 1;
    }
    assert(!strs(v@).contains(s@)) by {
        if strs(v@).contains(s@) {
            let k = choose|k: int| 0 <= k < strs(v@).len() && strs(v@)[k] == s@;
            assert(v@[k]@ == s@);
        }
    }
    false
}

/// Moves `files`, in order, to the end of the entry of `group`; an entry
/// is added for a group that has none.
fn update_map_group(map: &mut GroupsMap, group: &String, files: &mut Vec<FileTree>)
    ensures
        final(files)@.len() == 0,
        keys(old(map)@).contains(group@) && distinct(keys(old(map)@)) ==> map_nodes(final(map)@)
            == add_to(map_nodes(old(map)@), group@, nodes(old(files)@)),
        keys(old(map)@).contains(group@) ==> keys(final(map)@) == keys(old(map)@) && final(map)@.len()
            == old(map)@.len(),
        !keys(old(map)@).contains(group@) ==> final(map)@.len() == old(map)@.len() + 1
            && final(map)@.drop_last() == old(map)@ && final(map)@.last().0@ == group@ && final(map)@.last().1@ == old(files)@,
        forall|j: int|
            0 <= j < old(map)@.len() && old(map)@[j].0@ == group@ && (forall|k: int|
                0 <= k < j ==> old(map)@[k].0@ != group@) ==> final(map)@[j].0 == old(map)@[j].0
                && #[trigger] final(map)@[j].1@ == old(map)@[j].1@ + old(files)@,
        forall|j: int|
            0 <= j < old(map)@.len() && #[trigger] old(map)@[j].0@ != group@ ==> final(map)@[j]
                == old(map)@[j],
{
    let mut i: usize = 0;
    while i < map.len()
        invariant
            i <= map@.len(),
            map@ == old(map)@,
            files@ == old(files)@,
            forall|j: int| 0 <= j < i ==> map@[j].0@ != group@,
        decreases map@.len() - i,
    {
        if map[i].0 == *group {
            let ghost before = map@;
            let mut entry = map.remove(i);
            entry.1.append(files);
            let ghost e = entry;
            map.insert(i, entry);
            assert(map@ =~= before.update(i as int, e));
            assert(keys(map@) =~= keys(before));
            assert(keys(before)[i as int] == group@);
            proof {
                if distinct(keys(before)) {
                    let a = map_nodes(map@);
                    let b = add_to(map_nodes(before), group@, nodes(old(files)@));
                    assert forall|j: int| 0 <= j < a.len() implies a[j] == b[j] by {
                        if j != i {
                            assert(keys(before)[j] != keys(before)[i as int]);
                        } else {
                            assert(nodes(e.1@) =~= nodes(before[j].1@) + nodes(old(files)@));
                        }
                    }
                    assert(a =~= b);
                }
            }
            return;
        }
        i = i + 1;
    }
    assert(!keys(map@).contains(group@)) by {
        if keys(map@).contains(group@) {
            let k = choose|k: int| 0 <= k < keys(map@).len() && keys(map@)[k] == group@;
            assert(map@[k].0@ == group@);
        }
    }
    let mut moved = Vec::new();
    moved.append(files);
    map.push((group.clone(), moved));
}

proof fn lemma_flattened_node(orig: FileTree, new: FileTree, prefix: Seq<char>)
    requires
        flattened(orig, new, prefix),
    ensures
        new.node() == flatten_node(orig.node(), prefix),
    decreases orig, 0int,
{
    match orig {
        FileTree::Directory { path, children, .. } => {
            let nc = new->Directory_children;
            let p = new.spec_path();
            let a = new.node()->Directory_1;
            let b = flatten_node(orig.node(), prefix)->Directory_1;
            assert(a.len() == b.len());
            assert forall|i: int| 0 <= i < a.len() implies a[i] == b[i] by {
                lemma_all_flattened(children, nc, p, children.len() as int, i);
                lemma_flattened_node(children[i], nc[i], p);
                assert(a[i] == nc[i].node());
                assert(orig.node()->Directory_1[i] == children[i].node());
            }
            assert(a =~= b);
        },
        _ => {},
    }
}

proof fn lemma_all_flattened_ext(
    orig: Vec<FileTree>,
    a: Vec<FileTree>,
    b: Vec<FileTree>,
    prefix: Seq<char>,
    n: int,
)
    requires
        n <= a.len(),
        n <= b.len(),
        forall|k: int| 0 <= k < n ==> a[k] == b[k],
        all_flattened(orig, a, prefix, n),
    ensures
        all_flattened(orig, b, prefix, n),
    decreases n,
{
    if n > 0 && n <= orig.len() {
        lemma_all_flattened_ext(orig, a, b, prefix, n - 1);
    }
}

fn join_path(prefix: &String, name: &String) -> (r: String)
    ensures
        r@ == joined(prefix@, name@),
{
    let mut r = String::new();
    if prefix.as_str().unicode_len() > 0 {
        push_chars(&mut r, prefix.as_str());
        push_char(&mut r, '/');
    }
    push_chars(&mut r, name.as_str());
    r
}

/// Rewrites the path of a node and of all nodes below it so that each
/// starts with the paths of its ancestors.
fn propagate_to_children(ft: FileTree, accumulated_path: &String) -> (r: FileTree)
    ensures
        flattened(ft, r, accumulated_path@),
    decreases ft, 0int,
{
    match ft {
        FileTree::Regular { path, extra } => FileTree::Regular {
            path: join_path(accumulated_path, &path),
            extra,
        },
        FileTree::Symlink { path, target_path, extra } => FileTree::Symlink {
            path: join_path(accumulated_path, &path),
            target_path,
            extra,
        },
        FileTree::Directory { path, children, extra } => {
            let full = join_path(accumulated_path, &path);
            let new_children = propagate_all(children, &full);
            FileTree::Directory { path: full, children: new_children, extra }
        },
    }
}

fn propagate_all(children: Vec<FileTree>, prefix: &String) -> (r: Vec<FileTree>)
    ensures
        r.len() == children.len(),
        all_flattened(children, r, prefix@, children.len() as int),
    decreases children, 1int,
{
    let ghost orig = children;
    let mut rest = children;
    let mut out: Vec<FileTree> = Vec::new();
    let mut i: usize = 0;
    while rest.len() > 0
        invariant
            orig == children,
            i <= orig.len(),
            rest@ == orig@.subrange(i as int, orig.len() as int),
            out.len() == i,
            all_flattened(orig, out, prefix@, i as int),
        decreases rest.len(),
    {
        let c = rest.remove(0);
        assert(c == orig[i as int]);
        assert(decreases_to!(orig => c));
        let nc = propagate_to_children(c, prefix);
        let ghost before = out;
        out.push(nc);
        proof {
            lemma_all_flattened_ext(orig, before, out, prefix@, i as int);
        }
        i = i + 1;
    }
    out
}

/// Rewrites the paths of every group's nodes to start at the group root.
fn flatten_groups(map: GroupsMap) -> (r: GroupsMap)
    ensures
        map_nodes(r@) == flatten_map(map_nodes(map@)),
        r.len() == map.len(),
        keys(r@) == keys(map@),
        forall|j: int|
            0 <= j < map.len() ==> r[j].1.len() == map[j].1.len() && all_flattened(
                #[trigger] map[j].1,
                r[j].1,
                seq![],
                map[j].1.len() as int,
            ),
{
    let ghost orig = map;
    let mut rest = map;
    let mut out: GroupsMap = Vec::new();
    let mut i: usize = 0;
    while rest.len() > 0
        invariant
            i <= orig.len(),
            rest@ == orig@.subrange(i as int, orig.len() as int),
            out.len() == i,
            forall|j: int| 0 <= j < i ==> (#[trigger] out[j]).0@ == orig[j].0@,
            forall|j: int|
                0 <= j < i ==> out[j].1.len() == orig[j].1.len() && all_flattened(
                    #[trigger] orig[j].1,
                    out[j].1,
                    seq![],
                    orig[j].1.len() as int,
                ),
        decreases rest.len(),
    {
        let (name, files) = rest.remove(0);
        let root = String::new();
        let flat = propagate_all(files, &root);
        out.push((name, flat));
        i = i + 1;
    }
    assert(keys(out@) =~= keys(orig@));
    proof {
        let a = map_nodes(out@);
        let b = flatten_map(map_nodes(orig@));
        assert forall|j: int| 0 <= j < a.len() implies a[j] == b[j] by {
            let xs = nodes(out@[j].1@);
            let ys = map_nodes(orig@)[j].1.map_values(|n: Node| flatten_node(n, seq![]));
            assert forall|k: int| 0 <= k < xs.len() implies xs[k] == ys[k] by {
                lemma_all_flattened(orig[j].1, out[j].1, seq![], orig[j].1.len() as int, k);
                lemma_flattened_node(orig[j].1[k], out[j].1[k], seq![]);
            }
            assert(xs =~= ys);
        }
        assert(a =~= b);
    }
    out
}

/// The sum of a sequence of counts.
pub open spec fn sum(s: Seq<usize>) -> nat
    decreases s.len(),
{
    if s.len() == 0 {
        0
    } else {
        sum(s.drop_last()) + s.last() as nat
    }
}

/// Where the nodes of bracket level `k` end on the node stack: the last of
/// them is the directory that level `k + 1` fills.
pub open spec fn level_end(counts: Seq<usize>, k: int) -> int {
    sum(counts.subrange(0, k + 1)) as int
}

proof fn lemma_sum_prefix(s: Seq<usize>, m: int)
    requires
        0 <= m <= s.len(),
    ensures
        sum(s.subrange(0, m)) <= sum(s),
    decreases s.len(),
{
    if m < s.len() {
        assert(s.drop_last().subrange(0, m) == s.subrange(0, m));
        lemma_sum_prefix(s.drop_last(), m);
    } else {
        assert(s.subrange(0, m) == s);
    }
}

fn parser_error(position: TokenPosition, kind: ParserErrorKind) -> (r: TsmlError)
    ensures
        r == TsmlError::ParserError(position, kind),
{
    TsmlError::ParserError(position, kind)
}

/// Builds the group mapping from tokens: the groups in the order in which
/// they were first seen, `main` first, each with its top-level nodes, whose
/// paths are rewritten to start at the group root. Also returns the group
/// names in that order. Fails, with the position of the offending token,
/// exactly where `parse_outcome` gives an error.
#[verifier::rlimit(100)]
pub fn parse_tokens(spanned_tokens: Vec<SpannedLexToken>) -> (r: Result<
    (GroupsMap, Vec<String>),
    TsmlError,
>)
    requires
        spanned_tokens@.len() < usize::MAX,
    ensures
        r is Ok <==> parse_outcome(spanned_tokens@) is None,
        r is Err ==> r->Err_0 is ParserError && parse_outcome(spanned_tokens@) is Some
            && r->Err_0->ParserError_1 == parse_outcome(spanned_tokens@)->Some_0.0
            && r->Err_0->ParserError_0 == position_at(
            spanned_tokens@,
            parse_outcome(spanned_tokens@)->Some_0.1,
        ),
        r is Ok ==> strs(r->Ok_0.1@) == seen_groups(spanned_tokens@, spanned_tokens@.len() as int),
        r is Ok ==> keys(r->Ok_0.0@) == strs(r->Ok_0.1@),
        r is Ok ==> groups_wf(r->Ok_0.0@),
        r is Ok ==> map_nodes(r->Ok_0.0@) == parse_spec(spanned_tokens@),
        r is Ok ==> count_open(spanned_tokens@, spanned_tokens@.len() as int) == count_close(
            spanned_tokens@,
            spanned_tokens@.len() as int,
        ),
{
    let ghost ts = spanned_tokens@;
    let tokens = spanned_tokens;
    let n = tokens.len();
    let mut map: GroupsMap = Vec::new();
    let mut group_order: Vec<String> = Vec::new();
    let mut current_group = String::new();
    push_chars(&mut current_group, "main");
    proof {
        reveal_strlit("main");
    }
    assert(current_group@ =~= main_name());
    group_order.push(current_group.clone());
    map.push((current_group.clone(), Vec::new()));
    assert(strs(group_order@) =~= seq![main_name()]);
    assert(keys(map@) =~= strs(group_order@));
    assert(strs(group_order@)[0] == current_group@);

    let mut current_line: usize = 1;
    let mut current_line_start_index: usize = 0;
    let mut file_stack: Vec<FileTree> = Vec::new();
    let mut quantity_stack: Vec<usize> = Vec::new();
    quantity_stack.push(0);
    let mut busy = false;
    let mut already_read = false;
    let mut brackets_open_position: Vec<TokenPosition> = Vec::new();
    let mut depth: usize = 0;
    let mut group_tags: Vec<String> = Vec::new();
    let mut last_tags: Vec<String> = Vec::new();
    let ghost mut top_symlink = false;
    let ghost mut opens: Seq<int> = seq![];
    assert(quantity_stack@.drop_last() =~= seq![]);
    assert(quantity_stack@ =~= seq![0usize]);
    assert(nodes(file_stack@) =~= seq![]);
    assert(map_nodes(map@) =~= seq![(main_name(), seq![])]);
    assert(strs(last_tags@) =~= seq![]);
    assert(strs(group_tags@) =~= seq![]);
    let ghost init = build(
        ts,
        0,
        seq![],
        seq![0],
        main_name(),
        seq![(main_name(), seq![])],
        seq![],
        seq![],
    );
    assert(sum(quantity_stack@) == 0) by {
        assert(sum(quantity_stack@.drop_last()) == 0);
    }

    let mut i: usize = 0;
    while i < n
        invariant
            n == ts.len(),
            ts == spanned_tokens@,
            tokens@ == ts,
            i <= n,
            outcome(
                ts,
                i as int,
                depth as nat,
                already_read,
                busy,
                last_tags@.len() > 0,
                top_symlink,
                opens,
            ) == parse_outcome(ts),
            opens.len() == depth,
            n < usize::MAX,
            forall|k: int| 0 <= k < depth ==> 0 <= #[trigger] opens[k] < n,
            forall|k: int|
                0 <= k < depth ==> #[trigger] brackets_open_position@[k] == position_at(
                    ts,
                    opens[k],
                ),
            current_line == 1 + newlines(ts, i as int),
            newlines(ts, i as int) <= i,
            current_line_start_index == line_start(ts, i as int),
            depth <= i,
            depth == count_open(ts, i as int) - count_close(ts, i as int),
            brackets_open_position@.len() == depth,
            quantity_stack@.len() == depth + 1,
            file_stack@.len() == sum(quantity_stack@),
            file_stack@.len() <= i,
            forall|k: int| 0 <= k < depth ==> quantity_stack@[k] > 0,
            forall|k: int|
                0 <= k < depth ==> #[trigger] level_end(quantity_stack@, k) >= 1 && file_stack@[level_end(
                    quantity_stack@,
                    k,
                ) - 1] is Directory,
            already_read ==> quantity_stack@.last() > 0,
            already_read ==> (file_stack@.last() is Symlink) == top_symlink,
            strs(group_order@) == seen_groups(ts, i as int),
            keys(map@) == strs(group_order@),
            strs(group_order@).contains(current_group@),
            build(
                ts,
                i as int,
                nodes(file_stack@),
                quantity_stack@,
                current_group@,
                map_nodes(map@),
                strs(last_tags@),
                strs(group_tags@),
            ) == init,
            init == build(
                ts,
                0,
                seq![],
                seq![0],
                main_name(),
                seq![(main_name(), seq![])],
                seq![],
                seq![],
            ),
        decreases n - i,
    {
        let start = tokens[i].start;
        let current_column = if start >= current_line_start_index {
            start - current_line_start_index
        } else {
            0
        };
        let position = TokenPosition::new(current_line, current_column, start);
        assert(position == position_at(ts, i as int));
        let mut step: usize = 1;
        let ghost q0 = quantity_stack@;
        let ghost f0 = file_stack@;
        match &tokens[i].token {
            LexToken::Value(value) => {
                if busy {
                    return Err(parser_error(position, ParserErrorKind::ValueAfterValue));
                }
                proof {
                    lemma_sum_prefix(q0, depth as int);
                }
                let q = quantity_stack.pop().unwrap();
                quantity_stack.push(q + 1);
                busy = true;
                already_read = true;

                let tags = Tags::from_lists(&last_tags, &group_tags);
                let mut file = FileTree::new_regular_with_extra(value.as_str(), Some(tags));
                last_tags = Vec::new();
                assert(strs(last_tags@) =~= seq![]);

                proof {
                    top_symlink = false;
                }
                if i + 1 < n && matches!(tokens[i + 1].token, LexToken::SymlinkArrow) {
                    let arrow_start = tokens[i + 1].start;
                    let arrow_column = if arrow_start >= current_line_start_index {
                        arrow_start - current_line_start_index
                    } else {
                        0
                    };
                    let arrow = TokenPosition::new(current_line, arrow_column, arrow_start);
                    proof {
                        assert(newlines(ts, i + 1) == newlines(ts, i as int));
                        assert(line_start(ts, i + 1) == line_start(ts, i as int));
                        assert(arrow == position_at(ts, i + 1));
                    }
                    if i + 2 < n {
                        match &tokens[i + 2].token {
                            LexToken::Value(target) => {
                                file.to_symlink(target.as_str());
                                step = 3;
                                proof {
                                    top_symlink = true;
                                }
                            },
                            _ => {
                                return Err(
                                    parser_error(arrow, ParserErrorKind::MissingSymlinkTarget),
                                );
                            },
                        }
                    } else {
                        return Err(parser_error(arrow, ParserErrorKind::MissingSymlinkTarget));
                    }
                }
                let ghost fnode = file.node();
                file_stack.push(file);
                proof {
                    let q1 = quantity_stack@;
                    assert(q1 =~= q0.update(q0.len() - 1, (q0.last() + 1) as usize));
                    assert(nodes(file_stack@) =~= nodes(f0).push(fnode));
                    assert(q1.drop_last() =~= q0.drop_last());
                    assert forall|k: int| 0 <= k < depth implies #[trigger] level_end(q1, k) >= 1
                        && file_stack@[level_end(q1, k) - 1] is Directory by {
                        assert(q1.subrange(0, k + 1) =~= q0.subrange(0, k + 1));
                        assert(level_end(q0, k) >= 1);
                        lemma_sum_prefix(q0, k + 1);
                    }
                }
            },
            LexToken::DoubleDots => {},
            LexToken::OpenBracket => {
                busy = false;
                if !already_read {
                    return Err(parser_error(position, ParserErrorKind::BracketUnexpectedOpen));
                }
                let mut top = file_stack.pop().unwrap();
                if matches!(top, FileTree::Symlink { .. }) {
                    return Err(parser_error(position, ParserErrorKind::BracketUnexpectedOpen));
                }
                let ghost b0 = brackets_open_position@;
                let ghost o0 = opens;
                brackets_open_position.push(position);
                proof {
                    opens = opens.push(i as int);
                    assert forall|k: int| 0 <= k < depth + 1 implies 0 <= opens[k] < n
                        && #[trigger] brackets_open_position@[k] == position_at(ts, opens[k]) by {
                        if k < depth {
                            assert(brackets_open_position@[k] == b0[k]);
                            assert(opens[k] == o0[k]);
                        }
                    }
                }
                let ghost top_before = top;
                let empty: Vec<FileTree> = Vec::new();
                assert(nodes(empty@) =~= seq![]);
                top.to_directory(empty);
                file_stack.push(top);
                proof {
                    assert(node_path(top_before.node()) == top_before.spec_path());
                    assert(node_tags(top_before.node()) == tags_view(top_before.spec_extra()));
                    assert(f0.last() == top_before);
                    assert(nodes(file_stack@) =~= nodes(f0).update(
                        f0.len() - 1,
                        Node::Directory(
                            node_path(nodes(f0).last()),
                            seq![],
                            node_tags(nodes(f0).last()),
                        ),
                    ));
                }
                depth = depth + 1;
                quantity_stack.push(0);
                already_read = false;
                proof {
                    let q1 = quantity_stack@;
                    assert(q1.drop_last() =~= q0);
                    assert forall|k: int| 0 <= k < depth implies #[trigger] level_end(q1, k) >= 1
                        && file_stack@[level_end(q1, k) - 1] is Directory by {
                        if k < depth - 1 {
                            assert(q1.subrange(0, k + 1) =~= q0.subrange(0, k + 1));
                            assert(level_end(q0, k) >= 1);
                            lemma_sum_prefix(q0, k + 1);
                        } else {
                            assert(q1.subrange(0, k + 1) =~= q0);
                        }
                    }
                }
            },
            LexToken::CloseBracket => {
                if depth == 0 {
                    return Err(parser_error(position, ParserErrorKind::BracketUnexpectedClose));
                }
                let ghost b0 = brackets_open_position@;
                let ghost o0 = opens;
                brackets_open_position.pop();
                proof {
                    opens = opens.drop_last();
                    assert forall|k: int| 0 <= k < depth - 1 implies 0 <= opens[k] < n
                        && #[trigger] brackets_open_position@[k] == position_at(ts, opens[k]) by {
                        assert(brackets_open_position@[k] == b0[k]);
                        assert(opens[k] == o0[k]);
                    }
                }
                already_read = false;
                depth = depth - 1;
                let quantity_in_group = quantity_stack.pop().unwrap();
                proof {
                    assert(quantity_stack@ =~= q0.drop_last());
                    assert(q0.subrange(0, depth + 1) =~= q0.drop_last());
                    assert(level_end(q0, depth as int) >= 1);
                }
                let children = file_stack.split_off(file_stack.len() - quantity_in_group);
                let ghost kept = file_stack@;
                let mut top = file_stack.pop().unwrap();
                let ghost top_before = top;
                let ghost moved = children@;
                top.to_directory(children);
                file_stack.push(top);
                proof {
                    let k = f0.len() - quantity_in_group;
                    assert(node_path(top_before.node()) == top_before.spec_path());
                    assert(node_tags(top_before.node()) == tags_view(top_before.spec_extra()));
                    assert(nodes(moved) =~= nodes(f0).subrange(k, f0.len() as int));
                    assert(nodes(kept) =~= nodes(f0).subrange(0, k));
                    assert(nodes(file_stack@) =~= nodes(f0).subrange(0, k).update(
                        k - 1,
                        Node::Directory(
                            node_path(nodes(f0).subrange(0, k)[k - 1]),
                            nodes(f0).subrange(k, f0.len() as int),
                            node_tags(nodes(f0).subrange(0, k)[k - 1]),
                        ),
                    ));
                }
                proof {
                    top_symlink = false;
                    let q1 = quantity_stack@;
                    assert forall|k: int| 0 <= k < depth implies #[trigger] level_end(q1, k) >= 1
                        && file_stack@[level_end(q1, k) - 1] is Directory by {
                        assert(q1.subrange(0, k + 1) =~= q0.subrange(0, k + 1));
                        assert(level_end(q0, k) >= 1);
                        lemma_sum_prefix(q1, k + 1);
                    }
                }
            },
            LexToken::Separator(separator) => {
                if depth == 0 && *separator == ',' {
                    return Err(parser_error(position, ParserErrorKind::CommasOutsideOfBrackets));
                }
                busy = false;
                if *separator == '\n' {
                    current_line = current_line + 1;
                    current_line_start_index = tokens[i].end;
                }
            },
            LexToken::Group(group) => {
                if depth != 0 {
                    return Err(parser_error(position, ParserErrorKind::GroupInsideBrackets));
                }
                if i + 1 < n {
                    let newline = match &tokens[i + 1].token {
                        LexToken::Separator(c) => *c == '\n',
                        _ => false,
                    };
                    if !newline {
                        return Err(
                            parser_error(position, ParserErrorKind::GroupNotFollowedByNewline),
                        );
                    }
                }
                let seen = contains_name(&group_order, group);
                let ghost m0 = map_nodes(map@);
                assert(names_of(m0) =~= keys(map@));
                if !seen {
                    let ghost before = group_order@;
                    group_order.push(group.clone());
                    let empty: Vec<FileTree> = Vec::new();
                    assert(nodes(empty@) =~= seq![]);
                    map.push((group.clone(), empty));
                    assert(map_nodes(map@) =~= m0.push((group@, seq![])));
                    assert(strs(group_order@) =~= strs(before).push(group@));
                    assert(keys(map@) =~= strs(group_order@));
                    assert(strs(before) =~= strs(group_order@).drop_last());
                    assert(strs(before).contains(current_group@));
                    assert(strs(group_order@).contains(current_group@)) by {
                        let k = choose|k: int| 0 <= k < strs(before).len() && strs(before)[k] == current_group@;
                        assert(strs(group_order@)[k] == current_group@);
                    }
                }
                assert(strs(group_order@).contains(group@)) by {
                    if !seen {
                        assert(strs(group_order@)[group_order@.len() - 1] == group@);
                    }
                }
                proof {
                    if !seen {
                        assert(map_nodes(map@) =~= m0.push((group@, seq![])));
                    }
                    lemma_group_order(ts, i + 1);
                }
                let ghost m1 = map_nodes(map@);
                update_map_group(&mut map, &current_group, &mut file_stack);
                assert(map_nodes(map@) == add_to(m1, current_group@, nodes(f0)));
                current_group = group.clone();
                group_tags = last_tags;
                last_tags = Vec::new();
                assert(strs(last_tags@) =~= seq![]);
                quantity_stack = Vec::new();
                quantity_stack.push(0);
                already_read = false;
                proof {
                    top_symlink = false;
                    assert(quantity_stack@.drop_last() =~= seq![]);
                    assert(sum(quantity_stack@.drop_last()) == 0);
                    assert(quantity_stack@ =~= seq![0usize]);
                    assert(nodes(file_stack@) =~= seq![]);
                }
            },
            LexToken::Tags(tags) => {
                if last_tags.len() > 0 {
                    return Err(parser_error(position, ParserErrorKind::TagAfterTag));
                }
                last_tags = copy_names(tags);
            },
            LexToken::SymlinkArrow => {
                return Err(parser_error(position, ParserErrorKind::UnexpectedSymlinkArrow));
            },
            LexToken::LexError => {},
        }
        proof {
            if step == 3 {
                assert(seen_groups(ts, i + 2) == seen_groups(ts, i + 1));
                assert(seen_groups(ts, i + 3) == seen_groups(ts, i + 2));
                assert(count_open(ts, i + 2) == count_open(ts, i + 1));
                assert(count_open(ts, i + 3) == count_open(ts, i + 2));
                assert(count_close(ts, i + 2) == count_close(ts, i + 1));
                assert(count_close(ts, i + 3) == count_close(ts, i + 2));
                assert(newlines(ts, i + 2) == newlines(ts, i + 1));
                assert(newlines(ts, i + 3) == newlines(ts, i + 2));
                assert(line_start(ts, i + 2) == line_start(ts, i + 1));
                assert(line_start(ts, i + 3) == line_start(ts, i + 2));
            }
        }
        assert(forall|k: int| 0 <= k < depth ==> 0 <= #[trigger] opens[k] < n);
        assert(forall|k: int|
            0 <= k < depth ==> #[trigger] brackets_open_position@[k] == position_at(ts, opens[k]));
        i = i + step;
    }

    if depth != 0 {
        let position = brackets_open_position[depth - 1];
        return Err(parser_error(position, ParserErrorKind::BracketUnclosed));
    }
    proof {
        lemma_group_order(ts, n as int);
    }
    update_map_group(&mut map, &current_group, &mut file_stack);
    let map = flatten_groups(map);
    Ok((map, group_order))
}

} // verus!
