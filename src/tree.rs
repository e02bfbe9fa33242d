//! The tree model: files, directories and symlinks, with their tags.
use vstd::prelude::*;

verus! {

broadcast use vstd::std_specs::vec::axiom_vec_index_decreases;

/// Relies on String::push: appends one character.
#[verifier::external_body]
pub(crate) fn push_char(text: &mut String, c: char)
    ensures
        final(text)@ == old(text)@.push(c),
{
    text.push(c)
}

pub(crate) fn push_chars(text: &mut String, s: &str)
    ensures
        final(text)@ == old(text)@ + s@,
{
    let n = s.unicode_len();
    let mut i: usize = 0;
    while i < n
        invariant
            n == s@.len(),
            i <= n,
            text@ == old(text)@ + s@.subrange(0, i as int),
        decreases n - i,
    {
        let c = s.get_char(i);
        push_char(text, c);
        assert(s@.subrange(0, i + 1) == s@.subrange(0, i as int).push(c));
        i = i + 1;
    }
    assert(s@.subrange(0, n as int) == s@);
}

/// The views of a sequence of strings.
pub open spec fn strs(v: Seq<String>) -> Seq<Seq<char>> {
    v.map_values(|s: String| s@)
}

/// Appends `s` to `v` unless a string equal to it is already there.
fn push_unique(v: &mut Vec<String>, s: String)
    ensures
        strs(old(v)@).contains(s@) ==> final(v)@ == old(v)@,
        !strs(old(v)@).contains(s@) ==> final(v)@ == old(v)@.push(s),
        distinct(strs(old(v)@)) ==> distinct(strs(final(v)@)),
{
    let mut i: usize = 0;
    while i < v.len()
        invariant
            i <= v@.len(),
            forall|j: int| 0 <= j < i ==> v@[j]@ != s@,
        decreases v@.len() - i,
    {
        if v[i] == s {
            assert(strs(v@)[i as int] == s@);
            return;
        }
        i = i + 1;
    }
    assert(!strs(v@).contains(s@)) by {
        if strs(v@).contains(s@) {
            let k = choose|k: int| 0 <= k < strs(v@).len() && strs(v@)[k] == s@;
            assert(v@[k]@ == s@);
        }
    }
    let ghost before = v@;
    let ghost sv = s@;
    v.push(s);
    proof {
        let a = strs(before);
        assert(strs(v@) =~= a.push(sv));
        if distinct(a) {
            assert forall|x: int, y: int| 0 <= x < y < a.len() + 1 implies a.push(sv)[x] != a.push(sv)[y] by {
                if y == a.len() && a[x] == sv {
                    assert(a.contains(sv));
                }
            }
        }
    }
}

/// No name stands twice.
pub open spec fn distinct(s: Seq<Seq<char>>) -> bool {
    forall|a: int, b: int| 0 <= a < b < s.len() ==> s[a] != s[b]
}

proof fn lemma_dedup(s: Seq<Seq<char>>)
    ensures
        distinct(dedup(s)),
    decreases s.len(),
{
    if s.len() > 0 {
        lemma_dedup(s.drop_last());
        let d = dedup(s.drop_last());
        if !d.contains(s.last()) {
            assert forall|a: int, b: int| 0 <= a < b < d.len() + 1 implies d.push(s.last())[a] != d.push(
                s.last(),
            )[b] by {
                if b == d.len() && d[a] == s.last() {
                    assert(d.contains(s.last()));
                }
            }
        }
    }
}

/// The names of `s` in order, each kept at its first appearance only.
pub open spec fn dedup(s: Seq<Seq<char>>) -> Seq<Seq<char>>
    decreases s.len(),
{
    if s.len() == 0 {
        seq![]
    } else {
        let d = dedup(s.drop_last());
        if d.contains(s.last()) {
            d
        } else {
            d.push(s.last())
        }
    }
}

/// The tags of a node: those written on the node itself, and those it
/// inherits from the group marker it was declared under.
#[derive(Debug)]
pub struct Tags {
    pub direct_tags: Vec<String>,
    pub group_tags: Vec<String>,
}

impl Tags {
    /// The direct tags, as character sequences.
    pub open spec fn direct(&self) -> Seq<Seq<char>> {
        strs(self.direct_tags@)
    }

    /// The group tags, as character sequences.
    pub open spec fn group(&self) -> Seq<Seq<char>> {
        strs(self.group_tags@)
    }

    /// Each direct tag name and each group tag name stands once.
    pub open spec fn wf(&self) -> bool {
        distinct(self.direct()) && distinct(self.group())
    }

    pub fn new() -> (r: Tags)
        ensures
            r.wf(),
            r.direct_tags@.len() == 0,
            r.group_tags@.len() == 0,
    {
        Tags { direct_tags: Vec::new(), group_tags: Vec::new() }
    }

    /// The tags with the given direct and group tag names, each name once.
    pub fn from_lists(direct: &Vec<String>, group: &Vec<String>) -> (r: Tags)
        ensures
            r.wf(),
            r.direct() == dedup(strs(direct@)),
            r.group() == dedup(strs(group@)),
    {
        proof {
            lemma_dedup(strs(direct@));
            lemma_dedup(strs(group@));
        }
        let mut tags = Tags::new();
        assert(strs(tags.direct_tags@) =~= dedup(strs(direct@).subrange(0, 0)));
        let mut j: usize = 0;
        while j < direct.len()
            invariant
                j <= direct@.len(),
                tags.direct() == dedup(strs(direct@).subrange(0, j as int)),
                tags.group_tags@.len() == 0,
            decreases direct@.len() - j,
        {
            let ghost before = tags.direct_tags@;
            tags.add_direct_tag(direct[j].clone());
            proof {
                let sub = strs(direct@).subrange(0, j + 1);
                assert(sub.drop_last() =~= strs(direct@).subrange(0, j as int));
                assert(strs(before.push(direct@[j as int])) =~= strs(before).push(direct@[j as int]@));
            }
            j = j + 1;
        }
        assert(strs(direct@).subrange(0, j as int) =~= strs(direct@));
        assert(strs(tags.group_tags@) =~= dedup(strs(group@).subrange(0, 0)));
        let mut j: usize = 0;
        while j < group.len()
            invariant
                j <= group@.len(),
                tags.direct() == dedup(strs(direct@)),
                tags.group() == dedup(strs(group@).subrange(0, j as int)),
            decreases group@.len() - j,
        {
            let ghost before = tags.group_tags@;
            tags.add_group_tag(group[j].clone());
            proof {
                let sub = strs(group@).subrange(0, j + 1);
                assert(sub.drop_last() =~= strs(group@).subrange(0, j as int));
                assert(strs(before.push(group@[j as int])) =~= strs(before).push(group@[j as int]@));
            }
            j = j + 1;
        }
        assert(strs(group@).subrange(0, j as int) =~= strs(group@));
        tags
    }

    /// Adds a direct tag; a name that is already there is not repeated.
    pub fn add_direct_tag(&mut self, tag: String)
        ensures
            old(self).wf() ==> final(self).wf(),
            final(self).group_tags@ == old(self).group_tags@,
            old(self).direct().contains(tag@) ==> final(self).direct_tags@ == old(self).direct_tags@,
            !old(self).direct().contains(tag@) ==> final(self).direct_tags@ == old(
                self,
            ).direct_tags@.push(tag),
    {
        push_unique(&mut self.direct_tags, tag);
    }

    /// Adds a group tag; a name that is already there is not repeated.
    pub fn add_group_tag(&mut self, tag: String)
        ensures
            old(self).wf() ==> final(self).wf(),
            final(self).direct_tags@ == old(self).direct_tags@,
            old(self).group().contains(tag@) ==> final(self).group_tags@ == old(self).group_tags@,
            !old(self).group().contains(tag@) ==> final(self).group_tags@ == old(
                self,
            ).group_tags@.push(tag),
    {
        push_unique(&mut self.group_tags, tag);
    }
}

/// The shape of a node: its kind, its path, a symlink's target and a
/// directory's children.
pub enum Node {
    Regular(Seq<char>, TagsView),
    Directory(Seq<char>, Seq<Node>, TagsView),
    Symlink(Seq<char>, Seq<char>, TagsView),
}

/// The direct and group tag names of a node, if it has tags.
pub type TagsView = Option<(Seq<Seq<char>>, Seq<Seq<char>>)>;

pub open spec fn tags_view(extra: Option<Tags>) -> TagsView {
    match extra {
        Some(t) => Some((t.direct(), t.group())),
        None => None,
    }
}

/// The shapes of a sequence of nodes.
pub open spec fn nodes(v: Seq<FileTree>) -> Seq<Node> {
    v.map_values(|t: FileTree| t.node())
}

/// The shapes of the entries of a group mapping.
pub open spec fn map_nodes(m: Seq<(String, Vec<FileTree>)>) -> Seq<(Seq<char>, Seq<Node>)> {
    m.map_values(|e: (String, Vec<FileTree>)| (e.0@, nodes(e.1@)))
}

proof fn lemma_directory_node(t: FileTree)
    requires
        t is Directory,
    ensures
        t.node() == Node::Directory(
            t.spec_path(),
            nodes(t->Directory_children@),
            tags_view(t.spec_extra()),
        ),
{
    let children = t->Directory_children;
    let cs = t.node()->Directory_1;
    assert(cs.len() == children@.len());
    assert forall|i: int| 0 <= i < cs.len() implies cs[i] == nodes(children@)[i] by {
        assert(cs[i] == children[i].node());
    }
    assert(nodes(children@) =~= cs);
}

/// A node of the tree. Each node has a path, relative to the root of its
/// group once parsing has finished, and optional tags.
#[derive(Debug)]
pub enum FileTree {
    Regular { path: String, extra: Option<Tags> },
    Directory { path: String, children: Vec<FileTree>, extra: Option<Tags> },
    Symlink { path: String, target_path: String, extra: Option<Tags> },
}

impl FileTree {
    pub open spec fn spec_path(&self) -> Seq<char> {
        match self {
            FileTree::Regular { path, .. } => path@,
            FileTree::Directory { path, .. } => path@,
            FileTree::Symlink { path, .. } => path@,
        }
    }

    /// The shape of this node and of those below it.
    pub open spec fn node(&self) -> Node
        decreases self,
    {
        match self {
            FileTree::Regular { path, extra } => Node::Regular(path@, tags_view(*extra)),
            FileTree::Symlink { path, target_path, extra } => Node::Symlink(
                path@,
                target_path@,
                tags_view(*extra),
            ),
            FileTree::Directory { path, children, extra } => Node::Directory(
                path@,
                Seq::new(
                    children@.len(),
                    |i: int|
                        if 0 <= i < children.len() {
                            children[i].node()
                        } else {
                            Node::Regular(seq![], None)
                        },
                ),
                tags_view(*extra),
            ),
        }
    }

    pub open spec fn spec_extra(&self) -> Option<Tags> {
        match self {
            FileTree::Regular { extra, .. } => *extra,
            FileTree::Directory { extra, .. } => *extra,
            FileTree::Symlink { extra, .. } => *extra,
        }
    }

    /// A regular file named `path`, with the given tags.
    pub fn new_regular_with_extra(path: &str, extra: Option<Tags>) -> (r: FileTree)
        ensures
            r is Regular,
            r.node() == Node::Regular(path@, tags_view(extra)),
            r.spec_path() == path@,
            r.spec_extra() == extra,
    {
        FileTree::Regular { path: path.to_string(), extra }
    }

    /// Turns a regular file into a symlink pointing at `target`.
    pub fn to_symlink(&mut self, target: &str)
        requires
            *old(self) is Regular,
        ensures
            *final(self) is Symlink,
            final(self)->Symlink_target_path@ == target@,
            final(self).node() == Node::Symlink(
                old(self).spec_path(),
                target@,
                tags_view(old(self).spec_extra()),
            ),
            final(self).spec_path() == old(self).spec_path(),
            final(self).spec_extra() == old(self).spec_extra(),
    {
        let mut node = FileTree::Regular { path: String::new(), extra: None };
        core::mem::swap(self, &mut node);
        if let FileTree::Regular { path, extra } = node {
            *self = FileTree::Symlink { path, target_path: target.to_string(), extra };
        }
    }

    /// Turns a regular file or a directory into a directory whose children
    /// are `children`.
    pub fn to_directory(&mut self, children: Vec<FileTree>)
        requires
            !(*old(self) is Symlink),
        ensures
            *final(self) is Directory,
            final(self)->Directory_children == children,
            final(self).node() == Node::Directory(
                old(self).spec_path(),
                nodes(children@),
                tags_view(old(self).spec_extra()),
            ),
            final(self).spec_path() == old(self).spec_path(),
            final(self).spec_extra() == old(self).spec_extra(),
    {
        let mut node = FileTree::Regular { path: String::new(), extra: None };
        core::mem::swap(self, &mut node);
        match node {
            FileTree::Regular { path, extra } => {
                *self = FileTree::Directory { path, children, extra };
            },
            FileTree::Directory { path, extra, .. } => {
                *self = FileTree::Directory { path, children, extra };
            },
            FileTree::Symlink { .. } => {},
        }
        proof {
            lemma_directory_node(*self);
        }
    }

    pub fn path(&self) -> (r: &String)
        ensures
            r@ == self.spec_path(),
    {
        match self {
            FileTree::Regular { path, .. } => path,
            FileTree::Directory { path, .. } => path,
            FileTree::Symlink { path, .. } => path,
        }
    }

    pub fn extra(&self) -> (r: &Option<Tags>)
        ensures
            *r == self.spec_extra(),
    {
        match self {
            FileTree::Regular { extra, .. } => extra,
            FileTree::Directory { extra, .. } => extra,
            FileTree::Symlink { extra, .. } => extra,
        }
    }

    /// The children of a directory; `None` for other nodes.
    pub fn children(&self) -> (r: Option<&Vec<FileTree>>)
        ensures
            self is Directory ==> r == Some(&self->Directory_children),
            !(self is Directory) ==> r is None,
    {
        match self {
            FileTree::Directory { children, .. } => Some(children),
            _ => None,
        }
    }
}

/// What can go wrong while reading or writing tsml.
#[derive(Debug)]
pub enum TsmlError {
    /// The text does not follow the notation; the position of the
    /// offending token comes with the kind of problem.
    ParserError(crate::parser::TokenPosition, crate::parser::ParserErrorKind),
    /// A name, or a symlink's target, has no final path segment to write.
    PathWithoutName,
}

/// Group names with the top-level nodes of each, in the order in which the
/// groups were first seen. Each name stands once.
#[derive(Debug)]
pub struct Groups {
    pub map: GroupsMap,
}

/// The first group is `main`, and no name stands twice.
pub open spec fn groups_wf(m: Seq<(String, Vec<FileTree>)>) -> bool {
    m.len() >= 1 && keys(m)[0] == seq!['m', 'a', 'i', 'n'] && distinct(keys(m))
}

impl Groups {
    pub open spec fn wf(&self) -> bool {
        groups_wf(self.map@)
    }
}

/// Group names, each with the top-level nodes declared under it.
pub type GroupsMap = Vec<(String, Vec<FileTree>)>;

/// The names of a group mapping, in order.
pub open spec fn keys(m: Seq<(String, Vec<FileTree>)>) -> Seq<Seq<char>> {
    m.map_values(|e: (String, Vec<FileTree>)| e.0@)
}

} // verus!
