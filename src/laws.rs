//! Properties that relate the parser's results to its input.
use vstd::prelude::*;
use crate::lexer::{LexToken, SpannedLexToken};
use crate::parser::{
    flatten_node, joined, main_name, node_path, parse_spec, raw_groups, seen_groups,
};
use crate::tree::Node;

verus! {

/// Some group marker among the first `n` tokens names `g`.
pub open spec fn declared(ts: Seq<SpannedLexToken>, n: int, g: Seq<char>) -> bool {
    exists|k: int| 0 <= k < n && #[trigger] marker_names(ts[k].token, g)
}

pub open spec fn marker_names(t: LexToken, g: Seq<char>) -> bool {
    t is Group && t->Group_0@ == g
}

/// The group order starts with `main`, holds no name twice, and holds
/// exactly `main` and the names of the group markers among the tokens.
/// Its order is that of first appearance, as `seen_groups` builds it.
pub proof fn lemma_group_order(ts: Seq<SpannedLexToken>, n: int)
    requires
        0 <= n <= ts.len(),
    ensures
        seen_groups(ts, n).len() >= 1,
        seen_groups(ts, n)[0] == main_name(),
        forall|a: int, b: int|
            0 <= a < b < seen_groups(ts, n).len() ==> seen_groups(ts, n)[a] != seen_groups(ts, n)[b],
        forall|g: Seq<char>|
            #[trigger] seen_groups(ts, n).contains(g) <==> (g == main_name() || declared(ts, n, g)),
    decreases n,
{
    if n == 0 {
        assert forall|g: Seq<char>|
            #[trigger] seen_groups(ts, n).contains(g) <==> (g == main_name() || declared(ts, n, g)) by {
            if seen_groups(ts, n).contains(g) {
                assert(seen_groups(ts, n)[0] == g);
            }
            if g == main_name() {
                assert(seen_groups(ts, n)[0] == g);
            }
        }
    } else {
        lemma_group_order(ts, n - 1);
        let before = seen_groups(ts, n - 1);
        let now = seen_groups(ts, n);
        assert forall|g: Seq<char>| declared(ts, n - 1, g) implies declared(ts, n, g) by {
            let k = choose|k: int| 0 <= k < n - 1 && #[trigger] marker_names(ts[k].token, g);
            assert(marker_names(ts[k].token, g));
        }
        assert forall|g: Seq<char>| declared(ts, n, g) && !marker_names(ts[n - 1].token, g) implies declared(
            ts,
            n - 1,
            g,
        ) by {
            let k = choose|k: int| 0 <= k < n && #[trigger] marker_names(ts[k].token, g);
            assert(k < n - 1);
        }
        match ts[n - 1].token {
            LexToken::Group(name) => {
                assert(marker_names(ts[n - 1].token, name@));
                assert(declared(ts, n, name@));
                if !before.contains(name@) {
                    assert forall|a: int, b: int| 0 <= a < b < now.len() implies now[a] != now[b] by {
                        if b == now.len() - 1 {
                            assert(before[a] == now[a]);
                        }
                    }
                    assert forall|g: Seq<char>|
                        #[trigger] now.contains(g) <==> (g == main_name() || declared(ts, n, g)) by {
                        if now.contains(g) {
                            let i = choose|i: int| 0 <= i < now.len() && now[i] == g;
                            if i < now.len() - 1 {
                                assert(before[i] == g);
                                assert(before.contains(g));
                            }
                        }
                        if g == main_name() || declared(ts, n, g) {
                            if g == name@ {
                                assert(now[now.len() - 1] == g);
                            } else {
                                assert(!marker_names(ts[n - 1].token, g));
                                assert(before.contains(g));
                                let i = choose|i: int| 0 <= i < before.len() && before[i] == g;
                                assert(now[i] == g);
                            }
                        }
                    }
                }
            },
            _ => {
                assert(forall|g: Seq<char>| !#[trigger] marker_names(ts[n - 1].token, g));
            },
        }
    }
}

/// After flattening, the path of a directory's child is the directory's
/// flattened path, a `/`, then the child's own name: a directory `b`
/// holding `c` gives `b/c`. A top-level node keeps its own name.
pub proof fn lemma_child_path(n: Node, prefix: Seq<char>, k: int)
    requires
        n is Directory,
        0 <= k < n->Directory_1.len(),
    ensures
        flatten_node(n, prefix) is Directory,
        node_path(flatten_node(n, prefix)) == joined(prefix, node_path(n)),
        node_path(flatten_node(n, seq![])) == node_path(n),
        flatten_node(n, prefix)->Directory_1[k] == flatten_node(
            n->Directory_1[k],
            node_path(flatten_node(n, prefix)),
        ),
        node_path(flatten_node(n, prefix)->Directory_1[k]) == joined(
            node_path(flatten_node(n, prefix)),
            node_path(n->Directory_1[k]),
        ),
        prefix.len() == 0 && node_path(n).len() > 0 ==> node_path(
            flatten_node(n, prefix)->Directory_1[k],
        ) == node_path(n) + seq!['/'] + node_path(n->Directory_1[k]),
{
    let c = n->Directory_1[k];
    let p = node_path(flatten_node(n, prefix));
    assert(node_path(flatten_node(c, p)) == joined(p, node_path(c)));
}

/// The nodes that parsing yields are those that `build` assembles, each
/// flattened from its group root.
pub proof fn lemma_parse_flattens(ts: Seq<SpannedLexToken>, g: int, j: int)
    requires
        0 <= g < raw_groups(ts).len(),
        0 <= j < raw_groups(ts)[g].1.len(),
    ensures
        parse_spec(ts).len() == raw_groups(ts).len(),
        parse_spec(ts)[g].0 == raw_groups(ts)[g].0,
        parse_spec(ts)[g].1[j] == flatten_node(raw_groups(ts)[g].1[j], seq![]),
{
}

} // verus!
