//! The text that lists a graph.
use vstd::prelude::*;

use crate::graph::{GraphModel, HnswGraph, HnswGraphBuilder, Links};
use vstd::string::StringExecFns;

verus! {

/// A decimal digit.
pub open spec fn digit(d: nat) -> Seq<char> {
    if d == 0 {
        "0"@
    } else if d == 1 {
        "1"@
    } else if d == 2 {
        "2"@
    } else if d == 3 {
        "3"@
    } else if d == 4 {
        "4"@
    } else if d == 5 {
        "5"@
    } else if d == 6 {
        "6"@
    } else if d == 7 {
        "7"@
    } else if d == 8 {
        "8"@
    } else {
        "9"@
    }
}

/// A number in decimal.
pub open spec fn decimal(n: nat) -> Seq<char>
    decreases n,
{
    if n < 10 {
        digit(n)
    } else {
        decimal(n / 10) + digit(n % 10)
    }
}

fn digit_str(d: usize) -> (r: &'static str)
    requires
        d < 10,
    ensures
        r@ == digit(d as nat),
{
    if d == 0 {
        "0"
    } else if d == 1 {
        "1"
    } else if d == 2 {
        "2"
    } else if d == 3 {
        "3"
    } else if d == 4 {
        "4"
    } else if d == 5 {
        "5"
    } else if d == 6 {
        "6"
    } else if d == 7 {
        "7"
    } else if d == 8 {
        "8"
    } else {
        "9"
    }
}

fn push_decimal(text: &mut String, n: usize)
    ensures
        final(text)@ == old(text)@ + decimal(n as nat),
    decreases n,
{
    if n < 10 {
        text.append(digit_str(n));
    } else {
        push_decimal(text, n / 10);
        text.append(digit_str(n % 10));
        assert(text@ =~= old(text)@ + decimal(n as nat));
    }
}

/// The first `k` neighbours, each followed by a space.
pub open spec fn neighbour_list(links: Links, k: nat) -> Seq<char>
    decreases k,
{
    if k == 0 {
        Seq::empty()
    } else {
        neighbour_list(links, (k - 1) as nat) + decimal(links[k - 1].1 as nat) + " "@
    }
}

/// One line for each of the first `k` levels of a node.
pub open spec fn level_lines(node: Seq<Links>, k: nat) -> Seq<char>
    decreases k,
{
    if k == 0 {
        Seq::empty()
    } else {
        level_lines(node, (k - 1) as nat) + "level "@ + decimal((k - 1) as nat) + ": "@
            + neighbour_list(node[k - 1], node[k - 1].len()) + "\n"@
    }
}

/// The lines of the first `k` nodes.
pub open spec fn node_lines(g: GraphModel, k: nat) -> Seq<char>
    decreases k,
{
    if k == 0 {
        Seq::empty()
    } else {
        node_lines(g, (k - 1) as nat) + "node "@ + decimal((k - 1) as nat) + " has "@ + decimal(
            g.height(k - 1),
        ) + " levels\n"@ + level_lines(g.nodes[k - 1], g.height(k - 1))
    }
}

/// The listing of a graph: its entrypoint, and each node with its neighbours
/// level by level.
pub open spec fn listing(g: GraphModel) -> Seq<char> {
    "entrypoint "@ + decimal(g.entrypoint as nat) + " has "@ + decimal(
        g.height(g.entrypoint as int),
    ) + " levels\n"@ + node_lines(g, g.len())
}

/// Appends the lines of one node's levels.
fn push_levels(text: &mut String, graph: &HnswGraphBuilder, i: usize)
    requires
        i < graph@.len(),
    ensures
        final(text)@ == old(text)@ + level_lines(graph@.nodes[i as int], graph@.height(i as int)),
{
    let ghost node = graph@.nodes[i as int];
    let levels: usize = graph.nodes[i].num_levels();
    let mut level: usize = 0;
    assert(text@ =~= old(text)@ + level_lines(node, 0));
    while level < levels
        invariant
            i < graph@.len(),
            node == graph@.nodes[i as int],
            levels == node.len(),
            level <= levels,
            text@ == old(text)@ + level_lines(node, level as nat),
        decreases levels - level,
    {
        let ghost before = text@;
        text.append("level ");
        push_decimal(text, level);
        text.append(": ");
        let ghost lead = text@;
        let neighbours = graph.node_neighbours(i, level);
        let ghost links = node[level as int];
        let mut k: usize = 0;
        assert(text@ =~= lead + neighbour_list(links, 0));
        while k < neighbours.len()
            invariant
                k <= neighbours@.len(),
                neighbours@.len() == links.len(),
                forall|j: int| 0 <= j < links.len() ==> (#[trigger] neighbours@[j]).0 == links[j].1,
                text@ == lead + neighbour_list(links, k as nat),
            decreases neighbours@.len() - k,
        {
            push_decimal(text, neighbours[k].0);
            text.append(" ");
            assert(text@ =~= lead + neighbour_list(links, (k + 1) as nat));
            k = k + 1;
        }
        text.append("\n");
        assert(text@ =~= old(text)@ + level_lines(node, (level + 1) as nat));
        level = level + 1;
    }
}

/// Lists a graph.
pub fn list_graph(graph: &HnswGraphBuilder) -> (r: String)
    requires
        graph.entrypoint < graph@.len(),
    ensures
        r@ == listing(graph@),
{
    let ghost g = graph@;
    let mut text = String::new();
    text.append("entrypoint ");
    push_decimal(&mut text, graph.entrypoint);
    text.append(" has ");
    push_decimal(&mut text, graph.nodes[graph.entrypoint].num_levels());
    text.append(" levels\n");
    let ghost lead = text@;
    let mut i: usize = 0;
    assert(text@ =~= lead + node_lines(g, 0));
    while i < graph.nodes.len()
        invariant
            g == graph@,
            i <= g.len(),
            text@ == lead + node_lines(g, i as nat),
        decreases g.len() - i,
    {
        text.append("node ");
        push_decimal(&mut text, i);
        text.append(" has ");
        push_decimal(&mut text, graph.nodes[i].num_levels());
        text.append(" levels\n");
        push_levels(&mut text, graph, i);
        assert(text@ =~= lead + node_lines(g, (i + 1) as nat));
        i = i + 1;
    }
    assert(text@ =~= listing(g));
    text
}

/// The number that a text of decimal digits stands for.
pub open spec fn number_of(text: Seq<char>) -> nat
    decreases text.len(),
{
    if text.len() == 0 {
        0
    } else {
        10 * number_of(text.drop_last()) + (text.last() as nat - '0' as nat) as nat
    }
}

/// Whether a text is of decimal digits alone.
pub open spec fn all_digits(text: Seq<char>) -> bool {
    forall|i: int| 0 <= i < text.len() ==> '0' as nat <= (#[trigger] text[i]) as nat <= '9' as nat
}

proof fn lemma_digit(d: nat)
    requires
        d < 10,
    ensures
        digit(d).len() == 1,
        digit(d)[0] as nat == '0' as nat + d,
{
    reveal_strlit("0");
    reveal_strlit("1");
    reveal_strlit("2");
    reveal_strlit("3");
    reveal_strlit("4");
    reveal_strlit("5");
    reveal_strlit("6");
    reveal_strlit("7");
    reveal_strlit("8");
    reveal_strlit("9");
}

/// A number is written with decimal digits that stand for it, without a zero in
/// front of others.
pub proof fn law_numbers_are_written_in_decimal(n: nat)
    ensures
        all_digits(decimal(n)),
        number_of(decimal(n)) == n,
        decimal(n).len() > 0,
        decimal(n).len() > 1 ==> decimal(n)[0] != '0',
    decreases n,
{
    lemma_digit(n % 10);
    if n < 10 {
        let text = decimal(n);
        assert(text.drop_last() =~= Seq::empty());
        assert(number_of(text.drop_last()) == 0);
    } else {
        law_numbers_are_written_in_decimal(n / 10);
        let front = decimal(n / 10);
        let text = decimal(n);
        assert(text.drop_last() =~= front);
        assert(text.last() == digit(n % 10)[0]);
        assert forall|i: int| 0 <= i < text.len() implies '0' as nat <= (#[trigger] text[i]) as nat
            <= '9' as nat by {
            if i < front.len() {
                assert(text[i] == front[i]);
            }
        }
        assert(text[0] == front[0]);
        if front.len() == 1 {
            assert(number_of(front) == n / 10);
            assert(front.drop_last() =~= Seq::empty());
            assert(number_of(front.drop_last()) == 0);
        }
    }
}

/// The text that lists a graph names the entrypoint and the number of its levels
/// on the first line. A line for each node follows, with the number of its
/// levels, and behind it a line for each level, with the targets of all links
/// there in their order, each followed by a space.
pub proof fn law_listing_names_every_link(g: GraphModel)
    ensures
        listing(g) == "entrypoint "@ + decimal(g.entrypoint as nat) + " has "@ + decimal(
            g.nodes[g.entrypoint as int].len(),
        ) + " levels\n"@ + Seq::new(
            g.nodes.len(),
            |i: int|
                "node "@ + decimal(i as nat) + " has "@ + decimal(g.nodes[i].len()) + " levels\n"@
                    + Seq::new(
                    g.nodes[i].len(),
                    |level: int|
                        "level "@ + decimal(level as nat) + ": "@ + Seq::new(
                            g.nodes[i][level].len(),
                            |k: int| decimal(g.nodes[i][level][k].1 as nat) + " "@,
                        ).flatten() + "\n"@,
                ).flatten(),
        ).flatten(),
{
    let blocks = Seq::new(
        g.nodes.len(),
        |i: int|
            "node "@ + decimal(i as nat) + " has "@ + decimal(g.nodes[i].len()) + " levels\n"@
                + Seq::new(
                g.nodes[i].len(),
                |level: int|
                    "level "@ + decimal(level as nat) + ": "@ + Seq::new(
                        g.nodes[i][level].len(),
                        |k: int| decimal(g.nodes[i][level][k].1 as nat) + " "@,
                    ).flatten() + "\n"@,
            ).flatten(),
    );
    lemma_node_lines_flat(g, g.nodes.len(), blocks);
    assert(blocks.take(g.nodes.len() as int) =~= blocks);
}

proof fn lemma_neighbours_flat(links: Links, k: nat, words: Seq<Seq<char>>)
    requires
        k <= links.len(),
        words == Seq::new(links.len(), |k: int| decimal(links[k].1 as nat) + " "@),
    ensures
        neighbour_list(links, k) == words.take(k as int).flatten(),
    decreases k,
{
    if k == 0 {
        assert(words.take(0).len() == 0);
    } else {
        lemma_neighbours_flat(links, (k - 1) as nat, words);
        assert(words.take(k as int) =~= words.take(k - 1).push(words[k - 1]));
        words.take(k - 1).lemma_flatten_push(words[k - 1]);
        assert(neighbour_list(links, k) =~= neighbour_list(links, (k - 1) as nat) + words[k - 1]);
    }
}

proof fn lemma_level_lines_flat(node: Seq<Links>, k: nat, lines: Seq<Seq<char>>)
    requires
        k <= node.len(),
        lines == Seq::new(
            node.len(),
            |level: int|
                "level "@ + decimal(level as nat) + ": "@ + Seq::new(
                    node[level].len(),
                    |k: int| decimal(node[level][k].1 as nat) + " "@,
                ).flatten() + "\n"@,
        ),
    ensures
        level_lines(node, k) == lines.take(k as int).flatten(),
    decreases k,
{
    if k == 0 {
        assert(lines.take(0).len() == 0);
    } else {
        let l = k - 1;
        let links = node[l];
        let words = Seq::new(links.len(), |k: int| decimal(links[k].1 as nat) + " "@);
        lemma_level_lines_flat(node, l as nat, lines);
        lemma_neighbours_flat(links, links.len(), words);
        assert(words.take(links.len() as int) =~= words);
        assert(words =~= Seq::new(node[l].len(), |k: int| decimal(node[l][k].1 as nat) + " "@));
        assert(lines.take(k as int) =~= lines.take(l).push(lines[l]));
        lines.take(l).lemma_flatten_push(lines[l]);
        assert(level_lines(node, k) =~= level_lines(node, l as nat) + lines[l]);
    }
}

proof fn lemma_node_lines_flat(g: GraphModel, k: nat, blocks: Seq<Seq<char>>)
    requires
        k <= g.nodes.len(),
        blocks == Seq::new(
            g.nodes.len(),
            |i: int|
                "node "@ + decimal(i as nat) + " has "@ + decimal(g.nodes[i].len()) + " levels\n"@
                    + Seq::new(
                    g.nodes[i].len(),
                    |level: int|
                        "level "@ + decimal(level as nat) + ": "@ + Seq::new(
                            g.nodes[i][level].len(),
                            |k: int| decimal(g.nodes[i][level][k].1 as nat) + " "@,
                        ).flatten() + "\n"@,
                ).flatten(),
        ),
    ensures
        node_lines(g, k) == blocks.take(k as int).flatten(),
    decreases k,
{
    if k == 0 {
        assert(blocks.take(0).len() == 0);
    } else {
        let i = k - 1;
        let node = g.nodes[i];
        let lines = Seq::new(
            node.len(),
            |level: int|
                "level "@ + decimal(level as nat) + ": "@ + Seq::new(
                    node[level].len(),
                    |k: int| decimal(node[level][k].1 as nat) + " "@,
                ).flatten() + "\n"@,
        );
        lemma_node_lines_flat(g, i as nat, blocks);
        lemma_level_lines_flat(node, node.len(), lines);
        assert(lines.take(node.len() as int) =~= lines);
        assert(lines =~= Seq::new(
            g.nodes[i].len(),
            |level: int|
                "level "@ + decimal(level as nat) + ": "@ + Seq::new(
                    g.nodes[i][level].len(),
                    |k: int| decimal(g.nodes[i][level][k].1 as nat) + " "@,
                ).flatten() + "\n"@,
        ));
        assert(blocks.take(k as int) =~= blocks.take(i).push(blocks[i]));
        blocks.take(i).lemma_flatten_push(blocks[i]);
        assert(node_lines(g, k) =~= node_lines(g, i as nat) + blocks[i]);
    }
}

/// Whether two graphs have the same entrypoint, as many nodes, each as tall, and
/// links to the same nodes in the same order on every level.
pub open spec fn same_links(g: GraphModel, h: GraphModel) -> bool {
    &&& g.entrypoint == h.entrypoint
    &&& g.nodes.len() == h.nodes.len()
    &&& forall|i: int| 0 <= i < g.nodes.len() ==> (#[trigger] g.nodes[i]).len() == h.nodes[i].len()
    &&& forall|i: int, level: int|
        0 <= i < g.nodes.len() && 0 <= level < g.nodes[i].len() ==> (
        #[trigger] g.nodes[i][level]).len() == h.nodes[i][level].len()
    &&& forall|i: int, level: int, k: int|
        0 <= i < g.nodes.len() && 0 <= level < g.nodes[i].len() && 0 <= k
            < g.nodes[i][level].len() ==> (#[trigger] g.nodes[i][level][k]).1
            == h.nodes[i][level][k].1
}

/// Two graphs are listed alike only where they have the same entrypoint, nodes of
/// the same heights, and links to the same nodes.
pub proof fn law_listing_tells_graphs_apart(g: GraphModel, h: GraphModel)
    ensures
        listing(g) == listing(h) ==> same_links(g, h),
{
    if listing(g) == listing(h) {
        reveal_strlit(" has ");
        reveal_strlit(" levels\n");
        let p = g.nodes[g.entrypoint as int].len();
        let q = h.nodes[h.entrypoint as int].len();
        let a = " levels\n"@ + nodes_from(g, 0);
        let b = " levels\n"@ + nodes_from(h, 0);
        let s = " has "@ + (decimal(p) + a);
        let t = " has "@ + (decimal(q) + b);
        lemma_listing_from(g);
        lemma_listing_from(h);
        lemma_same_rest(
            "entrypoint "@,
            decimal(g.entrypoint as nat) + s,
            decimal(h.entrypoint as nat) + t,
        );
        assert(s[0] == " has "@[0] && t[0] == " has "@[0]);
        lemma_same_number(g.entrypoint as nat, h.entrypoint as nat, s, t);
        lemma_same_rest(" has "@, decimal(p) + a, decimal(q) + b);
        assert(a[0] == " levels\n"@[0] && b[0] == " levels\n"@[0]);
        lemma_same_number(p, q, a, b);
        lemma_same_rest(" levels\n"@, nodes_from(g, 0), nodes_from(h, 0));
        lemma_same_nodes(g, h, 0);
        assert forall|i: int, level: int|
            0 <= i < g.nodes.len() && 0 <= level < g.nodes[i].len() implies (
        #[trigger] g.nodes[i][level]).len() == h.nodes[i][level].len() by {
            assert(same_levels(g.nodes[i], h.nodes[i], 0));
        }
        assert forall|i: int, level: int, k: int|
            0 <= i < g.nodes.len() && 0 <= level < g.nodes[i].len() && 0 <= k
                < g.nodes[i][level].len() implies (#[trigger] g.nodes[i][level][k]).1
            == h.nodes[i][level][k].1 by {
            assert(same_levels(g.nodes[i], h.nodes[i], 0));
        }
    }
}

/// How texts are joined does not matter.
proof fn lemma_join(a: Seq<char>, b: Seq<char>, c: Seq<char>)
    ensures
        a + b + c == a + (b + c),
{
    assert(a + b + c =~= a + (b + c));
}

proof fn lemma_listing_from(g: GraphModel)
    ensures
        listing(g) == "entrypoint "@ + (decimal(g.entrypoint as nat) + (" has "@ + (decimal(
            g.nodes[g.entrypoint as int].len(),
        ) + (" levels\n"@ + nodes_from(g, 0))))),
{
    let e = decimal(g.entrypoint as nat);
    let p = decimal(g.nodes[g.entrypoint as int].len());
    let rest = nodes_from(g, 0);
    lemma_node_lines_from(g, 0);
    assert(node_lines(g, 0) + rest =~= rest);
    assert(listing(g) == "entrypoint "@ + e + " has "@ + p + " levels\n"@ + rest);
    lemma_join("entrypoint "@ + e + " has "@ + p, " levels\n"@, rest);
    lemma_join("entrypoint "@ + e + " has "@, p, " levels\n"@ + rest);
    lemma_join("entrypoint "@ + e, " has "@, p + (" levels\n"@ + rest));
    lemma_join("entrypoint "@, e, " has "@ + (p + (" levels\n"@ + rest)));
}

/// Texts that begin alike and are the same go on the same.
proof fn lemma_same_rest(front: Seq<char>, a: Seq<char>, b: Seq<char>)
    requires
        front + a == front + b,
    ensures
        a == b,
{
    assert((front + a).skip(front.len() as int) =~= a);
    assert((front + b).skip(front.len() as int) =~= b);
}

/// Texts that begin with a number, and go on with something else, are the same
/// only where the numbers are, and what follows.
proof fn lemma_same_number(m: nat, n: nat, a: Seq<char>, b: Seq<char>)
    requires
        decimal(m) + a == decimal(n) + b,
        a.len() > 0,
        b.len() > 0,
        (a[0] as nat) < '0' as nat,
        (b[0] as nat) < '0' as nat,
    ensures
        m == n,
        a == b,
{
    let x = decimal(m);
    let y = decimal(n);
    law_numbers_are_written_in_decimal(m);
    law_numbers_are_written_in_decimal(n);
    if x.len() < y.len() {
        assert((x + a)[x.len() as int] == a[0]);
        assert((y + b)[x.len() as int] == y[x.len() as int]);
    } else if y.len() < x.len() {
        assert((y + b)[y.len() as int] == b[0]);
        assert((x + a)[y.len() as int] == x[y.len() as int]);
    }
    assert(x =~= (x + a).take(x.len() as int));
    assert(y =~= (y + b).take(y.len() as int));
    lemma_same_rest(x, a, b);
}

/// The neighbours from the `k`th on, each followed by a space.
spec fn neighbours_from(links: Links, k: nat) -> Seq<char>
    decreases links.len() - k,
{
    if k >= links.len() {
        Seq::empty()
    } else {
        decimal(links[k as int].1 as nat) + (" "@ + neighbours_from(links, k + 1))
    }
}

/// The lines of the levels of a node from `k` on.
spec fn levels_from(node: Seq<Links>, k: nat) -> Seq<char>
    decreases node.len() - k,
{
    if k >= node.len() {
        Seq::empty()
    } else {
        "level "@ + (decimal(k) + (": "@ + (neighbours_from(node[k as int], 0) + ("\n"@
            + levels_from(node, k + 1)))))
    }
}

/// The lines of the nodes from `k` on.
spec fn nodes_from(g: GraphModel, k: nat) -> Seq<char>
    decreases g.nodes.len() - k,
{
    if k >= g.nodes.len() {
        Seq::empty()
    } else {
        "node "@ + (decimal(k) + (" has "@ + (decimal(g.nodes[k as int].len()) + (" levels\n"@ + (
        levels_from(g.nodes[k as int], 0) + nodes_from(g, k + 1))))))
    }
}

proof fn lemma_neighbour_list_from(links: Links, k: nat)
    requires
        k <= links.len(),
    ensures
        neighbour_list(links, links.len()) == neighbour_list(links, k) + neighbours_from(links, k),
    decreases links.len() - k,
{
    if k < links.len() {
        lemma_neighbour_list_from(links, k + 1);
        assert(neighbour_list(links, k + 1) + neighbours_from(links, k + 1) =~= neighbour_list(
            links,
            k,
        ) + neighbours_from(links, k));
    } else {
        assert(neighbour_list(links, k) + neighbours_from(links, k) =~= neighbour_list(links, k));
    }
}

proof fn lemma_level_lines_from(node: Seq<Links>, k: nat)
    requires
        k <= node.len(),
    ensures
        level_lines(node, node.len()) == level_lines(node, k) + levels_from(node, k),
    decreases node.len() - k,
{
    if k < node.len() {
        let links = node[k as int];
        lemma_level_lines_from(node, k + 1);
        lemma_neighbour_list_from(links, 0);
        assert(neighbour_list(links, links.len()) =~= neighbours_from(links, 0));
        let x = level_lines(node, k);
        let d = decimal(k);
        let w = neighbours_from(links, 0);
        let n = levels_from(node, k + 1);
        assert(level_lines(node, k + 1) == x + "level "@ + d + ": "@ + w + "\n"@);
        lemma_join(x + "level "@ + d + ": "@ + w, "\n"@, n);
        lemma_join(x + "level "@ + d + ": "@, w, "\n"@ + n);
        lemma_join(x + "level "@ + d, ": "@, w + ("\n"@ + n));
        lemma_join(x + "level "@, d, ": "@ + (w + ("\n"@ + n)));
        lemma_join(x, "level "@, d + (": "@ + (w + ("\n"@ + n))));
    } else {
        assert(level_lines(node, k) + levels_from(node, k) =~= level_lines(node, k));
    }
}

proof fn lemma_node_lines_from(g: GraphModel, k: nat)
    requires
        k <= g.nodes.len(),
    ensures
        node_lines(g, g.nodes.len()) == node_lines(g, k) + nodes_from(g, k),
    decreases g.nodes.len() - k,
{
    if k < g.nodes.len() {
        let node = g.nodes[k as int];
        lemma_node_lines_from(g, k + 1);
        lemma_level_lines_from(node, 0);
        assert(level_lines(node, node.len()) =~= levels_from(node, 0));
        let x = node_lines(g, k);
        let d = decimal(k);
        let p = decimal(node.len());
        let l = levels_from(node, 0);
        let n = nodes_from(g, k + 1);
        assert(node_lines(g, k + 1) == x + "node "@ + d + " has "@ + p + " levels\n"@ + l);
        lemma_join(x + "node "@ + d + " has "@ + p + " levels\n"@, l, n);
        lemma_join(x + "node "@ + d + " has "@ + p, " levels\n"@, l + n);
        lemma_join(x + "node "@ + d + " has "@, p, " levels\n"@ + (l + n));
        lemma_join(x + "node "@ + d, " has "@, p + (" levels\n"@ + (l + n)));
        lemma_join(x + "node "@, d, " has "@ + (p + (" levels\n"@ + (l + n))));
        lemma_join(x, "node "@, d + (" has "@ + (p + (" levels\n"@ + (l + n)))));
    } else {
        assert(node_lines(g, k) + nodes_from(g, k) =~= node_lines(g, k));
    }
}

proof fn lemma_same_neighbours(x: Links, y: Links, k: nat, a: Seq<char>, b: Seq<char>)
    requires
        k <= x.len(),
        k <= y.len(),
        neighbours_from(x, k) + ("\n"@ + a) == neighbours_from(y, k) + ("\n"@ + b),
    ensures
        x.len() == y.len(),
        forall|j: int| k <= j < x.len() ==> (#[trigger] x[j]).1 == y[j].1,
        a == b,
    decreases x.len() - k,
{
    reveal_strlit("\n");
    reveal_strlit(" ");
    let s = neighbours_from(x, k) + ("\n"@ + a);
    let t = neighbours_from(y, k) + ("\n"@ + b);
    if k < x.len() {
        law_numbers_are_written_in_decimal(x[k as int].1 as nat);
        assert(s[0] == decimal(x[k as int].1 as nat)[0]);
    } else {
        assert(s[0] == '\n');
    }
    if k < y.len() {
        law_numbers_are_written_in_decimal(y[k as int].1 as nat);
        assert(t[0] == decimal(y[k as int].1 as nat)[0]);
    } else {
        assert(t[0] == '\n');
    }
    if k < x.len() {
        let m = x[k as int].1 as nat;
        let n = y[k as int].1 as nat;
        let p = neighbours_from(x, k + 1) + ("\n"@ + a);
        let q = neighbours_from(y, k + 1) + ("\n"@ + b);
        assert(s =~= decimal(m) + (" "@ + p));
        assert(t =~= decimal(n) + (" "@ + q));
        lemma_same_number(m, n, " "@ + p, " "@ + q);
        lemma_same_rest(" "@, p, q);
        lemma_same_neighbours(x, y, k + 1, a, b);
    } else {
        assert(s =~= "\n"@ + a);
        assert(t =~= "\n"@ + b);
        lemma_same_rest("\n"@, a, b);
    }
}

/// Whether two nodes have links to the same nodes, in the same order, on every
/// level from `k` on.
spec fn same_levels(x: Seq<Links>, y: Seq<Links>, k: nat) -> bool {
    &&& forall|l: int| k <= l < x.len() ==> (#[trigger] x[l]).len() == y[l].len()
    &&& forall|l: int, j: int|
        k <= l < x.len() && 0 <= j < x[l].len() ==> (#[trigger] x[l][j]).1 == y[l][j].1
}

/// The line of a level, and what follows it.
proof fn lemma_level_then(x: Seq<Links>, k: nat, a: Seq<char>)
    requires
        k < x.len(),
    ensures
        levels_from(x, k) + a == "level "@ + (decimal(k) + (": "@ + (neighbours_from(x[k as int], 0)
            + ("\n"@ + (levels_from(x, k + 1) + a))))),
{
    let w = neighbours_from(x[k as int], 0);
    let n = levels_from(x, k + 1);
    lemma_join("level "@, decimal(k) + (": "@ + (w + ("\n"@ + n))), a);
    lemma_join(decimal(k), ": "@ + (w + ("\n"@ + n)), a);
    lemma_join(": "@, w + ("\n"@ + n), a);
    lemma_join(w, "\n"@ + n, a);
    lemma_join("\n"@, n, a);
}

proof fn lemma_same_levels(x: Seq<Links>, y: Seq<Links>, k: nat, a: Seq<char>, b: Seq<char>)
    requires
        x.len() == y.len(),
        k <= x.len(),
        levels_from(x, k) + a == levels_from(y, k) + b,
    ensures
        same_levels(x, y, k),
        a == b,
    decreases x.len() - k,
{
    if k < x.len() {
        let u = x[k as int];
        let v = y[k as int];
        let p = levels_from(x, k + 1) + a;
        let q = levels_from(y, k + 1) + b;
        let s = neighbours_from(u, 0) + ("\n"@ + p);
        let t = neighbours_from(v, 0) + ("\n"@ + q);
        lemma_level_then(x, k, a);
        lemma_level_then(y, k, b);
        lemma_same_rest("level "@, decimal(k) + (": "@ + s), decimal(k) + (": "@ + t));
        lemma_same_rest(decimal(k), ": "@ + s, ": "@ + t);
        lemma_same_rest(": "@, s, t);
        lemma_same_neighbours(u, v, 0, p, q);
        lemma_same_levels(x, y, k + 1, a, b);
    } else {
        assert(levels_from(x, k) + a =~= a);
        assert(levels_from(y, k) + b =~= b);
    }
}

proof fn lemma_same_nodes(g: GraphModel, h: GraphModel, k: nat)
    requires
        k <= g.nodes.len(),
        k <= h.nodes.len(),
        nodes_from(g, k) == nodes_from(h, k),
    ensures
        g.nodes.len() == h.nodes.len(),
        forall|i: int|
            k <= i < g.nodes.len() ==> (#[trigger] g.nodes[i]).len() == h.nodes[i].len()
                && same_levels(g.nodes[i], h.nodes[i], 0),
    decreases g.nodes.len() - k,
{
    reveal_strlit("node ");
    reveal_strlit(" has ");
    reveal_strlit(" levels\n");
    if k < g.nodes.len() && k < h.nodes.len() {
        let x = g.nodes[k as int];
        let y = h.nodes[k as int];
        let p = levels_from(x, 0) + nodes_from(g, k + 1);
        let q = levels_from(y, 0) + nodes_from(h, k + 1);
        let s = decimal(x.len()) + (" levels\n"@ + p);
        let t = decimal(y.len()) + (" levels\n"@ + q);
        lemma_same_rest("node "@, decimal(k) + (" has "@ + s), decimal(k) + (" has "@ + t));
        lemma_same_rest(decimal(k), " has "@ + s, " has "@ + t);
        lemma_same_rest(" has "@, s, t);
        assert((" levels\n"@ + p)[0] == " levels\n"@[0]);
        assert((" levels\n"@ + q)[0] == " levels\n"@[0]);
        lemma_same_number(x.len(), y.len(), " levels\n"@ + p, " levels\n"@ + q);
        lemma_same_rest(" levels\n"@, p, q);
        lemma_same_levels(x, y, 0, nodes_from(g, k + 1), nodes_from(h, k + 1));
        lemma_same_nodes(g, h, k + 1);
    } else {
        assert(k < g.nodes.len() ==> nodes_from(g, k).len() > 0);
        assert(k < h.nodes.len() ==> nodes_from(h, k).len() > 0);
    }
}

} // verus!
