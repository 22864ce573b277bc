use vstd::prelude::*;
use vstd::string::StringExecFns;
use crate::frontier::{views, Frontier};

verus! {

/// The line of one edge: `\t"<source>" -> "<target>"`.
pub open spec fn edge_line(source: Seq<char>, target: Seq<char>) -> Seq<char> {
    "\t\""@ + source + "\" -> \""@ + target + "\"\n"@
}

/// The lines of the edges from `source` to each of `targets`, in order.
pub open spec fn edge_lines(source: Seq<char>, targets: Seq<Seq<char>>) -> Seq<char>
    decreases targets.len(),
{
    if targets.len() == 0 {
        Seq::empty()
    } else {
        edge_lines(source, targets.drop_last()) + edge_line(source, targets.last())
    }
}

/// The lines of every edge of the graph, source by source.
pub open spec fn graph_lines(keys: Seq<Seq<char>>, edges: Seq<Seq<Seq<char>>>) -> Seq<char>
    decreases keys.len(),
{
    if keys.len() == 0 || edges.len() < keys.len() {
        Seq::empty()
    } else {
        graph_lines(keys.drop_last(), edges) + edge_lines(keys.last(), edges[keys.len() - 1])
    }
}

/// The graph as a directed graph in the DOT language.
pub open spec fn dot_of(keys: Seq<Seq<char>>, edges: Seq<Seq<Seq<char>>>) -> Seq<char> {
    "digraph G {\n"@ + graph_lines(keys, edges) + "}\n"@
}

/// Appends the lines of the edges from `source` to each of `targets`.
fn push_edge_lines(out: &mut String, source: &String, targets: &Vec<String>)
    ensures
        final(out)@ == old(out)@ + edge_lines(source@, views(targets@)),
{
    let ghost start = out@;
    let mut i: usize = 0;
    while i < targets.len()
        invariant
            i <= targets@.len(),
            out@ == start + edge_lines(source@, views(targets@).take(i as int)),
        decreases targets@.len() - i,
    {
        let ghost before = out@;
        out.append("\t\"");
        out.append(source.as_str());
        out.append("\" -> \"");
        out.append(targets[i].as_str());
        out.append("\"\n");
        assert(views(targets@).take(i + 1).drop_last() =~= views(targets@).take(i as int));
        assert(out@ =~= before + edge_line(source@, targets@[i as int]@));
        i = i + 1;
    }
    assert(views(targets@).take(i as int) =~= views(targets@));
}

/// The recorded graph as a directed graph in the DOT language: one line per
/// edge, source by source in the order their pages were recorded.
pub fn export_dot(frontier: &Frontier) -> (r: String)
    requires
        frontier.wf(),
    ensures
        r@ == dot_of(frontier@.graph_keys, frontier@.graph_edges),
{
    let ghost keys = frontier@.graph_keys;
    let ghost edges = frontier@.graph_edges;
    proof {
        frontier.lemma_wf_inv();
    }
    let mut out = String::new();
    out.append("digraph G {\n");
    let n = frontier.graph_len();
    let mut i: usize = 0;
    while i < n
        invariant
            frontier.wf(),
            n == keys.len(),
            keys.len() == edges.len(),
            keys == frontier@.graph_keys,
            edges == frontier@.graph_edges,
            i <= n,
            out@ == "digraph G {\n"@ + graph_lines(keys.take(i as int), edges),
        decreases n - i,
    {
        let ghost before = out@;
        push_edge_lines(&mut out, frontier.graph_site(i), frontier.graph_targets(i));
        assert(keys.take(i + 1).drop_last() =~= keys.take(i as int));
        assert(keys.take(i + 1).last() == keys[i as int]);
        i = i + 1;
    }
    assert(keys.take(i as int) =~= keys);
    out.append("}\n");
    out
}

} // verus!
