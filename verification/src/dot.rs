//! Export of the dependency graph in Graphviz DOT format.
//!
//! Node colours: `lightsalmon` for a file in a dependency cycle, `lightgreen` for a
//! stable leaf (imports nothing, imported by others), `lightblue` otherwise.
use vstd::prelude::*;
use vstd::string::*;

use crate::edges::EdgeList;
use crate::imports::{path_key, path_key_of, same_key, same_path};
use crate::model::{classify, coupling, coupling_text, edges_view, strings_view, Coupling, DepEntry, DepResult};
use crate::text::{
    chars_of, decimal, escape_quotes, needs_escape, well_escaped, file_name, file_name_range, push_all, push_char, push_decimal,
    push_escaped, push_range,
};

verus! {

/// A quoted DOT identifier for a path: the path between double quotes, each double
/// quote and each backslash in it escaped with a backslash.
pub open spec fn dot_id_text(path: Seq<char>) -> Seq<char> {
    seq!['"'] + escape_quotes(path) + seq!['"']
}

/// The node colour of a coupling class.
pub open spec fn colour_text(c: Coupling) -> Seq<char> {
    match c {
        Coupling::InCycle => "lightsalmon"@,
        Coupling::StableLeaf => "lightgreen"@,
        Coupling::Ordinary => "lightblue"@,
    }
}

/// The fill colour of an entry's node, by its coupling class.
pub open spec fn fillcolor_text(e: DepEntry) -> Seq<char> {
    colour_text(coupling(e))
}

/// The identifier (padded to one width) of the legend node of a coupling class.
pub open spec fn legend_id(c: Coupling) -> Seq<char> {
    match c {
        Coupling::InCycle => "l_cycle"@,
        Coupling::StableLeaf => "l_leaf "@,
        Coupling::Ordinary => "l_def  "@,
    }
}

/// The legend node of a coupling class: labelled with its name, filled with its colour.
pub open spec fn legend_node(c: Coupling) -> Seq<char> {
    "        "@ + legend_id(c) + " [label=\""@ + coupling_text(c) + "\", fillcolor="@ + colour_text(c)
        + ", style=filled, shape=box, fontsize=9];\n"@
}

/// The label of a node: the file name of its path, or the whole path when it has none.
pub open spec fn label_text(path: Seq<char>) -> Seq<char> {
    match file_name(path) {
        Some(f) => f,
        None => path,
    }
}

/// The DOT statement that declares an entry's node.
pub open spec fn node_line_text(e: DepEntry) -> Seq<char> {
    "    "@ + dot_id_text(e.path@) + " [label=\""@ + label_text(e.path@) + "\", fillcolor="@
        + fillcolor_text(e) + ", style=filled, tooltip=\""@ + e.path@ + "\\nfi="@
        + decimal(e.fan_in as nat) + " fo="@ + decimal(e.fan_out as nat) + "\"];\n"@
}

/// Whether `needle` occurs in `hay` at position `k`.
pub open spec fn occurs_at(hay: Seq<char>, needle: Seq<char>, k: int) -> bool {
    0 <= k && k + needle.len() <= hay.len() && hay.subrange(k, k + needle.len()) == needle
}

/// Whether `needle` occurs in `hay`.
pub open spec fn contains_text(hay: Seq<char>, needle: Seq<char>) -> bool {
    exists|k: int| #[trigger] occurs_at(hay, needle, k)
}

/// The opening of an entry's node statement up to its tooltip: its identifier, its
/// label, and the fill colour read off the entry's fields: `lightsalmon` for a cycle
/// member, `lightgreen` for a stable leaf (imports nothing, imported by others),
/// `lightblue` otherwise.
pub open spec fn node_decl(e: DepEntry) -> Seq<char> {
    "    "@ + dot_id_text(e.path@) + " [label=\""@ + label_text(e.path@) + "\", fillcolor="@ + (if e.in_cycle {
        "lightsalmon"@
    } else if e.fan_out == 0 && e.fan_in > 0 {
        "lightgreen"@
    } else {
        "lightblue"@
    }) + ", style=filled, tooltip=\""@
}

/// Every node statement fills the node with the colour of its file's coupling, read
/// off the entry's fields: `lightsalmon` for a cycle member, `lightgreen` for a stable
/// leaf (imports nothing, imported by others), `lightblue` otherwise.
pub proof fn lemma_node_line_colour(e: DepEntry)
    ensures
        contains_text(
            node_line_text(e),
            "\", fillcolor="@ + (if e.in_cycle {
                "lightsalmon"@
            } else if e.fan_out == 0 && e.fan_in > 0 {
                "lightgreen"@
            } else {
                "lightblue"@
            }) + ", style=filled, tooltip=\""@,
        ),
        node_decl(e).is_prefix_of(node_line_text(e)),
{
    let pre = "    "@ + dot_id_text(e.path@) + " [label=\""@ + label_text(e.path@);
    let post = e.path@ + "\\nfi="@ + decimal(e.fan_in as nat) + " fo="@ + decimal(e.fan_out as nat)
        + "\"];\n"@;
    let colour = if e.in_cycle {
        "lightsalmon"@
    } else if e.fan_out == 0 && e.fan_in > 0 {
        "lightgreen"@
    } else {
        "lightblue"@
    };
    let needle = "\", fillcolor="@ + colour + ", style=filled, tooltip=\""@;
    assert(fillcolor_text(e) == colour);
    assert(node_line_text(e) =~= pre + needle + post);
    assert(node_line_text(e).subrange(pre.len() as int, (pre.len() + needle.len()) as int) =~= needle);
    assert(occurs_at(node_line_text(e), needle, pre.len() as int));
    assert(node_decl(e) =~= pre + needle);
    lemma_prefix_suffix_of_concat(pre + needle, post);
}

proof fn lemma_nodes_text_concat(a: Seq<DepEntry>, b: Seq<DepEntry>)
    ensures
        nodes_text(a + b) == nodes_text(a) + nodes_text(b),
    decreases b.len(),
{
    if b.len() == 0 {
        assert(a + b =~= a);
        assert(nodes_text(a) + nodes_text(b) =~= nodes_text(a));
    } else {
        lemma_nodes_text_concat(a, b.drop_last());
        assert((a + b).drop_last() =~= a + b.drop_last());
        assert((a + b).last() == b.last());
        assert(nodes_text(a + b) =~= nodes_text(a) + nodes_text(b));
    }
}

proof fn lemma_occurs_extend(p: Seq<char>, h: Seq<char>, t: Seq<char>, d: Seq<char>, k: int)
    requires
        occurs_at(h, d, k),
    ensures
        occurs_at(p + h + t, d, k + p.len()),
{
    assert((p + h + t).subrange(k + p.len(), k + p.len() + d.len()) =~= h.subrange(k, k + d.len()));
}

proof fn lemma_node_decl_in_nodes(entries: Seq<DepEntry>, i: int)
    requires
        0 <= i < entries.len(),
    ensures
        contains_text(nodes_text(entries), node_decl(entries[i])),
{
    let e = entries[i];
    lemma_node_line_colour(e);
    let single = seq![e];
    assert(single.drop_last() =~= Seq::<DepEntry>::empty());
    assert(nodes_text(Seq::<DepEntry>::empty()) == Seq::<char>::empty());
    assert(nodes_text(single) =~= node_line_text(e));
    assert(entries =~= entries.take(i) + single + entries.skip(i + 1));
    lemma_nodes_text_concat(entries.take(i) + single, entries.skip(i + 1));
    lemma_nodes_text_concat(entries.take(i), single);
    let decl = node_decl(e);
    let line = node_line_text(e);
    assert(line.subrange(0, decl.len() as int) == decl);
    assert(occurs_at(line, decl, 0));
    lemma_occurs_extend(nodes_text(entries.take(i)), line, nodes_text(entries.skip(i + 1)), decl, 0);
}

/// The DOT document declares a node for every entry, filled with the colour of the
/// entry's coupling read off its fields: every cycle member is `lightsalmon`, every
/// stable leaf `lightgreen`, every other file `lightblue`.
pub proof fn lemma_dot_node_colours(entries: Seq<DepEntry>, edges: Seq<(Seq<char>, Seq<Seq<char>>)>)
    ensures
        forall|i: int| 0 <= i < entries.len() ==> contains_text(dot_text(entries, edges), #[trigger] node_decl(entries[i])),
{
    assert forall|i: int| 0 <= i < entries.len() implies contains_text(
        dot_text(entries, edges),
        #[trigger] node_decl(entries[i]),
    ) by {
        lemma_node_decl_in_nodes(entries, i);
        let decl = node_decl(entries[i]);
        let k = choose|k: int| #[trigger] occurs_at(nodes_text(entries), decl, k);
        let nl = "\n"@;
        let hay0 = header_text() + nodes_text(entries);
        lemma_occurs_extend(header_text(), nodes_text(entries), Seq::empty(), decl, k);
        assert(header_text() + nodes_text(entries) + Seq::<char>::empty() =~= hay0);
        let k0 = k + header_text().len();
        lemma_occurs_extend(Seq::empty(), hay0, nl, decl, k0);
        assert(Seq::<char>::empty() + hay0 + nl =~= hay0 + nl);
        let hay1 = hay0 + nl;
        let edge_text = edge_lines_text(emitted_edges(entry_keys(entries), edges));
        lemma_occurs_extend(Seq::empty(), hay1, edge_text, decl, k0);
        assert(Seq::<char>::empty() + hay1 + edge_text =~= hay1 + edge_text);
        let hay2 = hay1 + edge_text;
        lemma_occurs_extend(Seq::empty(), hay2, nl, decl, k0);
        assert(Seq::<char>::empty() + hay2 + nl =~= hay2 + nl);
        let hay3 = hay2 + nl;
        lemma_occurs_extend(Seq::empty(), hay3, legend_text(), decl, k0);
        assert(Seq::<char>::empty() + hay3 + legend_text() =~= hay3 + legend_text());
        let hay4 = hay3 + legend_text();
        lemma_occurs_extend(Seq::empty(), hay4, "}\n"@, decl, k0);
        assert(Seq::<char>::empty() + hay4 + "}\n"@ =~= hay4 + "}\n"@);
        assert(dot_text(entries, edges) == hay4 + "}\n"@);
    }
}

/// The node statements of all entries, in order.
pub open spec fn nodes_text(entries: Seq<DepEntry>) -> Seq<char>
    decreases entries.len(),
{
    if entries.len() == 0 {
        Seq::empty()
    } else {
        nodes_text(entries.drop_last()) + node_line_text(entries.last())
    }
}

/// The DOT statement of one edge.
pub open spec fn edge_line_text(src: Seq<char>, dst: Seq<char>) -> Seq<char> {
    "    "@ + dot_id_text(src) + " -> "@ + dot_id_text(dst) + ";\n"@
}

/// The edge statements of a list of edges, in order.
pub open spec fn edge_lines_text(pairs: Seq<(Seq<char>, Seq<char>)>) -> Seq<char>
    decreases pairs.len(),
{
    if pairs.len() == 0 {
        Seq::empty()
    } else {
        edge_lines_text(pairs.drop_last()) + edge_line_text(pairs.last().0, pairs.last().1)
    }
}

/// The edges from `src` to those of `dsts` that are known nodes, in the order of `dsts`.
pub open spec fn known_targets(known: Seq<Seq<i64>>, src: Seq<char>, dsts: Seq<Seq<char>>) -> Seq<
    (Seq<char>, Seq<char>),
>
    decreases dsts.len(),
{
    if dsts.len() == 0 {
        Seq::empty()
    } else if known.contains(path_key(dsts.last())) {
        known_targets(known, src, dsts.drop_last()).push((src, dsts.last()))
    } else {
        known_targets(known, src, dsts.drop_last())
    }
}

/// The edges drawn for one source: none when the source is not a known node.
pub open spec fn emitted_from(known: Seq<Seq<i64>>, src: Seq<char>, dsts: Seq<Seq<char>>) -> Seq<
    (Seq<char>, Seq<char>),
> {
    if known.contains(path_key(src)) {
        known_targets(known, src, dsts)
    } else {
        Seq::empty()
    }
}

/// All edges drawn for an adjacency list, source by source.
pub open spec fn emitted_edges(known: Seq<Seq<i64>>, edges: Seq<(Seq<char>, Seq<Seq<char>>)>) -> Seq<
    (Seq<char>, Seq<char>),
>
    decreases edges.len(),
{
    if edges.len() == 0 {
        Seq::empty()
    } else {
        emitted_edges(known, edges.drop_last()) + emitted_from(
            known,
            edges.last().0,
            edges.last().1,
        )
    }
}

/// The lines of the legend subgraph: a comment, the subgraph header, its style, one
/// node for each node colour (labelled as the coupling classes are named), and the
/// closing brace.
pub open spec fn legend_lines() -> Seq<Seq<char>> {
    seq![
        "    // Legend\n"@,
        "    subgraph cluster_legend {\n"@,
        "        label=\"Legend\"; style=dashed; fontsize=9;\n"@,
        legend_node(Coupling::InCycle),
        legend_node(Coupling::StableLeaf),
        legend_node(Coupling::Ordinary),
        "    }\n"@,
    ]
}

/// The legend subgraph: its lines, one after the other.
pub open spec fn legend_text() -> Seq<char> {
    legend_lines()[0] + legend_lines()[1] + legend_lines()[2] + legend_lines()[3] + legend_lines()[4]
        + legend_lines()[5] + legend_lines()[6]
}

/// The opening lines of the graph.
pub open spec fn header_text() -> Seq<char> {
    "digraph deps {\n"@ + "    rankdir=LR;\n"@
        + "    node [fontname=\"Helvetica\", fontsize=10, shape=box];\n"@ + "\n"@
}

/// The whole DOT document for a set of entries and an adjacency list.
pub open spec fn dot_text(entries: Seq<DepEntry>, edges: Seq<(Seq<char>, Seq<Seq<char>>)>) -> Seq<char> {
    header_text() + nodes_text(entries) + "\n"@ + edge_lines_text(
        emitted_edges(entry_keys(entries), edges),
    ) + "\n"@ + legend_text() + "}\n"@
}

/// The path keys of the entries: a path is a known node when its key is among them,
/// that is when it names the same path as an entry.
pub open spec fn entry_keys(entries: Seq<DepEntry>) -> Seq<Seq<i64>> {
    entries.map_values(|e: DepEntry| path_key(e.path@))
}

/// The views of a list of path keys.
pub open spec fn keys_view(rows: Seq<Vec<i64>>) -> Seq<Seq<i64>> {
    rows.map_values(|v: Vec<i64>| v@)
}

fn push_dot_id(out: &mut String, path: &Vec<char>)
    ensures
        final(out)@ == old(out)@ + dot_id_text(path@),
{
    push_char(out, '"');
    push_escaped(out, path);
    push_char(out, '"');
    assert(out@ =~= old(out)@ + dot_id_text(path@));
}

/// A valid DOT node identifier for a path (a quoted string).
pub fn dot_id(path: &str) -> (r: String)
    ensures
        r@ == dot_id_text(path@),
{
    let v = chars_of(path);
    let mut out = String::new();
    push_dot_id(&mut out, &v);
    assert(out@ =~= dot_id_text(path@));
    out
}

/// The fill colour of an entry's node.
pub fn node_fillcolor(entry: &DepEntry) -> (r: &'static str)
    ensures
        r@ == fillcolor_text(*entry),
        r@ == if entry.in_cycle {
            "lightsalmon"@
        } else if entry.fan_out == 0 && entry.fan_in > 0 {
            "lightgreen"@
        } else {
            "lightblue"@
        },
{
    match classify(entry) {
        Coupling::InCycle => "lightsalmon",
        Coupling::StableLeaf => "lightgreen",
        Coupling::Ordinary => "lightblue",
    }
}

/// The DOT statement that declares an entry's node, labelled with its file name.
pub fn dot_node_line(entry: &DepEntry) -> (r: String)
    ensures
        r@ == node_line_text(*entry),
        contains_text(
            r@,
            "\", fillcolor="@ + (if entry.in_cycle {
                "lightsalmon"@
            } else if entry.fan_out == 0 && entry.fan_in > 0 {
                "lightgreen"@
            } else {
                "lightblue"@
            }) + ", style=filled, tooltip=\""@,
        ),
{
    let v = chars_of(entry.path.as_str());
    let mut out = String::new();
    out.append("    ");
    push_dot_id(&mut out, &v);
    out.append(" [label=\"");
    match file_name_range(&v) {
        Some((from, to)) => push_range(&mut out, &v, from, to),
        None => push_all(&mut out, &v),
    }
    out.append("\", fillcolor=");
    out.append(node_fillcolor(entry));
    out.append(", style=filled, tooltip=\"");
    push_all(&mut out, &v);
    out.append("\\nfi=");
    push_decimal(&mut out, entry.fan_in);
    out.append(" fo=");
    push_decimal(&mut out, entry.fan_out);
    out.append("\"];\n");
    assert(out@ =~= node_line_text(*entry));
    proof {
        lemma_node_line_colour(*entry);
    }
    out
}

/// The edge lines of a concatenation are those of its parts, one after the other.
pub proof fn lemma_edge_lines_concat(a: Seq<(Seq<char>, Seq<char>)>, b: Seq<(Seq<char>, Seq<char>)>)
    ensures
        edge_lines_text(a + b) == edge_lines_text(a) + edge_lines_text(b),
    decreases b.len(),
{
    if b.len() == 0 {
        assert(a + b =~= a);
        assert(edge_lines_text(a) + edge_lines_text(b) =~= edge_lines_text(a));
    } else {
        lemma_edge_lines_concat(a, b.drop_last());
        assert((a + b).drop_last() =~= a + b.drop_last());
        assert((a + b).last() == b.last());
        assert(edge_lines_text(a + b) =~= edge_lines_text(a) + edge_lines_text(b));
    }
}

/// Whether `p` is one of `rows`.
fn contains_key(rows: &Vec<Vec<i64>>, p: &Vec<i64>) -> (r: bool)
    ensures
        r == keys_view(rows@).contains(p@),
{
    let mut i: usize = 0;
    while i < rows.len()
        invariant
            i <= rows.len(),
            forall|k: int| 0 <= k < i ==> rows@[k]@ != p@,
        decreases rows.len() - i,
    {
        if same_key(&rows[i], p) {
            assert(keys_view(rows@)[i as int] == p@);
            return true;
        }
        i += 1;
    }
    assert(!keys_view(rows@).contains(p@)) by {
        if keys_view(rows@).contains(p@) {
            let k = choose|k: int| 0 <= k < keys_view(rows@).len() && keys_view(rows@)[k] == p@;
            assert(rows@[k]@ == p@);
        }
    }
    false
}

/// The DOT statements for the edges from `src` to those of `dsts` that are known
/// nodes (whose path keys are in `entry_set`); nothing when `src` itself is not a
/// known node.
pub fn dot_edge_lines(src: &str, dsts: &Vec<String>, entry_set: &Vec<Vec<i64>>) -> (r: String)
    ensures
        r@ == edge_lines_text(emitted_from(keys_view(entry_set@), src@, strings_view(dsts@))),
{
    let ghost known = keys_view(entry_set@);
    let ghost dv = strings_view(dsts@);
    let src_chars = chars_of(src);
    if dsts.len() == 0 || !contains_key(entry_set, &path_key_of(src)) {
        proof {
            if known.contains(path_key(src@)) {
                assert(dv.len() == 0);
            }
        }
        return String::new();
    }
    let mut out = String::new();
    let mut i: usize = 0;
    assert(dv.take(0) =~= Seq::<Seq<char>>::empty());
    while i < dsts.len()
        invariant
            i <= dsts.len(),
            known == keys_view(entry_set@),
            dv == strings_view(dsts@),
            src_chars@ == src@,
            out@ == edge_lines_text(known_targets(known, src@, dv.take(i as int))),
        decreases dsts.len() - i,
    {
        let d = chars_of(dsts[i].as_str());
        assert(dv.take(i + 1).drop_last() =~= dv.take(i as int));
        assert(dv.take(i + 1).last() == d@);
        if contains_key(entry_set, &path_key_of(dsts[i].as_str())) {
            let ghost before = known_targets(known, src@, dv.take(i as int));
            out.append("    ");
            push_dot_id(&mut out, &src_chars);
            out.append(" -> ");
            push_dot_id(&mut out, &d);
            out.append(";\n");
            assert(before.push((src@, d@)).drop_last() =~= before);
            assert(out@ =~= edge_lines_text(before.push((src@, d@))));
        }
        i += 1;
    }
    assert(dv.take(dsts.len() as int) =~= dv);
    out
}

/// The DOT document for a dependency graph: a node per entry, an edge for each import
/// between two entries (edges that touch a file outside the entries are left out),
/// and a legend of the node colours.
pub fn build_dot(result: &DepResult, edge_list: &EdgeList) -> (r: String)
    ensures
        r@ == dot_text(result.entries@, edge_list@),
        forall|i: int| 0 <= i < result.entries@.len() ==> contains_text(r@, #[trigger] node_decl(result.entries@[i])),
{
    let entries = &result.entries;
    let edges = edge_list.pairs();
    let ghost ev = edges_view(edges@);
    let mut entry_set: Vec<Vec<i64>> = Vec::new();
    let mut i: usize = 0;
    while i < entries.len()
        invariant
            i <= entries.len(),
            entry_set.len() == i,
            keys_view(entry_set@) == entry_keys(entries@.take(i as int)),
        decreases entries.len() - i,
    {
        let row = path_key_of(entries[i].path.as_str());
        let ghost before = entry_set@;
        entry_set.push(row);
        assert(keys_view(entry_set@) =~= keys_view(before).push(row@));
        assert(entry_keys(entries@.take(i + 1)) =~= entry_keys(entries@.take(i as int)).push(
            path_key(entries@[i as int].path@),
        ));
        i += 1;
        assert(keys_view(entry_set@) =~= entry_keys(entries@.take(i as int)));
    }
    assert(entries@.take(entries.len() as int) =~= entries@);
    let ghost known = keys_view(entry_set@);

    let mut out = String::new();
    out.append("digraph deps {\n");
    out.append("    rankdir=LR;\n");
    out.append("    node [fontname=\"Helvetica\", fontsize=10, shape=box];\n");
    out.append("\n");
    assert(out@ =~= header_text());
    let mut i: usize = 0;
    assert(entries@.take(0) =~= Seq::<DepEntry>::empty());
    while i < entries.len()
        invariant
            i <= entries.len(),
            out@ == header_text() + nodes_text(entries@.take(i as int)),
        decreases entries.len() - i,
    {
        let line = dot_node_line(&entries[i]);
        out.append(line.as_str());
        assert(entries@.take(i + 1).drop_last() =~= entries@.take(i as int));
        i += 1;
        assert(out@ =~= header_text() + nodes_text(entries@.take(i as int)));
    }
    assert(entries@.take(entries.len() as int) =~= entries@);
    out.append("\n");
    let ghost prefix = out@;
    let mut k: usize = 0;
    assert(ev.take(0) =~= Seq::<(Seq<char>, Seq<Seq<char>>)>::empty());
    while k < edges.len()
        invariant
            k <= edges.len(),
            ev == edges_view(edges@),
            known == keys_view(entry_set@),
            out@ == prefix + edge_lines_text(emitted_edges(known, ev.take(k as int))),
        decreases edges.len() - k,
    {
        let lines = dot_edge_lines(edges[k].0.as_str(), &edges[k].1, &entry_set);
        proof {
            assert(ev.take(k + 1).drop_last() =~= ev.take(k as int));
            assert(ev.take(k + 1).last() == ev[k as int]);
            lemma_edge_lines_concat(
                emitted_edges(known, ev.take(k as int)),
                emitted_from(known, ev[k as int].0, ev[k as int].1),
            );
        }
        out.append(lines.as_str());
        k += 1;
        assert(out@ =~= prefix + edge_lines_text(emitted_edges(known, ev.take(k as int))));
    }
    assert(ev.take(edges.len() as int) =~= ev);
    out.append("\n");
    out.append(dot_legend());
    out.append("}\n");
    assert(out@ =~= dot_text(result.entries@, ev));
    proof {
        lemma_dot_node_colours(result.entries@, ev);
    }
    out
}

/// The legend subgraph of the DOT export.
pub fn dot_legend() -> (r: &'static str)
    ensures
        r@ == legend_text(),
{
    proof {
        reveal_strlit("    // Legend\n");
        reveal_strlit("    subgraph cluster_legend {\n");
        reveal_strlit("        label=\"Legend\"; style=dashed; fontsize=9;\n");
        reveal_strlit("        ");
        reveal_strlit("l_cycle");
        reveal_strlit("l_leaf ");
        reveal_strlit("l_def  ");
        reveal_strlit(" [label=\"");
        reveal_strlit("in cycle");
        reveal_strlit("stable leaf");
        reveal_strlit("default");
        reveal_strlit("\", fillcolor=");
        reveal_strlit("lightsalmon");
        reveal_strlit("lightgreen");
        reveal_strlit("lightblue");
        reveal_strlit(", style=filled, shape=box, fontsize=9];\n");
        reveal_strlit("    }\n");
        reveal_strlit("    // Legend\n\
     \x20   subgraph cluster_legend {\n\
     \x20       label=\"Legend\"; style=dashed; fontsize=9;\n\
     \x20       l_cycle [label=\"in cycle\", fillcolor=lightsalmon, style=filled, shape=box, fontsize=9];\n\
     \x20       l_leaf  [label=\"stable leaf\", fillcolor=lightgreen, style=filled, shape=box, fontsize=9];\n\
     \x20       l_def   [label=\"default\", fillcolor=lightblue, style=filled, shape=box, fontsize=9];\n\
     \x20   }\n");
    }
    let r = "    // Legend\n\
     \x20   subgraph cluster_legend {\n\
     \x20       label=\"Legend\"; style=dashed; fontsize=9;\n\
     \x20       l_cycle [label=\"in cycle\", fillcolor=lightsalmon, style=filled, shape=box, fontsize=9];\n\
     \x20       l_leaf  [label=\"stable leaf\", fillcolor=lightgreen, style=filled, shape=box, fontsize=9];\n\
     \x20       l_def   [label=\"default\", fillcolor=lightblue, style=filled, shape=box, fontsize=9];\n\
     \x20   }\n";
    assert(r@ =~= legend_text());
    r
}

proof fn lemma_prefix_suffix_of_concat(a: Seq<char>, b: Seq<char>)
    ensures
        a.is_prefix_of(a + b),
        b.is_suffix_of(a + b),
{
    assert(a =~= (a + b).subrange(0, a.len() as int));
    assert(b =~= (a + b).subrange(a.len() as int, (a + b).len() as int));
}

/// The legend opens with its comment and the subgraph header and ends with the
/// subgraph's closing brace; in between it declares, for each coupling class, a node
/// labelled with the class's name and filled with the class's colour.
pub proof fn lemma_legend_shape(c: Coupling)
    ensures
        (legend_lines()[0] + legend_lines()[1]).is_prefix_of(legend_text()),
        legend_lines()[6].is_suffix_of(legend_text()),
        legend_lines().contains(legend_node(c)),
{
    let l = legend_lines();
    let rest = l[2] + l[3] + l[4] + l[5] + l[6];
    let init = l[0] + l[1] + l[2] + l[3] + l[4] + l[5];
    assert(legend_text() =~= (l[0] + l[1]) + rest);
    assert(legend_text() =~= init + l[6]);
    lemma_prefix_suffix_of_concat(l[0] + l[1], rest);
    lemma_prefix_suffix_of_concat(init, l[6]);
    match c {
        Coupling::InCycle => assert(l[3] == legend_node(c)),
        Coupling::StableLeaf => assert(l[4] == legend_node(c)),
        Coupling::Ordinary => assert(l[5] == legend_node(c)),
    }
}

/// Every DOT document opens with `digraph deps {` on a line of its own and ends with
/// the closing brace on a line of its own.
pub proof fn lemma_dot_framing(entries: Seq<DepEntry>, edges: Seq<(Seq<char>, Seq<Seq<char>>)>)
    ensures
        "digraph deps {\n"@.is_prefix_of(dot_text(entries, edges)),
        "}\n"@.is_suffix_of(dot_text(entries, edges)),
{
    let t = dot_text(entries, edges);
    let body = header_text() + nodes_text(entries) + "\n"@ + edge_lines_text(
        emitted_edges(entry_keys(entries), edges),
    ) + "\n"@ + legend_text();
    let after_first = "    rankdir=LR;\n"@ + "    node [fontname=\"Helvetica\", fontsize=10, shape=box];\n"@
        + "\n"@ + nodes_text(entries) + "\n"@ + edge_lines_text(
        emitted_edges(entry_keys(entries), edges),
    ) + "\n"@ + legend_text() + "}\n"@;
    assert(t =~= "digraph deps {\n"@ + after_first);
    assert(t =~= body + "}\n"@);
    lemma_prefix_suffix_of_concat("digraph deps {\n"@, after_first);
    lemma_prefix_suffix_of_concat(body, "}\n"@);
}

proof fn lemma_known_targets_members(
    known: Seq<Seq<i64>>,
    src: Seq<char>,
    dsts: Seq<Seq<char>>,
    s: Seq<char>,
    d: Seq<char>,
)
    ensures
        known_targets(known, src, dsts).contains((s, d)) <==> (s == src && known.contains(path_key(d))
            && dsts.contains(d)),
    decreases dsts.len(),
{
    if dsts.len() == 0 {
    } else {
        let rest = dsts.drop_last();
        lemma_known_targets_members(known, src, rest, s, d);
        let kt = known_targets(known, src, rest);
        if known.contains(path_key(dsts.last())) {
            if kt.push((src, dsts.last())).contains((s, d)) {
                let i = choose|i: int|
                    0 <= i < kt.push((src, dsts.last())).len() && kt.push((src, dsts.last()))[i] == (
                    s,
                    d,
                );
                if i < kt.len() {
                    assert(kt.contains((s, d)));
                    let j = choose|j: int| 0 <= j < rest.len() && rest[j] == d;
                    assert(dsts[j] == d);
                } else {
                    assert(dsts[dsts.len() - 1] == d);
                }
            }
            if s == src && known.contains(path_key(d)) && dsts.contains(d) {
                let j = choose|j: int| 0 <= j < dsts.len() && dsts[j] == d;
                if j < dsts.len() - 1 {
                    assert(rest[j] == d);
                    let i = choose|i: int| 0 <= i < kt.len() && kt[i] == (s, d);
                    assert(kt.push((src, dsts.last()))[i] == (s, d));
                } else {
                    assert(kt.push((src, dsts.last()))[kt.len() as int] == (s, d));
                }
            }
        } else {
            if kt.contains((s, d)) {
                let j = choose|j: int| 0 <= j < rest.len() && rest[j] == d;
                assert(dsts[j] == d);
            }
            if s == src && known.contains(path_key(d)) && dsts.contains(d) {
                let j = choose|j: int| 0 <= j < dsts.len() && dsts[j] == d;
                if j < dsts.len() - 1 {
                    assert(rest[j] == d);
                } else {
                    assert(dsts.last() == d);
                }
            }
        }
    }
}

/// An edge `s -> d` is drawn exactly when the adjacency list has `d` among the imports
/// of `s` and both `s` and `d` are known nodes (their path keys are known).
pub proof fn lemma_emitted_edges_exact(
    known: Seq<Seq<i64>>,
    edges: Seq<(Seq<char>, Seq<Seq<char>>)>,
    s: Seq<char>,
    d: Seq<char>,
)
    ensures
        emitted_edges(known, edges).contains((s, d)) <==> (known.contains(path_key(s)) && known.contains(path_key(d))
            && exists|k: int| 0 <= k < edges.len() && edges[k].0 == s && #[trigger] edges[k].1.contains(d)),
    decreases edges.len(),
{
    if edges.len() == 0 {
    } else {
        let rest = edges.drop_last();
        let last = edges.last();
        lemma_emitted_edges_exact(known, rest, s, d);
        lemma_known_targets_members(known, last.0, last.1, s, d);
        let a = emitted_edges(known, rest);
        let b = emitted_from(known, last.0, last.1);
        assert(emitted_edges(known, edges) == a + b);
        if (a + b).contains((s, d)) {
            let i = choose|i: int| 0 <= i < (a + b).len() && (a + b)[i] == (s, d);
            if i < a.len() {
                assert(a[i] == (s, d));
                let k = choose|k: int| 0 <= k < rest.len() && rest[k].0 == s && #[trigger] rest[k].1.contains(d);
                assert(edges[k] == rest[k]);
            } else {
                assert(b[i - a.len()] == (s, d));
                assert(b.contains((s, d)));
                assert(edges[edges.len() - 1] == last);
            }
        }
        if known.contains(path_key(s)) && known.contains(path_key(d)) && exists|k: int|
            0 <= k < edges.len() && edges[k].0 == s && #[trigger] edges[k].1.contains(d) {
            let k = choose|k: int| 0 <= k < edges.len() && edges[k].0 == s && #[trigger] edges[k].1.contains(d);
            if k < edges.len() - 1 {
                assert(rest[k] == edges[k]);
                assert(a.contains((s, d)));
                let i = choose|i: int| 0 <= i < a.len() && a[i] == (s, d);
                assert((a + b)[i] == (s, d));
            } else {
                assert(b.contains((s, d)));
                let i = choose|i: int| 0 <= i < b.len() && b[i] == (s, d);
                assert((a + b)[a.len() + i] == (s, d));
            }
        }
    }
}

proof fn lemma_emitted_edges_concat(
    known: Seq<Seq<i64>>,
    a: Seq<(Seq<char>, Seq<Seq<char>>)>,
    b: Seq<(Seq<char>, Seq<Seq<char>>)>,
)
    ensures
        emitted_edges(known, a + b) == emitted_edges(known, a) + emitted_edges(known, b),
    decreases b.len(),
{
    if b.len() == 0 {
        assert(a + b =~= a);
        assert(emitted_edges(known, a) + emitted_edges(known, b) =~= emitted_edges(known, a));
    } else {
        lemma_emitted_edges_concat(known, a, b.drop_last());
        assert((a + b).drop_last() =~= a + b.drop_last());
        assert((a + b).last() == b.last());
        assert(emitted_edges(known, a + b) =~= emitted_edges(known, a) + emitted_edges(known, b));
    }
}

/// The edges drawn do not depend on the order in which the sources are listed: two
/// adjacency lists with the same sources and imports, in any order, give the same
/// edges, each as many times.
pub proof fn lemma_emitted_edges_order_free(
    known: Seq<Seq<i64>>,
    e1: Seq<(Seq<char>, Seq<Seq<char>>)>,
    e2: Seq<(Seq<char>, Seq<Seq<char>>)>,
)
    requires
        e1.to_multiset() == e2.to_multiset(),
    ensures
        emitted_edges(known, e1).to_multiset() == emitted_edges(known, e2).to_multiset(),
    decreases e1.len(),
{
    broadcast use vstd::seq_lib::group_to_multiset_ensures;

    if e1.len() == 0 {
        assert(e2.to_multiset().len() == 0);
        assert(e2.len() == 0);
        assert(e1 =~= e2);
    } else {
        let x = e1.last();
        let r1 = e1.drop_last();
        assert(e1 =~= r1.push(x));
        assert(e1.to_multiset().count(x) > 0);
        assert(e2.contains(x));
        let i = choose|i: int| 0 <= i < e2.len() && e2[i] == x;
        let a = e2.take(i);
        let b = e2.skip(i + 1);
        assert(e2 =~= a + seq![x] + b);
        assert(e2.remove(i) =~= a + b);
        assert(e2.remove(i).to_multiset() == e2.to_multiset().remove(x));
        assert(r1.to_multiset() == e1.to_multiset().remove(x));
        lemma_emitted_edges_order_free(known, r1, a + b);
        lemma_emitted_edges_concat(known, a + seq![x], b);
        lemma_emitted_edges_concat(known, a, seq![x]);
        lemma_emitted_edges_concat(known, a, b);
        let fx = emitted_from(known, x.0, x.1);
        assert(seq![x].drop_last() =~= Seq::<(Seq<char>, Seq<Seq<char>>)>::empty());
        assert(seq![x].last() == x);
        assert(emitted_edges(known, Seq::<(Seq<char>, Seq<Seq<char>>)>::empty()) == Seq::<(Seq<char>, Seq<char>)>::empty());
        assert(emitted_edges(known, seq![x]) =~= fx);
        assert(emitted_edges(known, e1) == emitted_edges(known, r1) + fx);
        vstd::seq_lib::lemma_multiset_commutative(emitted_edges(known, r1), fx);
        vstd::seq_lib::lemma_multiset_commutative(emitted_edges(known, a) + fx, emitted_edges(known, b));
        vstd::seq_lib::lemma_multiset_commutative(emitted_edges(known, a), fx);
        vstd::seq_lib::lemma_multiset_commutative(emitted_edges(known, a), emitted_edges(known, b));
        assert(emitted_edges(known, e2).to_multiset() =~= emitted_edges(known, e1).to_multiset());
    }
}

/// A path is a known node of the DOT export exactly when it names the same path as
/// one of the entries.
pub proof fn lemma_entry_keys_exact(entries: Seq<DepEntry>, p: Seq<char>)
    ensures
        entry_keys(entries).contains(path_key(p)) <==> exists|i: int|
            0 <= i < entries.len() && same_path(#[trigger] entries[i].path@, p),
{
    let ks = entry_keys(entries);
    if ks.contains(path_key(p)) {
        let k = choose|k: int| 0 <= k < ks.len() && ks[k] == path_key(p);
        assert(same_path(entries[k].path@, p));
    }
    if exists|i: int| 0 <= i < entries.len() && same_path(#[trigger] entries[i].path@, p) {
        let i = choose|i: int| 0 <= i < entries.len() && same_path(#[trigger] entries[i].path@, p);
        assert(ks[i] == path_key(p));
    }
}

proof fn lemma_escape_shape(s: Seq<char>)
    ensures
        s.len() > 0 ==> escape_quotes(s).len() > 0,
        s.len() > 0 && !needs_escape(s.last()) ==> escape_quotes(s).last() == s.last()
            && escape_quotes(s).drop_last() == escape_quotes(s.drop_last()),
        s.len() > 0 && needs_escape(s.last()) ==> escape_quotes(s).len() >= 2
            && escape_quotes(s).last() == s.last() && escape_quotes(s)[escape_quotes(s).len() - 2]
            == '\\' && escape_quotes(s).subrange(0, escape_quotes(s).len() - 2) == escape_quotes(
            s.drop_last(),
        ),
{
    if s.len() > 0 {
        let e = escape_quotes(s.drop_last());
        if needs_escape(s.last()) {
            assert((e + seq!['\\', s.last()]).subrange(0, e.len() as int) =~= e);
        } else {
            assert(e.push(s.last()).drop_last() =~= e);
        }
    }
}

/// The escaped text of any path is well escaped, so the quoted identifier is a single
/// DOT string whose closing quote is not escaped.
pub proof fn lemma_escape_well_formed(s: Seq<char>)
    ensures
        well_escaped(escape_quotes(s)),
    decreases s.len(),
{
    if s.len() > 0 {
        lemma_escape_shape(s);
        lemma_escape_well_formed(s.drop_last());
        let e = escape_quotes(s);
        if !needs_escape(s.last()) {
            assert(e.drop_last() =~= e.subrange(0, e.len() - 1));
        }
    }
}

proof fn lemma_escape_injective(a: Seq<char>, b: Seq<char>)
    requires
        escape_quotes(a) == escape_quotes(b),
    ensures
        a == b,
    decreases a.len() + b.len(),
{
    lemma_escape_shape(a);
    lemma_escape_shape(b);
    if a.len() == 0 || b.len() == 0 {
        assert(a.len() == 0 && b.len() == 0);
        assert(a =~= b);
    } else {
        let e = escape_quotes(a);
        // the last character of the escaped text gives the last character of the path,
        // and whether it was escaped
        assert(a.last() == e.last() && b.last() == e.last());
        if needs_escape(a.last()) {
            assert(escape_quotes(a.drop_last()) == e.subrange(0, e.len() - 2));
            assert(escape_quotes(b.drop_last()) == e.subrange(0, e.len() - 2));
        } else {
            assert(escape_quotes(a.drop_last()) == e.drop_last());
            assert(escape_quotes(b.drop_last()) == e.drop_last());
        }
        lemma_escape_injective(a.drop_last(), b.drop_last());
        assert(a =~= a.drop_last().push(a.last()));
        assert(b =~= b.drop_last().push(b.last()));
    }
}

/// Distinct paths get distinct DOT node identifiers.
pub proof fn lemma_dot_id_injective(a: Seq<char>, b: Seq<char>)
    requires
        dot_id_text(a) == dot_id_text(b),
    ensures
        a == b,
{
    let ta = dot_id_text(a);
    let tb = dot_id_text(b);
    assert(escape_quotes(a) =~= ta.subrange(1, ta.len() - 1));
    assert(escape_quotes(b) =~= tb.subrange(1, tb.len() - 1));
    lemma_escape_injective(a, b);
}

/// A DOT node identifier is a double-quoted string whose inside is well escaped.
pub proof fn lemma_dot_id_valid(p: Seq<char>)
    ensures
        dot_id_text(p).len() >= 2,
        dot_id_text(p)[0] == '"',
        dot_id_text(p).last() == '"',
        well_escaped(dot_id_text(p).subrange(1, dot_id_text(p).len() - 1)),
{
    let t = dot_id_text(p);
    assert(t.subrange(1, t.len() - 1) =~= escape_quotes(p));
    lemma_escape_well_formed(p);
}

} // verus!
