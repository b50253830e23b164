//! The note graph: nodes are notes, edges are resolved wikilinks.
//!
//! Dangling links don't draw. The node set is capped at
//! [`MAX_GRAPH_NODES`]; above it the most-connected notes are kept. This
//! module builds the graph's shape (which nodes, their degree, which
//! edges); coordinates and node sizes are computed from it by the layout.
use vstd::prelude::*;
use vstd::hash_map::StringHashMap;

use crate::text::{chars_of, compare_chars, seq_eq, seq_lt, string_from_chars, Lex};

verus! {

/// Hard cap on the number of nodes drawn.
pub const MAX_GRAPH_NODES: usize = 5000;

/// One edge of the graph, by note id.
#[derive(Debug, Clone, PartialEq, Eq)]
pub struct GraphEdge {
    pub source: String,
    pub target: String,
}

/// One node of the graph with its degree.
#[derive(Debug, Clone, PartialEq, Eq)]
pub struct GraphNodeRow {
    pub id: String,
    pub title: String,
    /// Number of edge ends at this node (duplicates and self-loops count).
    pub degree: u32,
}

/// The shape of the graph: nodes in id order, edges as positions into
/// `nodes` (for the layout) and by id.
#[derive(Debug, Clone, PartialEq)]
pub struct GraphSkeleton {
    pub nodes: Vec<GraphNodeRow>,
    pub edge_pairs: Vec<(usize, usize)>,
    pub edges: Vec<GraphEdge>,
    /// More notes than [`MAX_GRAPH_NODES`]; the most-connected were kept.
    pub truncated: bool,
}

/// A `(id, title)` or `(source, target)` pair as plain values.
pub open spec fn pair_view(p: (String, String)) -> (Seq<char>, Seq<char>) {
    (p.0@, p.1@)
}

/// Some node has id `id`.
pub open spec fn has_id(nodes: Seq<(Seq<char>, Seq<char>)>, id: Seq<char>) -> bool {
    exists|i: int| 0 <= i < nodes.len() && (#[trigger] nodes[i]).0 == id
}

/// Edge ends at `id` among edges whose ends are both nodes.
pub open spec fn degree_of(
    nodes: Seq<(Seq<char>, Seq<char>)>,
    edges: Seq<(Seq<char>, Seq<char>)>,
    id: Seq<char>,
) -> nat
    decreases edges.len(),
{
    if edges.len() == 0 {
        0
    } else {
        let e = edges.last();
        let rest = degree_of(nodes, edges.drop_last(), id);
        if has_id(nodes, e.0) && has_id(nodes, e.1) {
            rest + (if e.0 == id { 1nat } else { 0nat }) + (if e.1 == id { 1nat } else { 0nat })
        } else {
            rest
        }
    }
}

/// A node with its degree.
pub type RankedNode = (Seq<char>, Seq<char>, nat);

/// `a` ranks before `b`: higher degree, then smaller id.
pub open spec fn ranks_before(a: RankedNode, b: RankedNode) -> bool {
    a.2 > b.2 || (a.2 == b.2 && seq_lt(a.0, b.0))
}

/// `a` sorts before `b` by id.
pub open spec fn id_before(a: RankedNode, b: RankedNode) -> bool {
    seq_lt(a.0, b.0)
}

/// The first position from `i` on that `x` goes before under `before`.
pub open spec fn slot_by(s: Seq<RankedNode>, x: RankedNode, before: spec_fn(RankedNode, RankedNode) -> bool, i: int) -> int
    decreases s.len() - i,
{
    if i < 0 || i >= s.len() {
        s.len() as int
    } else if before(x, s[i]) {
        i
    } else {
        slot_by(s, x, before, i + 1)
    }
}

/// `s` stably sorted under `before`.
pub open spec fn sort_by(s: Seq<RankedNode>, before: spec_fn(RankedNode, RankedNode) -> bool) -> Seq<RankedNode>
    decreases s.len(),
{
    if s.len() == 0 {
        Seq::empty()
    } else {
        let t = sort_by(s.drop_last(), before);
        t.insert(slot_by(t, s.last(), before, 0), s.last())
    }
}

/// The nodes with their degrees.
pub open spec fn ranked(
    nodes: Seq<(Seq<char>, Seq<char>)>,
    edges: Seq<(Seq<char>, Seq<char>)>,
) -> Seq<RankedNode> {
    nodes.map_values(|n: (Seq<char>, Seq<char>)| (n.0, n.1, degree_of(nodes, edges, n.0)))
}

/// The nodes drawn, in id order: all of them, or, over the cap, the
/// [`MAX_GRAPH_NODES`] best ranked.
pub open spec fn selected_nodes(
    nodes: Seq<(Seq<char>, Seq<char>)>,
    edges: Seq<(Seq<char>, Seq<char>)>,
) -> Seq<RankedNode> {
    let r = ranked(nodes, edges);
    let kept = if nodes.len() > MAX_GRAPH_NODES {
        sort_by(r, |a: RankedNode, b: RankedNode| ranks_before(a, b)).take(MAX_GRAPH_NODES as int)
    } else {
        r
    };
    sort_by(kept, |a: RankedNode, b: RankedNode| id_before(a, b))
}

/// The last position of a selected node with id `id`.
pub open spec fn last_index(sel: Seq<RankedNode>, id: Seq<char>) -> Option<int>
    decreases sel.len(),
{
    if sel.len() == 0 {
        None
    } else if sel.last().0 == id {
        Some(sel.len() - 1)
    } else {
        last_index(sel.drop_last(), id)
    }
}

/// The unordered pair `(a, b)` is already among `out`.
pub open spec fn pair_seen(out: Seq<(int, int)>, a: int, b: int) -> bool {
    exists|j: int|
        0 <= j < out.len() && ((#[trigger] out[j]).0 == a && out[j].1 == b || out[j].0 == b
            && out[j].1 == a)
}

/// The edges drawn, as positions into `sel`, in input order: both ends
/// selected, no self-loops, each unordered pair once.
pub open spec fn drawn_edges(sel: Seq<RankedNode>, edges: Seq<(Seq<char>, Seq<char>)>) -> Seq<(int, int)>
    decreases edges.len(),
{
    if edges.len() == 0 {
        Seq::empty()
    } else {
        let out = drawn_edges(sel, edges.drop_last());
        let e = edges.last();
        match (last_index(sel, e.0), last_index(sel, e.1)) {
            (Some(si), Some(ti)) => if si != ti && !pair_seen(out, si, ti) {
                out.push((si, ti))
            } else {
                out
            },
            _ => out,
        }
    }
}

/// A node row as plain values.
pub open spec fn node_view(n: GraphNodeRow) -> RankedNode {
    (n.id@, n.title@, n.degree as nat)
}

/// The rank order (higher degree first, then id).
pub open spec fn rank_order() -> spec_fn(RankedNode, RankedNode) -> bool {
    |a: RankedNode, b: RankedNode| ranks_before(a, b)
}

/// The id order.
pub open spec fn id_order() -> spec_fn(RankedNode, RankedNode) -> bool {
    |a: RankedNode, b: RankedNode| id_before(a, b)
}

/// An edge as plain values.
pub open spec fn edge_view(e: GraphEdge) -> (Seq<char>, Seq<char>) {
    (e.source@, e.target@)
}

/// The positions of `pos` mapped to the ranked nodes they name.
pub open spec fn at_positions(pos: Seq<usize>, rs: Seq<RankedNode>) -> Seq<RankedNode> {
    pos.map_values(|p: usize| rs[p as int])
}

fn goes_before(a: usize, b: usize, ids: &Vec<Vec<char>>, degs: &Vec<u32>, by_rank: bool, Ghost(rs): Ghost<Seq<RankedNode>>) -> (r: bool)
    requires
        a < ids.len(),
        b < ids.len(),
        ids.len() == degs.len() == rs.len(),
        forall|i: int| 0 <= i < rs.len() ==> (#[trigger] rs[i]).0 == ids@[i]@ && rs[i].2 == degs@[i] as nat,
    ensures
        r == (if by_rank { ranks_before(rs[a as int], rs[b as int]) } else { id_before(rs[a as int], rs[b as int]) }),
{
    let ord = compare_chars(&ids[a], &ids[b]);
    let lt = match ord {
        Lex::Before => true,
        _ => false,
    };
    if by_rank {
        degs[a] > degs[b] || (degs[a] == degs[b] && lt)
    } else {
        lt
    }
}

/// `pos` stably sorted (by rank or by id) as positions into `rs`.
fn sort_positions(pos: &Vec<usize>, ids: &Vec<Vec<char>>, degs: &Vec<u32>, by_rank: bool, Ghost(rs): Ghost<Seq<RankedNode>>) -> (out: Vec<usize>)
    requires
        ids.len() == degs.len() == rs.len(),
        forall|i: int| 0 <= i < rs.len() ==> (#[trigger] rs[i]).0 == ids@[i]@ && rs[i].2 == degs@[i] as nat,
        forall|i: int| 0 <= i < pos.len() ==> (#[trigger] pos@[i]) < rs.len(),
    ensures
        out.len() == pos.len(),
        forall|i: int| 0 <= i < out.len() ==> (#[trigger] out@[i]) < rs.len(),
        at_positions(out@, rs) == sort_by(at_positions(pos@, rs), if by_rank { rank_order() } else { id_order() }),
{
    let ghost ord = if by_rank { rank_order() } else { id_order() };
    let ghost input = at_positions(pos@, rs);
    let mut out: Vec<usize> = Vec::new();
    let mut k: usize = 0;
    assert(at_positions(out@, rs) =~= sort_by(input.take(0), ord));
    while k < pos.len()
        invariant
            k <= pos.len(),
            ids.len() == degs.len() == rs.len(),
            forall|i: int| 0 <= i < rs.len() ==> (#[trigger] rs[i]).0 == ids@[i]@ && rs[i].2 == degs@[i] as nat,
            forall|i: int| 0 <= i < pos.len() ==> (#[trigger] pos@[i]) < rs.len(),
            forall|i: int| 0 <= i < out.len() ==> (#[trigger] out@[i]) < rs.len(),
            ord == (if by_rank { rank_order() } else { id_order() }),
            input == at_positions(pos@, rs),
            at_positions(out@, rs) == sort_by(input.take(k as int), ord),
        decreases pos.len() - k,
    {
        let x = pos[k];
        let ghost before = at_positions(out@, rs);
        let mut p: usize = 0;
        while p < out.len() && !goes_before(x, out[p], ids, degs, by_rank, Ghost(rs))
            invariant
                p <= out.len(),
                x < rs.len(),
                ids.len() == degs.len() == rs.len(),
                forall|i: int| 0 <= i < rs.len() ==> (#[trigger] rs[i]).0 == ids@[i]@ && rs[i].2 == degs@[i] as nat,
                forall|i: int| 0 <= i < out.len() ==> (#[trigger] out@[i]) < rs.len(),
                before == at_positions(out@, rs),
                ord == (if by_rank { rank_order() } else { id_order() }),
                slot_by(before, rs[x as int], ord, 0) == slot_by(before, rs[x as int], ord, p as int),
            decreases out.len() - p,
        {
            p += 1;
        }
        assert(p < out.len() ==> slot_by(before, rs[x as int], ord, p as int) == p);
        out.insert(p, x);
        assert(at_positions(out@, rs) =~= before.insert(p as int, rs[x as int]));
        assert(input.take(k + 1).drop_last() =~= input.take(k as int));
        assert(input.take(k + 1).last() == rs[x as int]);
        k += 1;
    }
    assert(input.take(pos.len() as int) =~= input);
    proof {
        lemma_sort_by_len(input, ord);
    }
    out
}

proof fn lemma_sort_by_len(s: Seq<RankedNode>, ord: spec_fn(RankedNode, RankedNode) -> bool)
    ensures
        sort_by(s, ord).len() == s.len(),
    decreases s.len(),
{
    if s.len() > 0 {
        lemma_sort_by_len(s.drop_last(), ord);
        let t = sort_by(s.drop_last(), ord);
        lemma_slot_by_range(t, s.last(), ord, 0);
    }
}

proof fn lemma_slot_by_range(s: Seq<RankedNode>, x: RankedNode, ord: spec_fn(RankedNode, RankedNode) -> bool, i: int)
    requires
        0 <= i <= s.len(),
    ensures
        i <= slot_by(s, x, ord, i) <= s.len(),
    decreases s.len() - i,
{
    if i < s.len() && !ord(x, s[i]) {
        lemma_slot_by_range(s, x, ord, i + 1);
    }
}

proof fn lemma_degree_bound(nodes: Seq<(Seq<char>, Seq<char>)>, edges: Seq<(Seq<char>, Seq<char>)>, id: Seq<char>)
    ensures
        degree_of(nodes, edges, id) <= 2 * edges.len(),
    decreases edges.len(),
{
    if edges.len() > 0 {
        lemma_degree_bound(nodes, edges.drop_last(), id);
    }
}

/// The shape of the graph for `raw_nodes` (note ids and titles) and
/// `raw_edges` (resolved links, by id): the degree of each node counts the
/// edge ends at it among edges between known nodes; over
/// [`MAX_GRAPH_NODES`] notes the best-ranked (by degree, then id) are kept;
/// nodes come in id order; edges whose ends are not both kept, self-loops
/// and repeats of an unordered pair are dropped.
pub fn build_graph_from_rows(raw_nodes: Vec<(String, String)>, raw_edges: Vec<(String, String)>) -> (g: GraphSkeleton)
    requires
        2 * raw_edges.len() <= u32::MAX,
    ensures
        g.truncated == (raw_nodes.len() > MAX_GRAPH_NODES),
        g.nodes@.map_values(|n: GraphNodeRow| node_view(n)) == selected_nodes(
            raw_nodes@.map_values(|p: (String, String)| pair_view(p)),
            raw_edges@.map_values(|p: (String, String)| pair_view(p)),
        ),
        g.edge_pairs@.map_values(|p: (usize, usize)| (p.0 as int, p.1 as int)) == drawn_edges(
            selected_nodes(
                raw_nodes@.map_values(|p: (String, String)| pair_view(p)),
                raw_edges@.map_values(|p: (String, String)| pair_view(p)),
            ),
            raw_edges@.map_values(|p: (String, String)| pair_view(p)),
        ),
        g.edges.len() == g.edge_pairs.len(),
        forall|i: int|
            0 <= i < g.edges.len() ==> edge_view(#[trigger] g.edges@[i]) == (
                g.nodes@[g.edge_pairs@[i].0 as int].id@,
                g.nodes@[g.edge_pairs@[i].1 as int].id@,
            ),
        forall|i: int| 0 <= i < g.edge_pairs.len() ==> (#[trigger] g.edge_pairs@[i]).0 < g.nodes.len() && g.edge_pairs@[i].1 < g.nodes.len(),
{
    let ghost nv = raw_nodes@.map_values(|p: (String, String)| pair_view(p));
    let ghost ev = raw_edges@.map_values(|p: (String, String)| pair_view(p));
    // Known ids.
    let mut known: StringHashMap<bool> = StringHashMap::new();
    let mut i: usize = 0;
    while i < raw_nodes.len()
        invariant
            i <= raw_nodes.len(),
            nv == raw_nodes@.map_values(|p: (String, String)| pair_view(p)),
            forall|x: Seq<char>| #[trigger] known@.contains_key(x) <==> has_id(nv.take(i as int), x),
        decreases raw_nodes.len() - i,
    {
        known.insert(raw_nodes[i].0.clone(), true);
        proof {
            assert forall|x: Seq<char>| #[trigger] known@.contains_key(x) <==> has_id(nv.take(i + 1), x) by {
                let t = nv.take(i + 1);
                if has_id(t, x) {
                    let m = choose|m: int| 0 <= m < t.len() && (#[trigger] t[m]).0 == x;
                    if m < i {
                        assert(nv.take(i as int)[m] == t[m]);
                    }
                }
                if has_id(nv.take(i as int), x) {
                    let m = choose|m: int| 0 <= m < i && (#[trigger] nv.take(i as int)[m]).0 == x;
                    assert(t[m] == nv.take(i as int)[m]);
                }
                if x == raw_nodes@[i as int].0@ {
                    assert(t[i as int].0 == x);
                }
            }
        }
        i += 1;
    }
    assert(nv.take(raw_nodes.len() as int) =~= nv);
    // Degrees.
    let mut deg: StringHashMap<u32> = StringHashMap::new();
    let mut e: usize = 0;
    while e < raw_edges.len()
        invariant
            e <= raw_edges.len(),
            2 * raw_edges.len() <= u32::MAX,
            nv == raw_nodes@.map_values(|p: (String, String)| pair_view(p)),
            ev == raw_edges@.map_values(|p: (String, String)| pair_view(p)),
            forall|x: Seq<char>| #[trigger] known@.contains_key(x) <==> has_id(nv, x),
            forall|x: Seq<char>|
                #[trigger] deg@.contains_key(x) ==> deg@[x] as nat == degree_of(nv, ev.take(e as int), x),
            forall|x: Seq<char>| !(#[trigger] deg@.contains_key(x)) ==> degree_of(nv, ev.take(e as int), x) == 0,
        decreases raw_edges.len() - e,
    {
        let (s, t) = (&raw_edges[e].0, &raw_edges[e].1);
        let ghost pre = ev.take(e as int);
        let ghost post = ev.take(e + 1);
        assert(post.drop_last() =~= pre);
        assert(post.last() == (s@, t@));
        if known.contains_key(s.as_str()) && known.contains_key(t.as_str()) {
            proof {
                lemma_degree_bound(nv, pre, s@);
                lemma_degree_bound(nv, pre, t@);
            }
            let ds: u32 = match deg.get(s.as_str()) {
                Some(v) => *v,
                None => 0,
            };
            deg.insert(s.clone(), ds + 1);
            proof {
                lemma_degree_bound(nv, pre, t@);
            }
            let dt: u32 = match deg.get(t.as_str()) {
                Some(v) => *v,
                None => 0,
            };
            proof {
                if s@ == t@ {
                    assert(dt as nat == degree_of(nv, pre, t@) + 1);
                } else {
                    assert(dt as nat == degree_of(nv, pre, t@));
                }
            }
            deg.insert(t.clone(), dt + 1);
        }
        e += 1;
    }
    assert(ev.take(raw_edges.len() as int) =~= ev);
    // Ranked rows.
    let ghost rs = ranked(nv, ev);
    let mut ids: Vec<Vec<char>> = Vec::new();
    let mut degs: Vec<u32> = Vec::new();
    let mut k: usize = 0;
    while k < raw_nodes.len()
        invariant
            k <= raw_nodes.len(),
            nv == raw_nodes@.map_values(|p: (String, String)| pair_view(p)),
            rs == ranked(nv, ev),
            ids.len() == k,
            degs.len() == k,
            forall|x: Seq<char>|
                #[trigger] deg@.contains_key(x) ==> deg@[x] as nat == degree_of(nv, ev, x),
            forall|x: Seq<char>| !(#[trigger] deg@.contains_key(x)) ==> degree_of(nv, ev, x) == 0,
            forall|m: int| 0 <= m < k ==> (#[trigger] rs[m]).0 == ids@[m]@ && rs[m].2 == degs@[m] as nat,
        decreases raw_nodes.len() - k,
    {
        let id = &raw_nodes[k].0;
        let d: u32 = match deg.get(id.as_str()) {
            Some(v) => *v,
            None => 0,
        };
        ids.push(chars_of(id.as_str()));
        degs.push(d);
        assert(rs[k as int] == (nv[k as int].0, nv[k as int].1, degree_of(nv, ev, nv[k as int].0)));
        k += 1;
    }
    // Selection.
    let truncated = raw_nodes.len() > MAX_GRAPH_NODES;
    let mut all_pos: Vec<usize> = Vec::new();
    let mut q: usize = 0;
    while q < raw_nodes.len()
        invariant
            q <= raw_nodes.len(),
            all_pos@.len() == q,
            forall|m: int| 0 <= m < q ==> all_pos@[m] == m,
        decreases raw_nodes.len() - q,
    {
        all_pos.push(q);
        q += 1;
    }
    assert(at_positions(all_pos@, rs) =~= rs);
    let kept: Vec<usize> = if truncated {
        let by_rank = sort_positions(&all_pos, &ids, &degs, true, Ghost(rs));
        let mut top: Vec<usize> = Vec::new();
        let mut m: usize = 0;
        while m < MAX_GRAPH_NODES
            invariant
                m <= MAX_GRAPH_NODES,
                by_rank.len() == raw_nodes.len(),
                raw_nodes.len() > MAX_GRAPH_NODES,
                top@ == by_rank@.take(m as int),
            decreases MAX_GRAPH_NODES - m,
        {
            top.push(by_rank[m]);
            assert(by_rank@.take(m + 1) =~= by_rank@.take(m as int).push(by_rank@[m as int]));
            m += 1;
        }
        assert(at_positions(top@, rs) =~= at_positions(by_rank@, rs).take(MAX_GRAPH_NODES as int));
        top
    } else {
        all_pos
    };
    let sel_pos = sort_positions(&kept, &ids, &degs, false, Ghost(rs));
    let ghost sel = selected_nodes(nv, ev);
    assert(at_positions(sel_pos@, rs) == sel);
    // Node rows.
    let mut nodes: Vec<GraphNodeRow> = Vec::new();
    let mut idx: StringHashMap<usize> = StringHashMap::new();
    let mut n: usize = 0;
    while n < sel_pos.len()
        invariant
            n <= sel_pos.len(),
            nv == raw_nodes@.map_values(|p: (String, String)| pair_view(p)),
            rs == ranked(nv, ev),
            rs.len() == raw_nodes.len(),
            degs.len() == raw_nodes.len(),
            ids.len() == raw_nodes.len(),
            forall|m: int| 0 <= m < rs.len() ==> (#[trigger] rs[m]).0 == ids@[m]@ && rs[m].2 == degs@[m] as nat,
            forall|m: int| 0 <= m < sel_pos.len() ==> (#[trigger] sel_pos@[m]) < rs.len(),
            sel == at_positions(sel_pos@, rs),
            nodes.len() == n,
            forall|m: int| 0 <= m < n ==> node_view(#[trigger] nodes@[m]) == sel[m],
            forall|x: Seq<char>|
                #[trigger] idx@.contains_key(x) <==> last_index(sel.take(n as int), x) is Some,
            forall|x: Seq<char>|
                #[trigger] idx@.contains_key(x) ==> last_index(sel.take(n as int), x) == Some(idx@[x] as int),
        decreases sel_pos.len() - n,
    {
        let p = sel_pos[n];
        let row = GraphNodeRow { id: raw_nodes[p].0.clone(), title: raw_nodes[p].1.clone(), degree: degs[p] };
        assert(node_view(row) == sel[n as int]);
        idx.insert(raw_nodes[p].0.clone(), n);
        nodes.push(row);
        proof {
            let t = sel.take(n + 1);
            assert(t.drop_last() =~= sel.take(n as int));
            assert(t.last() == sel[n as int]);
        }
        n += 1;
    }
    assert(sel.take(sel_pos.len() as int) =~= sel);
    // Edges.
    let mut pairs: Vec<(usize, usize)> = Vec::new();
    let mut f: usize = 0;
    while f < raw_edges.len()
        invariant
            f <= raw_edges.len(),
            ev == raw_edges@.map_values(|p: (String, String)| pair_view(p)),
            nodes.len() == sel.len(),
            forall|x: Seq<char>| #[trigger] idx@.contains_key(x) <==> last_index(sel, x) is Some,
            forall|x: Seq<char>| #[trigger] idx@.contains_key(x) ==> last_index(sel, x) == Some(idx@[x] as int),
            pairs@.map_values(|p: (usize, usize)| (p.0 as int, p.1 as int)) == drawn_edges(sel, ev.take(f as int)),
            forall|m: int| 0 <= m < pairs.len() ==> (#[trigger] pairs@[m]).0 < nodes.len() && pairs@[m].1 < nodes.len(),
        decreases raw_edges.len() - f,
    {
        let ghost pre = ev.take(f as int);
        let ghost post = ev.take(f + 1);
        assert(post.drop_last() =~= pre);
        assert(post.last() == pair_view(raw_edges@[f as int]));
        let ghost out = pairs@.map_values(|p: (usize, usize)| (p.0 as int, p.1 as int));
        let si = idx.get(raw_edges[f].0.as_str());
        let ti = idx.get(raw_edges[f].1.as_str());
        match (si, ti) {
            (Some(a), Some(b)) => {
                let a = *a;
                let b = *b;
                proof {
                    lemma_last_index_range(sel, raw_edges@[f as int].0@);
                    lemma_last_index_range(sel, raw_edges@[f as int].1@);
                }
                if a != b {
                    let mut seen = false;
                    let mut j: usize = 0;
                    while j < pairs.len()
                        invariant
                            j <= pairs.len(),
                            out == pairs@.map_values(|p: (usize, usize)| (p.0 as int, p.1 as int)),
                            seen <==> exists|m: int| 0 <= m < j && ((#[trigger] out[m]).0 == a && out[m].1 == b || out[m].0 == b && out[m].1 == a),
                        decreases pairs.len() - j,
                    {
                        let (x, y) = pairs[j];
                        assert(out[j as int] == (x as int, y as int));
                        if (x == a && y == b) || (x == b && y == a) {
                            seen = true;
                        }
                        j += 1;
                    }
                    if !seen {
                        pairs.push((a, b));
                        assert(pairs@.map_values(|p: (usize, usize)| (p.0 as int, p.1 as int)) =~= out.push((a as int, b as int)));
                    }
                }
            },
            _ => {},
        }
        f += 1;
    }
    assert(ev.take(raw_edges.len() as int) =~= ev);
    let mut edges: Vec<GraphEdge> = Vec::new();
    let mut h: usize = 0;
    while h < pairs.len()
        invariant
            h <= pairs.len(),
            edges.len() == h,
            forall|m: int| 0 <= m < pairs.len() ==> (#[trigger] pairs@[m]).0 < nodes.len() && pairs@[m].1 < nodes.len(),
            forall|m: int|
                0 <= m < h ==> edge_view(#[trigger] edges@[m]) == (
                    nodes@[pairs@[m].0 as int].id@,
                    nodes@[pairs@[m].1 as int].id@,
                ),
        decreases pairs.len() - h,
    {
        let (a, b) = pairs[h];
        edges.push(GraphEdge { source: nodes[a].id.clone(), target: nodes[b].id.clone() });
        h += 1;
    }
    assert(nodes@.map_values(|n: GraphNodeRow| node_view(n)) =~= sel);
    GraphSkeleton { nodes, edge_pairs: pairs, edges, truncated }
}

proof fn lemma_last_index_range(sel: Seq<RankedNode>, id: Seq<char>)
    ensures
        last_index(sel, id) matches Some(i) ==> 0 <= i < sel.len() && sel[i].0 == id,
    decreases sel.len(),
{
    if sel.len() > 0 && sel.last().0 != id {
        lemma_last_index_range(sel.drop_last(), id);
    }
}

/// Drawn edges have no self-loops, name an unordered pair at most once,
/// and join two selected nodes carrying the edge's ids.
pub proof fn law_drawn_edges_are_simple(sel: Seq<RankedNode>, edges: Seq<(Seq<char>, Seq<char>)>)
    ensures
        forall|i: int| 0 <= i < drawn_edges(sel, edges).len() ==> (#[trigger] drawn_edges(sel, edges)[i]).0 != drawn_edges(sel, edges)[i].1,
        forall|i: int| 0 <= i < drawn_edges(sel, edges).len() ==> 0 <= (#[trigger] drawn_edges(sel, edges)[i]).0 < sel.len() && 0 <= drawn_edges(sel, edges)[i].1 < sel.len(),
        forall|i: int, j: int|
            0 <= i < j < drawn_edges(sel, edges).len() ==> !((#[trigger] drawn_edges(sel, edges)[i]).0 == (#[trigger] drawn_edges(sel, edges)[j]).0
                && drawn_edges(sel, edges)[i].1 == drawn_edges(sel, edges)[j].1 || drawn_edges(sel, edges)[i].0 == drawn_edges(sel, edges)[j].1
                && drawn_edges(sel, edges)[i].1 == drawn_edges(sel, edges)[j].0),
    decreases edges.len(),
{
    if edges.len() > 0 {
        law_drawn_edges_are_simple(sel, edges.drop_last());
        let out = drawn_edges(sel, edges.drop_last());
        let e = edges.last();
        lemma_last_index_range(sel, e.0);
        lemma_last_index_range(sel, e.1);
        match (last_index(sel, e.0), last_index(sel, e.1)) {
            (Some(si), Some(ti)) => {
                if si != ti && !pair_seen(out, si, ti) {
                    let o2 = out.push((si, ti));
                    assert forall|i: int, j: int| 0 <= i < j < o2.len() implies !(o2[i].0 == o2[j].0 && o2[i].1 == o2[j].1 || o2[i].0 == o2[j].1 && o2[i].1 == o2[j].0) by {
                        if j == out.len() {
                            assert(o2[i] == out[i]);
                            if o2[i].0 == o2[j].0 && o2[i].1 == o2[j].1 || o2[i].0 == o2[j].1 && o2[i].1 == o2[j].0 {
                                assert(pair_seen(out, si, ti));
                            }
                        } else {
                            assert(o2[i] == out[i] && o2[j] == out[j]);
                        }
                    }
                }
            },
            _ => {},
        }
    }
}

/// The graph holds every note up to the cap, and exactly the cap beyond it.
pub proof fn law_node_count(nodes: Seq<(Seq<char>, Seq<char>)>, edges: Seq<(Seq<char>, Seq<char>)>)
    ensures
        selected_nodes(nodes, edges).len() == if nodes.len() > MAX_GRAPH_NODES {
            MAX_GRAPH_NODES as nat
        } else {
            nodes.len()
        },
{
    let r = ranked(nodes, edges);
    lemma_sort_by_len(r, rank_order());
    let kept = if nodes.len() > MAX_GRAPH_NODES {
        sort_by(r, rank_order()).take(MAX_GRAPH_NODES as int)
    } else {
        r
    };
    lemma_sort_by_len(kept, id_order());
    assert(rank_order() == (|a: RankedNode, b: RankedNode| ranks_before(a, b)));
    assert(id_order() == (|a: RankedNode, b: RankedNode| id_before(a, b)));
}

// ───────────────────────── reading the index ───────────────────────────

/// The node rows the index gives: every note as (id text, title or empty),
/// ordered by id text.
pub open spec fn index_node_rows(notes: Seq<crate::index::NoteRow>) -> Seq<(Seq<char>, Seq<char>)> {
    let ids = notes.map_values(|r: crate::index::NoteRow| crate::ids::ulid_encode(r.id.value));
    crate::order::ascending(ids).map_values(|i: int| (ids[i], match notes[i].title {
        Some(t) => t@,
        None => Seq::empty(),
    }))
}

/// The edge rows the index gives: every resolved link as (source id text,
/// target id text), in table order; dangling links are left out.
pub open spec fn index_edge_rows(links: Seq<crate::index::LinkRow>) -> Seq<(Seq<char>, Seq<char>)>
    decreases links.len(),
{
    if links.len() == 0 {
        Seq::empty()
    } else {
        let rest = index_edge_rows(links.drop_last());
        match links.last().target_id {
            Some(t) => rest.push((crate::ids::ulid_encode(links.last().source.value), crate::ids::ulid_encode(t.value))),
            None => rest,
        }
    }
}

proof fn lemma_edge_rows_len(links: Seq<crate::index::LinkRow>)
    ensures
        index_edge_rows(links).len() <= links.len(),
    decreases links.len(),
{
    if links.len() > 0 {
        lemma_edge_rows_len(links.drop_last());
    }
}

/// The node and edge rows of the graph, read from the index.
pub fn read_graph(index: &crate::index::Index) -> (r: (Vec<(String, String)>, Vec<(String, String)>))
    ensures
        r.0@.map_values(|p: (String, String)| pair_view(p)) == index_node_rows(index.notes@),
        r.1@.map_values(|p: (String, String)| pair_view(p)) == index_edge_rows(index.links@),
        r.1@.len() <= index.links@.len(),
{
    let ghost notes = index.notes@;
    let ghost ids = notes.map_values(|r: crate::index::NoteRow| crate::ids::ulid_encode(r.id.value));
    let mut id_texts: Vec<String> = Vec::new();
    let mut k: usize = 0;
    while k < index.notes.len()
        invariant
            k <= index.notes.len(),
            notes == index.notes@,
            ids == notes.map_values(|r: crate::index::NoteRow| crate::ids::ulid_encode(r.id.value)),
            crate::index::strs_view(id_texts@) == ids.take(k as int),
        decreases index.notes.len() - k,
    {
        let ghost before = id_texts@;
        id_texts.push(index.notes[k].id.to_string());
        assert(crate::index::strs_view(id_texts@) =~= crate::index::strs_view(before).push(ids[k as int]));
        assert(ids.take(k + 1) =~= ids.take(k as int).push(ids[k as int]));
        k += 1;
    }
    assert(ids.take(ids.len() as int) =~= ids);
    let order = crate::order::sort_ascending(&id_texts);
    proof {
        crate::order::lemma_ascending_positions(ids);
    }
    let ghost pos = crate::order::ascending(ids);
    let ghost want = index_node_rows(notes);
    let mut nodes: Vec<(String, String)> = Vec::new();
    let mut j: usize = 0;
    while j < order.len()
        invariant
            j <= order.len(),
            notes == index.notes@,
            ids == notes.map_values(|r: crate::index::NoteRow| crate::ids::ulid_encode(r.id.value)),
            crate::index::strs_view(id_texts@) == ids,
            crate::order::as_ints(order@) == pos,
            pos == crate::order::ascending(ids),
            want == index_node_rows(notes),
            pos.len() == ids.len(),
            forall|i: int| 0 <= i < order.len() ==> order@[i] < notes.len(),
            nodes@.map_values(|p: (String, String)| pair_view(p)) == want.take(j as int),
        decreases order.len() - j,
    {
        let q = order[j];
        let title = match &index.notes[q].title {
            Some(t) => t.clone(),
            None => String::new(),
        };
        let ghost before = nodes@;
        nodes.push((id_texts[q].clone(), title));
        proof {
            assert(pos[j as int] == q as int);
            assert(crate::index::strs_view(id_texts@)[q as int] == ids[q as int]);
            assert(want[j as int] == (ids[q as int], match notes[q as int].title {
                Some(t) => t@,
                None => Seq::<char>::empty(),
            }));
            assert(nodes@.map_values(|p: (String, String)| pair_view(p)) =~= before.map_values(|p: (String, String)| pair_view(p)).push(want[j as int]));
            assert(want.take(j + 1) =~= want.take(j as int).push(want[j as int]));
        }
        j += 1;
    }
    assert(want.take(want.len() as int) =~= want);
    let ghost links = index.links@;
    let mut edges: Vec<(String, String)> = Vec::new();
    let mut m: usize = 0;
    while m < index.links.len()
        invariant
            m <= index.links.len(),
            links == index.links@,
            edges@.map_values(|p: (String, String)| pair_view(p)) == index_edge_rows(links.take(m as int)),
        decreases index.links.len() - m,
    {
        assert(links.take(m + 1).drop_last() =~= links.take(m as int));
        assert(links.take(m + 1).last() == links[m as int]);
        match &index.links[m].target_id {
            Some(t) => {
                let ghost before = edges@;
                edges.push((index.links[m].source.to_string(), t.to_string()));
                assert(edges@.map_values(|p: (String, String)| pair_view(p)) =~= before.map_values(|p: (String, String)| pair_view(p)).push((crate::ids::ulid_encode(links[m as int].source.value), crate::ids::ulid_encode(t.value))));
            },
            None => {},
        }
        m += 1;
    }
    assert(links.take(links.len() as int) =~= links);
    proof {
        lemma_edge_rows_len(links);
    }
    assert(edges@.len() == edges@.map_values(|p: (String, String)| pair_view(p)).len());
    (nodes, edges)
}

/// The graph's shape for the index: [`read_graph`], then
/// [`build_graph_from_rows`].
pub fn build_graph(index: &crate::index::Index) -> (g: GraphSkeleton)
    requires
        2 * index.links@.len() <= u32::MAX,
    ensures
        g.truncated == (index.notes@.len() > MAX_GRAPH_NODES),
        g.nodes@.map_values(|n: GraphNodeRow| node_view(n)) == selected_nodes(
            index_node_rows(index.notes@),
            index_edge_rows(index.links@),
        ),
        g.edge_pairs@.map_values(|p: (usize, usize)| (p.0 as int, p.1 as int)) == drawn_edges(
            selected_nodes(index_node_rows(index.notes@), index_edge_rows(index.links@)),
            index_edge_rows(index.links@),
        ),
{
    let (nodes, edges) = read_graph(index);
    proof {
        crate::order::lemma_ascending_positions(index.notes@.map_values(|r: crate::index::NoteRow| crate::ids::ulid_encode(r.id.value)));
        assert(nodes@.len() == nodes@.map_values(|p: (String, String)| pair_view(p)).len());
    }
    build_graph_from_rows(nodes, edges)
}

} // verus!
