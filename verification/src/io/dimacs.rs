//! A line-oriented edge-list format in the manner of DIMACS.

use crate::graph::{grown, lemma_slots_joined, AbstractGraph, FastGraph};
use crate::io::pair_iter::{line_end, next_line, pair_of_line, lemma_scan_bounds, PairIterator};
use crate::io::{endpoints_below, joins, GraphFormat};
use crate::storage::{slot_of, stores_edge};
use std::marker::PhantomData;
use vstd::prelude::*;

verus! {

/// The format: a first line with the number of vertices and the number of
/// edges, then one line per edge with its two endpoints. Lines after the
/// announced number of edges are not read, and the first line that holds
/// no pair ends the list early.
///
/// Of each line only the first two tokens are read; anything may follow
/// them. The text is taken byte by byte and is not asked to be UTF-8, and
/// only ASCII white space separates tokens: a blank outside ASCII between
/// two numbers makes them one token, which is no number.
pub struct FakeDimacs<G: AbstractGraph> {
    _p: PhantomData<G>,
}

/// The format under its other name.
pub type DimacsFormat<G> = FakeDimacs<G>;

/// The pairs of the lines from the one that begins at `from`: at most
/// `limit` of them, and none from the first line on that holds no pair.
pub open spec fn pairs_from(text: Seq<u8>, from: int, limit: nat) -> Seq<(usize, usize)>
    decreases limit,
{
    if limit == 0 || from < 0 || from > text.len() {
        Seq::empty()
    } else {
        match pair_of_line(text.subrange(from, line_end(text, from))) {
            Some(pair) => seq![pair] + pairs_from(text, next_line(text, from), (limit - 1) as nat),
            None => Seq::empty(),
        }
    }
}

/// What a text of the format stands for.
pub open spec fn dimacs_graph(text: Seq<u8>) -> Option<(usize, Seq<(usize, usize)>)> {
    match pair_of_line(text.subrange(0, line_end(text, 0))) {
        Some((nv, ne)) => Some((nv, pairs_from(text, next_line(text, 0), ne as nat))),
        None => None,
    }
}

impl<G: FastGraph> GraphFormat<G> for FakeDimacs<G> {
    open spec fn describes(text: Seq<u8>) -> Option<(usize, Seq<(usize, usize)>)> {
        dimacs_graph(text)
    }

    fn parse_graph(text: &[u8]) -> (out: Result<G, ()>) {
        let mut pairs = PairIterator::new(text);
        let (nv, ne) = match pairs.next() {
            Some(header) => header,
            None => {
                return Err(());
            },
        };
        if nv > G::max_labels() {
            return Err(());
        }
        let mut graph = G::empty(nv);
        let mut taken: usize = 0;
        let ghost start = pairs.position();
        let ghost all = pairs_from(text@, start, ne as nat);
        let ghost mut edges: Seq<(usize, usize)> = Seq::empty();
        proof {
            lemma_scan_bounds(text@, 0);
        }
        while taken < ne
            invariant_except_break
                edges + pairs_from(text@, pairs.position(), (ne - taken) as nat) == all,
            invariant
                pairs.wf(),
                pairs.text() == text@,
                0 <= pairs.position() <= text@.len(),
                dimacs_graph(text@) == Some((nv, all)),
                nv <= G::label_capacity(),
                taken <= ne,
                graph.wf(),
                graph.slots().len() == nv,
                graph.order_spec() == nv,
                graph.size_spec() == taken,
                graph.slots() == grown(
                    Seq::new(nv as nat, |i: int| Some(Seq::<usize>::empty())),
                    edges,
                    G::edge_rule(),
                ),
                forall|l: usize| l < nv ==> slot_of(graph.slots(), l) is Some,
                edges.len() == taken,
                endpoints_below(edges, nv as nat),
                forall|x: usize, y: usize| stores_edge(graph.slots(), x, y) <==> joins(edges, x, y),
            ensures
                edges == all,
                graph.wf(),
                graph.slots() == grown(
                    Seq::new(nv as nat, |i: int| Some(Seq::<usize>::empty())),
                    edges,
                    G::edge_rule(),
                ),
                graph.slots().len() == nv,
                graph.order_spec() == nv,
                graph.size_spec() == edges.len(),
                endpoints_below(edges, nv as nat),
                forall|x: usize, y: usize| stores_edge(graph.slots(), x, y) <==> joins(edges, x, y),
            decreases ne - taken,
        {
            let ghost at = pairs.position();
            let ghost rest = pairs_from(text@, next_line(text@, at), (ne - taken - 1) as nat);
            proof {
                lemma_scan_bounds(text@, at);
            }
            match pairs.next() {
                None => {
                    proof {
                        assert(edges + Seq::<(usize, usize)>::empty() =~= edges);
                    }
                    break ;
                },
                Some((u, v)) => {
                    proof {
                        assert(edges + (seq![(u, v)] + rest) =~= edges.push((u, v)) + rest);
                        assert(all[edges.len() as int] == (u, v));
                    }
                    if u >= nv || v >= nv {
                        return Err(());
                    }
                    let ghost before = graph.slots();
                    proof {
                        G::lemma_edge_rule();
                        lemma_slots_joined(before, u, v, G::edge_rule());
                    }
                    graph.add_edge_unchecked(u, v);
                    proof {
                        assert(edges.push((u, v)).drop_last() =~= edges);
                        let grown = edges.push((u, v));
                        assert forall|x: usize, y: usize|
                            stores_edge(graph.slots(), x, y) <==> joins(grown, x, y) by {
                            if joins(edges, x, y) {
                                let i = choose|i: int|
                                    0 <= i < edges.len() && (#[trigger] edges[i] == (x, y) || edges[i]
                                        == (y, x));
                                assert(grown[i] == edges[i]);
                            }
                            if (x == u && y == v) || (x == v && y == u) {
                                assert(grown[edges.len() as int] == (u, v));
                            }
                            if joins(grown, x, y) {
                                let i = choose|i: int|
                                    0 <= i < grown.len() && (#[trigger] grown[i] == (x, y) || grown[i]
                                        == (y, x));
                                if i < edges.len() {
                                    assert(grown[i] == edges[i]);
                                }
                            }
                        }
                        edges = grown;
                    }
                    taken += 1;
                },
            }
        }
        proof {
            if taken == ne {
                assert(edges + Seq::<(usize, usize)>::empty() =~= edges);
            }
        }
        Ok(graph)
    }
}

} // verus!
