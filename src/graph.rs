//! The graph of board states: nodes are seeds, edges are moves. Built on
//! petgraph's `GraphMap`, whose contents the contracts below speak of through
//! `graph_nodes` and `graph_edges`.
use vstd::prelude::*;
use vstd::arithmetic::power2::pow2;
use petgraph::graphmap::GraphMap;
use petgraph::Undirected;
use std::hash::BuildHasher;
use crate::layout::{
    MAX_LINES,
    seed_value,
    lemma_pow2_fits,
    lemma_seed_value_bound,
    lemma_seed_round_trip,
    lemma_seed_positive,
};
use crate::pyramide::{
    Coup,
    Pyramide,
    PyramideRules,
    Seed,
    layout,
    move_valid_on,
    cells_after,
    pegs_of,
    is_theoretical,
    is_diagonal,
    lemma_board_layout,
    lemma_move_peg_count,
};
use crate::moves::{coups_theoriques, cherche_coups_possibles, legal_among, lemma_legal_among};

verus! {

#[verifier::external_type_specification]
#[verifier::external_body]
#[verifier::reject_recursive_types(N)]
#[verifier::reject_recursive_types(E)]
#[verifier::reject_recursive_types(Ty)]
#[verifier::reject_recursive_types(S)]
pub struct ExGraphMap<N, E, Ty, S>(GraphMap<N, E, Ty, S>) where S: BuildHasher;

#[verifier::external_type_specification]
#[verifier::external_body]
pub struct ExUndirected(Undirected);

/// The undirected graph of board states, keyed by seed and labelled by moves.
pub type StateGraph = GraphMap<Seed, Coup, Undirected>;

/// The seeds that are nodes of the graph.
pub uninterp spec fn graph_nodes(g: StateGraph) -> Set<u128>;

/// The edges of the graph, each under the key `edge_key` gives its two ends,
/// with its label.
pub uninterp spec fn graph_edges(g: StateGraph) -> Map<(u128, u128), Coup>;

/// An undirected edge is stored under its ends in increasing order.
pub open spec fn edge_key(a: u128, b: u128) -> (u128, u128) {
    if a <= b {
        (a, b)
    } else {
        (b, a)
    }
}

pub open spec fn adjacent(g: StateGraph, a: u128, b: u128) -> bool {
    graph_edges(g).dom().contains(edge_key(a, b))
}

/// A sequence of seeds, each joined to the next by an edge.
pub open spec fn is_walk(g: StateGraph, p: Seq<u128>) -> bool {
    &&& p.len() >= 1
    &&& forall|i: int| 0 <= i < p.len() - 1 ==> adjacent(g, #[trigger] p[i], p[i + 1])
}

pub open spec fn walk_between(g: StateGraph, p: Seq<u128>, a: u128, b: u128) -> bool {
    is_walk(g, p) && p[0] == a && p.last() == b
}

pub open spec fn connected(g: StateGraph, a: u128, b: u128) -> bool {
    exists|p: Seq<u128>| #[trigger] walk_between(g, p, a, b)
}

/// The shortest walk from `a` to `b` has `d` edges.
pub open spec fn at_distance(g: StateGraph, a: u128, b: u128, d: nat) -> bool {
    &&& exists|p: Seq<u128>| #[trigger] walk_between(g, p, a, b) && p.len() == d + 1
    &&& forall|p: Seq<u128>| #[trigger] walk_between(g, p, a, b) ==> p.len() >= d + 1
}

/// Number of connected components: the number of distinct sets of nodes
/// connected to a node.
pub open spec fn component_count(g: StateGraph) -> nat {
    graph_nodes(g).map(|a: u128| Set::new(|b: u128| connected(g, a, b))).len()
}

/// Relies on GraphMap::new: a graph with no node and no edge.
#[verifier::external_body]
fn new_graph() -> (r: StateGraph)
    ensures
        graph_nodes(r) =~= Set::empty(),
        graph_edges(r) =~= Map::empty(),
{
    GraphMap::new()
}

/// Relies on GraphMap::add_node: the node is there afterwards, nothing else changes.
#[verifier::external_body]
fn add_node(g: &mut StateGraph, n: Seed)
    ensures
        graph_nodes(*final(g)) == graph_nodes(*old(g)).insert(n),
        graph_edges(*final(g)) == graph_edges(*old(g)),
{
    g.add_node(n);
}

/// Relies on GraphMap::add_edge: both ends become nodes, and the edge, stored
/// under its ordered ends for an undirected graph, takes the new label.
#[verifier::external_body]
fn add_edge(g: &mut StateGraph, a: Seed, b: Seed, label: Coup)
    ensures
        graph_nodes(*final(g)) == graph_nodes(*old(g)).insert(a).insert(b),
        graph_edges(*final(g)) == graph_edges(*old(g)).insert(edge_key(a, b), label),
{
    g.add_edge(a, b, label);
}

/// Relies on GraphMap::contains_node.
#[verifier::external_body]
fn contains_node(g: &StateGraph, n: Seed) -> (r: bool)
    ensures
        r == graph_nodes(*g).contains(n),
{
    g.contains_node(n)
}

/// Relies on petgraph::algo::connected_components: the number of classes of
/// nodes joined by walks.
#[verifier::external_body]
fn count_components(g: &StateGraph) -> (r: usize)
    ensures
        r == component_count(*g),
{
    petgraph::algo::connected_components(g)
}

/// Cost of crossing an edge when measuring distances.
fn unit_cost(label: &Coup) -> (r: u64)
    ensures
        r == 1,
{
    1
}

/// Relies on petgraph::algo::dijkstra with unit costs: one entry for each seed
/// that a walk reaches from `start`, with the number of edges of its shortest walk.
#[verifier::external_body]
fn shortest_walks(g: &StateGraph, start: Seed) -> (r: Vec<(Seed, u64)>)
    ensures
        forall|i: int, j: int| 0 <= i < r@.len() && 0 <= j < r@.len() && i != j ==> r@[i].0 != r@[j].0,
        forall|i: int| 0 <= i < r@.len() ==> at_distance(*g, start, #[trigger] r@[i].0, r@[i].1 as nat),
        forall|b: u128| connected(*g, start, b) ==> exists|i: int| 0 <= i < r@.len() && #[trigger] r@[i].0 == b,
{
    petgraph::algo::dijkstra(g, start, None, |e: (Seed, Seed, &Coup)| unit_cost(e.2)).into_iter().collect()
}

/// Whether move `m` is legal on the board of seed `s`.
pub open spec fn move_legal(rules: PyramideRules, s: nat, m: Coup) -> bool {
    move_valid_on(rules.lines as int, rules.diag_allowed, layout(rules.lines as int, s), m)
}

/// The seed of the board of seed `s` after move `m`.
pub open spec fn successor(rules: PyramideRules, s: nat, m: Coup) -> nat {
    let n = rules.lines as int;
    seed_value(pegs_of(n, cells_after(n, layout(n, s), m)))
}

/// Number of seeds of a board under the rules: `2^(lines * lines)`.
pub open spec fn seed_bound(rules: PyramideRules) -> nat {
    pow2((rules.lines * rules.lines) as nat)
}

/// Every edge joins two nodes, one of which its label turns into the other.
pub open spec fn edges_are_moves(rules: PyramideRules, g: StateGraph) -> bool {
    forall|k: (u128, u128)|
        #[trigger] graph_edges(g).dom().contains(k) ==> {
            let m = graph_edges(g)[k];
            &&& k.0 <= k.1
            &&& graph_nodes(g).contains(k.0)
            &&& graph_nodes(g).contains(k.1)
            &&& (move_legal(rules, k.0 as nat, m) && successor(rules, k.0 as nat, m) == k.1)
                || (move_legal(rules, k.1 as nat, m) && successor(rules, k.1 as nat, m) == k.0)
        }
}

/// Every legal move from a seed of `done` leads to a node, along an edge.
pub open spec fn moves_recorded(rules: PyramideRules, g: StateGraph, done: Set<u128>) -> bool {
    forall|s: u128, m: Coup|
        done.contains(s) && #[trigger] move_legal(rules, s as nat, m) ==> {
            let t = successor(rules, s as nat, m) as u128;
            &&& graph_nodes(g).contains(t)
            &&& graph_edges(g).dom().contains(edge_key(s, t))
        }
}

/// A move keeps the seed below the bound and leaves at least one peg.
proof fn lemma_successor_in_range(rules: PyramideRules, s: nat, m: Coup)
    requires
        rules.wf(),
        move_legal(rules, s, m),
    ensures
        1 <= successor(rules, s, m) < seed_bound(rules),
{
    let n = rules.lines as int;
    let cells = layout(n, s);
    assert(crate::pyramide::cells_wf(n, cells)) by {
        crate::pyramide::lemma_layout_wf(n, s);
    }
    lemma_move_peg_count(n, rules.diag_allowed, cells, m);
    let after = pegs_of(n, cells_after(n, cells, m));
    lemma_seed_value_bound(after);
    lemma_seed_positive(after);
}

/// A seed whose every legal move leads to a node along an edge is recorded.
proof fn record_step(rules: PyramideRules, g: StateGraph, s: u128)
    requires
        forall|m: Coup| #[trigger] move_legal(rules, s as nat, m) ==> {
            let t = successor(rules, s as nat, m) as u128;
            &&& graph_nodes(g).contains(t)
            &&& graph_edges(g).dom().contains(edge_key(s, t))
        },
    ensures
        moves_recorded(rules, g, set![s]),
{
}

/// Two sets of recorded seeds make a recorded union.
proof fn lemma_recorded_union(rules: PyramideRules, g: StateGraph, a: Set<u128>, b: Set<u128>)
    requires
        moves_recorded(rules, g, a),
        moves_recorded(rules, g, b),
    ensures
        moves_recorded(rules, g, a.union(b)),
{
}

/// Recorded moves stay recorded as nodes and edges are added.
proof fn lemma_recorded_grow(rules: PyramideRules, g0: StateGraph, g: StateGraph, a: Set<u128>)
    requires
        moves_recorded(rules, g0, a),
        graph_nodes(g0).subset_of(graph_nodes(g)),
        graph_edges(g0).dom().subset_of(graph_edges(g).dom()),
    ensures
        moves_recorded(rules, g, a),
{
    assert forall|s: u128, m: Coup| a.contains(s) && #[trigger] move_legal(rules, s as nat, m) implies {
        let t = successor(rules, s as nat, m) as u128;
        &&& graph_nodes(g).contains(t)
        &&& graph_edges(g).dom().contains(edge_key(s, t))
    } by {
        let t = successor(rules, s as nat, m) as u128;
        assert(graph_nodes(g0).contains(t));
        assert(graph_edges(g0).dom().contains(edge_key(s, t)));
    }
}

/// The graph of every filling: a node for each seed from `1` to
/// `2^(lines * lines) - 1`, and an edge for every legal move from each.
pub fn build_full_graph(lines: usize, diag_allowed: bool) -> (g: StateGraph)
    requires
        2 <= lines <= MAX_LINES,
    ensures
        graph_nodes(g) == Set::new(
            |s: u128| 1 <= s < seed_bound(PyramideRules { lines, diag_allowed }),
        ),
        edges_are_moves(PyramideRules { lines, diag_allowed }, g),
        moves_recorded(PyramideRules { lines, diag_allowed }, g, graph_nodes(g)),
{
    let ghost rules = PyramideRules { lines, diag_allowed };
    let mut state_graph = new_graph();
    let temp_pyra = Pyramide::init_full(lines, diag_allowed);
    let theoretical = coups_theoriques(&temp_pyra);
    assert(lines * lines <= 121) by (nonlinear_arith)
        requires
            lines <= 11,
    ;
    let nn = lines * lines;
    let mut bound: u128 = 1;
    let mut i: usize = 0;
    proof {
        vstd::arithmetic::power2::lemma2_to64();
    }
    while i < nn
        invariant
            nn <= 121,
            i <= nn,
            bound == pow2(i as nat),
        decreases nn - i,
    {
        proof {
            lemma_pow2_fits(i as nat);
        }
        bound = bound * 2;
        i = i + 1;
    }
    let mut seed: u128 = 1;
    while seed < bound
        invariant
            rules == (PyramideRules { lines, diag_allowed }),
            2 <= lines <= MAX_LINES,
            nn == lines * lines,
            bound == seed_bound(rules),
            1 <= seed <= bound,
            forall|m: Coup| theoretical@.contains(m) <==> is_theoretical(rules, m),
            forall|s: u128| 1 <= s < seed ==> #[trigger] graph_nodes(state_graph).contains(s),
            forall|s: u128| #[trigger] graph_nodes(state_graph).contains(s) ==> 1 <= s < bound,
            edges_are_moves(rules, state_graph),
            moves_recorded(rules, state_graph, Set::new(|s: u128| 1 <= s < seed)),
        decreases bound - seed,
    {
        let pyra = Pyramide::init_from_seed(lines, seed, diag_allowed);
        proof {
            lemma_board_layout(lines as int, pyra.cells@);
            lemma_seed_round_trip(seed as nat, nn as nat);
        }
        assert(pyra.cells@ == layout(lines as int, seed as nat));
        let ghost g0 = state_graph;
        match cherche_coups_possibles(&pyra, &theoretical) {
            None => {
                add_node(&mut state_graph, seed);
                proof {
                    assert forall|m: Coup| !#[trigger] move_legal(rules, seed as nat, m) by {
                        if move_legal(rules, seed as nat, m) {
                            assert(is_theoretical(rules, m));
                            assert(theoretical@.contains(m));
                            lemma_legal_among(pyra, theoretical@, m);
                            let j = choose|j: int| 0 <= j < legal_among(pyra, theoretical@).len()
                                && legal_among(pyra, theoretical@)[j] == m;
                        }
                    }
                    record_step(rules, state_graph, seed);
                }
            },
            Some(coups_possibles) => {
                let mut k: usize = 0;
                while k < coups_possibles.len()
                    invariant
                        rules == (PyramideRules { lines, diag_allowed }),
                        2 <= lines <= MAX_LINES,
                        nn == lines * lines,
                        bound == seed_bound(rules),
                        1 <= seed < bound,
                        pyra.wf(),
                        pyra.lines == lines,
                        pyra.diag_allowed == diag_allowed,
                        pyra.cells@ == layout(lines as int, seed as nat),
                        coups_possibles@ == legal_among(pyra, theoretical@),
                        coups_possibles@.len() > 0,
                        k <= coups_possibles@.len(),
                        k > 0 ==> graph_nodes(state_graph).contains(seed),
                        forall|s: u128|
                            #[trigger] graph_nodes(g0).contains(s) ==> graph_nodes(
                                state_graph,
                            ).contains(s),
                        forall|e: (u128, u128)|
                            #[trigger] graph_edges(g0).dom().contains(e) ==> graph_edges(
                                state_graph,
                            ).dom().contains(e),
                        forall|s: u128| #[trigger] graph_nodes(state_graph).contains(s) ==> 1 <= s < bound,
                        edges_are_moves(rules, state_graph),
                        forall|j: int|
                            0 <= j < k ==> {
                                let t = successor(rules, seed as nat, #[trigger] coups_possibles@[j]) as u128;
                                &&& graph_nodes(state_graph).contains(t)
                                &&& graph_edges(state_graph).dom().contains(edge_key(seed, t))
                            },
                    decreases coups_possibles@.len() - k,
                {
                    let coup = coups_possibles[k];
                    proof {
                        lemma_legal_among(pyra, theoretical@, coup);
                        assert(coups_possibles@.contains(coup));
                        lemma_successor_in_range(rules, seed as nat, coup);
                    }
                    let mut new_pyra = pyra.clone();
                    let res = new_pyra.coup(&coup);
                    assert(res is Ok);
                    let new_seed = new_pyra.seed();
                    assert(new_seed == successor(rules, seed as nat, coup));
                    let ghost g1 = state_graph;
                    add_edge(&mut state_graph, seed, new_seed, coup);
                    proof {
                        assert forall|e: (u128, u128)| #[trigger] graph_edges(state_graph).dom().contains(e)
                            implies {
                            let m = graph_edges(state_graph)[e];
                            &&& e.0 <= e.1
                            &&& graph_nodes(state_graph).contains(e.0)
                            &&& graph_nodes(state_graph).contains(e.1)
                            &&& (move_legal(rules, e.0 as nat, m) && successor(rules, e.0 as nat, m) == e.1)
                                || (move_legal(rules, e.1 as nat, m) && successor(rules, e.1 as nat, m) == e.0)
                        } by {
                            if e != edge_key(seed, new_seed) {
                                assert(graph_edges(g1).dom().contains(e));
                            }
                        }
                    }
                    k = k + 1;
                }
                proof {
                    assert forall|m: Coup| #[trigger] move_legal(rules, seed as nat, m) implies {
                        let t = successor(rules, seed as nat, m) as u128;
                        &&& graph_nodes(state_graph).contains(t)
                        &&& graph_edges(state_graph).dom().contains(edge_key(seed, t))
                    } by {
                        assert(is_theoretical(rules, m));
                        assert(theoretical@.contains(m));
                        lemma_legal_among(pyra, theoretical@, m);
                        let j = choose|j: int| 0 <= j < coups_possibles@.len() && coups_possibles@[j] == m;
                    }
                    record_step(rules, state_graph, seed);
                }
            },
        }
        proof {
            assert(graph_nodes(g0).subset_of(graph_nodes(state_graph)));
            assert(graph_edges(g0).dom().subset_of(graph_edges(state_graph).dom()));
            lemma_recorded_grow(rules, g0, state_graph, Set::new(|s: u128| 1 <= s < seed));
            lemma_recorded_union(rules, state_graph, Set::new(|s: u128| 1 <= s < seed), set![seed]);
            assert(Set::new(|s: u128| 1 <= s < seed).union(set![seed]) =~= Set::new(
                |s: u128| 1 <= s < seed + 1,
            ));
        }
        seed = seed + 1;
    }
    proof {
        assert(graph_nodes(state_graph) =~= Set::new(|s: u128| 1 <= s < seed_bound(rules)));
        assert(Set::new(|s: u128| 1 <= s < seed) =~= graph_nodes(state_graph));
    }
    state_graph
}

/// Seed of a board, as a number.
pub open spec fn board_seed(b: Pyramide) -> nat {
    seed_value(b.pegs())
}

/// Seeds of the boards of a list.
pub open spec fn seeds_of(boards: Seq<Pyramide>) -> Set<u128> {
    Set::new(|s: u128| exists|j: int| 0 <= j < boards.len() && board_seed(boards[j]) == s as nat)
}

/// Some legal move turns seed `s` into seed `t`.
pub open spec fn step(rules: PyramideRules, s: nat, t: nat) -> bool {
    exists|m: Coup| move_legal(rules, s, m) && successor(rules, s, m) == t
}

/// A sequence of seeds, each turned into the next by a legal move.
pub open spec fn move_path(rules: PyramideRules, p: Seq<nat>) -> bool {
    &&& p.len() >= 1
    &&& forall|i: int| 0 <= i < p.len() - 1 ==> step(rules, #[trigger] p[i], p[i + 1])
}

/// Seed `t` is reached from one of the boards `roots` by legal moves.
pub open spec fn reachable(rules: PyramideRules, roots: Seq<Pyramide>, t: nat) -> bool {
    exists|p: Seq<nat>|
        #[trigger] move_path(rules, p) && p.last() == t && exists|i: int|
            0 <= i < roots.len() && board_seed(roots[i]) == p[0]
}

/// Boards under one set of rules.
pub open spec fn boards_under(rules: PyramideRules, boards: Seq<Pyramide>) -> bool {
    forall|j: int| 0 <= j < boards.len() ==> (#[trigger] boards[j]).wf() && boards[j].rules() == rules
}

/// What the reachability search keeps true of its graph.
pub open spec fn search_sound(rules: PyramideRules, roots: Seq<Pyramide>, g: StateGraph) -> bool {
    &&& edges_are_moves(rules, g)
    &&& forall|x: u128| #[trigger] graph_nodes(g).contains(x) ==> x < seed_bound(rules)
    &&& forall|x: u128| #[trigger] graph_nodes(g).contains(x) ==> reachable(rules, roots, x as nat)
    &&& forall|i: int| 0 <= i < roots.len() ==> graph_nodes(g).contains(#[trigger] board_seed(roots[i]) as u128)
}

proof fn lemma_path_push(rules: PyramideRules, p: Seq<nat>, t: nat, m: Coup)
    requires
        move_path(rules, p),
        move_legal(rules, p.last(), m),
        successor(rules, p.last(), m) == t,
    ensures
        move_path(rules, p.push(t)),
        p.push(t)[0] == p[0],
        p.push(t).last() == t,
{
    let q = p.push(t);
    assert forall|i: int| 0 <= i < q.len() - 1 implies step(rules, #[trigger] q[i], q[i + 1]) by {
        if i < p.len() - 1 {
            assert(q[i] == p[i] && q[i + 1] == p[i + 1]);
        } else {
            assert(q[i] == p.last());
        }
    }
}

/// A set of seeds below `b` is finite and has at most `b` elements.
proof fn lemma_bounded_seeds(s: Set<u128>, b: nat)
    requires
        b <= u128::MAX,
        forall|x: u128| #[trigger] s.contains(x) ==> x < b,
    ensures
        s.finite(),
        s.len() <= b,
    decreases b,
{
    if b == 0 {
        assert(s =~= Set::empty());
    } else {
        let top = (b - 1) as u128;
        let lower = s.remove(top);
        lemma_bounded_seeds(lower, (b - 1) as nat);
        vstd::set_lib::lemma_len_subset(s, lower.insert(top));
    }
}

/// The seeds of a list with one more board.
proof fn lemma_seeds_push(boards: Seq<Pyramide>, b: Pyramide)
    requires
        board_seed(b) <= u128::MAX,
    ensures
        seeds_of(boards.push(b)) == seeds_of(boards).insert(board_seed(b) as u128),
{
    let q = boards.push(b);
    let t = board_seed(b) as u128;
    assert forall|x: u128| #[trigger] seeds_of(q).contains(x) implies seeds_of(boards).insert(t).contains(x) by {
        let i = choose|i: int| 0 <= i < q.len() && #[trigger] board_seed(q[i]) == x as nat;
        if i < boards.len() {
            assert(q[i] == boards[i]);
        }
    }
    assert forall|x: u128| #[trigger] seeds_of(boards).insert(t).contains(x) implies seeds_of(q).contains(x) by {
        if x == t {
            assert(q[boards.len() as int] == b);
        } else {
            let i = choose|i: int| 0 <= i < boards.len() && #[trigger] board_seed(boards[i]) == x as nat;
            assert(q[i] == boards[i]);
        }
    }
    assert(seeds_of(q) =~= seeds_of(boards).insert(t));
}

/// Plays every legal move of `pyra`: each child becomes a node joined to it by
/// the move, and a child whose seed was not yet a node is queued.
fn expand_board(
    state_graph: &mut StateGraph,
    pyra: &Pyramide,
    theoretical: &Vec<Coup>,
    new_to_visit: &mut Vec<Pyramide>,
    Ghost(rules): Ghost<PyramideRules>,
    Ghost(roots): Ghost<Seq<Pyramide>>,
) -> (pyra_seed: Seed)
    requires
        rules.wf(),
        seed_bound(rules) <= u128::MAX,
        pyra.wf(),
        pyra.rules() == rules,
        forall|m: Coup| theoretical@.contains(m) <==> is_theoretical(rules, m),
        boards_under(rules, old(new_to_visit)@),
        search_sound(rules, roots, *old(state_graph)),
        graph_nodes(*old(state_graph)).contains(board_seed(*pyra) as u128),
        seeds_of(old(new_to_visit)@).subset_of(graph_nodes(*old(state_graph))),
    ensures
        pyra_seed == board_seed(*pyra),
        search_sound(rules, roots, *final(state_graph)),
        graph_nodes(*old(state_graph)).subset_of(graph_nodes(*final(state_graph))),
        graph_edges(*old(state_graph)).dom().subset_of(graph_edges(*final(state_graph)).dom()),
        boards_under(rules, final(new_to_visit)@),
        graph_nodes(*final(state_graph)) == graph_nodes(*old(state_graph)).union(
            seeds_of(final(new_to_visit)@),
        ),
        seeds_of(old(new_to_visit)@).subset_of(seeds_of(final(new_to_visit)@)),
        forall|x: u128|
            #[trigger] seeds_of(final(new_to_visit)@).contains(x) ==> seeds_of(old(new_to_visit)@).contains(x)
                || !graph_nodes(*old(state_graph)).contains(x),
        moves_recorded(rules, *final(state_graph), set![pyra_seed]),
{
    let ghost n = rules.lines as int;
    let ghost g0 = *state_graph;
    let ghost q0 = new_to_visit@;
    let pyra_seed = pyra.seed();
    proof {
        lemma_board_layout(n, pyra.cells@);
        lemma_seed_value_bound(pyra.pegs());
    }
    add_node(state_graph, pyra_seed);
    proof {
        assert(graph_nodes(*state_graph) =~= graph_nodes(g0));
        assert(graph_nodes(*state_graph) =~= graph_nodes(g0).union(seeds_of(new_to_visit@)));
    }
    match cherche_coups_possibles(pyra, theoretical) {
        None => {
            proof {
                assert forall|m: Coup| !#[trigger] move_legal(rules, pyra_seed as nat, m) by {
                    if move_legal(rules, pyra_seed as nat, m) {
                        assert(is_theoretical(rules, m));
                        assert(theoretical@.contains(m));
                        lemma_legal_among(*pyra, theoretical@, m);
                        let i = choose|i: int| 0 <= i < legal_among(*pyra, theoretical@).len()
                            && legal_among(*pyra, theoretical@)[i] == m;
                    }
                }
                record_step(rules, *state_graph, pyra_seed);
            }
        },
        Some(coups_possibles) => {
            let mut k: usize = 0;
            while k < coups_possibles.len()
                invariant
                    rules.wf(),
                    n == rules.lines as int,
                    seed_bound(rules) <= u128::MAX,
                    pyra.wf(),
                    pyra.rules() == rules,
                    pyra_seed == board_seed(*pyra),
                    pyra.cells@ == layout(n, pyra_seed as nat),
                    graph_nodes(*state_graph).contains(pyra_seed),
                    coups_possibles@ == legal_among(*pyra, theoretical@),
                    k <= coups_possibles@.len(),
                    boards_under(rules, new_to_visit@),
                    search_sound(rules, roots, *state_graph),
                    graph_nodes(g0).subset_of(graph_nodes(*state_graph)),
                    graph_edges(g0).dom().subset_of(graph_edges(*state_graph).dom()),
                    graph_nodes(*state_graph) == graph_nodes(g0).union(seeds_of(new_to_visit@)),
                    seeds_of(q0).subset_of(seeds_of(new_to_visit@)),
                    forall|x: u128|
                        #[trigger] seeds_of(new_to_visit@).contains(x) ==> seeds_of(q0).contains(x)
                            || !graph_nodes(g0).contains(x),
                    forall|i: int|
                        0 <= i < k ==> {
                            let t = successor(rules, pyra_seed as nat, #[trigger] coups_possibles@[i]) as u128;
                            &&& graph_nodes(*state_graph).contains(t)
                            &&& graph_edges(*state_graph).dom().contains(edge_key(pyra_seed, t))
                        },
                decreases coups_possibles@.len() - k,
            {
                let coup = coups_possibles[k];
                proof {
                    lemma_legal_among(*pyra, theoretical@, coup);
                    assert(coups_possibles@.contains(coup));
                    lemma_successor_in_range(rules, pyra_seed as nat, coup);
                }
                let mut new_pyramide = pyra.clone();
                let res = new_pyramide.coup(&coup);
                assert(res is Ok);
                let new_pyra_seed = new_pyramide.seed();
                assert(new_pyra_seed == successor(rules, pyra_seed as nat, coup));
                let ghost g1 = *state_graph;
                let ghost queued = new_to_visit@;
                if !contains_node(state_graph, new_pyra_seed) {
                    new_to_visit.push(new_pyramide);
                    proof {
                        lemma_seeds_push(queued, new_pyramide);
                    }
                }
                add_edge(state_graph, pyra_seed, new_pyra_seed, coup);
                proof {
                    assert forall|e: (u128, u128)| #[trigger] graph_edges(*state_graph).dom().contains(e)
                        implies {
                        let m = graph_edges(*state_graph)[e];
                        &&& e.0 <= e.1
                        &&& graph_nodes(*state_graph).contains(e.0)
                        &&& graph_nodes(*state_graph).contains(e.1)
                        &&& (move_legal(rules, e.0 as nat, m) && successor(rules, e.0 as nat, m) == e.1)
                            || (move_legal(rules, e.1 as nat, m) && successor(rules, e.1 as nat, m) == e.0)
                    } by {
                        if e != edge_key(pyra_seed, new_pyra_seed) {
                            assert(graph_edges(g1).dom().contains(e));
                        }
                    }
                    assert(reachable(rules, roots, new_pyra_seed as nat)) by {
                        assert(reachable(rules, roots, pyra_seed as nat));
                        let p = choose|p: Seq<nat>|
                            #[trigger] move_path(rules, p) && p.last() == pyra_seed as nat && exists|i: int|
                                0 <= i < roots.len() && board_seed(roots[i]) == p[0];
                        lemma_path_push(rules, p, new_pyra_seed as nat, coup);
                    }
                    assert forall|x: u128| #[trigger] graph_nodes(*state_graph).contains(x) implies x
                        < seed_bound(rules) && reachable(rules, roots, x as nat) by {
                        if x != new_pyra_seed {
                            assert(graph_nodes(g1).contains(x));
                        }
                    }
                    assert forall|i: int| 0 <= i < roots.len() implies graph_nodes(*state_graph).contains(
                        #[trigger] board_seed(roots[i]) as u128,
                    ) by {
                        assert(graph_nodes(g1).contains(board_seed(roots[i]) as u128));
                    }
                    assert(graph_nodes(*state_graph) =~= graph_nodes(g0).union(seeds_of(new_to_visit@)));
                }
                k = k + 1;
            }
            proof {
                assert forall|m: Coup| #[trigger] move_legal(rules, pyra_seed as nat, m) implies {
                    let t = successor(rules, pyra_seed as nat, m) as u128;
                    &&& graph_nodes(*state_graph).contains(t)
                    &&& graph_edges(*state_graph).dom().contains(edge_key(pyra_seed, t))
                } by {
                    assert(is_theoretical(rules, m));
                    assert(theoretical@.contains(m));
                    lemma_legal_among(*pyra, theoretical@, m);
                    let i = choose|i: int| 0 <= i < coups_possibles@.len() && coups_possibles@[i] == m;
                }
                record_step(rules, *state_graph, pyra_seed);
            }
        },
    }
    pyra_seed
}

/// Expands every board of one level of the search; returns the boards of
/// the next level, whose seeds were not nodes before.
fn expand_level(
    state_graph: &mut StateGraph,
    to_visit: &Vec<Pyramide>,
    theoretical: &Vec<Coup>,
    Ghost(rules): Ghost<PyramideRules>,
    Ghost(roots): Ghost<Seq<Pyramide>>,
    Ghost(done0): Ghost<Set<u128>>,
) -> (next: Vec<Pyramide>)
    requires
        rules.wf(),
        seed_bound(rules) <= u128::MAX,
        forall|m: Coup| theoretical@.contains(m) <==> is_theoretical(rules, m),
        boards_under(rules, to_visit@),
        search_sound(rules, roots, *old(state_graph)),
        graph_nodes(*old(state_graph)) == done0.union(seeds_of(to_visit@)),
        done0.disjoint(seeds_of(to_visit@)),
        moves_recorded(rules, *old(state_graph), done0),
    ensures
        boards_under(rules, next@),
        search_sound(rules, roots, *final(state_graph)),
        graph_nodes(*final(state_graph)) == done0.union(seeds_of(to_visit@)).union(seeds_of(next@)),
        seeds_of(next@).disjoint(done0.union(seeds_of(to_visit@))),
        moves_recorded(rules, *final(state_graph), done0.union(seeds_of(to_visit@))),
{
    let ghost level = to_visit@;
    let ghost mut done = done0;
    let mut new_to_visit: Vec<Pyramide> = Vec::new();
    let mut j: usize = 0;
    proof {
        assert(level.take(0) =~= Seq::<Pyramide>::empty());
        assert(seeds_of(level.take(0)) =~= Set::<u128>::empty());
        assert(seeds_of(new_to_visit@) =~= Set::<u128>::empty());
        assert(done0.union(seeds_of(level.take(0))) =~= done0);
        assert(graph_nodes(*state_graph) =~= done.union(seeds_of(level)).union(seeds_of(new_to_visit@)));
    }
    while j < to_visit.len()
        invariant
            rules.wf(),
            seed_bound(rules) <= u128::MAX,
            forall|m: Coup| theoretical@.contains(m) <==> is_theoretical(rules, m),
            to_visit@ == level,
            boards_under(rules, level),
            boards_under(rules, new_to_visit@),
            j <= level.len(),
            search_sound(rules, roots, *state_graph),
            done == done0.union(seeds_of(level.take(j as int))),
            graph_nodes(*state_graph) == done.union(seeds_of(level)).union(seeds_of(new_to_visit@)),
            done0.disjoint(seeds_of(level)),
            seeds_of(new_to_visit@).disjoint(done0.union(seeds_of(level))),
            moves_recorded(rules, *state_graph, done),
        decreases level.len() - j,
    {
        let ghost g0 = *state_graph;
        let ghost q0 = new_to_visit@;
        proof {
            lemma_seed_value_bound(level[j as int].pegs());
            assert(seeds_of(level).contains(board_seed(level[j as int]) as u128));
        }
        let pyra_seed = expand_board(
            state_graph,
            &to_visit[j],
            theoretical,
            &mut new_to_visit,
            Ghost(rules),
            Ghost(roots),
        );
        proof {
            lemma_recorded_grow(rules, g0, *state_graph, done);
            lemma_recorded_union(rules, *state_graph, done, set![pyra_seed]);
            assert(level.take(j + 1) =~= level.take(j as int).push(level[j as int]));
            lemma_seeds_push(level.take(j as int), level[j as int]);
            done = done.union(set![pyra_seed]);
            assert(done =~= done0.union(seeds_of(level.take(j + 1))));
            assert(graph_nodes(*state_graph) =~= done.union(seeds_of(level)).union(seeds_of(new_to_visit@)));
            assert(seeds_of(new_to_visit@).disjoint(done0.union(seeds_of(level)))) by {
                assert forall|x: u128| #[trigger] seeds_of(new_to_visit@).contains(x) implies !done0.union(
                    seeds_of(level),
                ).contains(x) by {
                    if seeds_of(q0).contains(x) {
                    } else {
                        assert(!graph_nodes(g0).contains(x));
                    }
                }
            }
        }
        j = j + 1;
    }
    proof {
        assert(level.take(level.len() as int) =~= level);
        assert(graph_nodes(*state_graph) =~= done0.union(seeds_of(level)).union(seeds_of(new_to_visit@)));
    }
    new_to_visit
}

/// Every seed reached from the boards `to_visit` by legal moves: the graph
/// holds their seeds, every edge is a legal move, every legal move from a node
/// is an edge to a node, and every node is reached from one of them; no board
/// gives an empty graph. Each seed is expanded once: a board is queued only
/// when its seed is not yet a node.
pub fn build_partial_graph(to_visit: Vec<Pyramide>) -> (g: StateGraph)
    requires
        boards_under(to_visit@[0].rules(), to_visit@),
    ensures
        search_sound(to_visit@[0].rules(), to_visit@, g),
        moves_recorded(to_visit@[0].rules(), g, graph_nodes(g)),
        to_visit@.len() == 0 ==> graph_nodes(g).is_empty(),
{
    if to_visit.len() == 0 {
        let g = new_graph();
        assert(graph_edges(g).dom() =~= Set::<(u128, u128)>::empty());
        return g;
    }
    let ghost roots = to_visit@;
    let ghost rules = to_visit@[0].rules();
    let mut to_visit = to_visit;
    let theoretical = coups_theoriques(&to_visit[0]);
    let mut state_graph = new_graph();
    proof {
        assert(rules.lines * rules.lines <= 121) by (nonlinear_arith)
            requires
                rules.lines <= 11,
        ;
        lemma_pow2_fits((rules.lines * rules.lines) as nat);
    }
    let mut j: usize = 0;
    while j < to_visit.len()
        invariant
            to_visit@ == roots,
            rules == roots[0].rules(),
            rules.wf(),
            seed_bound(rules) <= u128::MAX,
            boards_under(rules, roots),
            j <= roots.len(),
            graph_nodes(state_graph) == seeds_of(roots.take(j as int)),
            graph_edges(state_graph) == Map::<(u128, u128), Coup>::empty(),
        decreases roots.len() - j,
    {
        let s = to_visit[j].seed();
        proof {
            lemma_seed_value_bound(roots[j as int].pegs());
            assert(roots.take(j + 1) =~= roots.take(j as int).push(roots[j as int]));
            lemma_seeds_push(roots.take(j as int), roots[j as int]);
        }
        add_node(&mut state_graph, s);
        j = j + 1;
    }
    let ghost mut done: Set<u128> = Set::empty();
    proof {
        assert(roots.take(roots.len() as int) =~= roots);
        assert forall|x: u128| #[trigger] graph_nodes(state_graph).contains(x) implies x < seed_bound(rules)
            && reachable(rules, roots, x as nat) by {
            let i = choose|i: int| 0 <= i < roots.len() && #[trigger] board_seed(roots[i]) == x as nat;
            lemma_seed_value_bound(roots[i].pegs());
            let p = seq![x as nat];
            assert(move_path(rules, p));
        }
        assert forall|i: int| 0 <= i < roots.len() implies graph_nodes(state_graph).contains(
            #[trigger] board_seed(roots[i]) as u128,
        ) by {
            lemma_seed_value_bound(roots[i].pegs());
        }
        assert(graph_nodes(state_graph) =~= done.union(seeds_of(to_visit@)));
    }
    while to_visit.len() != 0
        invariant
            roots.len() > 0,
            rules == roots[0].rules(),
            rules.wf(),
            seed_bound(rules) <= u128::MAX,
            forall|m: Coup| theoretical@.contains(m) <==> is_theoretical(rules, m),
            boards_under(rules, to_visit@),
            search_sound(rules, roots, state_graph),
            graph_nodes(state_graph) == done.union(seeds_of(to_visit@)),
            done.disjoint(seeds_of(to_visit@)),
            moves_recorded(rules, state_graph, done),
        decreases seed_bound(rules) - done.len(),
    {
        let ghost done0 = done;
        let ghost level = to_visit@;
        let new_to_visit = expand_level(
            &mut state_graph,
            &to_visit,
            &theoretical,
            Ghost(rules),
            Ghost(roots),
            Ghost(done0),
        );
        proof {
            done = done0.union(seeds_of(level));
            assert(level.len() > 0);
            let s0 = board_seed(level[0]) as u128;
            lemma_seed_value_bound(level[0].pegs());
            assert(seeds_of(level).contains(s0));
            assert(!done0.contains(s0));
            assert forall|x: u128| #[trigger] done.contains(x) implies x < seed_bound(rules) by {
                assert(graph_nodes(state_graph).contains(x));
            }
            lemma_bounded_seeds(done, seed_bound(rules));
            assert forall|x: u128| #[trigger] done0.contains(x) implies x < seed_bound(rules) by {
                assert(done.contains(x));
            }
            lemma_bounded_seeds(done0, seed_bound(rules));
            vstd::set_lib::lemma_len_subset(done0.insert(s0), done);
            assert(done0.insert(s0).len() == done0.len() + 1);
        }
        to_visit = new_to_visit;
    }
    proof {
        assert(seeds_of(to_visit@) =~= Set::<u128>::empty());
        assert(graph_nodes(state_graph) =~= done);
    }
    state_graph
}

/// Number of connected components of the graph.
pub fn components(g: &StateGraph) -> (r: usize)
    ensures
        r == component_count(*g),
{
    count_components(g)
}

/// For every seed a walk reaches from `source`, the number of edges of its
/// shortest walk; each seed once, in no particular order.
pub fn distances(g: &StateGraph, source: Seed) -> (r: Vec<(Seed, u64)>)
    ensures
        forall|i: int, j: int| 0 <= i < r@.len() && 0 <= j < r@.len() && i != j ==> r@[i].0 != r@[j].0,
        forall|i: int| 0 <= i < r@.len() ==> at_distance(*g, source, #[trigger] r@[i].0, r@[i].1 as nat),
        forall|b: u128| connected(*g, source, b) <==> exists|i: int| 0 <= i < r@.len() && #[trigger] r@[i].0 == b,
{
    let r = shortest_walks(g, source);
    proof {
        assert forall|b: u128| (exists|i: int| 0 <= i < r@.len() && #[trigger] r@[i].0 == b) implies connected(
            *g,
            source,
            b,
        ) by {
            let i = choose|i: int| 0 <= i < r@.len() && #[trigger] r@[i].0 == b;
            assert(at_distance(*g, source, r@[i].0, r@[i].1 as nat));
        }
    }
    r
}

/// The largest distance of a list.
pub open spec fn max_depth(d: Seq<(Seed, u64)>) -> u64
    decreases d.len(),
{
    if d.len() == 0 {
        0
    } else {
        let m = max_depth(d.drop_last());
        if d.last().1 > m {
            d.last().1
        } else {
            m
        }
    }
}

/// The seeds of a list at distance `depth`, in their order.
pub open spec fn seeds_at(d: Seq<(Seed, u64)>, depth: u64) -> Seq<Seed>
    decreases d.len(),
{
    if d.len() == 0 {
        Seq::empty()
    } else {
        let rest = seeds_at(d.drop_last(), depth);
        if d.last().1 == depth {
            rest.push(d.last().0)
        } else {
            rest
        }
    }
}

/// The largest distance of the list is at least each distance, and is one of
/// them when the list is not empty.
pub proof fn lemma_max_depth(d: Seq<(Seed, u64)>)
    ensures
        forall|i: int| 0 <= i < d.len() ==> (#[trigger] d[i]).1 <= max_depth(d),
        d.len() > 0 ==> exists|i: int| 0 <= i < d.len() && (#[trigger] d[i]).1 == max_depth(d),
    decreases d.len(),
{
    if d.len() > 0 {
        let rest = d.drop_last();
        lemma_max_depth(rest);
        assert forall|i: int| 0 <= i < d.len() implies (#[trigger] d[i]).1 <= max_depth(d) by {
            if i < d.len() - 1 {
                assert(d[i] == rest[i]);
            }
        }
        if d.last().1 > max_depth(rest) || rest.len() == 0 {
            assert(d[d.len() - 1] == d.last());
        } else {
            let i = choose|i: int| 0 <= i < rest.len() && (#[trigger] rest[i]).1 == max_depth(rest);
            assert(d[i] == rest[i]);
        }
    }
}

/// The largest distance of a list from `distances`, and the seeds at that
/// distance in the order of the list; `(0, [])` for an empty list.
pub fn deepest(distances: &Vec<(Seed, u64)>) -> (r: (u64, Vec<Seed>))
    ensures
        r.0 == max_depth(distances@),
        r.1@ == seeds_at(distances@, r.0),
        forall|i: int| 0 <= i < distances@.len() ==> (#[trigger] distances@[i]).1 <= r.0,
        distances@.len() > 0 ==> exists|i: int|
            0 <= i < distances@.len() && (#[trigger] distances@[i]).1 == r.0,
{
    proof {
        lemma_max_depth(distances@);
    }
    let mut max: u64 = 0;
    let mut i: usize = 0;
    proof {
        assert(distances@.take(0) =~= Seq::<(Seed, u64)>::empty());
    }
    while i < distances.len()
        invariant
            i <= distances@.len(),
            max == max_depth(distances@.take(i as int)),
        decreases distances@.len() - i,
    {
        proof {
            assert(distances@.take(i + 1).drop_last() =~= distances@.take(i as int));
        }
        if distances[i].1 > max {
            max = distances[i].1;
        }
        i = i + 1;
    }
    let mut seeds: Vec<Seed> = Vec::new();
    let mut j: usize = 0;
    proof {
        assert(distances@.take(distances@.len() as int) =~= distances@);
    }
    while j < distances.len()
        invariant
            j <= distances@.len(),
            max == max_depth(distances@),
            seeds@ == seeds_at(distances@.take(j as int), max),
        decreases distances@.len() - j,
    {
        proof {
            assert(distances@.take(j + 1).drop_last() =~= distances@.take(j as int));
        }
        if distances[j].1 == max {
            seeds.push(distances[j].0);
        }
        j = j + 1;
    }
    proof {
        assert(distances@.take(distances@.len() as int) =~= distances@);
    }
    (max, seeds)
}

/// Under rules without diagonal moves, no edge of a graph whose edges are
/// legal moves is labelled with a diagonal move.
pub proof fn lemma_no_diagonal_edges(rules: PyramideRules, g: StateGraph)
    requires
        !rules.diag_allowed,
        edges_are_moves(rules, g),
    ensures
        forall|k: (u128, u128)|
            #[trigger] graph_edges(g).dom().contains(k) ==> !is_diagonal(graph_edges(g)[k].orientation),
{
}

} // verus!
