//! State-space analysis of the triangular peg-solitaire board ("pyramide"):
//! boards encoded as integer seeds, legal moves, and the graph of the states
//! reachable by moves, with the queries run over it.

pub mod layout;
pub mod pyramide;
pub mod moves;
pub mod graph;

pub use crate::graph::{
    build_full_graph,
    build_partial_graph,
    components,
    deepest,
    distances,
    StateGraph,
};
pub use crate::moves::{cherche_coups_possibles, coups_theoriques, enchainer_coups};
pub use crate::pyramide::{
    Cell,
    CellIndex,
    CellsIterator,
    Coup,
    Direction,
    Orientation,
    PyraError,
    Pyramide,
    PyramideRules,
    Seed,
};
