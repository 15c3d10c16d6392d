//! Board-state engine of a Minesweeper-style puzzle: mine layout,
//! adjacency counts, flood-fill reveal, flags, and win/loss detection.

mod game;
mod lemmas;
mod model;

pub use game::lemma_mine_total;
pub use game::lemma_neighbor_counts;
pub use game::lemma_victory_clears_board;
pub use game::lemma_view_wf;
pub use lemmas::lemma_cascade_closed;
pub use lemmas::lemma_remaining_is_hidden_safe;
pub use lemmas::lemma_remaining_mono;
pub use game::Game;
pub use game::GridCell;
pub use model::CellView;
pub use model::GameView;
