//! One line of a game score file.
use vstd::prelude::*;

verus! {

/// A score and the text recorded with it (the player and their data).
pub struct ScoreEntry {
    pub score: Vec<u8>,
    pub user_data: Vec<u8>,
}

/// A score entry as plain values.
pub struct ScoreView {
    pub score: Seq<u8>,
    pub user_data: Seq<u8>,
}

impl View for ScoreEntry {
    type V = ScoreView;

    open spec fn view(&self) -> ScoreView {
        ScoreView { score: self.score@, user_data: self.user_data@ }
    }
}

/// The entries of a list as plain values.
pub open spec fn entries_view(s: Seq<ScoreEntry>) -> Seq<ScoreView> {
    s.map_values(|e: ScoreEntry| e@)
}

} // verus!
