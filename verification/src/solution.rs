//! Which solution a rendering of the maze shows, and the error a front end
//! reports.

use vstd::prelude::*;

verus! {

/// The solution drawn over a maze.
#[derive(Clone, Copy, Debug, PartialEq, Eq, Structural)]
pub enum SolutionType {
    NoSolution,
    ShortestPath,
    MinimumSpanningTree,
}

impl SolutionType {
    /// The name of the solution as the command line spells it.
    pub open spec fn label(self) -> Seq<char> {
        match self {
            SolutionType::NoSolution => "none"@,
            SolutionType::ShortestPath => "shortest_path"@,
            SolutionType::MinimumSpanningTree => "minimum_spanning_tree"@,
        }
    }

    pub fn to_string(self) -> (s: &'static str)
        ensures
            s@ == self.label(),
    {
        match self {
            SolutionType::NoSolution => "none",
            SolutionType::ShortestPath => "shortest_path",
            SolutionType::MinimumSpanningTree => "minimum_spanning_tree",
        }
    }
}

/// An error with its message.
#[derive(Debug)]
pub struct MazeError {
    pub message: String,
}

impl MazeError {
    pub fn to_string(&self) -> (s: String)
        ensures
            s@ == self.message@,
    {
        self.message.clone()
    }
}

} // verus!
