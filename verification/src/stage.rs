//! `Stage`: how much re-derivation work a frame must perform, ordered
//! Idle < Paint < Layout < Build, merged by "most demanding wins".

use vstd::prelude::*;

verus! {

/// Events that widgets can be notified of.
#[non_exhaustive]
#[derive(Debug, PartialEq, Eq, Structural)]
pub enum On {
    MouseDown,
    MouseUp,
    Hover,
    /// Used by widgets to signal that they have changed.
    Change,
    Focus,
    Blur,
}

/// The minimum amount of work a frame must perform before the next redraw.
#[derive(Debug, Copy, Clone, PartialEq, Eq, Structural)]
pub enum Stage {
    Idle,
    Paint,
    Layout,
    Build,
}

/// Whether a periodic task asks to be removed after the current tick.
#[derive(Debug, Clone, Copy, PartialEq, Eq, Structural)]
pub enum StopTask {
    Yes,
    No,
}

impl Stage {
    /// Numeric rank of a stage; the ordering Idle < Paint < Layout < Build.
    pub open spec fn rank(self) -> int {
        match self {
            Stage::Idle => 0,
            Stage::Paint => 1,
            Stage::Layout => 2,
            Stage::Build => 3,
        }
    }

    /// The merge of two requested stages: the most demanding wins.
    pub open spec fn spec_max(self, other: Stage) -> Stage {
        if self.rank() >= other.rank() {
            self
        } else {
            other
        }
    }

    /// A consumed stage at or above `Build` re-derives the node tree.
    pub open spec fn does_build(self) -> bool {
        self.rank() >= 3
    }

    /// A consumed stage at or above `Layout` recomputes geometry.
    pub open spec fn does_layout(self) -> bool {
        self.rank() >= 2
    }

    /// A consumed stage at or above `Paint` re-renders pixels.
    pub open spec fn does_paint(self) -> bool {
        self.rank() >= 1
    }

    /// Whether consuming this stage re-derives the node tree (and then
    /// relays out and repaints).
    pub fn needs_build(self) -> (r: bool)
        ensures
            r == self.does_build(),
    {
        matches!(self, Stage::Build)
    }

    /// Whether consuming this stage recomputes layout (and then repaints).
    pub fn needs_layout(self) -> (r: bool)
        ensures
            r == self.does_layout(),
    {
        matches!(self, Stage::Build | Stage::Layout)
    }

    /// Whether consuming this stage repaints at all.
    pub fn needs_paint(self) -> (r: bool)
        ensures
            r == self.does_paint(),
    {
        !matches!(self, Stage::Idle)
    }

    /// Merge a newly requested stage into this one: most demanding wins.
    pub fn max(self, other: Stage) -> (r: Stage)
        ensures
            r == self.spec_max(other),
    {
        let a = match self {
            Stage::Idle => 0u8,
            Stage::Paint => 1u8,
            Stage::Layout => 2u8,
            Stage::Build => 3u8,
        };
        let b = match other {
            Stage::Idle => 0u8,
            Stage::Paint => 1u8,
            Stage::Layout => 2u8,
            Stage::Build => 3u8,
        };
        if a >= b {
            self
        } else {
            other
        }
    }
}

/// The stage merge is commutative: the order in which two requests arrive
/// does not change the work the frame performs.
pub proof fn lemma_stage_merge_commutative(a: Stage, b: Stage)
    ensures
        a.spec_max(b) == b.spec_max(a),
{
}

/// The stage merge is associative: requests may be grouped arbitrarily.
pub proof fn lemma_stage_merge_associative(a: Stage, b: Stage, c: Stage)
    ensures
        a.spec_max(b).spec_max(c) == a.spec_max(b.spec_max(c)),
{
}

/// The stage merge is idempotent: repeating a request changes nothing.
pub proof fn lemma_stage_merge_idempotent(a: Stage)
    ensures
        a.spec_max(a) == a,
{
}

/// When a pending stage is consumed, Build subsumes Layout, Layout subsumes
/// Paint, and Paint subsumes Idle: a frame never performs less work than the
/// most demanding request merged into it.
pub proof fn lemma_stage_subsumption(s: Stage)
    ensures
        s.does_build() ==> s.does_layout(),
        s.does_layout() ==> s.does_paint(),
        s == Stage::Build ==> s.does_build(),
        s == Stage::Idle ==> !s.does_paint(),
{
}

/// The merge never loses a request: the merged stage performs at least the
/// work of each contributor.
pub proof fn lemma_stage_merge_upper_bound(a: Stage, b: Stage)
    ensures
        a.spec_max(b).rank() >= a.rank(),
        a.spec_max(b).rank() >= b.rank(),
        a.spec_max(b) == a || a.spec_max(b) == b,
{
}

} // verus!
