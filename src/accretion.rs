use vstd::prelude::*;
use crate::dust::{DustBand, DustBandTable, has_dust, in_region, state_at, swept};

verus! {

/// What the accretion loop does next.
#[derive(Clone, Copy, Debug, PartialEq, Eq, Structural)]
pub enum LoopStep {
    /// Draw a new nucleus and grow it.
    Draw,
    /// No dust is left: the loop ends normally.
    Exhausted,
    /// The interval where nuclei are drawn is empty: the loop ends at once
    /// with no body formed.
    NoRoom,
    /// The iteration cap is reached: the loop ends without convergence, with
    /// what has formed so far.
    CapReached,
}

/// Some point of `[0, limit)` still has dust.
pub open spec fn dust_left(dust: Seq<DustBand>, limit: u64) -> bool {
    exists|x: int| 0 <= x < limit && #[trigger] has_dust(dust, x)
}

/// The loop control as contracts see it: how many nuclei have been drawn,
/// the cap on that number, and the interval `[inner_planet, outer_dust)` in
/// which nuclei are drawn, whose upper end is also the outer edge of the dust.
pub struct AccretionLoopView {
    pub iterations: u64,
    pub cap: u64,
    pub inner_planet: u64,
    pub outer_dust: u64,
}

/// The step the loop takes from state `l` over the dust `dust`.
pub open spec fn step_spec(l: AccretionLoopView, dust: Seq<DustBand>) -> LoopStep {
    if l.outer_dust <= l.inner_planet {
        LoopStep::NoRoom
    } else if l.iterations >= l.cap {
        LoopStep::CapReached
    } else if !dust_left(dust, l.outer_dust) {
        LoopStep::Exhausted
    } else {
        LoopStep::Draw
    }
}

/// What a step does to the dust: where no nucleus can be drawn, the dust of
/// `[0, outer_dust)` can never form a body and is cleared with its gas; every
/// other step leaves the dust as it is.
pub open spec fn step_dust(l: AccretionLoopView, before: Seq<DustBand>, after: Seq<DustBand>) -> bool {
    forall|x: int| #[trigger]
        state_at(after, x) == if step_spec(l, before) == LoopStep::NoRoom {
            swept(state_at(before, x), in_region(0, l.outer_dust as int, x), false)
        } else {
            state_at(before, x)
        }
}

/// A loop that ends without reaching its cap leaves no dust in
/// `[0, outer_dust)`.
pub proof fn lemma_normal_end_means_exhausted(
    l: AccretionLoopView,
    before: Seq<DustBand>,
    after: Seq<DustBand>,
)
    requires
        step_spec(l, before) != LoopStep::Draw,
        step_spec(l, before) != LoopStep::CapReached,
        step_dust(l, before, after),
    ensures
        !dust_left(after, l.outer_dust),
{
    assert forall|x: int| 0 <= x < l.outer_dust implies !#[trigger] has_dust(after, x) by {
        assert(state_at(after, x) == if step_spec(l, before) == LoopStep::NoRoom {
            swept(state_at(before, x), in_region(0, l.outer_dust as int, x), false)
        } else {
            state_at(before, x)
        });
        if step_spec(l, before) != LoopStep::NoRoom {
            assert(!has_dust(before, x));
        }
    }
}

/// Where the outer edge of the dust does not lie beyond the innermost orbit a
/// nucleus may take, the loop never draws: it ends at once, whatever the dust
/// and the count, so no body forms.
pub proof fn lemma_no_room_never_draws(l: AccretionLoopView, dust: Seq<DustBand>)
    requires
        l.outer_dust <= l.inner_planet,
    ensures
        step_spec(l, dust) == LoopStep::NoRoom,
{
}

/// The control of the accretion loop. Its count only grows, one per draw, so
/// the cap bounds the number of draws.
pub struct AccretionLoop {
    iterations: u64,
    cap: u64,
    inner_planet: u64,
    outer_dust: u64,
}

impl View for AccretionLoop {
    type V = AccretionLoopView;

    closed spec fn view(&self) -> AccretionLoopView {
        AccretionLoopView {
            iterations: self.iterations,
            cap: self.cap,
            inner_planet: self.inner_planet,
            outer_dust: self.outer_dust,
        }
    }
}

impl AccretionLoop {
    pub fn new(cap: u64, inner_planet: u64, outer_dust: u64) -> (r: AccretionLoop)
        ensures
            r@ == (AccretionLoopView { iterations: 0, cap, inner_planet, outer_dust }),
    {
        AccretionLoop { iterations: 0, cap, inner_planet, outer_dust }
    }

    pub fn iterations(&self) -> (r: u64)
        ensures
            r == self@.iterations,
    {
        self.iterations
    }

    pub fn cap(&self) -> (r: u64)
        ensures
            r == self@.cap,
    {
        self.cap
    }

    /// Decides the next step and counts a draw. Where no nucleus can be
    /// drawn, the dust that is left is cleared, so that every end of the loop
    /// short of the cap leaves no dust.
    pub fn next(&mut self, dust: &mut DustBandTable) -> (r: LoopStep)
        requires
            old(dust).wf(),
        ensures
            final(dust).wf(),
            r == step_spec(old(self)@, old(dust)@),
            step_dust(old(self)@, old(dust)@, final(dust)@),
            r != LoopStep::Draw && r != LoopStep::CapReached ==> !dust_left(
                final(dust)@,
                old(self)@.outer_dust,
            ),
            final(self)@ == (AccretionLoopView {
                iterations: if r == LoopStep::Draw {
                    (old(self)@.iterations + 1) as u64
                } else {
                    old(self)@.iterations
                },
                ..old(self)@
            }),
    {
        let r = if self.outer_dust <= self.inner_planet {
            dust.sweep(0, self.outer_dust, false);
            LoopStep::NoRoom
        } else if self.iterations >= self.cap {
            LoopStep::CapReached
        } else if !dust.dust_available(0, self.outer_dust) {
            LoopStep::Exhausted
        } else {
            self.iterations = self.iterations + 1;
            LoopStep::Draw
        };
        proof {
            if r != LoopStep::Draw && r != LoopStep::CapReached {
                lemma_normal_end_means_exhausted(old(self)@, old(dust)@, dust@);
            }
        }
        r
    }
}

/// Whether the growth of a nucleus goes on: its last increment of mass is not
/// below the convergence threshold and fewer than `cap` rounds have run.
pub fn keep_growing(round: u64, cap: u64, increment: u64, threshold: u64) -> (r: bool)
    ensures
        r == (round < cap && increment >= threshold),
{
    round < cap && increment >= threshold
}

} // verus!
