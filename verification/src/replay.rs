//! Pulls as functions of the raw words they draw.
//!
//! Nothing is known of the words a generator will hand out, but once they are
//! known the outcome of a pull is fixed. This module says how.
use vstd::prelude::*;
use crate::candidate::seed_spec;
use crate::geometry::Point;
use crate::sampler::{Phase, SamplerView};

verus! {

impl SamplerView {
    /// One pull, replayed from the raw words it draws.
    ///
    /// The first pull spends two words on the seed. Every later pull turns to
    /// the active point chosen last and spends one word per candidate: the
    /// first candidate that passes the acceptance test is accepted and
    /// yielded; after `samples` failures the active point is given up and the
    /// pull turns to the one before it. With no active point left the pull
    /// yields nothing. `tried` counts the failures so far around the current
    /// active point. A pull that runs out of words stops where it stands.
    pub open spec fn pulled(self, draws: Seq<u64>, tried: nat) -> (SamplerView, Option<Point>)
        decreases self.active.len(), self.samples - tried,
    {
        if self.points.len() == 0 {
            if draws.len() >= 2 {
                let seed = seed_spec(self.domain, draws[0], draws[1]);
                (self.with_point(seed), Some(seed))
            } else {
                (self, None)
            }
        } else if self.active.len() == 0 {
            (self, None)
        } else if tried >= self.samples {
            self.retired().pulled(draws, 0)
        } else if draws.len() == 0 {
            (self, None)
        } else {
            match self.offer_outcome(draws[0]) {
                Some(p) => (self.with_point(p), Some(p)),
                None => self.pulled(draws.drop_first(), tried + 1),
            }
        }
    }

    /// The pull draws the words of `draws`, all of them and no more.
    pub open spec fn draws_exactly(self, draws: Seq<u64>, tried: nat) -> bool
        decreases self.active.len(), self.samples - tried,
    {
        if self.points.len() == 0 {
            draws.len() == 2
        } else if self.active.len() == 0 {
            draws.len() == 0
        } else if tried >= self.samples {
            self.retired().draws_exactly(draws, 0)
        } else if draws.len() == 0 {
            false
        } else {
            match self.offer_outcome(draws[0]) {
                Some(_) => draws.len() == 1,
                None => self.draws_exactly(draws.drop_first(), tried + 1),
            }
        }
    }

    /// Pulls in a row, one for each entry of `words`, each replayed from its
    /// own words: the state they leave behind and the points they yield, in
    /// order.
    pub open spec fn after_pulls(self, words: Seq<Seq<u64>>) -> (SamplerView, Seq<Point>)
        decreases words.len(),
    {
        if words.len() == 0 {
            (self, Seq::empty())
        } else {
            let (middle, earlier) = self.after_pulls(words.drop_last());
            let (end, emitted) = middle.pulled(words.last(), 0);
            match emitted {
                Some(p) => (end, earlier.push(p)),
                None => (end, earlier),
            }
        }
    }

    /// Each of the pulls in a row draws exactly its entry of `words`.
    pub open spec fn pulls_draw_exactly(self, words: Seq<Seq<u64>>) -> bool
        decreases words.len(),
    {
        words.len() == 0 || {
            &&& self.pulls_draw_exactly(words.drop_last())
            &&& self.after_pulls(words.drop_last()).0.draws_exactly(words.last(), 0)
        }
    }

    /// Having drawn `draws` since `origin`, the pull stands at `self` with
    /// `tried` failures: whatever words follow, it ends as the pull from
    /// `origin` on all the words together.
    pub open spec fn resumes(self, origin: SamplerView, draws: Seq<u64>, tried: nat) -> bool {
        forall|rest: Seq<u64>|
            {
                &&& origin.pulled(draws + rest, 0) == #[trigger] self.pulled(rest, tried)
                &&& origin.draws_exactly(draws + rest, 0) == self.draws_exactly(rest, tried)
            }
    }

    /// The state with the same points and no active point.
    pub open spec fn drained(self) -> SamplerView {
        SamplerView { active: Seq::empty(), ..self }
    }

    /// `self` is what is left of `origin` after some of its active points
    /// were given up.
    pub open spec fn follows(self, origin: SamplerView) -> bool {
        &&& self.domain == origin.domain
        &&& self.samples == origin.samples
        &&& self.points == origin.points
        &&& self.grid == origin.grid
        &&& self.active.len() <= origin.active.len()
        &&& self.active == origin.active.take(self.active.len() as int)
    }

    /// What every pull does, whatever words it draws: it yields a new last
    /// point and leaves it active, or it yields nothing and leaves no point
    /// active. The first pull yields a point; a pull after the end yields
    /// nothing.
    pub open spec fn yields(self, after: SamplerView, emitted: Option<Point>) -> bool {
        &&& after.domain == self.domain
        &&& after.samples == self.samples
        &&& match emitted {
            Some(p) => {
                &&& after.points == self.points.push(p)
                &&& after.phase() == Phase::Sampling
                &&& self.phase() != Phase::Exhausted
            },
            None => {
                &&& after == self.drained()
                &&& after.phase() == Phase::Exhausted
                &&& self.phase() != Phase::Seeding
            },
        }
    }

    /// A pull starts where it stands.
    pub proof fn lemma_resumes_at_start(self)
        ensures
            self.resumes(self, Seq::empty(), 0),
    {
        assert forall|rest: Seq<u64>|
            {
                &&& self.pulled(Seq::<u64>::empty() + rest, 0) == #[trigger] self.pulled(rest, 0)
                &&& self.draws_exactly(Seq::<u64>::empty() + rest, 0) == self.draws_exactly(
                    rest,
                    0,
                )
            } by {
            assert(Seq::<u64>::empty() + rest =~= rest);
        }
    }

    /// A failed candidate leaves the pull one failure further.
    pub proof fn lemma_resumes_after_failure(
        self,
        origin: SamplerView,
        draws: Seq<u64>,
        tried: nat,
        raw: u64,
    )
        requires
            self.resumes(origin, draws, tried),
            self.points.len() > 0,
            self.active.len() > 0,
            tried < self.samples,
            self.offer_outcome(raw) is None,
        ensures
            self.resumes(origin, draws.push(raw), tried + 1),
    {
        assert forall|rest: Seq<u64>|
            {
                &&& origin.pulled(draws.push(raw) + rest, 0) == #[trigger] self.pulled(
                    rest,
                    tried + 1,
                )
                &&& origin.draws_exactly(draws.push(raw) + rest, 0) == self.draws_exactly(
                    rest,
                    tried + 1,
                )
            } by {
            let longer = seq![raw] + rest;
            assert(draws.push(raw) + rest =~= draws + longer);
            assert(longer.drop_first() =~= rest);
            assert(longer[0] == raw);
            assert(origin.pulled(draws + longer, 0) == self.pulled(longer, tried));
        }
    }

    /// Giving up the current active point leaves the pull at the one before.
    pub proof fn lemma_resumes_after_retiring(
        self,
        origin: SamplerView,
        draws: Seq<u64>,
        tried: nat,
    )
        requires
            self.resumes(origin, draws, tried),
            self.points.len() > 0,
            self.active.len() > 0,
            tried >= self.samples,
        ensures
            self.retired().resumes(origin, draws, 0),
    {
        assert forall|rest: Seq<u64>|
            {
                &&& origin.pulled(draws + rest, 0) == #[trigger] self.retired().pulled(rest, 0)
                &&& origin.draws_exactly(draws + rest, 0) == self.retired().draws_exactly(rest, 0)
            } by {
            assert(origin.pulled(draws + rest, 0) == self.pulled(rest, tried));
        }
    }

    /// An accepted candidate ends the pull.
    pub proof fn lemma_resumes_to_acceptance(
        self,
        origin: SamplerView,
        draws: Seq<u64>,
        tried: nat,
        raw: u64,
    )
        requires
            self.resumes(origin, draws, tried),
            self.points.len() > 0,
            self.active.len() > 0,
            tried < self.samples,
            self.offer_outcome(raw) is Some,
        ensures
            origin.draws_exactly(draws.push(raw), 0),
            origin.pulled(draws.push(raw), 0) == (
                self.after(self.offer_outcome(raw)),
                self.offer_outcome(raw),
            ),
    {
        let last = seq![raw];
        assert(draws.push(raw) =~= draws + last);
        assert(last[0] == raw);
        assert(origin.pulled(draws + last, 0) == self.pulled(last, tried));
    }

    /// With no active point left the pull ends and yields nothing.
    pub proof fn lemma_resumes_to_exhaustion(
        self,
        origin: SamplerView,
        draws: Seq<u64>,
        tried: nat,
    )
        requires
            self.resumes(origin, draws, tried),
            self.points.len() > 0,
            self.active.len() == 0,
        ensures
            origin.draws_exactly(draws, 0),
            origin.pulled(draws, 0) == (self, None::<Point>),
    {
        let nothing = Seq::<u64>::empty();
        assert(draws + nothing =~= draws);
        assert(origin.pulled(draws + nothing, 0) == self.pulled(nothing, tried));
    }

    /// The words a pull draws are fixed by the stream they come from: of two
    /// runs of words that the pull draws exactly, one cannot be the beginning
    /// of the other unless they are the same.
    pub proof fn lemma_draws_are_fixed(self, tried: nat, one: Seq<u64>, other: Seq<u64>)
        requires
            self.draws_exactly(one, tried),
            self.draws_exactly(other, tried),
            one.len() <= other.len(),
            other.take(one.len() as int) == one,
        ensures
            one == other,
        decreases self.active.len(), self.samples - tried,
    {
        if self.points.len() == 0 || self.active.len() == 0 {
            assert(other.take(one.len() as int) =~= other);
        } else if tried >= self.samples {
            self.retired().lemma_draws_are_fixed(0, one, other);
        } else {
            assert(one[0] == other.take(one.len() as int)[0]);
            match self.offer_outcome(one[0]) {
                Some(_) => {
                    assert(other.take(one.len() as int) =~= other);
                },
                None => {
                    let shorter = one.drop_first();
                    let longer = other.drop_first();
                    assert(longer.take(shorter.len() as int) =~= shorter) by {
                        assert forall|i: int| 0 <= i < shorter.len() implies longer.take(
                            shorter.len() as int,
                        )[i] == shorter[i] by {
                            assert(other.take(one.len() as int)[i + 1] == one[i + 1]);
                        }
                    }
                    self.lemma_draws_are_fixed(tried + 1, shorter, longer);
                    assert(one =~= seq![one[0]] + shorter);
                    assert(other =~= seq![other[0]] + longer);
                },
            }
        }
    }
}

} // verus!
