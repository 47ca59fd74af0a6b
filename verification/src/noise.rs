//! The sampler as a sequence: each pull yields the next accepted point, or
//! nothing once the domain is full.
use vstd::prelude::*;
use rand_pcg::Pcg64Mcg;
use crate::domain::{ConfigError, Domain};
use crate::geometry::Point;
use crate::random::next_word;
use crate::sampler::{Phase, Sampler, SamplerView, DEFAULT_SAMPLES};

verus! {

/// A blue-noise point sequence over a wrapping rectangle, driven by a
/// `Pcg64Mcg` generator.
pub struct WrappingBlueNoise {
    sampler: Sampler,
    rng: Pcg64Mcg,
}

impl View for WrappingBlueNoise {
    type V = SamplerView;

    closed spec fn view(&self) -> SamplerView {
        self.sampler@
    }
}

impl WrappingBlueNoise {
    /// The invariant of the underlying sampler holds.
    pub closed spec fn wf(&self) -> bool {
        self.sampler.wf()
    }

    /// A well-formed sequence has a well-formed view.
    pub proof fn lemma_view_wf(&self)
        requires
            self.wf(),
        ensures
            self@.wf(),
    {
        self.sampler.lemma_view_wf();
    }

    /// A sequence over a `width` x `height` domain whose points keep
    /// `min_distance`, drawing from `rng`. No word is drawn before the first
    /// pull. A measure of zero, or a domain too large for its grid, is turned
    /// down.
    pub fn from_rng(width: u32, height: u32, min_distance: u32, rng: Pcg64Mcg) -> (made: Result<
        WrappingBlueNoise,
        ConfigError,
    >)
        ensures
            match made {
                Ok(noise) => {
                    &&& Domain::rejection(width, height, min_distance) is None
                    &&& noise.wf()
                    &&& noise@.wf()
                    &&& noise@.domain == (Domain { width, height, min_distance })
                    &&& noise@.samples == DEFAULT_SAMPLES
                    &&& noise@.points.len() == 0
                    &&& noise@.active.len() == 0
                },
                Err(e) => Domain::rejection(width, height, min_distance) == Some(e),
            },
    {
        match Sampler::new(Domain { width, height, min_distance }) {
            Ok(sampler) => Ok(WrappingBlueNoise { sampler, rng }),
            Err(e) => Err(e),
        }
    }

    /// The same sequence with another number of candidates per active point.
    pub fn with_samples(self, samples: u32) -> (changed: WrappingBlueNoise)
        requires
            self.wf(),
        ensures
            changed.wf(),
            changed@ == (SamplerView { samples, ..self@ }),
    {
        WrappingBlueNoise { sampler: self.sampler.with_samples(samples), rng: self.rng }
    }

    /// The sampler behind the sequence.
    pub fn sampler(&self) -> (sampler: &Sampler)
        ensures
            sampler@ == self@,
            self.wf() ==> sampler.wf(),
    {
        &self.sampler
    }

    /// Pulls the next point.
    ///
    /// The outcome is the replay of the words drawn during the call. The
    /// first pull always yields the seed; a pull yields nothing exactly when
    /// it leaves no active point behind, and then every later pull yields
    /// nothing either.
    pub fn next(&mut self) -> (emitted: Option<Point>)
        requires
            old(self).wf(),
        ensures
            final(self).wf(),
            final(self)@.wf(),
            exists|draws: Seq<u64>|
                old(self)@.draws_exactly(draws, 0) && old(self)@.pulled(draws, 0) == (
                    final(self)@,
                    emitted,
                ),
            old(self)@.yields(final(self)@, emitted),
            old(self)@.phase() == Phase::Seeding ==> emitted is Some,
            old(self)@.samples == 0 && old(self)@.phase() != Phase::Seeding ==> emitted is None,
    {
        let ghost origin = self@;
        if self.sampler.len() == 0 {
            let raw_x = next_word(&mut self.rng);
            let raw_y = next_word(&mut self.rng);
            let placed = self.sampler.seed(raw_x, raw_y);
            proof {
                let draws = seq![raw_x, raw_y];
                assert(origin.draws_exactly(draws, 0));
                assert(origin.pulled(draws, 0) == (self@, placed));
                self.sampler.lemma_view_wf();
            }
            return placed;
        }
        let samples: u32 = self.sampler.samples();
        let ghost mut draws: Seq<u64> = Seq::empty();
        proof {
            origin.lemma_resumes_at_start();
            assert(origin.active.take(origin.active.len() as int) =~= origin.active);
        }
        while self.sampler.active_len() > 0
            invariant
                self.wf(),
                origin == old(self)@,
                origin.points.len() > 0,
                samples == origin.samples,
                self@.follows(origin),
                self@.resumes(origin, draws, 0),
            decreases self@.active.len(),
        {
            let ghost round = self@;
            let mut tried: u32 = 0;
            while tried < samples
                invariant
                    self.wf(),
                    origin == old(self)@,
                    origin.points.len() > 0,
                    samples == origin.samples,
                    self@ == round,
                    self@.follows(origin),
                    self@.active.len() > 0,
                    tried <= samples,
                    self@.resumes(origin, draws, tried as nat),
                decreases samples - tried,
            {
                let ghost before = self@;
                let raw = next_word(&mut self.rng);
                let accepted = self.sampler.offer(raw);
                match accepted {
                    Some(p) => {
                        proof {
                            before.lemma_resumes_to_acceptance(origin, draws, tried as nat, raw);
                            assert(origin.draws_exactly(draws.push(raw), 0));
                            assert(origin.pulled(draws.push(raw), 0) == (self@, accepted));
                            self.sampler.lemma_view_wf();
                        }
                        return Some(p);
                    },
                    None => {
                        proof {
                            before.lemma_resumes_after_failure(origin, draws, tried as nat, raw);
                            draws = draws.push(raw);
                        }
                    },
                }
                tried = tried + 1;
            }
            proof {
                self@.lemma_resumes_after_retiring(origin, draws, tried as nat);
            }
            self.sampler.retire();
            proof {
                assert(self@.active =~= origin.active.take(self@.active.len() as int));
            }
        }
        proof {
            self@.lemma_resumes_to_exhaustion(origin, draws, 0);
            assert(origin.draws_exactly(draws, 0));
            assert(self@.active =~= Seq::<usize>::empty());
            assert(self@ == origin.drained());
            self.sampler.lemma_view_wf();
        }
        None
    }

    /// Pulls until `count` points have come or the sequence has ended, and
    /// returns the points in the order in which they came. Fewer than `count`
    /// points come only when the sequence has ended. The outcome is the
    /// replay of the pulls made, at most one more than points came.
    pub fn take(&mut self, count: usize) -> (taken: Vec<Point>)
        requires
            old(self).wf(),
        ensures
            final(self).wf(),
            final(self)@.wf(),
            exists|words: Seq<Seq<u64>>|
                words.len() <= taken@.len() + 1 && old(self)@.pulls_draw_exactly(words) && old(
                    self,
                )@.after_pulls(words) == (final(self)@, taken@),
            taken@.len() <= count,
            final(self)@.points == old(self)@.points + taken@,
            taken@.len() < count ==> final(self)@.phase() == Phase::Exhausted,
            final(self)@.domain == old(self)@.domain,
            final(self)@.samples == old(self)@.samples,
    {
        let mut taken: Vec<Point> = Vec::new();
        let ghost mut words: Seq<Seq<u64>> = Seq::empty();
        proof {
            assert(old(self)@.points + taken@ =~= old(self)@.points);
            self.sampler.lemma_view_wf();
        }
        while taken.len() < count
            invariant
                self.wf(),
                self@.wf(),
                words.len() == taken@.len(),
                old(self)@.pulls_draw_exactly(words),
                old(self)@.after_pulls(words) == (self@, taken@),
                taken@.len() <= count,
                self@.points == old(self)@.points + taken@,
                self@.domain == old(self)@.domain,
                self@.samples == old(self)@.samples,
            decreases count - taken@.len(),
        {
            let ghost before = self@;
            let emitted = self.next();
            proof {
                let draws = choose|draws: Seq<u64>|
                    before.draws_exactly(draws, 0) && before.pulled(draws, 0) == (self@, emitted);
                let longer = words.push(draws);
                assert(longer.drop_last() =~= words);
                assert(longer.last() == draws);
                let grown = match emitted {
                    Some(p) => taken@.push(p),
                    None => taken@,
                };
                assert(old(self)@.after_pulls(longer) == (self@, grown));
                assert(old(self)@.pulls_draw_exactly(longer));
                words = longer;
            }
            match emitted {
                Some(p) => {
                    taken.push(p);
                    proof {
                        assert(self@.points =~= old(self)@.points + taken@);
                    }
                },
                None => {
                    return taken;
                },
            }
        }
        taken
    }
}

} // verus!
