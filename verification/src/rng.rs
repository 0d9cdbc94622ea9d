//! The random source for measurements: a biased coin, either truly
//! random or fed from a fixed script for reproducible play.
use vstd::prelude::*;

use rand::RngExt;

verus! {

/// Relies on `rand::rng` and `rand::RngExt::random_range`: returns a value
/// uniformly distributed in `0..den`; nothing more is assumed of which
/// value comes back. `den >= 1` keeps the sampled range non-empty, so the
/// call does not panic (except on operating-system entropy failure at
/// first seeding, which no input can influence).
#[verifier::external_body]
fn random_below(den: u64) -> (r: u64)
    requires
        den >= 1,
    ensures
        r < den,
{
    rand::rng().random_range(0..den)
}

/// A source of biased coin flips. `Random` draws from the system
/// generator; `Fixed` always answers the same; `Scripted` answers from
/// the end of a prepared list, and `true` once the list is exhausted.
pub enum CoinSource {
    Random,
    Fixed(bool),
    Scripted(Vec<bool>),
}

impl CoinSource {
    /// What a scripted or fixed source will answer next.
    pub open spec fn spec_next(&self) -> bool {
        match self {
            CoinSource::Random => true,
            CoinSource::Fixed(b) => *b,
            CoinSource::Scripted(s) => if s@.len() > 0 {
                s@.last()
            } else {
                true
            },
        }
    }

    /// The remaining script of a scripted source; empty for the others.
    pub open spec fn spec_script(&self) -> Seq<bool> {
        match self {
            CoinSource::Scripted(s) => s@,
            _ => Seq::empty(),
        }
    }

    /// Draws one coin that is true with probability `num / den`.
    /// A deterministic source answers its next scripted value; nothing is
    /// promised about the random source's answer.
    pub fn flip(&mut self, num: u64, den: u64) -> (r: bool)
        requires
            den >= 1,
            num <= den,
        ensures
            *old(self) is Random ==> *final(self) is Random,
            *old(self) is Fixed ==> r == old(self).spec_next() && *final(self) == *old(self),
            *old(self) is Scripted ==> r == old(self).spec_next() && *final(self) is Scripted
                && final(self).spec_script() == (if old(self).spec_script().len() > 0 {
                old(self).spec_script().drop_last()
            } else {
                old(self).spec_script()
            }),
    {
        match self {
            CoinSource::Random => {
                let probe = random_below(den);
                probe < num
            },
            CoinSource::Fixed(b) => *b,
            CoinSource::Scripted(s) => {
                match s.pop() {
                    Some(b) => b,
                    None => true,
                }
            },
        }
    }
}

} // verus!
