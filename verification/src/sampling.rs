//! Illustrative random word draws. The samples are for display only:
//! sampling with replacement can repeat words and reflects none of the
//! entropy guarantees computed elsewhere, and the non-cryptographic
//! source must never be used to generate actual secrets.

use vstd::prelude::*;

verus! {

broadcast use crate::text::lemma_deep_view_index_strings;

/// Relies on rand::random_range over `0..n`: every outcome lies below
/// `n`. Nothing more is assumed of the draw.
#[verifier::external_body]
fn random_index(n: usize) -> (r: usize)
    requires
        n > 0,
    ensures
        r < n,
{
    rand::random_range(0..n)
}

/// Draws thirty words independently and uniformly at random, with
/// replacement, from a non-empty list.
pub fn generate_samples(list: &Vec<String>) -> (r: Vec<String>)
    requires
        list@.len() > 0,
    ensures
        r@.len() == 30,
        forall|k: int| 0 <= k < r@.len() ==> list@.contains(#[trigger] r@[k]),
{
    let mut samples: Vec<String> = Vec::new();
    let mut t: usize = 0;
    while t < 30
        invariant
            0 <= t <= 30,
            samples@.len() == t,
            list@.len() > 0,
            forall|k: int| 0 <= k < t ==> list@.contains(#[trigger] samples@[k]),
        decreases 30 - t,
    {
        let idx = random_index(list.len());
        let w = list[idx].clone();
        proof {
            assert(list@[idx as int] == w);
            assert(list@.contains(w));
        }
        let ghost prev = samples@;
        samples.push(w);
        proof {
            assert forall|k: int| 0 <= k < t + 1 implies list@.contains(
                #[trigger] samples@[k],
            ) by {
                if k < t {
                    assert(samples@[k] == prev[k]);
                } else {
                    assert(samples@[k] == w);
                }
            }
        }
        t = t + 1;
    }
    samples
}

} // verus!
