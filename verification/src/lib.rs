//! Phase-front correction pipeline for surface-wave dispersion measurements.
//!
//! The library reduces per-station measurement curves to per-event
//! phase-velocity records: it matches raw data files against event and
//! station tables, interpolates signal-to-noise and dispersion curves at a
//! target period under quality gates, propagates a consistent travel-time
//! estimate across each event's station array while rejecting outliers, and
//! renders the surviving records as text.
//!
//! All physical quantities are fixed-point `i64` values in micro-units; see
//! the `fixed` module.

pub mod dist;
pub mod fixed;
pub mod output;
pub mod ph_correct;
pub mod ph_gen;
pub mod points;
pub mod records;
pub mod text;

use vstd::prelude::*;

verus! {

/// Whether two byte strings hold the same bytes.
pub fn bytes_eq(a: &[u8], b: &[u8]) -> (r: bool)
    ensures
        r == (a@ == b@),
{
    if a.len() != b.len() {
        return false;
    }
    let mut k: usize = 0;
    while k < a.len()
        invariant
            a@.len() == b@.len(),
            k <= a@.len(),
            forall|j: int| 0 <= j < k ==> a@[j] == b@[j],
        decreases a@.len() - k,
    {
        if a[k] != b[k] {
            return false;
        }
        k = k + 1;
    }
    proof {
        assert(a@ =~= b@);
    }
    true
}

} // verus!
