//! A reference-genome substring index built over a minimizer-space suffix
//! array.
//!
//! The index projects a base string into the ordered sequence of its window
//! minimizers, sorts the suffixes of that sequence with a symbolic comparator
//! that looks each anchor's k-mer up in the backing string, and answers
//! queries by binary-searching the resulting suffix array.

use vstd::prelude::*;

pub mod codec;
pub mod compare;
pub mod fasta;
pub mod index;
pub mod minimizers;
pub mod order;
pub mod output;
pub mod query;

verus! {

/// A position vector seen as a sequence of mathematical integers.
pub open spec fn to_ints(v: Seq<usize>) -> Seq<int> {
    v.map_values(|p: usize| p as int)
}

} // verus!
