use vstd::prelude::*;

pub mod artifact;
pub mod codec;
pub mod corpus;
pub mod decode_as;
pub mod error;
pub mod example;
pub mod float;
pub mod links;
pub mod literals;
pub mod messages;
pub mod name_order;
pub mod native;
pub mod pairs;
pub mod path;
pub mod query;
pub mod resolve;
pub mod rng;
pub mod sizing;
pub mod static_data;
pub mod target;
pub mod text;

use crate::corpus::Corpus;
use crate::pairs::{PairQuery, fresh_pair_query};
use crate::query::{Query, fresh_query};
use crate::target::Target;

verus! {

impl Corpus {
    /// Start a query for inputs viewable as the target type `T`: any integer
    /// (`u8`..`u128`, `i8`..`i128`), a float as its bit pattern
    /// ([`target::F16Bits`], [`target::F32Bits`], [`target::F64Bits`]), `bool`,
    /// `String` (unifying every text encoding), or `Vec<u8>` (the universal
    /// sink).
    pub fn get<T: Target>(&self) -> (r: Query<'_, T>)
        ensures
            r@ == fresh_query(self.spec_inputs()),
    {
        Query::new(self)
    }

    /// Start a query for interesting *pairs* of inputs viewable as `T`.
    pub fn pairs<T: Target>(&self) -> (r: PairQuery<'_, T>)
        ensures
            r@ == fresh_pair_query(self.spec_inputs()),
    {
        PairQuery::new(self)
    }
}

} // verus!
