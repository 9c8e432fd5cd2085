//! Counts that are never zero.

use crate::error::Error;
use vstd::prelude::*;
use vstd::std_specs::convert::TryFromSpecImpl;

verus! {

/// Non-zero cluster count.
#[derive(Clone, Copy, PartialEq, Eq, Structural, Debug)]
pub struct ClusterCount {
    count: u32,
}

impl View for ClusterCount {
    type V = u32;

    closed spec fn view(&self) -> u32 {
        self.count
    }
}

impl ClusterCount {
    #[verifier::type_invariant]
    spec fn non_zero(self) -> bool {
        self.count > 0
    }

    /// A cluster count, unless `count` is zero or exceeds 32 bits.
    pub fn new(count: usize) -> (r: Result<Self, Error>)
        ensures
            count > u32::MAX ==> r == Err::<Self, Error>(Error::CountOutOfRange),
            count == 0 ==> r == Err::<Self, Error>(Error::ZeroClusterCount),
            0 < count <= u32::MAX ==> r is Ok && r->Ok_0@ == count,
    {
        if count > u32::MAX as usize {
            Err(Error::CountOutOfRange)
        } else if count == 0 {
            Err(Error::ZeroClusterCount)
        } else {
            Ok(ClusterCount { count: count as u32 })
        }
    }

    pub fn as_usize(self) -> (r: usize)
        ensures
            r == self@,
            0 < r <= u32::MAX,
    {
        proof {
            use_type_invariant(self);
        }
        self.count as usize
    }

    pub fn as_u32(self) -> (r: u32)
        ensures
            r == self@,
            r > 0,
    {
        proof {
            use_type_invariant(self);
        }
        self.count
    }
}

/// Cluster counts of the same number are equal: a count is no more than its
/// number.
pub proof fn law_cluster_counts_are_their_numbers(a: ClusterCount, b: ClusterCount)
    ensures
        a@ == b@ ==> a == b,
{
}

/// Embedding dimensions of the same number are equal.
pub proof fn law_dimensions_are_their_numbers(a: EmbeddingDim, b: EmbeddingDim)
    ensures
        a@ == b@ ==> a == b,
{
}

impl TryFrom<usize> for ClusterCount {
    type Error = Error;

    fn try_from(value: usize) -> (r: Result<Self, Error>)
        ensures
            value > u32::MAX ==> r == Err::<Self, Error>(Error::CountOutOfRange),
            value == 0 ==> r == Err::<Self, Error>(Error::ZeroClusterCount),
            0 < value <= u32::MAX ==> r is Ok && r->Ok_0@ == value,
    {
        Self::new(value)
    }
}

impl TryFromSpecImpl<usize> for ClusterCount {
    open spec fn obeys_try_from_spec() -> bool {
        true
    }

    closed spec fn try_from_spec(value: usize) -> Result<Self, Error> {
        if value > u32::MAX {
            Err(Error::CountOutOfRange)
        } else if value == 0 {
            Err(Error::ZeroClusterCount)
        } else {
            Ok(ClusterCount { count: value as u32 })
        }
    }
}

/// Non-zero embedding dimension.
#[derive(Clone, Copy, PartialEq, Eq, Structural, Debug)]
pub struct EmbeddingDim {
    dim: u32,
}

impl View for EmbeddingDim {
    type V = u32;

    closed spec fn view(&self) -> u32 {
        self.dim
    }
}

impl EmbeddingDim {
    #[verifier::type_invariant]
    spec fn non_zero(self) -> bool {
        self.dim > 0
    }

    /// An embedding dimension, unless `dim` is zero or exceeds 32 bits.
    pub fn new(dim: usize) -> (r: Result<Self, Error>)
        ensures
            dim > u32::MAX ==> r == Err::<Self, Error>(Error::CountOutOfRange),
            dim == 0 ==> r == Err::<Self, Error>(Error::ZeroDimension),
            0 < dim <= u32::MAX ==> r is Ok && r->Ok_0@ == dim,
    {
        if dim > u32::MAX as usize {
            Err(Error::CountOutOfRange)
        } else if dim == 0 {
            Err(Error::ZeroDimension)
        } else {
            Ok(EmbeddingDim { dim: dim as u32 })
        }
    }

    pub fn as_usize(self) -> (r: usize)
        ensures
            r == self@,
            0 < r <= u32::MAX,
    {
        proof {
            use_type_invariant(self);
        }
        self.dim as usize
    }

    pub fn as_u32(self) -> (r: u32)
        ensures
            r == self@,
            r > 0,
    {
        proof {
            use_type_invariant(self);
        }
        self.dim
    }
}

} // verus!
