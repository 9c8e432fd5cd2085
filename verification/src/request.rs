//! Builders for top-k searches.

use crate::error::Error;
use crate::scalar::Scalar;
use vstd::prelude::*;

verus! {

/// What a builder has been told so far.
#[verifier::ext_equal]
pub struct SearchSettings<T> {
    /// Where to search.
    pub target: T,
    /// What to search for.
    pub query: Seq<Scalar>,
    /// How many results to give, once set.
    pub k: Option<usize>,
    /// How many clusters to probe, once set.
    pub nprobe: Option<usize>,
}

/// A search with everything set.
#[derive(Debug)]
pub struct SearchRequest<T> {
    pub target: T,
    pub query: Vec<Scalar>,
    pub k: usize,
    pub nprobe: usize,
}

impl<T> SearchSettings<T> {
    /// Whether `r` is the request that these settings make: an error for the first
    /// of the result count and the probe count that is not set.
    pub open spec fn requests(self, r: Result<SearchRequest<T>, Error>) -> bool {
        match (self.k, self.nprobe) {
            (None, _) => r == Err::<SearchRequest<T>, Error>(Error::KNotSet),
            (Some(_), None) => r == Err::<SearchRequest<T>, Error>(Error::NprobeNotSet),
            (Some(k), Some(nprobe)) => {
                &&& r matches Ok(request)
                &&& request.target == self.target
                &&& request.query@ == self.query
                &&& request.k == k
                &&& request.nprobe == nprobe
            },
        }
    }
}

/// A search is for what its settings say, with both counts as they were set; it is
/// refused only where one is missing, the result count first.
pub proof fn law_requests_are_as_set<T>(settings: SearchSettings<T>, r: Result<SearchRequest<T>, Error>)
    requires
        settings.requests(r),
    ensures
        settings.k is None <==> r == Err::<SearchRequest<T>, Error>(Error::KNotSet),
        settings.k is Some && settings.nprobe is None <==> r == Err::<SearchRequest<T>, Error>(Error::NprobeNotSet),
        settings.k is Some && settings.nprobe is Some ==> {
            &&& r is Ok
            &&& settings.k == Some(r->Ok_0.k)
            &&& settings.nprobe == Some(r->Ok_0.nprobe)
            &&& settings.query == r->Ok_0.query@
            &&& settings.target == r->Ok_0.target
        },
{
}

/// Builder for top-k nearest neighbor search.
#[derive(Debug)]
pub struct TopkBuilder<P> {
    parquet_path: P,
    query: Vec<Scalar>,
    k: Option<usize>,
    nprobe: Option<usize>,
}

impl<P> View for TopkBuilder<P> {
    type V = SearchSettings<P>;

    closed spec fn view(&self) -> SearchSettings<P> {
        SearchSettings { target: self.parquet_path, query: self.query@, k: self.k, nprobe: self.nprobe }
    }
}

impl<P> TopkBuilder<P> {
    #[verifier::type_invariant]
    spec fn counts_are_positive(self) -> bool {
        (self.k matches Some(k) ==> k > 0) && (self.nprobe matches Some(nprobe) ==> nprobe > 0)
    }

    /// A search for `query` in the file at `parquet_path`, with nothing else set.
    pub fn new(parquet_path: P, query: &[Scalar]) -> (r: Self)
        ensures
            r@ == (SearchSettings { target: parquet_path, query: query@, k: None, nprobe: None }),
    {
        let query: Vec<Scalar> = vstd::slice::slice_to_vec(query);
        TopkBuilder { parquet_path, query, k: None, nprobe: None }
    }

    /// Sets the number of results, unless it is zero.
    pub fn k(self, k: usize) -> (r: Result<Self, Error>)
        ensures
            k == 0 ==> r == Err::<Self, Error>(Error::ZeroK),
            k > 0 ==> r is Ok && r->Ok_0@ == (SearchSettings { k: Some(k), ..self@ }),
    {
        proof {
            use_type_invariant(&self);
        }
        if k == 0 {
            return Err(Error::ZeroK);
        }
        Ok(TopkBuilder { parquet_path: self.parquet_path, query: self.query, k: Some(k), nprobe: self.nprobe })
    }

    /// Sets the number of clusters to probe, unless it is zero.
    pub fn nprobe(self, nprobe: usize) -> (r: Result<Self, Error>)
        ensures
            nprobe == 0 ==> r == Err::<Self, Error>(Error::ZeroNprobe),
            nprobe > 0 ==> r is Ok && r->Ok_0@ == (SearchSettings { nprobe: Some(nprobe), ..self@ }),
    {
        proof {
            use_type_invariant(&self);
        }
        if nprobe == 0 {
            return Err(Error::ZeroNprobe);
        }
        Ok(TopkBuilder { parquet_path: self.parquet_path, query: self.query, k: self.k, nprobe: Some(nprobe) })
    }

    /// The search, once both counts are set.
    pub fn into_request(self) -> (r: Result<SearchRequest<P>, Error>)
        ensures
            self@.requests(r),
            r matches Ok(request) ==> request.k > 0 && request.nprobe > 0,
    {
        proof {
            use_type_invariant(&self);
        }
        match (self.k, self.nprobe) {
            (None, _) => Err(Error::KNotSet),
            (Some(_), None) => Err(Error::NprobeNotSet),
            (Some(k), Some(nprobe)) => Ok(
                SearchRequest { target: self.parquet_path, query: self.query, k, nprobe },
            ),
        }
    }
}

impl<P: Clone> Clone for TopkBuilder<P> {
    fn clone(&self) -> (r: Self)
        ensures
            cloned(self@.target, r@.target),
            r@.query == self@.query,
            r@.k == self@.k,
            r@.nprobe == self@.nprobe,
    {
        proof {
            use_type_invariant(self);
        }
        let query = self.query.clone();
        assert(query@ =~= self.query@);
        TopkBuilder { parquet_path: self.parquet_path.clone(), query, k: self.k, nprobe: self.nprobe }
    }
}

/// Builder for top-k nearest neighbor search over several files.
#[derive(Debug)]
pub struct MultiTopkBuilder<P> {
    parquet_paths: Vec<P>,
    query: Vec<Scalar>,
    k: Option<usize>,
    nprobe: Option<usize>,
}

impl<P> View for MultiTopkBuilder<P> {
    type V = SearchSettings<Vec<P>>;

    closed spec fn view(&self) -> SearchSettings<Vec<P>> {
        SearchSettings { target: self.parquet_paths, query: self.query@, k: self.k, nprobe: self.nprobe }
    }
}

impl<P> MultiTopkBuilder<P> {
    #[verifier::type_invariant]
    spec fn counts_are_positive(self) -> bool {
        (self.k matches Some(k) ==> k > 0) && (self.nprobe matches Some(nprobe) ==> nprobe > 0)
    }

    /// A search for `query` in the files at `parquet_paths`, with nothing else set.
    pub fn new(parquet_paths: Vec<P>, query: &[Scalar]) -> (r: Self)
        ensures
            r@ == (SearchSettings { target: parquet_paths, query: query@, k: None, nprobe: None }),
    {
        let query: Vec<Scalar> = vstd::slice::slice_to_vec(query);
        MultiTopkBuilder { parquet_paths, query, k: None, nprobe: None }
    }

    /// Sets the number of results, unless it is zero.
    pub fn k(self, k: usize) -> (r: Result<Self, Error>)
        ensures
            k == 0 ==> r == Err::<Self, Error>(Error::ZeroK),
            k > 0 ==> r is Ok && r->Ok_0@ == (SearchSettings { k: Some(k), ..self@ }),
    {
        proof {
            use_type_invariant(&self);
        }
        if k == 0 {
            return Err(Error::ZeroK);
        }
        Ok(MultiTopkBuilder { parquet_paths: self.parquet_paths, query: self.query, k: Some(k), nprobe: self.nprobe })
    }

    /// Sets the number of clusters to probe in a file, unless it is zero.
    pub fn nprobe(self, nprobe: usize) -> (r: Result<Self, Error>)
        ensures
            nprobe == 0 ==> r == Err::<Self, Error>(Error::ZeroNprobe),
            nprobe > 0 ==> r is Ok && r->Ok_0@ == (SearchSettings { nprobe: Some(nprobe), ..self@ }),
    {
        proof {
            use_type_invariant(&self);
        }
        if nprobe == 0 {
            return Err(Error::ZeroNprobe);
        }
        Ok(MultiTopkBuilder { parquet_paths: self.parquet_paths, query: self.query, k: self.k, nprobe: Some(nprobe) })
    }

    /// The search, once both counts are set.
    pub fn into_request(self) -> (r: Result<SearchRequest<Vec<P>>, Error>)
        ensures
            self@.requests(r),
            r matches Ok(request) ==> request.k > 0 && request.nprobe > 0,
    {
        proof {
            use_type_invariant(&self);
        }
        match (self.k, self.nprobe) {
            (None, _) => Err(Error::KNotSet),
            (Some(_), None) => Err(Error::NprobeNotSet),
            (Some(k), Some(nprobe)) => Ok(
                SearchRequest { target: self.parquet_paths, query: self.query, k, nprobe },
            ),
        }
    }
}

impl<P: Clone> Clone for MultiTopkBuilder<P> {
    fn clone(&self) -> (r: Self)
        ensures
            r@.target@.len() == self@.target@.len(),
            forall|i: int| 0 <= i < self@.target@.len() ==> cloned(#[trigger] self@.target@[i], r@.target@[i]),
            r@.query == self@.query,
            r@.k == self@.k,
            r@.nprobe == self@.nprobe,
    {
        proof {
            use_type_invariant(self);
        }
        let query = self.query.clone();
        assert(query@ =~= self.query@);
        let parquet_paths = self.parquet_paths.clone();
        MultiTopkBuilder { parquet_paths, query, k: self.k, nprobe: self.nprobe }
    }
}

} // verus!
