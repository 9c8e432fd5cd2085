//! The inverted-file index.

use crate::arithmetic::{distances, measured, measures};
use crate::codec::{
    law_lists_canonical, law_lists_roundtrip, law_word_canonical, law_word_roundtrip, law_words_canonical,
    law_words_roundtrip, list_end, lists_at, lists_bytes, lists_fit, push_word, push_words, read_word, read_words, word_at,
    word_bytes, words_at, words_bytes,
};
use crate::count::{ClusterCount, EmbeddingDim};
use crate::embeddings::lemma_whole_rows;
use crate::error::Error;
use crate::order::{law_sorted_indices, lemma_ranks_agree, precedes, ranks_of, sorted_indices, stable_order};
use crate::scalar::Scalar;
use vstd::prelude::*;

verus! {

/// IVF index structure (in-memory representation).
pub struct IvfIndex {
    /// The length of a vector.
    pub dim: EmbeddingDim,
    /// The number of clusters.
    pub n_clusters: ClusterCount,
    /// The centroid of each cluster, one after the other.
    pub centroids: Vec<Scalar>,
    /// The rows of each cluster.
    pub inverted_lists: Vec<Vec<u32>>,
}

/// What an index holds.
#[verifier::ext_equal]
pub struct IndexModel {
    pub dim: u32,
    pub n_clusters: u32,
    pub centroids: Seq<Scalar>,
    pub lists: Seq<Seq<u32>>,
}

impl IndexModel {
    /// Whether there is a centroid and a list for each cluster.
    pub open spec fn well_formed(self) -> bool {
        &&& self.dim > 0
        &&& self.n_clusters > 0
        &&& self.centroids.len() == self.n_clusters * self.dim
        &&& self.lists.len() == self.n_clusters
    }

    /// Whether `distances` are those that `measure` gave between `query` and the
    /// centroids.
    pub open spec fn centroids_measured<M: Fn(&[Scalar], &[Scalar]) -> Vec<Scalar>>(
        self,
        measure: M,
        query: Seq<Scalar>,
        distances: Seq<Scalar>,
    ) -> bool {
        measured(measure, query, self.centroids, distances) && distances.len() == self.n_clusters
    }

    /// Whether `clusters` are the `nprobe` clusters whose centroids are closest to
    /// `query`, going by distances that `measure` gave.
    pub open spec fn probes<M: Fn(&[Scalar], &[Scalar]) -> Vec<Scalar>>(
        self,
        measure: M,
        query: Seq<Scalar>,
        nprobe: nat,
        clusters: Seq<usize>,
    ) -> bool {
        exists|d: Seq<Scalar>| #[trigger] self.centroids_measured(measure, query, d) && clusters == probed(d, nprobe)
    }

    /// Whether `rows` are the rows of the `nprobe` clusters whose centroids are
    /// closest to `query`, going by distances that `measure` gave.
    pub open spec fn proposes<M: Fn(&[Scalar], &[Scalar]) -> Vec<Scalar>>(
        self,
        measure: M,
        query: Seq<Scalar>,
        nprobe: nat,
        rows: Seq<u32>,
    ) -> bool {
        exists|d: Seq<Scalar>| #[trigger]
            self.centroids_measured(measure, query, d) && rows == rows_in(self.lists, probed(d, nprobe))
    }

    /// The serialized index: dimension, number of clusters, the bits of each
    /// centroid and the list of each cluster.
    pub open spec fn serialized(self) -> Seq<u8> {
        word_bytes(self.dim) + word_bytes(self.n_clusters) + words_bytes(bits_of(self.centroids)) + lists_bytes(
            self.lists,
        )
    }
}

/// The bit patterns of `values`.
pub open spec fn bits_of(values: Seq<Scalar>) -> Seq<u32> {
    values.map_values(|v: Scalar| v.bits)
}

/// The values with the given bit patterns.
pub open spec fn scalars_of(bits: Seq<u32>) -> Seq<Scalar> {
    bits.map_values(|b: u32| Scalar { bits: b })
}

/// The dimension in the header of a serialized index.
pub open spec fn header_dim(bytes: Seq<u8>) -> u32 {
    word_at(bytes, 0)
}

/// The number of clusters in the header of a serialized index.
pub open spec fn header_clusters(bytes: Seq<u8>) -> u32 {
    word_at(bytes, 4)
}

/// Whether `bytes` starts with a header of which neither word is zero.
pub open spec fn has_header(bytes: Seq<u8>) -> bool {
    bytes.len() >= 8 && header_dim(bytes) > 0 && header_clusters(bytes) > 0
}

/// The first byte of the lists of a serialized index.
pub open spec fn lists_start(bytes: Seq<u8>) -> int {
    8 + 4 * (header_clusters(bytes) * header_dim(bytes))
}

/// Whether `bytes` holds all the centroids and lists that its header promises.
pub open spec fn complete(bytes: Seq<u8>) -> bool {
    lists_start(bytes) <= bytes.len() && lists_fit(bytes, lists_start(bytes), header_clusters(bytes) as nat)
}

/// The index whose serialized form starts `bytes`.
pub open spec fn deserialized(bytes: Seq<u8>) -> IndexModel {
    let count = (header_clusters(bytes) * header_dim(bytes)) as nat;
    IndexModel {
        dim: header_dim(bytes),
        n_clusters: header_clusters(bytes),
        centroids: scalars_of(words_at(bytes, 8, count)),
        lists: lists_at(bytes, lists_start(bytes), header_clusters(bytes) as nat),
    }
}

/// The contents of `lists`.
pub open spec fn contents(lists: Seq<Vec<u32>>) -> Seq<Seq<u32>> {
    lists.map_values(|list: Vec<u32>| list@)
}

/// The rows of `clusters`, one cluster after the other.
pub open spec fn rows_in<T>(lists: Seq<Seq<T>>, clusters: Seq<usize>) -> Seq<T>
    decreases clusters.len(),
{
    if clusters.len() == 0 {
        Seq::empty()
    } else {
        rows_in(lists, clusters.drop_last()) + lists[clusters.last() as int]
    }
}

/// The first `nprobe` clusters by ascending distance, or all where there are
/// fewer.
pub open spec fn probed(distances: Seq<Scalar>, nprobe: nat) -> Seq<usize> {
    sorted_indices(distances).take(
        if nprobe < distances.len() {
            nprobe as int
        } else {
            distances.len() as int
        },
    )
}

impl View for IvfIndex {
    type V = IndexModel;

    open spec fn view(&self) -> IndexModel {
        IndexModel {
            dim: self.dim@,
            n_clusters: self.n_clusters@,
            centroids: self.centroids@,
            lists: contents(self.inverted_lists@),
        }
    }
}

/// A serialized index is read back as it was, whatever bytes follow it. Lists
/// longer than 32 bits can say are excluded: their length is cut.
pub proof fn law_index_roundtrip(index: IndexModel, rest: Seq<u8>)
    requires
        index.well_formed(),
        forall|j: int| 0 <= j < index.lists.len() ==> (#[trigger] index.lists[j]).len() <= u32::MAX,
    ensures
        has_header(index.serialized() + rest),
        complete(index.serialized() + rest),
        deserialized(index.serialized() + rest) == index,
{
    let bits = bits_of(index.centroids);
    let bytes = index.serialized() + rest;
    assert(bytes.subrange(0, 4) =~= word_bytes(index.dim));
    law_word_roundtrip(bytes, 0, index.dim);
    assert(bytes.subrange(4, 8) =~= word_bytes(index.n_clusters));
    law_word_roundtrip(bytes, 4, index.n_clusters);
    let count = bits.len() as int;
    assert(bytes.subrange(8, 8 + 4 * count) =~= words_bytes(bits));
    law_words_roundtrip(bytes, 8, bits);
    assert(scalars_of(bits) =~= index.centroids);
    let at = lists_start(bytes);
    assert(at == 8 + 4 * count);
    let lists = lists_bytes(index.lists);
    assert(bytes.subrange(at, at + lists.len()) =~= lists);
    law_lists_roundtrip(bytes, at, index.lists);
    assert(deserialized(bytes) =~= index);
}

/// Serializing an index that was read gives back the bytes it was read from.
pub proof fn law_index_canonical(bytes: Seq<u8>)
    requires
        has_header(bytes),
        complete(bytes),
    ensures
        deserialized(bytes).well_formed(),
        deserialized(bytes).serialized().len() <= bytes.len(),
        deserialized(bytes).serialized() == bytes.take(deserialized(bytes).serialized().len() as int),
{
    let index = deserialized(bytes);
    let count = (header_clusters(bytes) * header_dim(bytes)) as nat;
    assert(header_clusters(bytes) * header_dim(bytes) >= 0) by (nonlinear_arith);
    law_word_canonical(bytes, 0);
    law_word_canonical(bytes, 4);
    law_words_canonical(bytes, 8, count);
    assert(bits_of(index.centroids) =~= words_at(bytes, 8, count));
    law_lists_canonical(bytes, lists_start(bytes), header_clusters(bytes) as nat);
    lemma_lists_at_len(bytes, lists_start(bytes), header_clusters(bytes) as nat);
    assert(index.serialized() =~= bytes.take(index.serialized().len() as int));
}

proof fn lemma_lists_at_len(bytes: Seq<u8>, at: int, count: nat)
    ensures
        lists_at(bytes, at, count).len() == count,
    decreases count,
{
    if count > 0 {
        lemma_lists_at_len(bytes, list_end(bytes, at), (count - 1) as nat);
    }
}

/// The rows of `clusters` are those listed for one of them.
pub proof fn lemma_rows_in_contains(lists: Seq<Seq<u32>>, clusters: Seq<usize>, row: u32)
    ensures
        rows_in(lists, clusters).contains(row) <==> exists|p: int|
            0 <= p < clusters.len() && lists[#[trigger] clusters[p] as int].contains(row),
    decreases clusters.len(),
{
    if clusters.len() > 0 {
        let front = clusters.drop_last();
        let before = rows_in(lists, front);
        let list = lists[clusters.last() as int];
        let all = before + list;
        lemma_rows_in_contains(lists, front, row);
        if all.contains(row) {
            let i = choose|i: int| 0 <= i < all.len() && all[i] == row;
            if i < before.len() {
                assert(before[i] == row);
                let p = choose|p: int| 0 <= p < front.len() && lists[#[trigger] front[p] as int].contains(row);
                assert(clusters[p] == front[p]);
            } else {
                assert(list[i - before.len()] == row);
                assert(lists[clusters[clusters.len() - 1] as int].contains(row));
            }
        }
        if exists|p: int| 0 <= p < clusters.len() && lists[#[trigger] clusters[p] as int].contains(row) {
            let p = choose|p: int| 0 <= p < clusters.len() && lists[#[trigger] clusters[p] as int].contains(row);
            if p < front.len() {
                assert(front[p] == clusters[p]);
                let i = choose|i: int| 0 <= i < before.len() && before[i] == row;
                assert(all[i] == row);
            } else {
                let i = choose|i: int| 0 <= i < list.len() && list[i] == row;
                assert(all[before.len() + i] == row);
            }
        }
    }
}

/// Whether no row is listed twice, in one list or in two.
pub open spec fn disjoint(lists: Seq<Seq<u32>>) -> bool {
    &&& forall|c: int| 0 <= c < lists.len() ==> (#[trigger] lists[c]).no_duplicates()
    &&& forall|a: int, b: int, row: u32|
        0 <= a < b < lists.len() && #[trigger] lists[a].contains(row) ==> !#[trigger] lists[b].contains(row)
}

/// Where no row is listed twice, different clusters have different rows.
pub proof fn law_rows_of_clusters_are_distinct(lists: Seq<Seq<u32>>, clusters: Seq<usize>)
    requires
        disjoint(lists),
        clusters.no_duplicates(),
        forall|p: int| 0 <= p < clusters.len() ==> (#[trigger] clusters[p]) < lists.len(),
    ensures
        rows_in(lists, clusters).no_duplicates(),
    decreases clusters.len(),
{
    if clusters.len() > 0 {
        let front = clusters.drop_last();
        assert forall|p: int| 0 <= p < front.len() implies (#[trigger] front[p]) < lists.len() by {
            assert(front[p] == clusters[p]);
        }
        law_rows_of_clusters_are_distinct(lists, front);
        let before = rows_in(lists, front);
        let last = clusters.last() as int;
        let list = lists[last];
        assert(clusters[clusters.len() - 1] < lists.len());
        assert forall|i: int, j: int| 0 <= i < before.len() && 0 <= j < list.len() implies #[trigger] before[i]
            != #[trigger] list[j] by {
            let row = list[j];
            if before[i] == row {
                assert(before.contains(row));
                lemma_rows_in_contains(lists, front, row);
                let p = choose|p: int| 0 <= p < front.len() && lists[#[trigger] front[p] as int].contains(row);
                assert(front[p] == clusters[p]);
                assert(clusters[p] != clusters[clusters.len() - 1]);
                assert(lists[last].contains(row));
                let a = front[p] as int;
                if a < last {
                    assert(lists[a].contains(row) && lists[last].contains(row));
                } else {
                    assert(lists[last].contains(row) && lists[a].contains(row));
                }
            }
        }
        let all = before + list;
        assert forall|i: int, j: int| 0 <= i < j < all.len() implies all[i] != all[j] by {
            if j < before.len() {
                assert(before[i] != before[j]);
            } else if i < before.len() {
                assert(before[i] != list[j - before.len()]);
            } else {
                assert(list[i - before.len()] != list[j - before.len()]);
            }
        }
    }
}

/// The probed clusters are different ones, and no cluster that is passed over is
/// closer than one of them.
pub proof fn law_probed_clusters_are_closest(distances: Seq<Scalar>, nprobe: nat)
    requires
        distances.len() <= usize::MAX,
    ensures
        ({
            let clusters = probed(distances, nprobe);
            &&& clusters.len() == if nprobe < distances.len() {
                nprobe
            } else {
                distances.len()
            }
            &&& clusters.no_duplicates()
            &&& forall|p: int| 0 <= p < clusters.len() ==> (#[trigger] clusters[p]) < distances.len()
            &&& forall|p: int, c: usize|
                0 <= p < clusters.len() && c < distances.len() && !clusters.contains(c)
                    ==> !(#[trigger] distances[c as int]).lt(distances[#[trigger] clusters[p] as int])
        }),
{
    law_sorted_indices(distances);
    let order = sorted_indices(distances);
    let ranks = ranks_of(distances);
    let clusters = probed(distances, nprobe);
    assert forall|p: int, q: int| 0 <= p < q < clusters.len() implies clusters[p] != clusters[q] by {
        assert(precedes(ranks, order[p] as int, order[q] as int));
    }
    assert forall|p: int, c: usize|
        0 <= p < clusters.len() && c < distances.len() && !clusters.contains(c) implies !(
    #[trigger] distances[c as int]).lt(distances[#[trigger] clusters[p] as int]) by {
        assert(order.contains(c));
        let q = choose|q: int| 0 <= q < order.len() && order[q] == c;
        if q < clusters.len() {
            assert(clusters[q] == c);
        }
        assert(precedes(ranks, order[p] as int, order[q] as int));
        lemma_ranks_agree(distances, order[p] as int, order[q] as int);
    }
}

proof fn lemma_rows_in_prefix(lists: Seq<Seq<u32>>, clusters: Seq<usize>, count: int)
    requires
        0 <= count <= clusters.len(),
    ensures
        rows_in(lists, clusters.take(count)).is_prefix_of(rows_in(lists, clusters)),
    decreases clusters.len(),
{
    if count == clusters.len() {
        assert(clusters.take(count) =~= clusters);
    } else {
        let front = clusters.drop_last();
        lemma_rows_in_prefix(lists, front, count);
        assert(front.take(count) =~= clusters.take(count));
        let few = rows_in(lists, clusters.take(count));
        let most = rows_in(lists, front);
        let all = rows_in(lists, clusters);
        assert(all == most + lists[clusters.last() as int]);
        assert(few =~= all.subrange(0, few.len() as int));
    }
}

/// To probe more clusters is to add rows behind those that fewer give.
pub proof fn law_probing_more_only_adds_rows(distances: Seq<Scalar>, lists: Seq<Seq<u32>>, fewer: nat, more: nat)
    requires
        distances.len() <= usize::MAX,
        fewer <= more,
    ensures
        rows_in(lists, probed(distances, fewer)).is_prefix_of(rows_in(lists, probed(distances, more))),
{
    law_sorted_indices(distances);
    let clusters = probed(distances, more);
    let count = probed(distances, fewer).len() as int;
    assert(clusters.take(count) =~= probed(distances, fewer));
    lemma_rows_in_prefix(lists, clusters, count);
}

/// To probe every cluster is to miss no row.
pub proof fn law_probing_all_misses_no_row(distances: Seq<Scalar>, lists: Seq<Seq<u32>>, nprobe: nat, row: u32)
    requires
        lists.len() == distances.len() <= usize::MAX,
        nprobe >= distances.len(),
    ensures
        rows_in(lists, probed(distances, nprobe)).contains(row) <==> exists|c: int|
            0 <= c < lists.len() && (#[trigger] lists[c]).contains(row),
{
    law_sorted_indices(distances);
    let order = sorted_indices(distances);
    let clusters = probed(distances, nprobe);
    assert(clusters =~= order);
    lemma_rows_in_contains(lists, clusters, row);
    if exists|c: int| 0 <= c < lists.len() && (#[trigger] lists[c]).contains(row) {
        let c = choose|c: int| 0 <= c < lists.len() && (#[trigger] lists[c]).contains(row);
        assert(order.contains(c as usize));
        let p = choose|p: int| 0 <= p < order.len() && order[p] == c as usize;
        assert(lists[clusters[p] as int].contains(row));
    }
    if exists|p: int| 0 <= p < clusters.len() && lists[#[trigger] clusters[p] as int].contains(row) {
        let p = choose|p: int| 0 <= p < clusters.len() && lists[#[trigger] clusters[p] as int].contains(row);
        assert(lists[clusters[p] as int].contains(row));
    }
}

impl IvfIndex {
    /// The length of a vector.
    pub fn dim(&self) -> (r: usize)
        ensures
            r == self@.dim,
            r > 0,
    {
        self.dim.as_usize()
    }

    /// The number of clusters.
    pub fn get_num_clusters(&self) -> (r: usize)
        ensures
            r == self@.n_clusters,
            r > 0,
    {
        self.n_clusters.as_usize()
    }

    /// The serialized index.
    pub fn to_bytes(&self) -> (r: Vec<u8>)
        ensures
            r@ == self@.serialized(),
    {
        let mut bytes: Vec<u8> = Vec::new();
        push_word(&mut bytes, self.dim.as_u32());
        push_word(&mut bytes, self.n_clusters.as_u32());
        let ghost header = word_bytes(self@.dim) + word_bytes(self@.n_clusters);
        let ghost bits = bits_of(self.centroids@);
        let mut i: usize = 0;
        assert(bytes@ =~= header + words_bytes(bits.take(0)));
        while i < self.centroids.len()
            invariant
                i <= self.centroids@.len(),
                bits == bits_of(self.centroids@),
                bytes@ == header + words_bytes(bits.take(i as int)),
            decreases self.centroids@.len() - i,
        {
            push_word(&mut bytes, self.centroids[i].bits);
            proof {
                crate::codec::lemma_words_bytes_push(bits.take(i as int), bits[i as int]);
                assert(bits.take(i as int).push(bits[i as int]) =~= bits.take(i + 1));
                assert(bytes@ =~= header + words_bytes(bits.take(i + 1)));
            }
            i = i + 1;
        }
        let ghost front = bytes@;
        let ghost lists = contents(self.inverted_lists@);
        let mut j: usize = 0;
        proof {
            assert(bits.take(i as int) =~= bits);
            assert(lists.take(0) =~= Seq::<Seq<u32>>::empty());
            assert(bytes@ =~= front + lists_bytes(lists.take(0)));
        }
        while j < self.inverted_lists.len()
            invariant
                j <= self.inverted_lists@.len(),
                lists == contents(self.inverted_lists@),
                bytes@ == front + lists_bytes(lists.take(j as int)),
            decreases self.inverted_lists@.len() - j,
        {
            let list = &self.inverted_lists[j];
            push_word(&mut bytes, list.len() as u32);
            push_words(&mut bytes, list.as_slice());
            proof {
                assert(lists.take(j + 1).drop_last() =~= lists.take(j as int));
                assert(lists.take(j + 1).last() == list@);
                assert(bytes@ =~= front + lists_bytes(lists.take(j + 1)));
            }
            j = j + 1;
        }
        assert(lists.take(j as int) =~= lists);
        bytes
    }

    /// Whether `bytes` holds all that its header promises: that [`Self::from_bytes`]
    /// would not run past its end.
    pub fn is_complete(bytes: &[u8]) -> (r: bool)
        ensures
            r == (has_header(bytes@) ==> complete(bytes@)),
    {
        let len: usize = bytes.len();
        if len < 8 {
            return true;
        }
        let dim: u32 = read_word(bytes, 0);
        let clusters: u32 = read_word(bytes, 4);
        if dim == 0 || clusters == 0 {
            return true;
        }
        proof {
            assert(clusters * dim <= u32::MAX * u32::MAX) by (nonlinear_arith)
                requires
                    clusters <= u32::MAX,
                    dim <= u32::MAX,
            ;
            assert(clusters * dim >= 0) by (nonlinear_arith);
        }
        let cells: u64 = clusters as u64 * dim as u64;
        if cells > (len as u64 - 8) / 4 {
            return false;
        }
        let mut at: usize = 8 + 4 * (cells as usize);
        let mut left: u32 = clusters;
        while left > 0
            invariant
                len == bytes@.len(),
                at <= len,
                has_header(bytes@),
                lists_start(bytes@) <= len,
                complete(bytes@) == lists_fit(bytes@, at as int, left as nat),
            decreases left,
        {
            if len - at < 4 {
                return false;
            }
            let size: u32 = read_word(bytes, at);
            if size as u64 > (len as u64 - at as u64 - 4) / 4 {
                return false;
            }
            at = at + 4 + 4 * (size as usize);
            left = left - 1;
        }
        true
    }

    /// The index whose serialized form starts `bytes`, unless the header is
    /// missing or holds a zero.
    pub fn from_bytes(bytes: &[u8]) -> (r: Result<Self, Error>)
        requires
            has_header(bytes@) ==> complete(bytes@),
        ensures
            bytes@.len() < 8 ==> r == Err::<Self, Error>(Error::BufferTooSmall),
            bytes@.len() >= 8 && header_dim(bytes@) == 0 ==> r == Err::<Self, Error>(Error::ZeroDimension),
            bytes@.len() >= 8 && header_dim(bytes@) > 0 && header_clusters(bytes@) == 0 ==> r == Err::<Self, Error>(
                Error::ZeroClusterCount,
            ),
            has_header(bytes@) ==> {
                &&& r is Ok
                &&& r->Ok_0@ == deserialized(bytes@)
                &&& r->Ok_0@.well_formed()
            },
    {
        if bytes.len() < 8 {
            return Err(Error::BufferTooSmall);
        }
        let dim = match EmbeddingDim::new(read_word(bytes, 0) as usize) {
            Ok(dim) => dim,
            Err(e) => {
                return Err(e);
            },
        };
        let n_clusters = match ClusterCount::new(read_word(bytes, 4) as usize) {
            Ok(n_clusters) => n_clusters,
            Err(e) => {
                return Err(e);
            },
        };
        let n: usize = n_clusters.as_usize();
        proof {
            assert(bytes@.len() == bytes.len());
            assert(n_clusters@ * dim@ >= 0) by (nonlinear_arith);
        }
        let centroids_len: usize = n * dim.as_usize();
        let ghost words = words_at(bytes@, 8, centroids_len as nat);
        let mut centroids: Vec<Scalar> = Vec::with_capacity(centroids_len);
        let mut i: usize = 0;
        while i < centroids_len
            invariant
                i <= centroids_len,
                8 + 4 * centroids_len <= bytes@.len() <= usize::MAX,
                words == words_at(bytes@, 8, centroids_len as nat),
                centroids@.len() == i,
                forall|p: int| 0 <= p < i ==> (#[trigger] centroids@[p]).bits == words[p],
            decreases centroids_len - i,
        {
            centroids.push(Scalar { bits: read_word(bytes, 8 + 4 * i) });
            i = i + 1;
        }
        assert(centroids@ =~= scalars_of(words));
        let mut at: usize = 8 + 4 * centroids_len;
        let ghost all = lists_at(bytes@, at as int, n as nat);
        let mut inverted_lists: Vec<Vec<u32>> = Vec::with_capacity(n);
        let mut j: usize = 0;
        assert(contents(inverted_lists@) + all =~= all);
        while j < n
            invariant
                j <= n,
                at <= bytes@.len() <= usize::MAX,
                inverted_lists@.len() == j,
                lists_fit(bytes@, at as int, (n - j) as nat),
                contents(inverted_lists@) + lists_at(bytes@, at as int, (n - j) as nat) == all,
            decreases n - j,
        {
            let size: usize = read_word(bytes, at) as usize;
            let list = read_words(bytes, at + 4, size);
            let ghost before = contents(inverted_lists@);
            let ghost start = at as int;
            inverted_lists.push(list);
            at = at + 4 + 4 * size;
            proof {
                assert(contents(inverted_lists@) =~= before.push(list@));
                let rest = lists_at(bytes@, at as int, (n - j - 1) as nat);
                assert(before + lists_at(bytes@, start, (n - j) as nat) =~= before.push(list@) + rest);
            }
            j = j + 1;
        }
        assert(contents(inverted_lists@) =~= all);
        Ok(IvfIndex { dim, n_clusters, centroids, inverted_lists })
    }

    /// The distance of each centroid from `query`.
    pub fn get_centroid_distances<M: Fn(&[Scalar], &[Scalar]) -> Vec<Scalar>>(
        &self,
        query: &[Scalar],
        measure: &M,
    ) -> (r: Vec<Scalar>)
        requires
            self@.well_formed(),
            measures(*measure),
            query@.len() == self@.dim,
        ensures
            self@.centroids_measured(*measure, query@, r@),
    {
        proof {
            lemma_whole_rows(self@.n_clusters as int, self@.dim as int);
        }
        distances(measure, query, self.centroids.as_slice())
    }

    /// The `nprobe` clusters whose centroids are closest to `query`, closest
    /// first.
    pub fn find_closest_centroids<M: Fn(&[Scalar], &[Scalar]) -> Vec<Scalar>>(
        &self,
        query: &[Scalar],
        nprobe: usize,
        measure: &M,
    ) -> (r: Vec<usize>)
        requires
            self@.well_formed(),
            measures(*measure),
            query@.len() == self@.dim,
        ensures
            self@.probes(*measure, query@, nprobe as nat, r@),
            forall|p: int| 0 <= p < r@.len() ==> (#[trigger] r@[p]) < self@.n_clusters,
    {
        let d = self.get_centroid_distances(query, measure);
        let mut order = stable_order(d.as_slice());
        if nprobe < order.len() {
            order.truncate(nprobe);
        }
        proof {
            assert(self@.centroids_measured(*measure, query@, d@));
            assert(order@ =~= probed(d@, nprobe as nat));
        }
        order
    }

    /// The rows of the `nprobe` clusters whose centroids are closest to `query`,
    /// those of the closest cluster first.
    pub fn candidate_rows<M: Fn(&[Scalar], &[Scalar]) -> Vec<Scalar>>(
        &self,
        query: &[Scalar],
        nprobe: usize,
        measure: &M,
    ) -> (r: Vec<u32>)
        requires
            self@.well_formed(),
            measures(*measure),
            query@.len() == self@.dim,
        ensures
            self@.proposes(*measure, query@, nprobe as nat, r@),
    {
        let clusters = self.find_closest_centroids(query, nprobe, measure);
        assert(self@.probes(*measure, query@, nprobe as nat, clusters@));
        self.rows_of(clusters.as_slice())
    }

    /// The rows of `clusters`, one cluster after the other.
    pub fn rows_of(&self, clusters: &[usize]) -> (r: Vec<u32>)
        requires
            self@.well_formed(),
            forall|p: int| 0 <= p < clusters@.len() ==> (#[trigger] clusters@[p]) < self@.n_clusters,
        ensures
            r@ == rows_in(self@.lists, clusters@),
    {
        let mut rows: Vec<u32> = Vec::new();
        let mut p: usize = 0;
        while p < clusters.len()
            invariant
                self@.well_formed(),
                forall|p: int| 0 <= p < clusters@.len() ==> (#[trigger] clusters@[p]) < self@.n_clusters,
                p <= clusters@.len(),
                rows@ == rows_in(self@.lists, clusters@.take(p as int)),
            decreases clusters@.len() - p,
        {
            let list = &self.inverted_lists[clusters[p]];
            let ghost before = rows@;
            rows.extend_from_slice(list.as_slice());
            proof {
                assert(rows@ =~= before + list@);
                assert(clusters@.take(p + 1).drop_last() =~= clusters@.take(p as int));
            }
            p = p + 1;
        }
        assert(clusters@.take(p as int) =~= clusters@);
        rows
    }

    /// The rows of one cluster.
    pub fn get_rows_for_cluster(&self, cluster_idx: u32) -> (r: Vec<u32>)
        requires
            self@.well_formed(),
            cluster_idx < self@.n_clusters,
        ensures
            r@ == self@.lists[cluster_idx as int],
    {
        let rows = self.inverted_lists[cluster_idx as usize].clone();
        assert(rows@ =~= self@.lists[cluster_idx as int]);
        rows
    }
}

} // verus!
