//! The bytes of a serialized index, position by position.

use crate::codec::{list_bytes, lists_bytes, word_at, word_bytes, words_bytes};
use crate::index::{bits_of, IndexModel};
use crate::sums::total;
use vstd::prelude::*;

verus! {

/// The number whose four bytes start at `at`, the least significant first.
pub open spec fn little_endian(bytes: Seq<u8>, at: int) -> int {
    bytes[at] + 256 * bytes[at + 1] + 65536 * bytes[at + 2] + 16777216 * bytes[at + 3]
}

/// A word is written in four bytes, the least significant first.
pub proof fn law_words_are_written_little_endian(word: u32)
    ensures
        word_bytes(word).len() == 4,
        little_endian(word_bytes(word), 0) == word,
{
    let w = word as int;
    assert(w / 256 / 256 == w / 65536);
    assert(w / 65536 / 256 == w / 16777216);
}

/// A word is read from four bytes, the least significant first.
pub proof fn law_words_are_read_little_endian(bytes: Seq<u8>, at: int)
    requires
        0 <= at,
        at + 4 <= bytes.len(),
    ensures
        word_at(bytes, at) == little_endian(bytes, at),
{
    let w = little_endian(bytes, at);
    assert(0 <= w <= u32::MAX);
}

/// Words are written one after the other.
proof fn lemma_words_at(words: Seq<u32>, i: int)
    requires
        0 <= i < words.len(),
    ensures
        words_bytes(words).len() == 4 * words.len(),
        little_endian(words_bytes(words), 4 * i) == words[i],
{
    law_words_are_written_little_endian(words[i]);
    let all = words_bytes(words);
    assert forall|q: int| 0 <= q < 4 implies all[4 * i + q] == word_bytes(words[i])[q] by {
        let p = 4 * i + q;
        assert(p / 4 == i && p % 4 == q);
    }
    assert(all[4 * i + 0] == word_bytes(words[i])[0]);
    assert(all[4 * i + 1] == word_bytes(words[i])[1]);
    assert(all[4 * i + 2] == word_bytes(words[i])[2]);
    assert(all[4 * i + 3] == word_bytes(words[i])[3]);
}

/// The number of bytes before the `c`-th of `lists`.
pub open spec fn bytes_before(lists: Seq<Seq<u32>>, c: int) -> int {
    total(Seq::new(c as nat, |j: int| 4 + 4 * (lists[j].len() as int)))
}

proof fn lemma_bytes_before(lists: Seq<Seq<u32>>, c: int)
    requires
        0 <= c < lists.len(),
    ensures
        bytes_before(lists, c + 1) == bytes_before(lists, c) + 4 + 4 * lists[c].len(),
        bytes_before(lists, c) >= 0,
        bytes_before(lists.drop_last(), c) == bytes_before(lists, c),
    decreases c,
{
    let longer = Seq::new((c + 1) as nat, |j: int| 4 + 4 * (lists[j].len() as int));
    assert(longer.drop_last() =~= Seq::new(c as nat, |j: int| 4 + 4 * (lists[j].len() as int)));
    assert(Seq::new(c as nat, |j: int| 4 + 4 * (lists.drop_last()[j].len() as int)) =~= Seq::new(
        c as nat,
        |j: int| 4 + 4 * (lists[j].len() as int),
    ));
    if c > 0 {
        lemma_bytes_before(lists, c - 1);
    }
}

proof fn lemma_list_stands_at(lists: Seq<Seq<u32>>, c: int, p: int)
    requires
        0 <= c < lists.len(),
        0 <= p < 4 + 4 * lists[c].len(),
    ensures
        lists_bytes(lists).len() == bytes_before(lists, lists.len() as int),
        bytes_before(lists, c) >= 0,
        bytes_before(lists, c) + 4 + 4 * lists[c].len() <= lists_bytes(lists).len(),
        lists_bytes(lists)[bytes_before(lists, c) + p] == list_bytes(lists[c])[p],
    decreases lists.len(),
{
    let front = lists.drop_last();
    let n = lists.len() - 1;
    lemma_bytes_before(lists, n);
    lemma_bytes_before(lists, c);
    if n > 0 {
        let b = if c < n {
            c
        } else {
            0
        };
        let q = if c < n {
            p
        } else {
            0
        };
        assert(front[b] == lists[b]);
        lemma_list_stands_at(front, b, q);
        assert(bytes_before(front, n) == bytes_before(lists, n));
    } else {
        assert(front =~= Seq::<Seq<u32>>::empty());
        assert(lists_bytes(front) =~= Seq::<u8>::empty());
        let none = Seq::new(0int as nat, |j: int| 4 + 4 * (lists[j].len() as int));
        assert(none =~= Seq::<int>::empty());
        assert(bytes_before(lists, 0) == total(none));
        assert(total(none) == 0);
    }
    assert(lists_bytes(front).len() == bytes_before(lists, n));
    assert(list_bytes(lists.last()).len() == 4 + 4 * lists[n].len());
    assert(lists_bytes(lists) == lists_bytes(front) + list_bytes(lists.last()));
    assert(bytes_before(lists, n + 1) == bytes_before(lists, n) + 4 + 4 * lists[n].len());
    if c < n {
        lemma_bytes_before(front, c);
    }
}

/// A serialized index is: its dimension, its number of clusters, the bits of each
/// centroid value, and for each cluster the number of its rows and the rows, all in
/// four bytes each, the least significant first. Nothing stands between them or
/// behind them.
pub proof fn law_serialized_index_stands_value_by_value(index: IndexModel, i: int, c: int, j: int)
    requires
        0 <= i < index.centroids.len(),
        0 <= c < index.lists.len(),
        forall|l: int| 0 <= l < index.lists.len() ==> (#[trigger] index.lists[l]).len() <= u32::MAX,
    ensures
        ({
            let bytes = index.serialized();
            let start = 8 + 4 * index.centroids.len();
            let at = start + bytes_before(index.lists, c);
            &&& bytes.len() == start + bytes_before(index.lists, index.lists.len() as int)
            &&& little_endian(bytes, 0) == index.dim
            &&& little_endian(bytes, 4) == index.n_clusters
            &&& little_endian(bytes, 8 + 4 * i) == index.centroids[i].bits
            &&& little_endian(bytes, at) == index.lists[c].len()
            &&& 0 <= j < index.lists[c].len() ==> little_endian(bytes, at + 4 + 4 * j) == index.lists[c][j]
        }),
{
    let bytes = index.serialized();
    let bits = bits_of(index.centroids);
    let start = 8 + 4 * index.centroids.len();
    let list = index.lists[c];
    let before = bytes_before(index.lists, c);
    let at = start + before;
    law_words_are_written_little_endian(index.dim);
    law_words_are_written_little_endian(index.n_clusters);
    lemma_words_at(bits, i);
    law_words_are_written_little_endian(list.len() as u32);
    let all = lists_bytes(index.lists);
    assert forall|p: int| 0 <= p < 4 + 4 * list.len() implies #[trigger] all[before + p] == list_bytes(list)[p] by {
        lemma_list_stands_at(index.lists, c, p);
    }
    lemma_list_stands_at(index.lists, c, 0);
    assert(all[before + 0] == list_bytes(list)[0]);
    assert(all[before + 1] == list_bytes(list)[1]);
    assert(all[before + 2] == list_bytes(list)[2]);
    assert(all[before + 3] == list_bytes(list)[3]);
    assert forall|p: int| 0 <= p < all.len() implies #[trigger] bytes[start + p] == all[p] by {}
    assert(bytes[at] == all[before] && bytes[at + 1] == all[before + 1] && bytes[at + 2] == all[before + 2] && bytes[at
        + 3] == all[before + 3]) by {
        assert(bytes[start + before] == all[before]);
        assert(bytes[start + (before + 1)] == all[before + 1]);
        assert(bytes[start + (before + 2)] == all[before + 2]);
        assert(bytes[start + (before + 3)] == all[before + 3]);
    }
    if 0 <= j < list.len() {
        lemma_words_at(list, j);
        let words = words_bytes(list);
        assert forall|q: int| 0 <= q < 4 implies #[trigger] bytes[at + 4 + 4 * j + q] == words[4 * j + q] by {
            let p = 4 + 4 * j + q;
            assert(all[before + p] == list_bytes(list)[p]);
            assert(bytes[start + (before + p)] == all[before + p]);
        }
        assert(bytes[at + 4 + 4 * j + 0] == words[4 * j + 0]);
        assert(bytes[at + 4 + 4 * j + 1] == words[4 * j + 1]);
        assert(bytes[at + 4 + 4 * j + 2] == words[4 * j + 2]);
        assert(bytes[at + 4 + 4 * j + 3] == words[4 * j + 3]);
    }
    let w = words_bytes(bits);
    assert(bytes[8 + 4 * i] == w[4 * i] && bytes[8 + 4 * i + 1] == w[4 * i + 1] && bytes[8 + 4 * i + 2] == w[4 * i + 2]
        && bytes[8 + 4 * i + 3] == w[4 * i + 3]);
}

} // verus!
