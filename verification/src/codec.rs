//! Little-endian words and lists of them.

use vstd::prelude::*;

verus! {

/// The bytes of `word`, the least significant first.
pub open spec fn word_bytes(word: u32) -> Seq<u8> {
    seq![
        (word as int % 256) as u8,
        (word as int / 256 % 256) as u8,
        (word as int / 65536 % 256) as u8,
        (word as int / 16777216) as u8,
    ]
}

/// The word whose bytes, the least significant first, start at `at`.
pub open spec fn word_at(bytes: Seq<u8>, at: int) -> u32 {
    (bytes[at] + 256 * bytes[at + 1] + 65536 * bytes[at + 2] + 16777216 * bytes[at + 3]) as u32
}

/// The bytes of `words`, one after the other.
pub open spec fn words_bytes(words: Seq<u32>) -> Seq<u8> {
    Seq::new(4 * words.len(), |p: int| word_bytes(words[p / 4])[p % 4])
}

/// The `count` words whose bytes start at `at`.
pub open spec fn words_at(bytes: Seq<u8>, at: int, count: nat) -> Seq<u32> {
    Seq::new(count, |i: int| word_at(bytes, at + 4 * i))
}

/// The bytes of `list`: its length, cut to 32 bits, then its words.
pub open spec fn list_bytes(list: Seq<u32>) -> Seq<u8> {
    word_bytes(list.len() as u32) + words_bytes(list)
}

/// The bytes of `lists`, one after the other.
pub open spec fn lists_bytes(lists: Seq<Seq<u32>>) -> Seq<u8>
    decreases lists.len(),
{
    if lists.len() == 0 {
        Seq::empty()
    } else {
        lists_bytes(lists.drop_last()) + list_bytes(lists.last())
    }
}

/// The first byte after the list that starts at `at`.
pub open spec fn list_end(bytes: Seq<u8>, at: int) -> int {
    at + 4 + 4 * word_at(bytes, at)
}

/// Whether `count` lists start at `at` and end within `bytes`.
pub open spec fn lists_fit(bytes: Seq<u8>, at: int, count: nat) -> bool
    decreases count,
{
    count == 0 || (at + 4 <= bytes.len() && list_end(bytes, at) <= bytes.len() && lists_fit(
        bytes,
        list_end(bytes, at),
        (count - 1) as nat,
    ))
}

/// The `count` lists that start at `at`.
pub open spec fn lists_at(bytes: Seq<u8>, at: int, count: nat) -> Seq<Seq<u32>>
    decreases count,
{
    if count == 0 {
        Seq::empty()
    } else {
        seq![words_at(bytes, at + 4, word_at(bytes, at) as nat)] + lists_at(
            bytes,
            list_end(bytes, at),
            (count - 1) as nat,
        )
    }
}

/// Appends the bytes of `word`.
pub fn push_word(bytes: &mut Vec<u8>, word: u32)
    ensures
        final(bytes)@ == old(bytes)@ + word_bytes(word),
{
    let ghost before = bytes@;
    bytes.push((word % 256) as u8);
    bytes.push((word / 256 % 256) as u8);
    bytes.push((word / 65536 % 256) as u8);
    bytes.push((word / 16777216) as u8);
    assert(bytes@ =~= before + word_bytes(word));
}

/// Appends the bytes of `words`.
pub fn push_words(bytes: &mut Vec<u8>, words: &[u32])
    ensures
        final(bytes)@ == old(bytes)@ + words_bytes(words@),
{
    let ghost before = bytes@;
    let mut i: usize = 0;
    assert(before + words_bytes(words@.take(0)) =~= before);
    while i < words.len()
        invariant
            i <= words@.len(),
            bytes@ == before + words_bytes(words@.take(i as int)),
        decreases words@.len() - i,
    {
        push_word(bytes, words[i]);
        proof {
            lemma_words_bytes_push(words@.take(i as int), words@[i as int]);
            assert(words@.take(i as int).push(words@[i as int]) =~= words@.take(i + 1));
            assert(bytes@ =~= before + words_bytes(words@.take(i + 1)));
        }
        i = i + 1;
    }
    assert(words@.take(i as int) =~= words@);
}

/// Reads the word whose bytes start at `at`.
pub fn read_word(bytes: &[u8], at: usize) -> (r: u32)
    requires
        at + 4 <= bytes@.len(),
    ensures
        r == word_at(bytes@, at as int),
{
    assert(bytes@.len() == bytes.len());
    bytes[at] as u32 + 256 * (bytes[at + 1] as u32) + 65536 * (bytes[at + 2] as u32) + 16777216 * (
    bytes[at + 3] as u32)
}

/// Reads the `count` words whose bytes start at `at`.
pub fn read_words(bytes: &[u8], at: usize, count: usize) -> (r: Vec<u32>)
    requires
        at + 4 * count <= bytes@.len(),
    ensures
        r@ == words_at(bytes@, at as int, count as nat),
{
    assert(bytes@.len() == bytes.len());
    let mut words: Vec<u32> = Vec::with_capacity(count);
    let mut i: usize = 0;
    while i < count
        invariant
            i <= count,
            at + 4 * count <= bytes@.len() <= usize::MAX,
            words@ == words_at(bytes@, at as int, i as nat),
        decreases count - i,
    {
        words.push(read_word(bytes, at + 4 * i));
        assert(words@ =~= words_at(bytes@, at as int, (i + 1) as nat));
        i = i + 1;
    }
    words
}

pub proof fn lemma_words_bytes_push(words: Seq<u32>, word: u32)
    ensures
        words_bytes(words.push(word)) == words_bytes(words) + word_bytes(word),
{
    let longer = words.push(word);
    assert forall|p: int| 0 <= p < 4 * longer.len() implies #[trigger] words_bytes(longer)[p] == (words_bytes(words)
        + word_bytes(word))[p] by {
        if p < 4 * words.len() {
            assert(p / 4 < words.len());
            assert(longer[p / 4] == words[p / 4]);
        } else {
            assert(p / 4 == words.len());
            assert(p % 4 == p - 4 * words.len());
        }
    }
    assert(words_bytes(longer) =~= words_bytes(words) + word_bytes(word));
}

/// A word is read back from its bytes, wherever they stand.
pub proof fn law_word_roundtrip(bytes: Seq<u8>, at: int, word: u32)
    requires
        0 <= at,
        at + 4 <= bytes.len(),
        bytes.subrange(at, at + 4) == word_bytes(word),
    ensures
        word_at(bytes, at) == word,
{
    let s = bytes.subrange(at, at + 4);
    assert(s[0] == bytes[at] && s[1] == bytes[at + 1] && s[2] == bytes[at + 2] && s[3] == bytes[at + 3]);
}

proof fn lemma_digits(a: u8, b: u8, c: u8, d: u8)
    ensures
        ({
            let w = a + 256 * b + 65536 * c + 16777216 * d;
            &&& 0 <= w <= u32::MAX
            &&& w % 256 == a
            &&& w / 256 % 256 == b
            &&& w / 65536 % 256 == c
            &&& w / 16777216 == d
        }),
{
    let w = a + 256 * b + 65536 * c + 16777216 * d;
    assert(w / 256 == b + 256 * c + 65536 * d);
    assert(w / 65536 == c + 256 * d);
}

/// The bytes of a word that is read are the bytes it is read from.
pub proof fn law_word_canonical(bytes: Seq<u8>, at: int)
    requires
        0 <= at,
        at + 4 <= bytes.len(),
    ensures
        word_bytes(word_at(bytes, at)) == bytes.subrange(at, at + 4),
{
    lemma_digits(bytes[at], bytes[at + 1], bytes[at + 2], bytes[at + 3]);
    assert(word_bytes(word_at(bytes, at)) =~= bytes.subrange(at, at + 4));
}

/// Words are read back from their bytes, wherever they stand.
pub proof fn law_words_roundtrip(bytes: Seq<u8>, at: int, words: Seq<u32>)
    requires
        0 <= at,
        at + 4 * words.len() <= bytes.len(),
        bytes.subrange(at, at + 4 * words.len()) == words_bytes(words),
    ensures
        words_at(bytes, at, words.len()) == words,
{
    assert forall|i: int| 0 <= i < words.len() implies #[trigger] words_at(bytes, at, words.len())[i] == words[i] by {
        let all = words_bytes(words);
        let here = bytes.subrange(at + 4 * i, at + 4 * i + 4);
        assert forall|q: int| 0 <= q < 4 implies #[trigger] here[q] == word_bytes(words[i])[q] by {
            let p = 4 * i + q;
            assert(p / 4 == i && p % 4 == q);
            assert(bytes.subrange(at, at + 4 * words.len())[p] == all[p]);
        }
        assert(here =~= word_bytes(words[i]));
        law_word_roundtrip(bytes, at + 4 * i, words[i]);
    }
    assert(words_at(bytes, at, words.len()) =~= words);
}

/// The bytes of words that are read are the bytes they are read from.
pub proof fn law_words_canonical(bytes: Seq<u8>, at: int, count: nat)
    requires
        0 <= at,
        at + 4 * count <= bytes.len(),
    ensures
        words_bytes(words_at(bytes, at, count)) == bytes.subrange(at, at + 4 * count),
{
    let words = words_at(bytes, at, count);
    assert forall|p: int| 0 <= p < 4 * count implies #[trigger] words_bytes(words)[p] == bytes.subrange(
        at,
        at + 4 * count,
    )[p] by {
        let i = p / 4;
        let q = p % 4;
        assert(0 <= i < count && p == 4 * i + q);
        law_word_canonical(bytes, at + 4 * i);
        assert(words[i] == word_at(bytes, at + 4 * i));
        assert(bytes.subrange(at + 4 * i, at + 4 * i + 4)[q] == bytes[at + p]);
    }
    assert(words_bytes(words) =~= bytes.subrange(at, at + 4 * count));
}

proof fn lemma_lists_bytes_first(lists: Seq<Seq<u32>>)
    requires
        lists.len() > 0,
    ensures
        lists_bytes(lists) == list_bytes(lists[0]) + lists_bytes(lists.drop_first()),
    decreases lists.len(),
{
    let rest = lists.drop_first();
    if lists.len() == 1 {
        assert(lists.drop_last() =~= Seq::<Seq<u32>>::empty());
        assert(rest =~= Seq::<Seq<u32>>::empty());
        assert(lists_bytes(lists) =~= list_bytes(lists[0]) + lists_bytes(rest));
    } else {
        lemma_lists_bytes_first(lists.drop_last());
        assert(lists.drop_last().drop_first() =~= rest.drop_last());
        assert(rest.last() == lists.last());
        assert(lists_bytes(lists) =~= list_bytes(lists[0]) + lists_bytes(rest));
    }
}

/// Lists are read back from their bytes, wherever they stand, unless one of
/// them is longer than 32 bits can say.
pub proof fn law_lists_roundtrip(bytes: Seq<u8>, at: int, lists: Seq<Seq<u32>>)
    requires
        0 <= at,
        at + lists_bytes(lists).len() <= bytes.len(),
        bytes.subrange(at, at + lists_bytes(lists).len()) == lists_bytes(lists),
        forall|j: int| 0 <= j < lists.len() ==> (#[trigger] lists[j]).len() <= u32::MAX,
    ensures
        lists_fit(bytes, at, lists.len()),
        lists_at(bytes, at, lists.len()) == lists,
    decreases lists.len(),
{
    if lists.len() == 0 {
        assert(lists_at(bytes, at, 0) =~= lists);
    } else {
        lemma_lists_bytes_first(lists);
        let all = lists_bytes(lists);
        let here = bytes.subrange(at, at + all.len());
        let first = lists[0];
        let rest = lists.drop_first();
        assert(all == list_bytes(first) + lists_bytes(rest));
        let head = word_bytes(first.len() as u32);
        assert(bytes.subrange(at, at + 4) =~= head) by {
            assert forall|q: int| 0 <= q < 4 implies #[trigger] bytes.subrange(at, at + 4)[q] == head[q] by {
                assert(here[q] == all[q]);
            }
        }
        law_word_roundtrip(bytes, at, first.len() as u32);
        let words = words_bytes(first);
        assert(bytes.subrange(at + 4, at + 4 + 4 * first.len()) =~= words) by {
            assert forall|q: int| 0 <= q < words.len() implies #[trigger] bytes.subrange(
                at + 4,
                at + 4 + 4 * first.len(),
            )[q] == words[q] by {
                assert(here[q + 4] == all[q + 4]);
            }
        }
        law_words_roundtrip(bytes, at + 4, first);
        let next = list_end(bytes, at);
        let tail = lists_bytes(rest);
        assert(bytes.subrange(next, next + tail.len()) =~= tail) by {
            assert forall|q: int| 0 <= q < tail.len() implies #[trigger] bytes.subrange(next, next + tail.len())[q]
                == tail[q] by {
                let p = q + 4 + 4 * first.len();
                assert(here[p] == all[p]);
            }
        }
        law_lists_roundtrip(bytes, next, rest);
        assert(lists_at(bytes, at, lists.len()) =~= lists);
    }
}

/// The bytes of lists that are read are the bytes they are read from.
pub proof fn law_lists_canonical(bytes: Seq<u8>, at: int, count: nat)
    requires
        0 <= at <= bytes.len(),
        lists_fit(bytes, at, count),
    ensures
        at + lists_bytes(lists_at(bytes, at, count)).len() <= bytes.len(),
        lists_bytes(lists_at(bytes, at, count)) == bytes.subrange(
            at,
            at + lists_bytes(lists_at(bytes, at, count)).len(),
        ),
    decreases count,
{
    let lists = lists_at(bytes, at, count);
    if count == 0 {
        assert(lists_bytes(lists) =~= bytes.subrange(at, at + lists_bytes(lists).len()));
    } else {
        let next = list_end(bytes, at);
        let size = word_at(bytes, at);
        let rest = lists_at(bytes, next, (count - 1) as nat);
        law_lists_canonical(bytes, next, (count - 1) as nat);
        law_word_canonical(bytes, at);
        law_words_canonical(bytes, at + 4, size as nat);
        assert(lists.drop_first() =~= rest);
        assert(lists[0] == words_at(bytes, at + 4, size as nat));
        lemma_lists_bytes_first(lists);
        assert(lists_bytes(lists) =~= bytes.subrange(at, at + lists_bytes(lists).len()));
    }
}

} // verus!
