//! Frames: what a continuation keeps between its steps, as bytes.
//!
//! A frame is a run of little-endian words. A frame that is too short for its
//! words does not decode; bytes past them are ignored.

use crate::bytes;
use vstd::prelude::*;

verus! {

/// What a continuation of some kind keeps.
pub trait Frame: Sized {
    /// `s` starts with `frame`, or is too short for one where there is none.
    spec fn reads_as(s: Seq<u8>, frame: Option<Self>) -> bool;

    fn from_bytes(s: &[u8]) -> (frame: Option<Self>)
        ensures
            Self::reads_as(s@, frame),
    ;
}

/// Words of given widths, one after the other.
pub open spec fn packed(words: Seq<(nat, nat)>) -> Seq<u8>
    decreases words.len(),
{
    if words.len() == 0 {
        Seq::empty()
    } else {
        packed(words.drop_last()) + bytes::le_bytes(words.last().0, words.last().1)
    }
}

/// Where word `i` starts.
pub open spec fn word_offset(words: Seq<(nat, nat)>, i: int) -> nat
    decreases i,
{
    if i <= 0 {
        0
    } else {
        word_offset(words, i - 1) + words[i - 1].1
    }
}

proof fn lemma_offset_of_prefix(words: Seq<(nat, nat)>, i: int)
    requires
        0 <= i < words.len(),
    ensures
        word_offset(words.drop_last(), i) == word_offset(words, i),
    decreases i,
{
    if i > 0 {
        lemma_offset_of_prefix(words, i - 1);
    }
}

pub proof fn lemma_packed_len(words: Seq<(nat, nat)>)
    ensures
        packed(words).len() == word_offset(words, words.len() as int),
    decreases words.len(),
{
    if words.len() > 0 {
        lemma_packed_len(words.drop_last());
        lemma_offset_of_prefix(words, words.len() - 1);
        bytes::lemma_le_bytes_len(words.last().0, words.last().1);
    }
}

/// Reading word `i` of packed words gives the word, where it fits its width.
pub proof fn lemma_packed_word(words: Seq<(nat, nat)>, i: int)
    requires
        0 <= i < words.len(),
        words[i].0 < bytes::radix(words[i].1),
    ensures
        word_offset(words, i) + words[i].1 <= packed(words).len(),
        bytes::word_at(packed(words), word_offset(words, i) as int, words[i].1 as int)
            == words[i].0,
    decreases words.len(),
{
    lemma_packed_len(words);
    lemma_packed_len(words.drop_last());
    lemma_offset_of_prefix(words, words.len() - 1);
    bytes::lemma_le_bytes_len(words.last().0, words.last().1);
    let at = word_offset(words, i) as int;
    let n = words[i].1 as int;
    if i == words.len() - 1 {
        bytes::lemma_le_round_trip(words[i].0, words[i].1);
        assert(packed(words).subrange(at, at + n) =~= bytes::le_bytes(words[i].0, words[i].1));
    } else {
        lemma_packed_word(words.drop_last(), i);
        lemma_offset_of_prefix(words, i);
        assert(packed(words).subrange(at, at + n) =~= packed(words.drop_last()).subrange(
            at,
            at + n,
        ));
    }
}

/// Words as plain values.
pub open spec fn words_of(words: Seq<(u64, usize)>) -> Seq<(nat, nat)> {
    Seq::new(words.len(), |i: int| (words[i].0 as nat, words[i].1 as nat))
}

/// Appends words of up to eight bytes each.
pub fn put_words(out: &mut Vec<u8>, words: &Vec<(u64, usize)>)
    requires
        forall|i: int| 0 <= i < words@.len() ==> (#[trigger] words@[i]).1 <= 8,
    ensures
        final(out)@ == old(out)@ + packed(words_of(words@)),
{
    let ghost start = out@;
    let mut i: usize = 0;
    assert(words_of(words@).take(0) =~= Seq::<(nat, nat)>::empty());
    assert(start + packed(words_of(words@).take(0)) =~= start);
    while i < words.len()
        invariant
            i <= words.len(),
            forall|i: int| 0 <= i < words@.len() ==> (#[trigger] words@[i]).1 <= 8,
            out@ == start + packed(words_of(words@).take(i as int)),
        decreases words.len() - i,
    {
        let (value, width) = words[i];
        proof {
            let w = words_of(words@);
            assert(w.take(i + 1).drop_last() =~= w.take(i as int));
            assert(w.take(i + 1).last() == (value as nat, width as nat));
            assert(start + packed(w.take(i + 1)) =~= start + packed(w.take(i as int))
                + bytes::le_bytes(value as nat, width as nat));
        }
        bytes::put_le(out, value, width);
        i = i + 1;
    }
    assert(words_of(words@).take(i as int) =~= words_of(words@));
}

/// The eight-byte words of a list of numbers.
pub open spec fn long_words(values: Seq<u64>) -> Seq<(nat, nat)> {
    Seq::new(values.len(), |i: int| (values[i] as nat, 8nat))
}

pub proof fn lemma_long_offset(values: Seq<u64>, i: int)
    requires
        0 <= i <= values.len(),
    ensures
        word_offset(long_words(values), i) == 8 * i,
    decreases i,
{
    if i > 0 {
        lemma_long_offset(values, i - 1);
    }
}

pub proof fn lemma_packed_join(a: Seq<(nat, nat)>, b: Seq<(nat, nat)>)
    ensures
        packed(a + b) == packed(a) + packed(b),
    decreases b.len(),
{
    if b.len() == 0 {
        assert(a + b =~= a);
        assert(packed(a) + packed(b) =~= packed(a));
    } else {
        assert((a + b).drop_last() =~= a + b.drop_last());
        lemma_packed_join(a, b.drop_last());
        assert(packed(a + b) =~= packed(a) + packed(b));
    }
}

/// The list of numbers that starts at `at`, where one does: a count of four
/// bytes and then the numbers.
pub open spec fn long_list_at(s: Seq<u8>, at: int) -> Option<Seq<u64>> {
    if at + 4 > s.len() {
        None
    } else {
        let count = bytes::word_at(s, at, 4);
        if at + 4 + 8 * count > s.len() {
            None
        } else {
            Some(Seq::new(count, |i: int| bytes::word_at(s, at + 4 + 8 * i, 8) as u64))
        }
    }
}

/// Appends a count and that many numbers.
pub fn put_vec_u64(out: &mut Vec<u8>, values: &Vec<u64>)
    requires
        values@.len() <= u32::MAX,
    ensures
        final(out)@ == old(out)@ + bytes::le_bytes(values@.len(), 4) + packed(long_words(values@)),
{
    let ghost start = out@;
    bytes::put_le(out, values.len() as u64, 4);
    let ghost head = out@;
    let mut i: usize = 0;
    assert(long_words(values@).take(0) =~= Seq::<(nat, nat)>::empty());
    assert(head + packed(long_words(values@).take(0)) =~= head);
    while i < values.len()
        invariant
            i <= values.len(),
            out@ == head + packed(long_words(values@).take(i as int)),
        decreases values.len() - i,
    {
        proof {
            let words = long_words(values@);
            assert(words.take(i + 1).drop_last() =~= words.take(i as int));
            assert(words.take(i + 1).last() == (values@[i as int] as nat, 8nat));
            assert(head + packed(words.take(i + 1)) =~= head + packed(words.take(i as int))
                + bytes::le_bytes(values@[i as int] as nat, 8));
        }
        bytes::put_le(out, values[i], 8);
        i = i + 1;
    }
    assert(long_words(values@).take(i as int) =~= long_words(values@));
}

/// Reads the list of numbers at `at`.
pub fn get_vec_u64(buf: &[u8], at: usize) -> (values: Option<Vec<u64>>)
    ensures
        match values {
            Some(values) => long_list_at(buf@, at as int) == Some(values@),
            None => long_list_at(buf@, at as int) is None,
        },
{
    let len: usize = buf.len();
    if len < 4 || at > len - 4 {
        return None;
    }
    let count: u64 = bytes::get_le(buf, at, 4);
    proof {
        bytes::lemma_radix_values();
    }
    let room: usize = len - at - 4;
    if count > (room / 8) as u64 {
        return None;
    }
    let mut values: Vec<u64> = Vec::new();
    let mut i: usize = 0;
    while i < count as usize
        invariant
            i <= count as usize,
            count <= room / 8,
            room == len - at - 4,
            at + 4 <= len == buf@.len(),
            count == bytes::word_at(buf@, at as int, 4),
            values@.len() == i,
            forall|j: int|
                0 <= j < i ==> #[trigger] values@[j] == bytes::word_at(
                    buf@,
                    at + 4 + 8 * j,
                    8,
                ) as u64,
        decreases count - i,
    {
        values.push(bytes::get_le(buf, at + 4 + 8 * i, 8));
        i = i + 1;
    }
    assert(long_list_at(buf@, at as int) == Some(values@)) by {
        assert(long_list_at(buf@, at as int)->Some_0 =~= values@);
    }
    Some(values)
}

} // verus!
