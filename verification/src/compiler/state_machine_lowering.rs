//! The frames of the search workload and what one of its steps computes.

use crate::bytes;
use crate::compiler::frame;
use crate::compiler::frame::Frame;
use crate::compiler::run_classes;
use crate::compiler::run_classes::search_class;
use crate::kernel::Ref64;
use vstd::prelude::*;

verus! {

/// One round of a search node's arithmetic in class `index`.
pub open spec fn search_round(value: u64, index: u32) -> u64 {
    value.wrapping_mul((31 + 2 * index) as u64).wrapping_add((7 + index) as u64)
}

/// A node's value after `rounds` rounds.
pub open spec fn searched(value: u64, rounds: nat, index: u32) -> u64
    decreases rounds,
{
    if rounds == 0 {
        value
    } else {
        search_round(searched(value, (rounds - 1) as nat, index), index)
    }
}

pub fn search_step(value: u64, rounds: u32, index: u32) -> (result: u64)
    ensures
        result == searched(value, rounds as nat, index),
{
    let multiplier: u64 = 31 + 2 * (index as u64);
    let addend: u64 = 7 + index as u64;
    let mut result: u64 = value;
    let mut i: u32 = 0;
    while i < rounds
        invariant
            i <= rounds,
            multiplier == 31 + 2 * index,
            addend == 7 + index,
            result == searched(value, i as nat, index),
        decreases rounds - i,
    {
        result = result.wrapping_mul(multiplier).wrapping_add(addend);
        i = i + 1;
    }
    result
}

/// A search node.
#[derive(Clone, Copy, Debug, PartialEq, Eq, Structural)]
pub struct SearchFrame {
    pub value: u64,
    pub depth: u32,
    pub branching: u32,
    pub work_iters: u32,
    pub class_count: u32,
}

pub const SEARCH_FRAME_BYTES: usize = 24;

impl SearchFrame {
    pub open spec fn words(self) -> Seq<(nat, nat)> {
        seq![
            (self.value as nat, 8nat),
            (self.depth as nat, 4nat),
            (self.branching as nat, 4nat),
            (self.work_iters as nat, 4nat),
            (self.class_count as nat, 4nat),
        ]
    }

    pub open spec fn encoded(self) -> Seq<u8> {
        frame::packed(self.words())
    }

    /// The node that `s` starts with.
    pub open spec fn read(s: Seq<u8>) -> SearchFrame {
        SearchFrame {
            value: bytes::word_at(s, 0, 8) as u64,
            depth: bytes::word_at(s, 8, 4) as u32,
            branching: bytes::word_at(s, 12, 4) as u32,
            work_iters: bytes::word_at(s, 16, 4) as u32,
            class_count: bytes::word_at(s, 20, 4) as u32,
        }
    }

    /// A node without children.
    pub fn leaf(value: u64, work_iters: u32) -> (node: SearchFrame)
        ensures
            node == (SearchFrame { value, depth: 0, branching: 0, work_iters, class_count: 1 }),
    {
        SearchFrame { value, depth: 0, branching: 0, work_iters, class_count: 1 }
    }

    pub open spec fn class(self) -> u32 {
        run_classes::class_of_value(self.value, self.class_count)
    }

    /// The run class of the node: its class among those the search uses.
    pub fn run_class(&self) -> (run_class: u32)
        ensures
            run_class == self.class(),
    {
        search_class(self.value, self.class_count)
    }

    pub fn encode(&self, out: &mut Vec<u8>)
        ensures
            final(out)@ == old(out)@ + self.encoded(),
    {
        let words: Vec<(u64, usize)> =
            vec![
            (self.value, 8),
            (self.depth as u64, 4),
            (self.branching as u64, 4),
            (self.work_iters as u64, 4),
            (self.class_count as u64, 4),
        ];
        assert(frame::words_of(words@) =~= self.words());
        frame::put_words(out, &words);
    }

    /// The node at the start of `s`, where it is long enough.
    pub fn decode(s: &[u8]) -> (node: Option<SearchFrame>)
        ensures
            node == if s@.len() >= 24 {
                Some(SearchFrame::read(s@))
            } else {
                None
            },
    {
        if s.len() < SEARCH_FRAME_BYTES {
            return None;
        }
        proof {
            bytes::lemma_radix_values();
        }
        Some(
            SearchFrame {
                value: bytes::get_le(s, 0, 8),
                depth: bytes::get_le(s, 8, 4) as u32,
                branching: bytes::get_le(s, 12, 4) as u32,
                work_iters: bytes::get_le(s, 16, 4) as u32,
                class_count: bytes::get_le(s, 20, 4) as u32,
            },
        )
    }
}

/// A search node's frame reads back as the node.
pub proof fn law_search_frame_reads_back(node: SearchFrame)
    ensures
        node.encoded().len() == 24,
        SearchFrame::read(node.encoded()) == node,
{
    let w = node.words();
    bytes::lemma_radix_values();
    reveal_with_fuel(frame::word_offset, 6);
    frame::lemma_packed_len(w);
    frame::lemma_packed_word(w, 0);
    frame::lemma_packed_word(w, 1);
    frame::lemma_packed_word(w, 2);
    frame::lemma_packed_word(w, 3);
    frame::lemma_packed_word(w, 4);
}

/// What a heuristic evaluation is given: the future it resolves, and its input.
#[derive(Clone, Copy, Debug, PartialEq, Eq, Structural)]
pub struct HeuristicFrame {
    pub future: Ref64,
    pub input: u64,
}

/// A future that somebody else resolves, and the value it was seen to take.
#[derive(Clone, Copy, Debug, PartialEq, Eq, Structural)]
pub struct JoinFrame {
    pub future: Ref64,
    pub observed: Ref64,
}

/// The bytes of two numbers.
pub open spec fn pair_bytes(a: u64, b: u64) -> Seq<u8> {
    frame::packed(seq![(a as nat, 8nat), (b as nat, 8nat)])
}

/// The two numbers that `s` starts with, where it is long enough.
pub open spec fn pair_of(s: Seq<u8>) -> Option<(u64, u64)> {
    if s.len() >= 16 {
        Some((bytes::word_at(s, 0, 8) as u64, bytes::word_at(s, 8, 8) as u64))
    } else {
        None
    }
}

fn put_pair(out: &mut Vec<u8>, a: u64, b: u64)
    ensures
        final(out)@ == old(out)@ + pair_bytes(a, b),
{
    let words: Vec<(u64, usize)> = vec![(a, 8), (b, 8)];
    assert(frame::words_of(words@) =~= seq![(a as nat, 8nat), (b as nat, 8nat)]);
    frame::put_words(out, &words);
}

fn get_pair(s: &[u8]) -> (pair: Option<(u64, u64)>)
    ensures
        pair == pair_of(s@),
{
    if s.len() < 16 {
        return None;
    }
    Some((bytes::get_le(s, 0, 8), bytes::get_le(s, 8, 8)))
}

proof fn lemma_pair(a: u64, b: u64)
    ensures
        pair_of(pair_bytes(a, b)) == Some((a, b)),
{
    let w = seq![(a as nat, 8nat), (b as nat, 8nat)];
    bytes::lemma_radix_values();
    reveal_with_fuel(frame::word_offset, 3);
    frame::lemma_packed_len(w);
    frame::lemma_packed_word(w, 0);
    frame::lemma_packed_word(w, 1);
}

impl HeuristicFrame {
    pub open spec fn encoded(self) -> Seq<u8> {
        pair_bytes(self.future.raw, self.input)
    }

    pub open spec fn read(s: Seq<u8>) -> Option<HeuristicFrame> {
        match pair_of(s) {
            Some((a, b)) => Some(HeuristicFrame { future: Ref64::of(a), input: b }),
            None => None,
        }
    }

    pub fn encode(&self, out: &mut Vec<u8>)
        ensures
            final(out)@ == old(out)@ + self.encoded(),
    {
        put_pair(out, self.future.raw, self.input);
    }

    pub fn decode(s: &[u8]) -> (decoded: Option<HeuristicFrame>)
        ensures
            decoded == HeuristicFrame::read(s@),
    {
        match get_pair(s) {
            Some((a, b)) => Some(HeuristicFrame { future: Ref64::from_u64(a), input: b }),
            None => None,
        }
    }
}

impl JoinFrame {
    pub open spec fn encoded(self) -> Seq<u8> {
        pair_bytes(self.future.raw, self.observed.raw)
    }

    pub open spec fn read(s: Seq<u8>) -> Option<JoinFrame> {
        match pair_of(s) {
            Some((a, b)) => Some(JoinFrame { future: Ref64::of(a), observed: Ref64::of(b) }),
            None => None,
        }
    }

    pub fn encode(&self, out: &mut Vec<u8>)
        ensures
            final(out)@ == old(out)@ + self.encoded(),
    {
        put_pair(out, self.future.raw, self.observed.raw);
    }

    pub fn decode(s: &[u8]) -> (decoded: Option<JoinFrame>)
        ensures
            decoded == JoinFrame::read(s@),
    {
        match get_pair(s) {
            Some((a, b)) => Some(
                JoinFrame { future: Ref64::from_u64(a), observed: Ref64::from_u64(b) },
            ),
            None => None,
        }
    }
}

/// The frames of heuristics and joins read back as what was written.
pub proof fn law_small_frames_read_back(h: HeuristicFrame, j: JoinFrame)
    ensures
        HeuristicFrame::read(h.encoded()) == Some(h),
        JoinFrame::read(j.encoded()) == Some(j),
{
    lemma_pair(h.future.raw, h.input);
    lemma_pair(j.future.raw, j.observed.raw);
}

/// A node's expansion, as far as it has come.
#[derive(Debug)]
pub struct ExpandFrame {
    pub request_value: u64,
    pub reply_receiver: Ref64,
    pub heuristic_future: Ref64,
    pub heuristic_result: u64,
    /// How many of the moves have a child already.
    pub move_index: u32,
    pub reply_payload: Ref64,
    pub moves: Vec<u64>,
}

#[verifier::ext_equal]
pub ghost struct ExpandView {
    pub request_value: u64,
    pub reply_receiver: Ref64,
    pub heuristic_future: Ref64,
    pub heuristic_result: u64,
    pub move_index: u32,
    pub reply_payload: Ref64,
    pub moves: Seq<u64>,
}

impl View for ExpandFrame {
    type V = ExpandView;

    open spec fn view(&self) -> ExpandView {
        ExpandView {
            request_value: self.request_value,
            reply_receiver: self.reply_receiver,
            heuristic_future: self.heuristic_future,
            heuristic_result: self.heuristic_result,
            move_index: self.move_index,
            reply_payload: self.reply_payload,
            moves: self.moves@,
        }
    }
}

impl ExpandView {
    pub open spec fn initial(request_value: u64, reply_receiver: Ref64) -> ExpandView {
        ExpandView {
            request_value,
            reply_receiver,
            heuristic_future: Ref64::of(0),
            heuristic_result: 0,
            move_index: 0,
            reply_payload: Ref64::of(0),
            moves: Seq::empty(),
        }
    }

    pub open spec fn words(self) -> Seq<(nat, nat)> {
        seq![
            (self.request_value as nat, 8nat),
            (self.reply_receiver.raw as nat, 8nat),
            (self.heuristic_future.raw as nat, 8nat),
            (self.heuristic_result as nat, 8nat),
            (self.move_index as nat, 4nat),
            (self.reply_payload.raw as nat, 8nat),
        ]
    }

    pub open spec fn encoded(self) -> Seq<u8> {
        frame::packed(self.words()) + bytes::le_bytes(self.moves.len(), 4) + frame::packed(
            frame::long_words(self.moves),
        )
    }

    /// The expansion that `s` starts with, where it is long enough.
    pub open spec fn read(s: Seq<u8>) -> Option<ExpandView> {
        if s.len() < 44 {
            None
        } else {
            match frame::long_list_at(s, 44) {
                Some(moves) => Some(
                    ExpandView {
                        request_value: bytes::word_at(s, 0, 8) as u64,
                        reply_receiver: Ref64::of(bytes::word_at(s, 8, 8) as u64),
                        heuristic_future: Ref64::of(bytes::word_at(s, 16, 8) as u64),
                        heuristic_result: bytes::word_at(s, 24, 8) as u64,
                        move_index: bytes::word_at(s, 32, 4) as u32,
                        reply_payload: Ref64::of(bytes::word_at(s, 36, 8) as u64),
                        moves,
                    },
                ),
                None => None,
            }
        }
    }
}

impl ExpandFrame {
    pub fn initial(request_value: u64, reply_receiver: Ref64) -> (expansion: Self)
        ensures
            expansion@ == ExpandView::initial(request_value, reply_receiver),
    {
        let expansion = ExpandFrame {
            request_value,
            reply_receiver,
            heuristic_future: Ref64::null(),
            heuristic_result: 0,
            move_index: 0,
            reply_payload: Ref64::null(),
            moves: Vec::new(),
        };
        assert(expansion@ =~= ExpandView::initial(request_value, reply_receiver));
        expansion
    }

    pub fn encode(&self, out: &mut Vec<u8>)
        requires
            self@.moves.len() <= u32::MAX,
        ensures
            final(out)@ == old(out)@ + self@.encoded(),
    {
        let ghost start = out@;
        let words: Vec<(u64, usize)> =
            vec![
            (self.request_value, 8),
            (self.reply_receiver.raw, 8),
            (self.heuristic_future.raw, 8),
            (self.heuristic_result, 8),
            (self.move_index as u64, 4),
            (self.reply_payload.raw, 8),
        ];
        assert(frame::words_of(words@) =~= self@.words());
        frame::put_words(out, &words);
        frame::put_vec_u64(out, &self.moves);
        assert(out@ =~= start + self@.encoded());
    }

    pub fn decode(s: &[u8]) -> (decoded: Option<ExpandFrame>)
        ensures
            match decoded {
                Some(expansion) => ExpandView::read(s@) == Some(expansion@),
                None => ExpandView::read(s@) is None,
            },
    {
        if s.len() < 44 {
            return None;
        }
        proof {
            bytes::lemma_radix_values();
        }
        match frame::get_vec_u64(s, 44) {
            Some(moves) => Some(
                ExpandFrame {
                    request_value: bytes::get_le(s, 0, 8),
                    reply_receiver: Ref64::from_u64(bytes::get_le(s, 8, 8)),
                    heuristic_future: Ref64::from_u64(bytes::get_le(s, 16, 8)),
                    heuristic_result: bytes::get_le(s, 24, 8),
                    move_index: bytes::get_le(s, 32, 4) as u32,
                    reply_payload: Ref64::from_u64(bytes::get_le(s, 36, 8)),
                    moves,
                },
            ),
            None => None,
        }
    }
}

impl Frame for SearchFrame {
    open spec fn reads_as(s: Seq<u8>, frame: Option<Self>) -> bool {
        frame == if s.len() >= 24 {
            Some(SearchFrame::read(s))
        } else {
            None
        }
    }

    fn from_bytes(s: &[u8]) -> (frame: Option<Self>) {
        SearchFrame::decode(s)
    }
}

impl Frame for HeuristicFrame {
    open spec fn reads_as(s: Seq<u8>, frame: Option<Self>) -> bool {
        frame == HeuristicFrame::read(s)
    }

    fn from_bytes(s: &[u8]) -> (frame: Option<Self>) {
        HeuristicFrame::decode(s)
    }
}

impl Frame for JoinFrame {
    open spec fn reads_as(s: Seq<u8>, frame: Option<Self>) -> bool {
        frame == JoinFrame::read(s)
    }

    fn from_bytes(s: &[u8]) -> (frame: Option<Self>) {
        JoinFrame::decode(s)
    }
}

impl Frame for ExpandFrame {
    open spec fn reads_as(s: Seq<u8>, frame: Option<Self>) -> bool {
        match frame {
            Some(expansion) => ExpandView::read(s) == Some(expansion@),
            None => ExpandView::read(s) is None,
        }
    }

    fn from_bytes(s: &[u8]) -> (frame: Option<Self>) {
        ExpandFrame::decode(s)
    }
}

} // verus!
