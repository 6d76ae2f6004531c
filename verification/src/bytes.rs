//! Little-endian words in byte sequences.

use vstd::prelude::*;

verus! {

/// 256 to the power `n`: one more than the largest value of `n` bytes.
pub open spec fn radix(n: nat) -> nat
    decreases n,
{
    if n == 0 {
        1
    } else {
        256 * radix((n - 1) as nat)
    }
}

/// The low `n` bytes of `value`, least significant first.
pub open spec fn le_bytes(value: nat, n: nat) -> Seq<u8>
    decreases n,
{
    if n == 0 {
        Seq::empty()
    } else {
        seq![(value % 256) as u8] + le_bytes(value / 256, (n - 1) as nat)
    }
}

/// The value that `s` holds, read least significant byte first.
pub open spec fn le_value(s: Seq<u8>) -> nat
    decreases s.len(),
{
    if s.len() == 0 {
        0
    } else {
        s[0] as nat + 256 * le_value(s.skip(1))
    }
}

/// `s` with the bytes from `at` replaced by `patch`.
pub open spec fn spliced(s: Seq<u8>, at: int, patch: Seq<u8>) -> Seq<u8> {
    Seq::new(s.len(), |i: int| if at <= i < at + patch.len() { patch[i - at] } else { s[i] })
}

/// The word of `n` bytes of `s` at `at`.
pub open spec fn word_at(s: Seq<u8>, at: int, n: int) -> nat {
    le_value(s.subrange(at, at + n))
}

pub proof fn lemma_radix_values()
    ensures
        radix(0) == 1,
        radix(1) == 0x100,
        radix(2) == 0x1_0000,
        radix(3) == 0x100_0000,
        radix(4) == 0x1_0000_0000,
        radix(8) == 0x1_0000_0000_0000_0000,
{
    reveal_with_fuel(radix, 9);
}

pub proof fn lemma_le_bytes_len(value: nat, n: nat)
    ensures
        le_bytes(value, n).len() == n,
    decreases n,
{
    if n > 0 {
        lemma_le_bytes_len(value / 256, (n - 1) as nat);
    }
}

/// The low bytes of a value hold its remainder.
pub proof fn lemma_low_bytes(value: nat, n: nat)
    ensures
        le_bytes(value, n).len() == n,
        le_value(le_bytes(value, n)) == value % radix(n),
    decreases n,
{
    lemma_le_bytes_len(value, n);
    if n > 0 {
        let m = (n - 1) as nat;
        let rest = le_bytes(value / 256, m);
        lemma_low_bytes(value / 256, m);
        lemma_radix_positive(m);
        assert(radix(n) == 256 * radix(m));
        assert(le_bytes(value, n).skip(1) =~= rest);
        assert(le_bytes(value, n)[0] as nat == value % 256);
        vstd::arithmetic::div_mod::lemma_mod_breakdown(value as int, 256, radix(m) as int);
    }
}

/// Reading back the bytes of a value gives the value, where it fits in them.
pub proof fn lemma_le_round_trip(value: nat, n: nat)
    requires
        value < radix(n),
    ensures
        le_bytes(value, n).len() == n,
        le_value(le_bytes(value, n)) == value,
    decreases n,
{
    lemma_le_bytes_len(value, n);
    if n > 0 {
        let rest = le_bytes(value / 256, (n - 1) as nat);
        assert(radix(n) == 256 * radix((n - 1) as nat));
        lemma_le_round_trip(value / 256, (n - 1) as nat);
        assert(le_bytes(value, n).skip(1) =~= rest);
        assert(le_bytes(value, n)[0] == (value % 256) as u8);
    }
}

/// The bytes of the value that a sequence holds are that sequence.
pub proof fn lemma_le_bytes_of_value(s: Seq<u8>)
    ensures
        le_value(s) < radix(s.len()),
        le_bytes(le_value(s), s.len()) =~= s,
    decreases s.len(),
{
    if s.len() > 0 {
        let rest = s.skip(1);
        lemma_le_bytes_of_value(rest);
        assert(radix(s.len()) == 256 * radix(rest.len()));
        assert(le_value(s) == s[0] as nat + 256 * le_value(rest));
        assert(le_value(s) % 256 == s[0] as nat);
        assert(le_value(s) / 256 == le_value(rest));
        assert(le_bytes(le_value(s), s.len()) =~= seq![s[0]] + rest);
    }
}

proof fn lemma_le_bytes_snoc(value: nat, n: nat)
    ensures
        le_bytes(value, n + 1) =~= le_bytes(value, n).push(((value / radix(n)) % 256) as u8),
    decreases n,
{
    lemma_le_bytes_len(value, n);
    lemma_le_bytes_len(value, n + 1);
    if n == 0 {
        assert(radix(0) == 1);
        assert(le_bytes(value, 1) =~= seq![(value % 256) as u8] + le_bytes(value / 256, 0));
    } else {
        let m = (n - 1) as nat;
        lemma_le_bytes_snoc(value / 256, m);
        lemma_radix_positive(m);
        assert(radix(n) == 256 * radix(m));
        vstd::arithmetic::div_mod::lemma_div_denominator(value as int, 256, radix(m) as int);
        assert((value / 256) / radix(m) == value / radix(n));
        assert(le_bytes(value, n + 1) =~= seq![(value % 256) as u8] + le_bytes(value / 256, n));
        assert(le_bytes(value, n) =~= seq![(value % 256) as u8] + le_bytes(value / 256, m));
    }
}

proof fn lemma_radix_positive(n: nat)
    ensures
        radix(n) > 0,
    decreases n,
{
    if n > 0 {
        lemma_radix_positive((n - 1) as nat);
    }
}

/// Appends the low `width` bytes of `value` to `out`.
pub fn put_le(out: &mut Vec<u8>, value: u64, width: usize)
    requires
        width <= 8,
    ensures
        final(out)@ =~= old(out)@ + le_bytes(value as nat, width as nat),
{
    let ghost start = out@;
    let mut rest: u64 = value;
    let mut i: usize = 0;
    proof {
        lemma_radix_values();
    }
    while i < width
        invariant
            i <= width <= 8,
            rest == value as nat / radix(i as nat),
            out@ =~= start + le_bytes(value as nat, i as nat),
        decreases width - i,
    {
        proof {
            lemma_le_bytes_snoc(value as nat, i as nat);
            lemma_radix_positive(i as nat);
            vstd::arithmetic::div_mod::lemma_div_denominator(
                value as int,
                radix(i as nat) as int,
                256,
            );
            assert(radix((i + 1) as nat) == 256 * radix(i as nat));
            assert(radix(i as nat) * 256 == 256 * radix(i as nat)) by (nonlinear_arith);
        }
        out.push((rest % 256) as u8);
        rest = rest / 256;
        i = i + 1;
    }
}

/// Overwrites `width` bytes of `buf` from `at` with the low bytes of `value`.
pub fn set_le(buf: &mut [u8], at: usize, value: u64, width: usize)
    requires
        width <= 8,
        at + width <= old(buf)@.len(),
    ensures
        final(buf)@ =~= spliced(old(buf)@, at as int, le_bytes(value as nat, width as nat)),
        final(buf)@.len() == old(buf)@.len(),
{
    let ghost start = buf@;
    let mut rest: u64 = value;
    let mut i: usize = 0;
    proof {
        lemma_radix_values();
        lemma_le_bytes_len(value as nat, 0);
    }
    while i < width
        invariant
            i <= width <= 8,
            at + width <= buf@.len(),
            buf@.len() == start.len(),
            rest == value as nat / radix(i as nat),
            le_bytes(value as nat, i as nat).len() == i,
            buf@ =~= spliced(start, at as int, le_bytes(value as nat, i as nat)),
        decreases width - i,
    {
        proof {
            lemma_le_bytes_len(value as nat, i as nat);
            lemma_le_bytes_len(value as nat, (i + 1) as nat);
            lemma_le_bytes_snoc(value as nat, i as nat);
            lemma_radix_positive(i as nat);
            vstd::arithmetic::div_mod::lemma_div_denominator(
                value as int,
                radix(i as nat) as int,
                256,
            );
            assert(radix((i + 1) as nat) == 256 * radix(i as nat));
            assert(radix(i as nat) * 256 == 256 * radix(i as nat)) by (nonlinear_arith);
        }
        let len: usize = buf.len();
        assert(at + i < len);
        buf[at + i] = (rest % 256) as u8;
        rest = rest / 256;
        i = i + 1;
    }
}

/// Reads the word of `width` bytes of `buf` at `at`.
pub fn get_le(buf: &[u8], at: usize, width: usize) -> (value: u64)
    requires
        width <= 8,
        at + width <= buf@.len(),
    ensures
        value == word_at(buf@, at as int, width as int),
        value < radix(width as nat),
{
    let mut value: u64 = 0;
    let mut i: usize = width;
    let ghost end = (at + width) as int;
    proof {
        lemma_radix_values();
    }
    while i > 0
        invariant
            i <= width <= 8,
            at + width <= buf.len(),
            end == at + width,
            value == le_value(buf@.subrange(at + i, end)),
        decreases i,
    {
        i = i - 1;
        proof {
            let s = buf@.subrange(at + i, end);
            assert(s.skip(1) =~= buf@.subrange(at + i + 1, end));
            assert(s[0] == buf@[at + i]);
            lemma_le_bytes_of_value(s);
            lemma_radix_monotone(s.len(), 8);
            lemma_radix_values();
        }
        value = buf[at + i] as u64 + 256 * value;
    }
    proof {
        lemma_le_bytes_of_value(buf@.subrange(at as int, end));
    }
    value
}

proof fn lemma_radix_monotone(a: nat, b: nat)
    requires
        a <= b,
    ensures
        radix(a) <= radix(b),
    decreases b,
{
    lemma_radix_positive(b);
    if a < b {
        lemma_radix_monotone(a, (b - 1) as nat);
        lemma_radix_positive((b - 1) as nat);
    }
}

/// A word written with [`set_le`] is the word that [`get_le`] reads there.
pub proof fn lemma_splice_then_read(s: Seq<u8>, at: int, value: u64)
    requires
        0 <= at,
        at + 8 <= s.len(),
    ensures
        word_at(spliced(s, at, le_bytes(value as nat, 8)), at, 8) == value,
{
    lemma_radix_values();
    lemma_le_round_trip(value as nat, 8);
    assert(spliced(s, at, le_bytes(value as nat, 8)).subrange(at, at + 8) =~= le_bytes(
        value as nat,
        8,
    ));
}

} // verus!
