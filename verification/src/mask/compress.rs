//! The compressed form of run lengths.
//!
//! Each run length is written as its difference from the run length two
//! places before it (the first three as they are). A difference is written
//! in base 32, lowest digit first, one character for each digit: the digit,
//! plus 32 where more digits follow, plus 48. The digits stop as soon as the
//! remaining ones would only repeat the sign: after a digit under 16 when
//! nothing but zeros is left, after a digit from 16 up when nothing but 31s
//! is left, so that the last digit also tells the sign.
use crate::errors::MaskError;
use crate::mask::runs::as_ints;
use vstd::arithmetic::power::pow;
use vstd::prelude::*;

verus! {

/// The most characters that one run length is read from: what can be summed
/// up in 64 bits.
pub const MAX_DIGITS: usize = 12;

/// More digits follow the lowest digit of `x`.
pub open spec fn has_more(x: int) -> bool {
    if x % 32 >= 16 {
        x / 32 != -1
    } else {
        x / 32 != 0
    }
}

/// The character for the lowest digit of `x`.
pub open spec fn character(x: int) -> u8 {
    (48 + x % 32 + if has_more(x) {
        32int
    } else {
        0int
    }) as u8
}

/// The characters of one difference.
pub open spec fn encode_int(x: int) -> Seq<u8>
    decreases vstd::math::abs(x),
{
    if has_more(x) {
        seq![character(x)] + encode_int(x / 32)
    } else {
        seq![character(x)]
    }
}

/// What is written for run `i`: its length, less that of run `i - 2` from
/// the fourth run on.
pub open spec fn delta(counts: Seq<u32>, i: int) -> int {
    if i > 2 {
        counts[i] - counts[i - 2]
    } else {
        counts[i] as int
    }
}

/// The differences of all the runs.
pub open spec fn deltas(counts: Seq<u32>) -> Seq<int> {
    Seq::new(counts.len(), |i: int| delta(counts, i))
}

/// The characters of the first `n` differences of `d`.
pub open spec fn encode_first(d: Seq<int>, n: int) -> Seq<u8>
    decreases n,
{
    if n <= 0 {
        Seq::empty()
    } else {
        encode_first(d, n - 1) + encode_int(d[n - 1])
    }
}

/// The compressed form of run lengths.
pub open spec fn encode(counts: Seq<u32>) -> Seq<u8> {
    encode_first(deltas(counts), counts.len() as int)
}

/// `s` begins with the characters of one difference: each of them from `'0'`
/// to `'o'`, and one that ends the difference among them.
pub open spec fn group_complete(s: Seq<u8>) -> bool
    decreases s.len(),
{
    &&& s.len() > 0
    &&& 48 <= s[0] <= 111
    &&& (s[0] >= 80 ==> group_complete(s.skip(1)))
}

/// The number of characters of the difference that `s` begins with.
pub open spec fn group_len(s: Seq<u8>) -> nat
    decreases s.len(),
{
    if s.len() == 0 {
        0
    } else if s[0] >= 80 {
        1 + group_len(s.skip(1))
    } else {
        1
    }
}

/// The difference that `s` begins with.
pub open spec fn group_value(s: Seq<u8>) -> int
    decreases s.len(),
{
    if s.len() == 0 {
        0
    } else if s[0] >= 80 {
        (s[0] - 80) + 32 * group_value(s.skip(1))
    } else if s[0] >= 64 {
        s[0] - 80
    } else {
        s[0] - 48
    }
}

/// The differences that `s` holds, where it is made of complete differences
/// of at most `MAX_DIGITS` characters each.
pub open spec fn parse(s: Seq<u8>) -> Option<Seq<int>>
    decreases s.len(),
    via parse_decreases
{
    if s.len() == 0 {
        Some(Seq::empty())
    } else if !group_complete(s) || group_len(s) > MAX_DIGITS {
        None
    } else {
        match parse(s.skip(group_len(s) as int)) {
            Some(rest) => Some(seq![group_value(s)] + rest),
            None => None,
        }
    }
}

#[via_fn]
proof fn parse_decreases(s: Seq<u8>) {
    if s.len() > 0 && group_complete(s) {
        lemma_group_prefix(s, Seq::empty());
    }
}

/// The run lengths with the given differences.
pub open spec fn restore(d: Seq<int>) -> Seq<int>
    decreases d.len(),
{
    if d.len() == 0 {
        Seq::empty()
    } else {
        let before = restore(d.drop_last());
        before.push(
            d.last() + if d.len() > 3 {
                before[d.len() - 3]
            } else {
                0
            },
        )
    }
}

/// Every entry is a run length of 32 bits.
pub open spec fn in_range(c: Seq<int>) -> bool {
    forall|i: int| 0 <= i < c.len() ==> 0 <= #[trigger] c[i] <= u32::MAX
}

/// `c` without the zeros at its end.
pub open spec fn trim(c: Seq<int>) -> Seq<int>
    decreases c.len(),
{
    if c.len() > 0 && c.last() == 0 {
        trim(c.drop_last())
    } else {
        c
    }
}

/// The characters hold run lengths.
pub open spec fn decodable(s: Seq<u8>) -> bool {
    parse(s) matches Some(d) && in_range(restore(d))
}

/// The run lengths that the characters hold, the empty runs at the end left
/// out.
pub open spec fn decode(s: Seq<u8>) -> Seq<int> {
    trim(restore(parse(s).unwrap()))
}

/// Every character is one of the 64 from `'0'` to `'o'`.
pub open spec fn in_alphabet(s: Seq<u8>) -> bool {
    forall|i: int| 0 <= i < s.len() ==> 48 <= #[trigger] s[i] <= 111
}

/// The characters of one difference are from `'0'` to `'o'`.
pub proof fn lemma_encode_int_in_alphabet(x: int)
    ensures
        in_alphabet(encode_int(x)),
    decreases vstd::math::abs(x),
{
    let s = encode_int(x);
    if has_more(x) {
        lemma_encode_int_in_alphabet(x / 32);
        let tail = encode_int(x / 32);
        assert forall|i: int| 0 <= i < s.len() implies 48 <= #[trigger] s[i] <= 111 by {
            if i > 0 {
                assert(s[i] == tail[i - 1]);
            }
        }
    }
}

/// The characters of differences are from `'0'` to `'o'`.
pub proof fn lemma_encode_first_in_alphabet(d: Seq<int>, n: int)
    requires
        0 <= n <= d.len(),
    ensures
        in_alphabet(encode_first(d, n)),
    decreases n,
{
    if n > 0 {
        lemma_encode_first_in_alphabet(d, n - 1);
        lemma_encode_int_in_alphabet(d[n - 1]);
        let head = encode_first(d, n - 1);
        let tail = encode_int(d[n - 1]);
        let s = encode_first(d, n);
        assert forall|i: int| 0 <= i < s.len() implies 48 <= #[trigger] s[i] <= 111 by {
            if i < head.len() {
                assert(s[i] == head[i]);
            } else {
                assert(s[i] == tail[i - head.len()]);
            }
        }
    }
}

/// The characters of one difference are one complete difference, and read back
/// as it.
pub proof fn lemma_group_of_encode_int(x: int, tail: Seq<u8>)
    ensures
        group_complete(encode_int(x) + tail),
        group_len(encode_int(x) + tail) == encode_int(x).len(),
        group_value(encode_int(x) + tail) == x,
        (encode_int(x) + tail).skip(encode_int(x).len() as int) == tail,
    decreases vstd::math::abs(x),
{
    let s = encode_int(x) + tail;
    assert(s[0] == character(x));
    assert(s.skip(encode_int(x).len() as int) =~= tail);
    if has_more(x) {
        lemma_group_of_encode_int(x / 32, tail);
        assert(s.skip(1) =~= encode_int(x / 32) + tail);
    }
}

/// A difference under `16 * 32^(n-1)` in size takes at most `n` characters.
pub proof fn lemma_encode_int_len(x: int, n: nat)
    requires
        n >= 1,
        -16 * pow(32, (n - 1) as nat) <= x < 16
            * pow(32, (n - 1) as nat),
    ensures
        1 <= encode_int(x).len() <= n,
    decreases n,
{
    reveal(pow);
    if has_more(x) {
        if n == 1 {
            assert(pow(32, 0) == 1);
        } else {
            let p = pow(32, (n - 2) as nat);
            assert(pow(32, (n - 1) as nat) == 32 * p);
            lemma_encode_int_len(x / 32, (n - 1) as nat);
        }
    }
}

/// A difference of two run lengths takes at most 7 characters.
pub proof fn lemma_delta_len(counts: Seq<u32>, i: int)
    requires
        0 <= i < counts.len(),
    ensures
        1 <= encode_int(delta(counts, i)).len() <= 7,
{
    reveal_with_fuel(pow, 8);
    assert(pow(32, 6) == 0x4000_0000);
    lemma_encode_int_len(delta(counts, i), 7);
}

/// The differences of what is written after complete differences follow
/// those of the differences before it.
pub proof fn lemma_parse_concat(a: Seq<u8>, b: Seq<u8>)
    requires
        parse(a) is Some,
    ensures
        parse(a + b) == match parse(b) {
            Some(rest) => Some(parse(a).unwrap() + rest),
            None => None,
        },
    decreases a.len(),
{
    if a.len() == 0 {
        assert(a + b =~= b);
        if parse(b) is Some {
            assert(parse(a).unwrap() + parse(b).unwrap() =~= parse(b).unwrap());
        }
    } else {
        let n = group_len(a) as int;
        lemma_group_prefix(a, b);
        assert((a + b).skip(n) =~= a.skip(n) + b);
        lemma_parse_concat(a.skip(n), b);
        if parse(b) is Some {
            let rest = parse(b).unwrap();
            let mid = parse(a.skip(n)).unwrap();
            assert(seq![group_value(a)] + (mid + rest) =~= (seq![group_value(a)] + mid) + rest);
        }
    }
}

/// The difference that `a` begins with is not changed by what follows `a`.
pub proof fn lemma_group_prefix(a: Seq<u8>, b: Seq<u8>)
    requires
        group_complete(a),
    ensures
        group_complete(a + b),
        group_len(a + b) == group_len(a),
        group_value(a + b) == group_value(a),
        1 <= group_len(a) <= a.len(),
    decreases a.len(),
{
    assert((a + b)[0] == a[0]);
    if a[0] >= 80 {
        lemma_group_prefix(a.skip(1), b);
        assert((a + b).skip(1) =~= a.skip(1) + b);
    }
}

/// The run lengths of some differences begin with those of the first of
/// the differences.
pub proof fn lemma_restore_prefix(d: Seq<int>, n: int)
    requires
        0 <= n <= d.len(),
    ensures
        restore(d).len() == d.len(),
        restore(d.take(n)) == restore(d).take(n),
    decreases d.len(),
{
    if d.len() == 0 {
        assert(d.take(n) =~= d);
        assert(restore(d).take(n) =~= restore(d));
    } else if n == d.len() {
        lemma_restore_prefix(d.drop_last(), 0);
        assert(d.take(n) =~= d);
        assert(restore(d).take(n) =~= restore(d));
    } else {
        lemma_restore_prefix(d.drop_last(), n);
        assert(d.drop_last().take(n) =~= d.take(n));
        assert(restore(d).take(n) =~= restore(d.drop_last()).take(n));
    }
}

/// The differences of run lengths give the run lengths back.
pub proof fn lemma_restore_deltas(counts: Seq<u32>)
    ensures
        restore(deltas(counts)) == as_ints(counts),
    decreases counts.len(),
{
    if counts.len() == 0 {
        assert(restore(deltas(counts)) =~= as_ints(counts));
    } else {
        let d = deltas(counts);
        lemma_restore_deltas(counts.drop_last());
        assert(d.drop_last() =~= deltas(counts.drop_last()));
        assert(restore(d) =~= as_ints(counts));
    }
}

/// What is written for the first `n` differences is read back as them.
pub proof fn lemma_parse_encode_first(counts: Seq<u32>, n: int)
    requires
        0 <= n <= counts.len(),
    ensures
        parse(encode_first(deltas(counts), n)) == Some(deltas(counts).take(n)),
    decreases n,
{
    let d = deltas(counts);
    if n == 0 {
        assert(d.take(0) =~= Seq::<int>::empty());
    } else {
        lemma_parse_encode_first(counts, n - 1);
        let one = encode_int(d[n - 1]);
        lemma_delta_len(counts, n - 1);
        lemma_group_of_encode_int(d[n - 1], Seq::empty());
        assert(one + Seq::<u8>::empty() =~= one);
        assert(one.skip(one.len() as int) =~= Seq::<u8>::empty());
        assert(parse(one) == Some(seq![d[n - 1]])) by {
            assert(parse(Seq::<u8>::empty()) == Some(Seq::<int>::empty()));
            assert(seq![d[n - 1]] + Seq::<int>::empty() =~= seq![d[n - 1]]);
        }
        lemma_parse_concat(encode_first(d, n - 1), one);
        assert(d.take(n - 1) + seq![d[n - 1]] =~= d.take(n));
    }
}

/// Nothing is cut from run lengths that do not end in an empty run.
pub proof fn lemma_trim_keeps(c: Seq<int>)
    requires
        c.len() == 0 || c.last() != 0,
    ensures
        trim(c) == c,
{
}

/// Run lengths that do not end in an empty run are read back from their
/// compressed form as they were.
pub proof fn lemma_decode_inverts_encode(counts: Seq<u32>)
    requires
        counts.len() == 0 || counts.last() != 0,
    ensures
        decodable(encode(counts)),
        decode(encode(counts)) == as_ints(counts),
{
    lemma_parse_encode_first(counts, counts.len() as int);
    assert(deltas(counts).take(counts.len() as int) =~= deltas(counts));
    lemma_restore_deltas(counts);
    lemma_trim_keeps(as_ints(counts));
}

/// The powers of 32 that a run length is summed up with.
proof fn lemma_weights(k: nat)
    requires
        k <= MAX_DIGITS,
    ensures
        1 <= pow(32, k) <= 0x1000_0000_0000_0000,
        k < MAX_DIGITS ==> pow(32, k) <= 0x80_0000_0000_0000 && pow(32, k + 1) == 32 * pow(32, k),
{
    reveal_with_fuel(pow, 14);
}

/// The lowest digit of `x` and what is left of `x` without it.
proof fn lemma_digits(x: i64)
    ensures
        (x & 0x1f) == x % 32,
        (x >> 5) == x / 32,
{
    assert((x & 0x1f) == x % 32) by (bit_vector);
    assert((x >> 5) == x / 32) by (bit_vector);
}

/// The two marks in the character of a digit.
proof fn lemma_marks(b: u8)
    requires
        b < 32,
    ensures
        (b & 0x10 == 0) == (b < 16),
        (b | 0x20) == b + 32,
{
    assert((b & 0x10 == 0) == (b < 16)) by (bit_vector)
        requires
            b < 32,
    ;
    assert((b | 0x20) == b + 32) by (bit_vector)
        requires
            b < 32,
    ;
}

/// Writes the characters of the difference `x` at the end of `out`.
fn write_int(out: &mut Vec<u8>, x: i64) -> (r: Result<(), MaskError>)
    ensures
        r is Ok,
        final(out)@ == old(out)@ + encode_int(x as int),
{
    let ghost start = out@;
    let mut rest: i64 = x;
    loop
        invariant_except_break
            start + encode_int(x as int) == out@ + encode_int(rest as int),
        ensures
            out@ == start + encode_int(x as int),
        decreases vstd::math::abs(rest as int),
    {
        let low = rest & 0x1f;
        proof {
            lemma_digits(rest);
        }
        let mut byte: u8 = match u8::try_from(low) {
            Ok(b) => b,
            Err(err) => {
                return Err(MaskError::IntConversion(err, low));
            },
        };
        let ghost before = rest;
        rest = rest >> 5;
        proof {
            lemma_marks(byte);
        }
        let more = if byte & 0x10 == 0 {
            rest != 0
        } else {
            rest != -1
        };
        if more {
            byte |= 0x20;
        }
        byte += 48;
        assert(more == has_more(before as int));
        assert(byte == character(before as int));
        proof {
            let tail = encode_int(rest as int);
            if more {
                assert((out@.push(byte)) + tail =~= out@ + (seq![byte] + tail));
            } else {
                assert(out@.push(byte) =~= out@ + seq![byte]);
            }
        }
        out.push(byte);
        if !more {
            break ;
        }
    }
    Ok(())
}

/// The compressed form of run lengths.
pub fn encode_counts(counts: &Vec<u32>) -> (r: Result<Vec<u8>, MaskError>)
    ensures
        r matches Ok(bytes) && bytes@ == encode(counts@),
{
    let mut out: Vec<u8> = Vec::new();
    let ghost d = deltas(counts@);
    let mut i: usize = 0;
    while i < counts.len()
        invariant
            i <= counts.len(),
            d == deltas(counts@),
            out@ == encode_first(d, i as int),
        decreases counts.len() - i,
    {
        let mut x: i64 = counts[i] as i64;
        if i > 2 {
            x = x - counts[i - 2] as i64;
        }
        match write_int(&mut out, x) {
            Ok(()) => {},
            Err(err) => {
                return Err(err);
            },
        }
        i += 1;
    }
    Ok(out)
}

/// Reads the difference that begins at `start`.
fn read_group(bytes: &[u8], start: usize) -> (r: Option<(i64, usize)>)
    requires
        start < bytes.len(),
    ensures
        match r {
            Some((v, n)) => {
                &&& group_complete(bytes@.skip(start as int))
                &&& group_len(bytes@.skip(start as int)) == n
                &&& 1 <= n <= MAX_DIGITS
                &&& start + n <= bytes.len()
                &&& v == group_value(bytes@.skip(start as int))
                &&& -0x1000_0000_0000_0000 <= v <= 0x1000_0000_0000_0000
            },
            None => !group_complete(bytes@.skip(start as int)) || group_len(
                bytes@.skip(start as int),
            ) > MAX_DIGITS,
        },
{
    let ghost s = bytes@.skip(start as int);
    let mut acc: i64 = 0;
    let mut weight: i64 = 1;
    let mut k: usize = 0;
    proof {
        reveal_with_fuel(pow, 2);
    }
    loop
        invariant
            s == bytes@.skip(start as int),
            k <= MAX_DIGITS,
            start + k <= bytes.len(),
            weight == pow(32, k as nat),
            0 <= acc < weight,
            group_complete(s) == group_complete(bytes@.skip(start + k)),
            group_len(s) == k + group_len(bytes@.skip(start + k)),
            group_value(s) == acc + weight * group_value(bytes@.skip(start + k)),
        decreases MAX_DIGITS - k,
    {
        let ghost t = bytes@.skip(start + k);
        if start + k >= bytes.len() {
            return None;
        }
        if k >= MAX_DIGITS {
            return None;
        }
        let byte = bytes[start + k];
        assert(t[0] == byte);
        if byte < 48 || byte > 111 {
            return None;
        }
        proof {
            lemma_weights(k as nat);
            assert(t.skip(1) =~= bytes@.skip(start + k + 1));
        }
        if byte >= 80 {
            let digit = (byte - 80) as i64;
            proof {
                let g = group_value(t.skip(1));
                assert(acc + digit * weight < 32 * weight) by (nonlinear_arith)
                    requires
                        0 <= acc < weight,
                        0 <= digit <= 31,
                ;
                assert(0 <= digit * weight <= 31 * weight) by (nonlinear_arith)
                    requires
                        0 <= weight,
                        0 <= digit <= 31,
                ;
                assert(acc + weight * (digit + 32 * g) == (acc + digit * weight) + (32 * weight)
                    * g) by (nonlinear_arith);
            }
            acc = acc + digit * weight;
            weight = weight * 32;
            k = k + 1;
        } else {
            let digit: i64 = if byte >= 64 {
                byte as i64 - 80
            } else {
                byte as i64 - 48
            };
            proof {
                assert(-16 * weight <= digit * weight <= 15 * weight) by (nonlinear_arith)
                    requires
                        0 <= weight,
                        -16 <= digit <= 15,
                ;
                assert(weight * digit == digit * weight) by (nonlinear_arith);
            }
            return Some((acc + digit * weight, k + 1));
        }
    }
}

/// The run lengths that the characters hold, if they hold any.
pub fn decode_counts(bytes: &[u8]) -> (r: Option<Vec<u32>>)
    ensures
        r is Some <==> decodable(bytes@),
        r matches Some(counts) ==> as_ints(counts@) == decode(bytes@),
{
    let mut counts: Vec<u32> = Vec::new();
    let ghost mut done: Seq<int> = Seq::empty();
    let mut idx: usize = 0;
    assert(bytes@.skip(0) =~= bytes@);
    assert(as_ints(counts@) =~= restore(done));
    while idx < bytes.len()
        invariant
            idx <= bytes.len(),
            as_ints(counts@) == restore(done),
            counts.len() == done.len(),
            parse(bytes@) == match parse(bytes@.skip(idx as int)) {
                Some(rest) => Some(done + rest),
                None => None,
            },
        decreases bytes.len() - idx,
    {
        let ghost s = bytes@.skip(idx as int);
        let (v, n) = match read_group(bytes, idx) {
            Some(group) => group,
            None => {
                return None;
            },
        };
        let i = counts.len();
        let mut value: i64 = v;
        if i > 2 {
            value = value + counts[i - 2] as i64;
        }
        let ghost next = done.push(v as int);
        proof {
            assert(next.drop_last() =~= done);
            if i > 2 {
                assert(as_ints(counts@)[i - 2] == counts[i - 2]);
            }
            assert(restore(next) == restore(done).push(value as int));
            assert(s.skip(n as int) =~= bytes@.skip(idx + n));
            if parse(s.skip(n as int)) is Some {
                let rest = parse(s.skip(n as int)).unwrap();
                assert(done + (seq![v as int] + rest) =~= next + rest);
            }
        }
        if value < 0 || value > u32::MAX as i64 {
            proof {
                if parse(bytes@) is Some {
                    let all = parse(bytes@).unwrap();
                    let rest = parse(s.skip(n as int)).unwrap();
                    assert(all == next + rest);
                    assert(all.take(next.len() as int) =~= next);
                    lemma_restore_prefix(all, next.len() as int);
                    lemma_restore_prefix(next, 0);
                    assert(restore(all)[i as int] == restore(next)[i as int]);
                    assert(restore(next)[i as int] == value);
                }
            }
            return None;
        }
        counts.push(value as u32);
        proof {
            done = next;
            assert(as_ints(counts@) =~= restore(done));
        }
        idx = idx + n;
    }
    proof {
        assert(bytes@.skip(idx as int) =~= Seq::<u8>::empty());
        assert(done + Seq::<int>::empty() =~= done);
        assert(in_range(as_ints(counts@)));
    }
    let ghost full = as_ints(counts@);
    loop
        invariant
            trim(full) == trim(as_ints(counts@)),
        ensures
            trim(full) == as_ints(counts@),
        decreases counts.len(),
    {
        let n = counts.len();
        if n == 0 || counts[n - 1] != 0 {
            break ;
        }
        assert(as_ints(counts@).drop_last() =~= as_ints(counts@.drop_last()));
        counts.pop();
    }
    Some(counts)
}

} // verus!
