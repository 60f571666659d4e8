//! Byte strings: separators, pieces and decimal numbers.

use vstd::prelude::*;

verus! {

/// The line feed that ends a line.
pub const LF: u8 = 10;

/// The carriage return that may precede a line feed.
pub const CR: u8 = 13;

/// The space that separates the numbers of a line.
pub const SPACE: u8 = 32;

/// The plus sign that may precede a number.
pub const PLUS: u8 = 43;

/// The digit zero; the other digits follow it.
pub const ZERO: u8 = 48;

/// Position of the first `b` in `s`, or `s.len()` where `s` holds none.
pub open spec fn find(s: Seq<u8>, b: u8) -> nat
    decreases s.len(),
{
    if s.len() == 0 || s[0] == b {
        0
    } else {
        1 + find(s.drop_first(), b)
    }
}

/// The pieces of `s` between the occurrences of `sep`: one piece more than
/// there are separators, each possibly empty.
pub open spec fn split(s: Seq<u8>, sep: u8) -> Seq<Seq<u8>>
    decreases s.len(),
{
    let k = find(s, sep);
    if k >= s.len() {
        seq![s]
    } else {
        seq![s.take(k as int)] + split(s.skip(k as int + 1), sep)
    }
}

/// Whether `b` is one of the ten decimal digits.
pub open spec fn is_digit(b: u8) -> bool {
    ZERO <= b <= ZERO + 9
}

/// Whether `s` consists of decimal digits only.
pub open spec fn all_digits(s: Seq<u8>) -> bool {
    forall|i: int| 0 <= i < s.len() ==> is_digit(#[trigger] s[i])
}

/// What a digit counts for; any other byte counts for nothing.
pub open spec fn digit_value(b: u8) -> nat {
    if is_digit(b) {
        (b - ZERO) as nat
    } else {
        0
    }
}

/// The number that a run of digits writes, most significant digit first.
pub open spec fn digits_value(s: Seq<u8>) -> nat
    decreases s.len(),
{
    if s.len() == 0 {
        0
    } else {
        digits_value(s.drop_last()) * 10 + digit_value(s.last())
    }
}

/// The number that `token` denotes, if any: an optional plus sign, then one
/// or more digits (leading zeros count), writing a number of at most `max`.
pub open spec fn parse_number(token: Seq<u8>, max: nat) -> Option<nat> {
    let digits = if token.len() > 0 && token[0] == PLUS {
        token.drop_first()
    } else {
        token
    };
    if digits.len() > 0 && all_digits(digits) && digits_value(digits) <= max {
        Some(digits_value(digits))
    } else {
        None
    }
}

/// The shortest run of digits that writes `n`.
pub open spec fn decimal(n: nat) -> Seq<u8>
    decreases n,
{
    if n < 10 {
        seq![(ZERO + n) as u8]
    } else {
        decimal(n / 10).push((ZERO + n % 10) as u8)
    }
}

/// `find` gives a position of `s` or its length; no earlier byte is `b`, and
/// the byte there, if any, is `b`.
pub proof fn lemma_find(s: Seq<u8>, b: u8)
    ensures
        find(s, b) <= s.len(),
        forall|j: int| 0 <= j < find(s, b) ==> s[j] != b,
        find(s, b) < s.len() ==> s[find(s, b) as int] == b,
    decreases s.len(),
{
    if s.len() == 0 || s[0] == b {
    } else {
        let t = s.drop_first();
        lemma_find(t, b);
        assert forall|j: int| 0 <= j < find(s, b) implies s[j] != b by {
            if j > 0 {
                assert(s[j] == t[j - 1]);
            }
        }
    }
}

/// The position that `find` gives is the only one with those properties.
pub proof fn lemma_find_is(s: Seq<u8>, b: u8, k: int)
    requires
        0 <= k <= s.len(),
        forall|j: int| 0 <= j < k ==> s[j] != b,
        k < s.len() ==> s[k] == b,
    ensures
        find(s, b) == k,
{
    lemma_find(s, b);
}

/// A string without separator is a single piece.
pub proof fn lemma_split_one(s: Seq<u8>, sep: u8)
    requires
        forall|j: int| 0 <= j < s.len() ==> s[j] != sep,
    ensures
        split(s, sep) == seq![s],
{
    lemma_find_is(s, sep, s.len() as int);
}

/// Splitting goes piece by piece: where `head` holds no separator, the
/// pieces of `head`, a separator and `tail` are `head` and the pieces of
/// `tail`.
pub proof fn lemma_split_first(head: Seq<u8>, sep: u8, tail: Seq<u8>)
    requires
        forall|j: int| 0 <= j < head.len() ==> head[j] != sep,
    ensures
        split(head + seq![sep] + tail, sep) == seq![head] + split(tail, sep),
{
    let s = head + seq![sep] + tail;
    lemma_find_is(s, sep, head.len() as int);
    assert(s.take(head.len() as int) =~= head);
    assert(s.skip(head.len() as int + 1) =~= tail);
}

/// The number written by a run of digits is at least the number written by
/// any of its prefixes.
pub proof fn lemma_digits_value_prefix(s: Seq<u8>, k: int)
    requires
        0 <= k <= s.len(),
    ensures
        digits_value(s.take(k)) <= digits_value(s),
    decreases s.len(),
{
    if k == s.len() {
        assert(s.take(k) =~= s);
    } else {
        lemma_digits_value_prefix(s.drop_last(), k);
        assert(s.drop_last().take(k) =~= s.take(k));
    }
}

/// `decimal(n)` is a non-empty run of digits that writes `n`, so it
/// denotes `n` under any limit that `n` meets.
pub proof fn lemma_decimal(n: nat)
    ensures
        decimal(n).len() >= 1,
        all_digits(decimal(n)),
        digits_value(decimal(n)) == n,
        forall|max: nat| n <= max ==> #[trigger] parse_number(decimal(n), max) == Some(n),
    decreases n,
{
    let d = decimal(n);
    if n < 10 {
        assert(d.drop_last() =~= Seq::<u8>::empty());
        assert(digits_value(d.drop_last()) == 0);
    } else {
        lemma_decimal(n / 10);
        assert(d.drop_last() =~= decimal(n / 10));
    }
    assert(is_digit(d[0]));
}

/// The position of the first `b` in `bytes[from..to]`, or `to` where there
/// is none.
pub fn find_byte(bytes: &[u8], from: usize, to: usize, b: u8) -> (k: usize)
    requires
        from <= to <= bytes@.len(),
    ensures
        from <= k <= to,
        k - from == find(bytes@.subrange(from as int, to as int), b),
{
    let mut k = from;
    while k < to && bytes[k] != b
        invariant
            from <= k <= to <= bytes@.len(),
            forall|j: int| from <= j < k ==> bytes@[j] != b,
        decreases to - k,
    {
        k += 1;
    }
    proof {
        lemma_find_is(bytes@.subrange(from as int, to as int), b, k - from);
    }
    k
}

/// The number that `bytes[from..to]` denotes under the limit `max`, if any.
pub fn read_number(bytes: &[u8], from: usize, to: usize, max: usize) -> (r: Option<usize>)
    requires
        from <= to <= bytes@.len(),
    ensures
        match r {
            Some(n) => parse_number(bytes@.subrange(from as int, to as int), max as nat) == Some(
                n as nat,
            ),
            None => parse_number(bytes@.subrange(from as int, to as int), max as nat) is None,
        },
{
    let ghost token = bytes@.subrange(from as int, to as int);
    let start = if from < to && bytes[from] == PLUS {
        from + 1
    } else {
        from
    };
    let ghost digits = if token.len() > 0 && token[0] == PLUS {
        token.drop_first()
    } else {
        token
    };
    assert(digits =~= bytes@.subrange(start as int, to as int));
    if start == to {
        return None;
    }
    let mut value: usize = 0;
    let mut i = start;
    while i < to
        invariant
            from <= start <= i <= to <= bytes@.len(),
            token == bytes@.subrange(from as int, to as int),
            digits == bytes@.subrange(start as int, to as int),
            digits == if token.len() > 0 && token[0] == PLUS {
                token.drop_first()
            } else {
                token
            },
            all_digits(digits.take(i - start)),
            value == digits_value(digits.take(i - start)),
            value <= max,
        decreases to - i,
    {
        let b = bytes[i];
        let ghost seen = digits.take(i - start + 1);
        proof {
            assert(seen.drop_last() =~= digits.take(i - start));
            assert(seen.last() == b);
            lemma_digits_value_prefix(digits, i - start + 1);
        }
        if b < ZERO || b > ZERO + 9 {
            assert(!is_digit(digits[i - start]));
            return None;
        }
        let d = (b - ZERO) as usize;
        if d > max || value > (max - d) / 10 {
            return None;
        }
        value = value * 10 + d;
        i += 1;
    }
    assert(digits.take(i - start) =~= digits);
    Some(value)
}

/// Appends the decimal writing of `n`.
pub fn write_number(out: &mut Vec<u8>, n: usize)
    ensures
        final(out)@ == old(out)@ + decimal(n as nat),
    decreases n,
{
    if n >= 10 {
        write_number(out, n / 10);
    }
    out.push(ZERO + (n % 10) as u8);
    assert(final(out)@ =~= old(out)@ + decimal(n as nat));
}

} // verus!
