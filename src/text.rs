use vstd::prelude::*;

use crate::constants::SEPARATOR;

verus! {

/// Whether `c` is an ASCII decimal digit.
pub open spec fn is_digit(c: u8) -> bool {
    48 <= c <= 57
}

/// Whether `s` is a non-empty run of decimal digits.
pub open spec fn all_digits(s: Seq<u8>) -> bool {
    s.len() > 0 && forall|k: int| 0 <= k < s.len() ==> is_digit(#[trigger] s[k])
}

/// The number that the decimal digits `s` spell (most significant first).
pub open spec fn digits_value(s: Seq<u8>) -> nat
    decreases s.len(),
{
    if s.len() == 0 {
        0
    } else {
        digits_value(s.drop_last()) * 10 + (s.last() - 48) as nat
    }
}

/// The decimal representation of `n`, without leading zeros.
pub open spec fn decimal(n: nat) -> Seq<u8>
    decreases n,
{
    if n < 10 {
        seq![(48 + n) as u8]
    } else {
        decimal(n / 10).push((48 + n % 10) as u8)
    }
}

/// `s` read as an unsigned 32-bit decimal number: digits after an optional `+`, whose value
/// fits in 32 bits.
pub open spec fn parse_u32(s: Seq<u8>) -> Option<u32> {
    let d = if s.len() > 0 && s[0] == 43 { s.drop_first() } else { s };
    if all_digits(d) && digits_value(d) <= u32::MAX {
        Some(digits_value(d) as u32)
    } else {
        None
    }
}

/// The pieces of `s` between separators, in order; `s` with `k` separators has `k + 1` of them.
pub open spec fn fields(s: Seq<u8>) -> Seq<Seq<u8>>
    decreases s.len(),
{
    if s.len() == 0 {
        seq![Seq::empty()]
    } else {
        let f = fields(s.drop_last());
        if s.last() == SEPARATOR {
            f.push(Seq::empty())
        } else {
            f.update(f.len() - 1, f.last().push(s.last()))
        }
    }
}

/// Whether `s` holds no separator.
pub open spec fn no_separator(s: Seq<u8>) -> bool {
    forall|k: int| 0 <= k < s.len() ==> #[trigger] s[k] != SEPARATOR
}

pub proof fn lemma_fields_nonempty(s: Seq<u8>)
    ensures
        fields(s).len() >= 1,
    decreases s.len(),
{
    if s.len() > 0 {
        lemma_fields_nonempty(s.drop_last());
    }
}

/// Bytes without a separator extend the last field.
pub proof fn lemma_fields_extend(p: Seq<u8>, q: Seq<u8>)
    requires
        no_separator(q),
    ensures
        fields(p + q) == fields(p).update(fields(p).len() - 1, fields(p).last() + q),
    decreases q.len(),
{
    lemma_fields_nonempty(p);
    if q.len() == 0 {
        assert(p + q =~= p);
        assert(fields(p).last() + q =~= fields(p).last());
        assert(fields(p).update(fields(p).len() - 1, fields(p).last()) =~= fields(p));
    } else {
        let q1 = q.drop_last();
        lemma_fields_extend(p, q1);
        assert((p + q).drop_last() =~= p + q1);
        assert((p + q).last() == q.last());
        assert(fields(p).last() + q =~= (fields(p).last() + q1).push(q.last()));
        assert(fields(p + q) =~= fields(p).update(fields(p).len() - 1, fields(p).last() + q));
    }
}

/// Three pieces without separators, joined by separators, split back into the same three.
pub proof fn lemma_fields_of_three(a: Seq<u8>, b: Seq<u8>, c: Seq<u8>)
    requires
        no_separator(a),
        no_separator(b),
        no_separator(c),
    ensures
        fields(a + seq![SEPARATOR] + b + seq![SEPARATOR] + c) == seq![a, b, c],
{
    let e: Seq<u8> = Seq::empty();
    lemma_fields_extend(e, a);
    assert(e + a =~= a);
    assert(fields(e) =~= seq![e]);
    assert(fields(a) =~= seq![a]);
    let a1 = a + seq![SEPARATOR];
    assert(a1.drop_last() =~= a);
    assert(fields(a1) =~= seq![a, e]);
    lemma_fields_extend(a1, b);
    assert(fields(a1 + b) =~= seq![a, b]);
    let b1 = a1 + b + seq![SEPARATOR];
    assert(b1.drop_last() =~= a1 + b);
    assert(fields(b1) =~= seq![a, b, e]);
    lemma_fields_extend(b1, c);
    assert(fields(b1 + c) =~= seq![a, b, c]);
}

/// The decimal representation is made of digits that spell `n`.
pub proof fn lemma_decimal(n: nat)
    ensures
        all_digits(decimal(n)),
        digits_value(decimal(n)) == n,
        decimal(n)[0] != 43,
        no_separator(decimal(n)),
    decreases n,
{
    if n >= 10 {
        lemma_decimal(n / 10);
        assert(decimal(n).drop_last() =~= decimal(n / 10));
        vstd::arithmetic::div_mod::lemma_fundamental_div_mod(n as int, 10);
        assert((48 + n % 10) as u8 == 48 + n % 10);
        assert(decimal(n).last() == (48 + n % 10) as u8);
        assert(digits_value(decimal(n)) == digits_value(decimal(n / 10)) * 10 + n % 10);
    } else {
        assert((48 + n) as u8 == 48 + n);
        assert(digits_value(Seq::<u8>::empty()) == 0);
        assert(decimal(n).last() == (48 + n) as u8);
        assert(decimal(n).drop_last() =~= Seq::<u8>::empty());
    }
}

/// Reading back the decimal representation of a 32-bit number gives the number.
pub proof fn lemma_parse_decimal(n: u32)
    ensures
        parse_u32(decimal(n as nat)) == Some(n),
{
    lemma_decimal(n as nat);
}

/// Appends the decimal representation of `n` to `out`.
pub(crate) fn push_decimal(n: u32, out: &mut Vec<u8>)
    ensures
        final(out)@ == old(out)@ + decimal(n as nat),
    decreases n,
{
    if n >= 10 {
        push_decimal(n / 10, out);
    }
    out.push(48 + (n % 10) as u8);
    proof {
        if n >= 10 {
            assert(decimal(n as nat) == decimal((n / 10) as nat).push((48 + n % 10) as u8));
        }
    }
}

/// `v`, or 2^32 when `v` does not fit in 32 bits.
spec fn capped(v: int) -> int {
    if v > u32::MAX {
        u32::MAX + 1
    } else {
        v
    }
}

/// Reads `s` as an unsigned 32-bit decimal number.
pub(crate) fn parse_u32_exec(s: &[u8]) -> (r: Option<u32>)
    ensures
        r == parse_u32(s@),
{
    let start: usize = if s.len() > 0 && s[0] == 43 { 1 } else { 0 };
    let ghost d = if s@.len() > 0 && s@[0] == 43 { s@.drop_first() } else { s@ };
    if start >= s.len() {
        assert(d.len() == 0);
        return None;
    }
    // The value read so far, held at 2^32 once it no longer fits.
    let mut value: u64 = 0;
    let mut i: usize = start;
    while i < s.len()
        invariant
            start <= i <= s.len(),
            d == s@.subrange(start as int, s@.len() as int),
            d == (if s@.len() > 0 && s@[0] == 43 { s@.drop_first() } else { s@ }),
            forall|k: int| start <= k < i ==> is_digit(#[trigger] s@[k]),
            value == capped(digits_value(s@.subrange(start as int, i as int)) as int),
        decreases s.len() - i,
    {
        let c = s[i];
        if c < 48 || c > 57 {
            assert(d[i - start] == c);
            assert(!is_digit(d[i - start]));
            assert(!all_digits(d));
            return None;
        }
        let ghost before = s@.subrange(start as int, i as int);
        let ghost after = s@.subrange(start as int, i + 1);
        assert(after.drop_last() =~= before);
        value = value * 10 + (c - 48) as u64;
        if value > u32::MAX as u64 {
            value = u32::MAX as u64 + 1;
        }
        i += 1;
    }
    assert(s@.subrange(start as int, s@.len() as int) =~= d);
    if value > u32::MAX as u64 {
        None
    } else {
        Some(value as u32)
    }
}

} // verus!
