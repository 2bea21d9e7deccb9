//! Decimal rendering of unsigned integers, optionally zero-padded.
use vstd::prelude::*;

verus! {

/// The decimal digit character for `d` (`d < 10`).
pub open spec fn spec_digit(d: nat) -> char {
    if d == 0 { '0' }
    else if d == 1 { '1' }
    else if d == 2 { '2' }
    else if d == 3 { '3' }
    else if d == 4 { '4' }
    else if d == 5 { '5' }
    else if d == 6 { '6' }
    else if d == 7 { '7' }
    else if d == 8 { '8' }
    else { '9' }
}

/// Decimal notation of `n` without leading zeros (`0` is `"0"`).
pub open spec fn spec_decimal(n: nat) -> Seq<char>
    decreases n,
{
    if n < 10 {
        seq![spec_digit(n)]
    } else {
        spec_decimal(n / 10).push(spec_digit(n % 10))
    }
}

/// `k` copies of `'0'`.
pub open spec fn spec_zeros(k: nat) -> Seq<char> {
    Seq::new(k, |i: int| '0')
}

/// Decimal notation of `n`, left-padded with `'0'` to at least `width` characters.
pub open spec fn spec_padded(n: nat, width: nat) -> Seq<char> {
    let d = spec_decimal(n);
    if d.len() < width {
        spec_zeros((width - d.len()) as nat) + d
    } else {
        d
    }
}

pub open spec fn spec_pow10(k: nat) -> nat
    decreases k,
{
    if k == 0 { 1 } else { 10 * spec_pow10((k - 1) as nat) }
}

proof fn lemma_decimal_len_bound(n: nat, k: nat)
    requires
        n < spec_pow10(k),
    ensures
        1 <= spec_decimal(n).len() <= k || (k == 0),
        spec_decimal(n).len() >= 1,
    decreases n,
{
    if n >= 10 {
        assert(k > 0 && n / 10 < spec_pow10((k - 1) as nat)) by {
            if k == 0 {
                assert(false);
            }
        }
        lemma_decimal_len_bound(n / 10, (k - 1) as nat);
    }
}

/// Every `u64` has between 1 and 20 decimal digits.
pub proof fn lemma_decimal_len(n: u64)
    ensures
        1 <= spec_decimal(n as nat).len() <= 20,
{
    reveal_with_fuel(spec_pow10, 21);
    assert(spec_pow10(20) == 100000000000000000000);
    lemma_decimal_len_bound(n as nat, 20);
}

fn push_digit(out: &mut String, d: u64)
    requires
        d < 10,
    ensures
        final(out)@ == old(out)@.push(spec_digit(d as nat)),
{
    proof {
        reveal_strlit("0");
        reveal_strlit("1");
        reveal_strlit("2");
        reveal_strlit("3");
        reveal_strlit("4");
        reveal_strlit("5");
        reveal_strlit("6");
        reveal_strlit("7");
        reveal_strlit("8");
        reveal_strlit("9");
    }
    let lit = if d == 0 { "0" }
        else if d == 1 { "1" }
        else if d == 2 { "2" }
        else if d == 3 { "3" }
        else if d == 4 { "4" }
        else if d == 5 { "5" }
        else if d == 6 { "6" }
        else if d == 7 { "7" }
        else if d == 8 { "8" }
        else { "9" };
    out.append(lit);
    assert(final(out)@ =~= old(out)@.push(spec_digit(d as nat)));
}

/// Appends the decimal notation of `n`.
pub fn push_decimal(out: &mut String, n: u64)
    ensures
        final(out)@ == old(out)@ + spec_decimal(n as nat),
    decreases n,
{
    if n >= 10 {
        push_decimal(out, n / 10);
    }
    push_digit(out, n % 10);
    assert(final(out)@ =~= old(out)@ + spec_decimal(n as nat));
}

/// Number of decimal digits of `n`.
fn decimal_len(n: u64) -> (len: usize)
    ensures
        len == spec_decimal(n as nat).len(),
    decreases n,
{
    proof {
        lemma_decimal_len(n);
        lemma_decimal_len(n / 10);
    }
    if n >= 10 {
        let l = decimal_len(n / 10);
        l + 1
    } else {
        1
    }
}

/// Appends the decimal notation of `n`, left-padded with `'0'` to `width` characters.
pub fn push_padded(out: &mut String, n: u64, width: usize)
    ensures
        final(out)@ == old(out)@ + spec_padded(n as nat, width as nat),
{
    let len = decimal_len(n);
    let ghost start = out@;
    if len < width {
        let mut i: usize = 0;
        while i < width - len
            invariant
                len < width,
                i <= width - len,
                out@ == start + spec_zeros(i as nat),
            decreases width - len - i,
        {
            push_digit(out, 0);
            i = i + 1;
            assert(out@ =~= start + spec_zeros(i as nat));
        }
    }
    push_decimal(out, n);
    assert(out@ =~= start + spec_padded(n as nat, width as nat));
}

/// The number written by the decimal digits `s` (most significant first).
pub open spec fn spec_value(s: Seq<char>) -> int
    decreases s.len(),
{
    if s.len() == 0 {
        0
    } else {
        spec_value(s.drop_last()) * 10 + (s.last() as int - '0' as int)
    }
}

/// Every character of `s` is a decimal digit.
pub open spec fn spec_all_digits(s: Seq<char>) -> bool {
    forall|k: int| 0 <= k < s.len() ==> '0' <= #[trigger] s[k] <= '9'
}

proof fn lemma_value_concat(a: Seq<char>, b: Seq<char>)
    ensures
        spec_value(a + b) == spec_value(a) * spec_pow10(b.len()) + spec_value(b),
    decreases b.len(),
{
    if b.len() == 0 {
        assert(a + b =~= a);
        assert(spec_value(b) == 0);
        assert(spec_pow10(0) == 1);
        assert(spec_value(a) * 1 == spec_value(a));
    } else {
        let b2 = b.drop_last();
        lemma_value_concat(a, b2);
        assert((a + b).drop_last() =~= a + b2);
        assert((a + b).last() == b.last());
        let va = spec_value(a);
        let p = spec_pow10(b2.len());
        let vb2 = spec_value(b2);
        let dl = b.last() as int - '0' as int;
        assert(spec_pow10(b.len()) == 10 * p);
        assert(spec_value(a + b) == spec_value((a + b).drop_last()) * 10 + ((a + b).last() as int - '0' as int));
        assert(spec_value(b) == spec_value(b.drop_last()) * 10 + dl);
        assert((va * p + vb2) * 10 + dl == va * (10 * p) + (vb2 * 10 + dl)) by (nonlinear_arith);
        assert(spec_value(a + b2) == va * p + vb2);
        assert(spec_value(a + b) == (va * p + vb2) * 10 + dl);
    }
}

proof fn lemma_value_zeros(k: nat)
    ensures
        spec_value(spec_zeros(k)) == 0,
        spec_all_digits(spec_zeros(k)),
    decreases k,
{
    if k > 0 {
        lemma_value_zeros((k - 1) as nat);
        assert(spec_zeros(k).drop_last() =~= spec_zeros((k - 1) as nat));
    }
}

proof fn lemma_value_decimal(n: nat)
    ensures
        spec_value(spec_decimal(n)) == n,
        spec_all_digits(spec_decimal(n)),
    decreases n,
{
    let d = n % 10;
    assert('0' <= spec_digit(d) <= '9' && spec_digit(d) as int - '0' as int == d);
    if n >= 10 {
        lemma_value_decimal(n / 10);
        let s = spec_decimal(n);
        assert(s.drop_last() =~= spec_decimal(n / 10));
        assert(s.last() == spec_digit(d));
        assert(spec_value(s) == spec_value(s.drop_last()) * 10 + (s.last() as int - '0' as int));
        assert(n == (n / 10) * 10 + n % 10);
        assert forall|k: int| 0 <= k < s.len() implies '0' <= #[trigger] s[k] <= '9' by {
            if k < s.len() - 1 {
                assert(s[k] == spec_decimal(n / 10)[k]);
            }
        }
    } else {
        assert(spec_decimal(n) =~= seq![spec_digit(n)]);
        assert(seq![spec_digit(n)].drop_last() =~= Seq::<char>::empty());
        assert(spec_value(seq![spec_digit(n)]) == spec_value(Seq::<char>::empty()) * 10 + (spec_digit(n) as int - '0' as int));
    }
}

/// A zero-padded number reads back as the number; when the number has at
/// most `width` digits (`n < 10^width`), it takes exactly `width` characters.
pub proof fn lemma_padded_reads_back(n: nat, width: nat)
    ensures
        spec_value(spec_padded(n, width)) == n,
        spec_all_digits(spec_padded(n, width)),
        1 <= width && n < spec_pow10(width) ==> spec_padded(n, width).len() == width,
{
    let d = spec_decimal(n);
    lemma_value_decimal(n);
    if n < spec_pow10(width) {
        lemma_decimal_len_bound(n, width);
    }
    if d.len() < width {
        let z = spec_zeros((width - d.len()) as nat);
        lemma_value_zeros((width - d.len()) as nat);
        lemma_value_concat(z, d);
        assert forall|k: int| 0 <= k < (z + d).len() implies '0' <= #[trigger] (z + d)[k] <= '9' by {
            if k < z.len() {
                assert((z + d)[k] == z[k]);
            } else {
                assert((z + d)[k] == d[k - z.len()]);
            }
        }
    }
}

} // verus!
