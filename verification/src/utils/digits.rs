use vstd::prelude::*;

verus! {

/// The ASCII digits of `n` in base `radix` (at most ten), most significant
/// first, without leading zeros; `0` is written as a single `0`.
pub open spec fn radix_digits(n: nat, radix: nat) -> Seq<u8>
    recommends
        2 <= radix <= 10,
    decreases n,
{
    if n < radix || radix < 2 {
        seq![(48 + n) as u8]
    } else {
        proof {
            assert(n / radix < n) by (nonlinear_arith)
                requires
                    n >= radix,
                    radix >= 2,
            ;
        }
        radix_digits(n / radix, radix).push((48 + n % radix) as u8)
    }
}

/// `c` is an ASCII digit of base `radix` (at most ten).
pub open spec fn is_digit_in(c: u8, radix: nat) -> bool {
    48 <= c && c - 48 < radix
}

pub open spec fn all_digits(s: Seq<u8>, radix: nat) -> bool {
    forall|i: int| 0 <= i < s.len() ==> is_digit_in(#[trigger] s[i], radix)
}

/// The number that the ASCII digits `s` denote in base `radix`.
pub open spec fn digits_value(s: Seq<u8>, radix: nat) -> nat
    decreases s.len(),
{
    if s.len() == 0 {
        0
    } else {
        digits_value(s.drop_last(), radix) * radix + (s.last() - 48) as nat
    }
}

/// What std's `u64::from_str_radix(s, radix)` gives for a radix of at most
/// ten (and `str::parse::<u64>` for ten): an optional leading `+`, then one or
/// more digits of the radix whose value fits in a `u64`; anything else is
/// refused.
pub open spec fn parse_u64_spec(s: Seq<u8>, radix: nat) -> Option<u64> {
    let d = if s.len() > 0 && s[0] == 43u8 {
        s.drop_first()
    } else {
        s
    };
    if d.len() > 0 && all_digits(d, radix) && digits_value(d, radix) <= u64::MAX {
        Some(digits_value(d, radix) as u64)
    } else {
        None
    }
}

proof fn lemma_digits_value_prefix_grows(s: Seq<u8>, radix: nat, k: int)
    requires
        0 <= k <= s.len(),
        radix >= 1,
        all_digits(s, radix),
    ensures
        digits_value(s.take(k), radix) <= digits_value(s, radix),
    decreases s.len() - k,
{
    if k < s.len() {
        lemma_digits_value_prefix_grows(s, radix, k + 1);
        let t = s.take(k + 1);
        assert(t.drop_last() =~= s.take(k));
        assert(is_digit_in(s[k], radix));
        assert(digits_value(t, radix) == digits_value(s.take(k), radix) * radix + (t.last()
            - 48) as nat);
        assert(digits_value(s.take(k), radix) * radix >= digits_value(s.take(k), radix))
            by (nonlinear_arith)
            requires
                radix >= 1,
        ;
    } else {
        assert(s.take(k) =~= s);
    }
}

/// Parses an unsigned number in base `radix` (two to ten) the way std's
/// `u64::from_str_radix` does.
pub fn parse_u64(s: &[u8], radix: u64) -> (r: Option<u64>)
    requires
        2 <= radix <= 10,
    ensures
        r == parse_u64_spec(s@, radix as nat),
{
    let ghost rad = radix as nat;
    let mut start: usize = 0;
    if s.len() > 0 && s[0] == 43u8 {
        start = 1;
    }
    let ghost d = if s@.len() > 0 && s@[0] == 43u8 {
        s@.drop_first()
    } else {
        s@
    };
    assert(d =~= s@.subrange(start as int, s@.len() as int));
    if start == s.len() {
        return None;
    }
    let mut acc: u64 = 0;
    let mut i: usize = start;
    while i < s.len()
        invariant
            start <= i <= s.len(),
            rad == radix as nat,
            d == (if s@.len() > 0 && s@[0] == 43u8 {
                s@.drop_first()
            } else {
                s@
            }),
            2 <= radix <= 10,
            d == s@.subrange(start as int, s@.len() as int),
            all_digits(d.take(i - start), rad),
            acc as nat == digits_value(d.take(i - start), rad),
        decreases s.len() - i,
    {
        let c = s[i];
        assert(d[i - start] == c);
        if c < 48u8 || (c - 48u8) as u64 >= radix {
            assert(!is_digit_in(d[i - start], rad));
            assert(!all_digits(d, rad));
            return None;
        }
        let ghost k = (i - start) as int;
        assert(d.take(k + 1).drop_last() =~= d.take(k));
        assert(d.take(k + 1).last() == c);
        let digit = (c - 48u8) as u64;
        let next = match acc.checked_mul(radix) {
            Some(m) => m.checked_add(digit),
            None => None,
        };
        match next {
            Some(v) => {
                acc = v;
            },
            None => {
                proof {
                    assert(acc * radix + digit > u64::MAX) by (nonlinear_arith)
                        requires
                            acc * radix > u64::MAX || acc * radix + digit > u64::MAX,
                            digit >= 0,
                    ;
                    assert(all_digits(d.take(k + 1), rad));
                    assert(digits_value(d.take(k + 1), rad) == acc * radix + digit);
                    if all_digits(d, rad) {
                        lemma_digits_value_prefix_grows(d, rad, k + 1);
                    }
                }
                return None;
            },
        }
        i = i + 1;
        assert(all_digits(d.take(k + 1), rad));
    }
    assert(d.take(d.len() as int) =~= d);
    Some(acc)
}

/// Writes `n` in base `radix` (two to ten) as ASCII digits.
pub fn format_u64(n: u64, radix: u64) -> (r: Vec<u8>)
    requires
        2 <= radix <= 10,
    ensures
        r@ == radix_digits(n as nat, radix as nat),
    decreases n,
{
    if n < radix {
        let mut v = Vec::new();
        v.push((48 + n) as u8);
        v
    } else {
        assert(n / radix < n) by (nonlinear_arith)
            requires
                n >= radix,
                radix >= 2,
        ;
        let mut v = format_u64(n / radix, radix);
        v.push((48 + n % radix) as u8);
        v
    }
}

pub proof fn lemma_radix_digits_shape(n: nat, radix: nat)
    requires
        2 <= radix <= 10,
    ensures
        radix_digits(n, radix).len() > 0,
        all_digits(radix_digits(n, radix), radix),
        digits_value(radix_digits(n, radix), radix) == n,
    decreases n,
{
    let s = radix_digits(n, radix);
    if n >= radix {
        assert(n / radix < n) by (nonlinear_arith)
            requires
                n >= radix,
                radix >= 2,
        ;
        lemma_radix_digits_shape(n / radix, radix);
        assert(s.len() > 0);
        assert(s.last() == (48 + n % radix) as u8);
        assert((s.last() - 48) as nat == n % radix);
        assert(digits_value(s, radix) == digits_value(s.drop_last(), radix) * radix + (s.last() - 48) as nat);
        assert(s.drop_last() =~= radix_digits(n / radix, radix));
        assert(n == (n / radix) * radix + n % radix) by (nonlinear_arith)
            requires
                radix >= 2,
        ;
        assert(forall|i: int|
            0 <= i < s.len() - 1 ==> s[i] == radix_digits(n / radix, radix)[i]);
    } else {
        assert(s.drop_last() =~= Seq::<u8>::empty());
        assert(digits_value(s.drop_last(), radix) == 0);
    }
}

/// Reading back the digits of a number gives the number.
pub proof fn lemma_parse_format_u64(n: u64, radix: nat)
    requires
        2 <= radix <= 10,
    ensures
        parse_u64_spec(radix_digits(n as nat, radix), radix) == Some(n),
{
    lemma_radix_digits_shape(n as nat, radix);
    let s = radix_digits(n as nat, radix);
    assert(is_digit_in(s[0], radix));
}

proof fn lemma_digits_value_zero_padded(z: nat, d: Seq<u8>, radix: nat)
    ensures
        digits_value(Seq::new(z, |i: int| 48u8) + d, radix) == digits_value(d, radix),
    decreases d.len(), z,
{
    let zs = Seq::new(z, |i: int| 48u8);
    if d.len() > 0 {
        assert((zs + d).drop_last() =~= zs + d.drop_last());
        assert((zs + d).last() == d.last());
        lemma_digits_value_zero_padded(z, d.drop_last(), radix);
    } else if z > 0 {
        assert(zs + d =~= zs);
        assert(zs.drop_last() =~= Seq::new((z - 1) as nat, |i: int| 48u8));
        assert(Seq::new((z - 1) as nat, |i: int| 48u8) + d =~= zs.drop_last());
        lemma_digits_value_zero_padded((z - 1) as nat, d, radix);
        assert(digits_value(zs.drop_last(), radix) == 0);
        assert(zs.last() == 48u8);
        assert(digits_value(zs, radix) == digits_value(zs.drop_last(), radix) * radix + 0);
        assert(0 * radix == 0);
    } else {
        assert(zs + d =~= d);
    }
}

/// Reading back the digits of a number after leading `0` digits gives the
/// number.
pub proof fn lemma_parse_zero_padded(n: u64, z: nat, radix: nat)
    requires
        2 <= radix <= 10,
    ensures
        parse_u64_spec(Seq::new(z, |i: int| 48u8) + radix_digits(n as nat, radix), radix)
            == Some(n),
{
    let d = radix_digits(n as nat, radix);
    let s = Seq::new(z, |i: int| 48u8) + d;
    lemma_radix_digits_shape(n as nat, radix);
    lemma_digits_value_zero_padded(z, d, radix);
    assert forall|i: int| 0 <= i < s.len() implies is_digit_in(#[trigger] s[i], radix) by {
        if i >= z {
            assert(s[i] == d[i - z]);
        }
    }
    assert(is_digit_in(s[0], radix));
}

} // verus!
