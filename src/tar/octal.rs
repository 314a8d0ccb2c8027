use vstd::prelude::*;

verus! {

/// `8` raised to the power `n`.
pub open spec fn pow8(n: nat) -> nat
    decreases n,
{
    if n == 0 {
        1
    } else {
        8 * pow8((n - 1) as nat)
    }
}

/// The ASCII octal digit for a value below eight.
pub open spec fn octal_char(d: nat) -> u8 {
    (48 + d) as u8
}

pub open spec fn is_octal_digit(b: u8) -> bool {
    48 <= b <= 55
}

pub open spec fn all_octal_digits(s: Seq<u8>) -> bool {
    forall|i: int| 0 <= i < s.len() ==> is_octal_digit(#[trigger] s[i])
}

/// The lowest `width` octal digits of `v`, most significant first, zero-padded.
pub open spec fn octal_digits(v: nat, width: nat) -> Seq<u8>
    decreases width,
{
    if width == 0 {
        Seq::empty()
    } else {
        octal_digits(v / 8, (width - 1) as nat).push(octal_char(v % 8))
    }
}

/// The number written by a sequence of octal digits.
pub open spec fn octal_value(s: Seq<u8>) -> nat
    decreases s.len(),
{
    if s.len() == 0 {
        0
    } else {
        octal_value(s.drop_last()) * 8 + (s.last() - 48) as nat
    }
}

/// The number held by a fixed-width octal field, if every byte is an octal digit.
pub open spec fn parse_octal_spec(s: Seq<u8>) -> Option<nat> {
    if all_octal_digits(s) {
        Some(octal_value(s))
    } else {
        None
    }
}

pub proof fn lemma_pow8_positive(n: nat)
    ensures
        pow8(n) >= 1,
    decreases n,
{
    if n > 0 {
        lemma_pow8_positive((n - 1) as nat);
    }
}

pub proof fn lemma_octal_digits_shape(v: nat, width: nat)
    ensures
        octal_digits(v, width).len() == width,
        all_octal_digits(octal_digits(v, width)),
    decreases width,
{
    if width > 0 {
        lemma_octal_digits_shape(v / 8, (width - 1) as nat);
    }
}

/// Reading back the digits of a value that fits in the width gives the value.
pub proof fn lemma_octal_round_trip(v: nat, width: nat)
    requires
        v < pow8(width),
    ensures
        octal_value(octal_digits(v, width)) == v,
    decreases width,
{
    if width > 0 {
        let w1 = (width - 1) as nat;
        assert(v / 8 < pow8(w1)) by (nonlinear_arith)
            requires
                v < 8 * pow8(w1),
        ;
        lemma_octal_round_trip(v / 8, w1);
        let s = octal_digits(v, width);
        assert(s.drop_last() =~= octal_digits(v / 8, w1));
        assert(v == (v / 8) * 8 + v % 8) by (nonlinear_arith);
    } else {
        assert(v == 0);
    }
}

/// A run of octal digits is below eight to the power of its length.
pub proof fn lemma_octal_value_bound(s: Seq<u8>)
    requires
        all_octal_digits(s),
    ensures
        octal_value(s) < pow8(s.len()),
    decreases s.len(),
{
    if s.len() > 0 {
        let p = s.drop_last();
        assert(all_octal_digits(p)) by {
            assert forall|i: int| 0 <= i < p.len() implies is_octal_digit(#[trigger] p[i]) by {
                assert(p[i] == s[i]);
            }
        }
        lemma_octal_value_bound(p);
        let a = octal_value(p);
        let b = pow8(p.len());
        let d = (s.last() - 48) as nat;
        assert(is_octal_digit(s[s.len() - 1]));
        assert(a * 8 + d < 8 * b) by (nonlinear_arith)
            requires
                a < b,
                d < 8,
        ;
    }
}

pub proof fn lemma_pow8_monotone(a: nat, b: nat)
    requires
        a <= b,
    ensures
        pow8(a) <= pow8(b),
    decreases b - a,
{
    if a < b {
        lemma_pow8_monotone(a, (b - 1) as nat);
        lemma_pow8_positive((b - 1) as nat);
    }
}

/// Appends the lowest `width` octal digits of `v`, zero-padded, to `out`.
pub fn push_octal(v: u64, width: usize, out: &mut Vec<u8>)
    ensures
        final(out)@ == old(out)@ + octal_digits(v as nat, width as nat),
    decreases width,
{
    if width > 0 {
        push_octal(v / 8, width - 1, out);
        out.push(48 + (v % 8) as u8);
        proof {
            assert(final(out)@ =~= old(out)@ + octal_digits(v as nat, width as nat));
        }
    } else {
        proof {
            assert(out@ =~= old(out)@ + octal_digits(v as nat, width as nat));
        }
    }
}

/// Reads the fixed-width octal field `s[start .. start + width]`.
pub fn parse_octal(s: &[u8], start: usize, width: usize) -> (r: Option<u64>)
    requires
        start + width <= s@.len(),
        width <= 11,
    ensures
        match parse_octal_spec(s@.subrange(start as int, start + width)) {
            Some(v) => v < pow8(width as nat) && r == Some(v as u64),
            None => r is None,
        },
{
    let n = s.len();
    let mut acc: u64 = 0;
    let mut i: usize = 0;
    proof {
        reveal_with_fuel(pow8, 12);
    }
    while i < width
        invariant
            i <= width,
            width <= 11,
            start + width <= s@.len(),
            n == s@.len(),
            all_octal_digits(s@.subrange(start as int, start + i)),
            acc == octal_value(s@.subrange(start as int, start + i)),
            acc < pow8(i as nat),
            pow8(11) == 8589934592,
            pow8(i as nat) <= pow8(11),
        decreases width - i,
    {
        let b = s[start + i];
        let ghost full = s@.subrange(start as int, start + width);
        if b < 48 || b > 55 {
            proof {
                assert(full[i as int] == b);
                assert(!all_octal_digits(full));
            }
            return None;
        }
        let ghost prev = s@.subrange(start as int, start + i);
        let ghost next = s@.subrange(start as int, start + i + 1);
        proof {
            assert(next.drop_last() =~= prev);
            assert(next.last() == b);
            assert(pow8((i + 1) as nat) == 8 * pow8(i as nat));
            lemma_pow8_monotone((i + 1) as nat, 11);
        }
        acc = acc * 8 + (b - 48) as u64;
        i = i + 1;
        proof {
            assert forall|j: int| 0 <= j < next.len() implies is_octal_digit(#[trigger] next[j]) by {
                if j < prev.len() {
                    assert(next[j] == prev[j]);
                }
            }
        }
    }
    Some(acc)
}

} // verus!
