//! Fixed-point amounts as ASCII text: parsing of decimal literals, and
//! rendering with exactly four decimal places. These are the numeric
//! contracts of the engine's input and output boundaries.
use vstd::prelude::*;

use crate::domain::Amount;

verus! {

/// The ASCII digit for one decimal place.
pub open spec fn spec_digit(n: nat) -> u8 {
    (0x30 + (n % 10)) as u8
}

/// The shortest decimal digit run for a number (a single `0` for zero).
pub open spec fn spec_decimal(n: nat) -> Seq<u8>
    decreases n,
{
    if n < 10 {
        seq![spec_digit(n)]
    } else {
        spec_decimal(n / 10).push(spec_digit(n % 10))
    }
}

/// The four zero-padded digits of the fractional part.
pub open spec fn spec_frac4(n: nat) -> Seq<u8> {
    seq![
        spec_digit(n / 1000),
        spec_digit(n / 100),
        spec_digit(n / 10),
        spec_digit(n),
    ]
}

/// An amount rendered with exactly four decimal places: an optional minus
/// sign, the units in decimal, a dot, and four fractional digits.
pub open spec fn spec_render_amount(a: int) -> Seq<u8> {
    let abs = (if a < 0 {
        -a
    } else {
        a
    }) as nat;
    let sign: Seq<u8> = if a < 0 {
        seq![0x2du8]
    } else {
        Seq::empty()
    };
    sign + spec_decimal(abs / 10000) + seq![0x2eu8] + spec_frac4(abs % 10000)
}

/// Append the decimal digits of a number, most significant first.
fn push_decimal(n: u64, out: &mut Vec<u8>)
    ensures
        final(out)@ == old(out)@ + spec_decimal(n as nat),
    decreases n,
{
    if n < 10 {
        out.push(0x30u8 + n as u8);
        proof {
            assert(out@ =~= old(out)@ + spec_decimal(n as nat));
        }
    } else {
        push_decimal(n / 10, out);
        out.push(0x30u8 + (n % 10) as u8);
        proof {
            assert(out@ =~= old(out)@ + spec_decimal(n as nat));
        }
    }
}

/// Render an amount with exactly four decimal places, as ASCII bytes
/// (`35400` becomes `3.5400`, `-5000` becomes `-0.5000`).
pub fn render_amount(a: Amount) -> (r: Vec<u8>)
    ensures
        r@ == spec_render_amount(a as int),
{
    let mut out: Vec<u8> = Vec::new();
    let abs: u64 = if a < 0 {
        (-(a as i128)) as u64
    } else {
        a as u64
    };
    if a < 0 {
        out.push(0x2du8);
    }
    push_decimal(abs / 10000, &mut out);
    out.push(0x2eu8);
    let frac = abs % 10000;
    out.push(0x30u8 + (frac / 1000) as u8);
    out.push(0x30u8 + (frac / 100 % 10) as u8);
    out.push(0x30u8 + (frac / 10 % 10) as u8);
    out.push(0x30u8 + (frac % 10) as u8);
    proof {
        assert(out@ =~= spec_render_amount(a as int));
    }
    out
}

/// An ASCII decimal digit.
pub open spec fn is_digit(b: u8) -> bool {
    0x30 <= b <= 0x39
}

/// Every byte is an ASCII decimal digit.
pub open spec fn all_digits(s: Seq<u8>) -> bool {
    forall|i: int| 0 <= i < s.len() ==> is_digit(#[trigger] s[i])
}

/// The number a digit run denotes (zero for the empty run).
pub open spec fn digits_val(s: Seq<u8>) -> int
    decreases s.len(),
{
    if s.len() == 0 {
        0
    } else {
        digits_val(s.drop_last()) * 10 + s.last() - 0x30
    }
}

/// The position of the first dot, or the length when there is none.
pub open spec fn dot_pos(s: Seq<u8>) -> int
    decreases s.len(),
{
    if s.len() == 0 {
        0
    } else if s[0] == 0x2e {
        0
    } else {
        1 + dot_pos(s.drop_first())
    }
}

/// Powers of ten.
pub open spec fn pow10(n: nat) -> int
    decreases n,
{
    if n == 0 {
        1
    } else {
        10 * pow10((n - 1) as nat)
    }
}

/// The scale of a fractional part with the given number of digits.
pub open spec fn frac_scale(n: int) -> int {
    if n <= 0 {
        10000
    } else if n == 1 {
        1000
    } else if n == 2 {
        100
    } else if n == 3 {
        10
    } else {
        1
    }
}

/// The exact value of a decimal amount literal, in ten-thousandths: an
/// optional sign, up to fifteen integer digits, and optionally a dot with up
/// to four fractional digits — at least one digit in all, and the value must
/// fit the `Amount` range.
pub open spec fn spec_parse_amount(s: Seq<u8>) -> Option<int> {
    let neg = s.len() > 0 && s[0] == 0x2d;
    let body = if s.len() > 0 && (s[0] == 0x2d || s[0] == 0x2b) {
        s.drop_first()
    } else {
        s
    };
    let p = dot_pos(body);
    let ip = body.take(p);
    let fp = if p < body.len() {
        body.skip(p + 1)
    } else {
        Seq::<u8>::empty()
    };
    if ip.len() + fp.len() == 0 || ip.len() > 15 || fp.len() > 4 || !all_digits(ip)
        || !all_digits(fp) {
        None
    } else {
        let mag = digits_val(ip) * 10000 + digits_val(fp) * frac_scale(fp.len() as int);
        let v = if neg {
            -mag
        } else {
            mag
        };
        if i64::MIN <= v <= i64::MAX {
            Some(v)
        } else {
            None
        }
    }
}

/// The first dot sits exactly at `dot_pos`: nothing before it is a dot, and
/// the position is the length when the sequence holds none.
proof fn lemma_dot_pos_character(s: Seq<u8>)
    ensures
        0 <= dot_pos(s) <= s.len(),
        dot_pos(s) < s.len() ==> s[dot_pos(s)] == 0x2e,
        forall|k: int| 0 <= k < dot_pos(s) ==> s[k] != 0x2e,
    decreases s.len(),
{
    if s.len() > 0 && s[0] != 0x2e {
        lemma_dot_pos_character(s.drop_first());
        assert forall|k: int| 0 <= k < dot_pos(s) implies s[k] != 0x2e by {
            if k > 0 {
                assert(s.drop_first()[k - 1] != 0x2e);
            }
        };
    }
}

/// The concrete powers of ten up to sixteen digits.
proof fn lemma_pow10_values()
    ensures
        pow10(0) == 1,
        pow10(1) == 10,
        pow10(2) == 100,
        pow10(3) == 1000,
        pow10(4) == 10000,
        pow10(15) == 1000000000000000,
        pow10(16) == 10000000000000000,
{
    reveal_with_fuel(pow10, 17);
}

/// Powers of ten grow with the exponent.
proof fn lemma_pow10_mono(a: nat, b: nat)
    requires
        a <= b,
    ensures
        pow10(a) <= pow10(b),
    decreases b,
{
    if a < b {
        lemma_pow10_mono(a, (b - 1) as nat);
        assert(pow10((b - 1) as nat) >= 1) by {
            lemma_pow10_pos((b - 1) as nat);
        };
    }
}

/// Powers of ten are positive.
proof fn lemma_pow10_pos(n: nat)
    ensures
        pow10(n) >= 1,
    decreases n,
{
    if n > 0 {
        lemma_pow10_pos((n - 1) as nat);
    }
}

/// A rendered digit run is digits only and denotes the number it renders.
proof fn lemma_decimal_digits(n: nat)
    ensures
        all_digits(spec_decimal(n)),
        digits_val(spec_decimal(n)) == n,
        spec_decimal(n).len() >= 1,
    decreases n,
{
    if n < 10 {
        assert(spec_decimal(n) == seq![spec_digit(n)]);
        assert(seq![spec_digit(n)].drop_last() =~= Seq::<u8>::empty());
        assert(digits_val(Seq::<u8>::empty()) == 0);
        assert(digits_val(seq![spec_digit(n)]) == n);
    } else {
        lemma_decimal_digits(n / 10);
        let d = spec_decimal(n / 10);
        let w = d.push(spec_digit(n % 10));
        assert(spec_decimal(n) == w);
        assert(w.drop_last() =~= d);
        assert(w.last() == spec_digit(n % 10));
        assert(digits_val(w) == digits_val(d) * 10 + (n % 10));
        assert(n / 10 * 10 + n % 10 == n);
        assert forall|k: int| 0 <= k < w.len() implies is_digit(#[trigger] w[k]) by {
            if k < d.len() {
                assert(w[k] == d[k]);
            }
        };
    }
}

/// A number below the `k`-th power of ten renders in at most `k` digits.
proof fn lemma_decimal_len(n: nat, k: nat)
    requires
        k >= 1,
        n < pow10(k),
    ensures
        spec_decimal(n).len() <= k,
    decreases n,
{
    if n >= 10 {
        assert(pow10(k) == 10 * pow10((k - 1) as nat));
        assert(n / 10 < pow10((k - 1) as nat));
        assert(k - 1 >= 1) by {
            lemma_pow10_values();
            if k == 1 {
                assert(pow10(1) == 10);
            }
        };
        lemma_decimal_len(n / 10, (k - 1) as nat);
    }
}

/// A number below ten thousand is the weighted sum of its four digits.
proof fn lemma_digit_decompose(m: nat)
    requires
        m < 10000,
    ensures
        m / 1000 % 10 * 1000 + m / 100 % 10 * 100 + m / 10 % 10 * 10 + m % 10 == m,
{
    assert(m == 10 * (m / 10) + m % 10);
    assert(m / 10 == 10 * (m / 100) + m / 10 % 10);
    assert(m / 100 == 10 * (m / 1000) + m / 100 % 10);
    assert(m / 1000 % 10 == m / 1000);
}

/// The four-digit fractional rendering is digits only and denotes its number.
proof fn lemma_frac4_digits(m: nat)
    requires
        m < 10000,
    ensures
        all_digits(spec_frac4(m)),
        spec_frac4(m).len() == 4,
        digits_val(spec_frac4(m)) == m,
{
    let f4 = spec_frac4(m);
    assert(all_digits(f4)) by {
        assert forall|k: int| 0 <= k < f4.len() implies is_digit(#[trigger] f4[k]) by {
            assert(f4.len() == 4);
        };
    };
    let s1 = seq![spec_digit(m / 1000)];
    let s2 = s1.push(spec_digit(m / 100));
    let s3 = s2.push(spec_digit(m / 10));
    let s4 = s3.push(spec_digit(m));
    assert(f4 =~= s4);
    assert(digits_val(Seq::<u8>::empty()) == 0);
    assert(s1.drop_last() =~= Seq::<u8>::empty());
    assert(digits_val(s1) == m / 1000 % 10);
    assert(s2.drop_last() =~= s1);
    assert(digits_val(s2) == digits_val(s1) * 10 + m / 100 % 10);
    assert(s3.drop_last() =~= s2);
    assert(digits_val(s3) == digits_val(s2) * 10 + m / 10 % 10);
    assert(s4.drop_last() =~= s3);
    assert(digits_val(s4) == digits_val(s3) * 10 + m % 10);
    lemma_digit_decompose(m);
}

/// In a digit run, a dot, and a tail, the first dot is the one written.
proof fn lemma_body_split(dec: Seq<u8>, tail: Seq<u8>)
    requires
        all_digits(dec),
    ensures
        dot_pos(dec + seq![0x2eu8] + tail) == dec.len(),
        (dec + seq![0x2eu8] + tail).take(dec.len() as int) == dec,
        (dec + seq![0x2eu8] + tail).skip(dec.len() as int + 1) == tail,
{
    let body = dec + seq![0x2eu8] + tail;
    lemma_dot_pos_character(body);
    assert forall|k: int| 0 <= k < dec.len() implies body[k] != 0x2e by {
        assert(body[k] == dec[k]);
        assert(is_digit(dec[k]));
    };
    assert(body[dec.len() as int] == 0x2e);
    if dot_pos(body) < dec.len() {
        assert(body[dot_pos(body)] == 0x2e);
        assert(false);
    }
    if dot_pos(body) > dec.len() {
        assert(false);
    }
    assert(body.take(dec.len() as int) =~= dec);
    assert(body.skip(dec.len() as int + 1) =~= tail);
}

/// Rendering an amount and parsing the text back yields the amount exactly:
/// the input and output codecs are inverses on every `Amount`.
pub proof fn lemma_parse_render_round_trip(a: Amount)
    ensures
        spec_parse_amount(spec_render_amount(a as int)) == Some(a as int),
{
    let v = a as int;
    let abs = (if v < 0 {
        -v
    } else {
        v
    }) as nat;
    let units = abs / 10000;
    let frac = abs % 10000;
    let dec = spec_decimal(units);
    let f4 = spec_frac4(frac);
    let body = dec + seq![0x2eu8] + f4;
    let r = spec_render_amount(v);
    lemma_decimal_digits(units);
    lemma_frac4_digits(frac);
    lemma_body_split(dec, f4);
    if v < 0 {
        assert(r[0] == 0x2d);
        assert(r.drop_first() =~= body);
    } else {
        assert(r =~= body);
        assert(r[0] == dec[0]);
        assert(is_digit(dec[0]));
    }
    assert(dec.len() <= 15) by {
        lemma_pow10_values();
        assert(abs <= 9223372036854775808);
        assert(units < pow10(15));
        lemma_decimal_len(units, 15);
    };
    assert(digits_val(dec) * 10000 + digits_val(f4) * frac_scale(4) == abs);
}

/// Parse a decimal amount literal into fixed-point ten-thousandths; `None`
/// exactly when the text does not fit the grammar or the value the range.
#[verifier::loop_isolation(false)]
#[verifier::rlimit(100)]
pub fn parse_amount(s: &[u8]) -> (r: Option<Amount>)
    ensures
        r matches Some(v) ==> spec_parse_amount(s@) == Some(v as int),
        r is None ==> spec_parse_amount(s@) is None,
{
    let n = s.len();
    let mut sl: usize = 0;
    let mut neg = false;
    if n > 0 && (s[0] == 0x2d || s[0] == 0x2b) {
        neg = s[0] == 0x2d;
        sl = 1;
    }
    let ghost body = if s@.len() > 0 && (s@[0] == 0x2d || s@[0] == 0x2b) {
        s@.drop_first()
    } else {
        s@
    };
    proof {
        assert(body =~= s@.skip(sl as int));
        lemma_dot_pos_character(body);
    }
    let mut i: usize = sl;
    let mut acc: u64 = 0;
    while i < n && s[i] != 0x2e
        invariant
            n == s@.len(),
            sl <= i <= n,
            i - sl <= 15,
            body == s@.skip(sl as int),
            forall|k: int| sl <= k < i ==> s@[k] != 0x2e,
            all_digits(s@.subrange(sl as int, i as int)),
            acc == digits_val(s@.subrange(sl as int, i as int)),
            acc < pow10((i - sl) as nat),
        decreases n - i,
    {
        let b = s[i];
        proof {
            lemma_dot_pos_character(body);
            assert(dot_pos(body) > i - sl);
        }
        if b < 0x30 || b > 0x39 {
            proof {
                assert(body.take(dot_pos(body))[i - sl] == s@[i as int]);
                assert(!all_digits(body.take(dot_pos(body))));
            }
            return None;
        }
        if i - sl == 15 {
            proof {
                assert(body.take(dot_pos(body)).len() > 15);
            }
            return None;
        }
        proof {
            assert(acc < 1000000000000000) by {
                lemma_pow10_values();
                lemma_pow10_mono((i - sl) as nat, 15);
            };
            assert(s@.subrange(sl as int, i + 1).drop_last() =~= s@.subrange(sl as int, i as int));
        }
        acc = acc * 10 + (b - 0x30) as u64;
        i += 1;
    }
    let int_len = i - sl;
    let ghost ip = body.take(dot_pos(body));
    proof {
        lemma_dot_pos_character(body);
        assert forall|k: int| 0 <= k < i - sl implies body[k] != 0x2e by {
            assert(body[k] == s@[k + sl]);
        };
        if dot_pos(body) < i - sl {
            assert(body[dot_pos(body)] == 0x2e);
            assert(false);
        }
        if i < n {
            assert(body[i - sl] == s@[i as int]);
            assert(body[i - sl] == 0x2e);
            if dot_pos(body) > i - sl {
                assert(false);
            }
        } else {
            assert(body.len() == n - sl);
        }
        assert(dot_pos(body) == i - sl);
        assert(ip =~= s@.subrange(sl as int, i as int));
    }
    let mut frac_acc: u64 = 0;
    let mut frac_len: usize = 0;
    if i < n {
        // The byte at `i` is the dot; everything after it is the fraction.
        let frac_start = i + 1;
        let ghost fp = body.skip(dot_pos(body) + 1);
        proof {
            assert(fp =~= s@.subrange(frac_start as int, n as int));
        }
        let mut j: usize = frac_start;
        while j < n
            invariant
                n == s@.len(),
                frac_start <= j <= n,
                j - frac_start <= 4,
                fp == s@.subrange(frac_start as int, n as int),
                all_digits(s@.subrange(frac_start as int, j as int)),
                frac_acc == digits_val(s@.subrange(frac_start as int, j as int)),
                frac_acc < pow10((j - frac_start) as nat),
            decreases n - j,
        {
            let b = s[j];
            if b < 0x30 || b > 0x39 {
                proof {
                    assert(fp[j - frac_start] == s@[j as int]);
                    assert(!all_digits(fp));
                }
                return None;
            }
            if j - frac_start == 4 {
                proof {
                    assert(fp.len() > 4);
                }
                return None;
            }
            proof {
                assert(frac_acc < 10000) by {
                    lemma_pow10_values();
                    lemma_pow10_mono((j - frac_start) as nat, 4);
                };
                assert(s@.subrange(frac_start as int, j + 1).drop_last() =~= s@.subrange(
                    frac_start as int,
                    j as int,
                ));
            }
            frac_acc = frac_acc * 10 + (b - 0x30) as u64;
            j += 1;
        }
        frac_len = j - frac_start;
        proof {
            assert(fp =~= s@.subrange(frac_start as int, j as int));
        }
    }
    if int_len == 0 && frac_len == 0 {
        return None;
    }
    let scale: u64 = if frac_len == 0 {
        10000
    } else if frac_len == 1 {
        1000
    } else if frac_len == 2 {
        100
    } else if frac_len == 3 {
        10
    } else {
        1
    };
    proof {
        lemma_pow10_values();
        lemma_pow10_mono((i - sl) as nat, 15);
        lemma_pow10_mono(frac_len as nat, 4);
        assert(acc < 1000000000000000);
        assert(frac_acc * scale < 10000);
    }
    let mag: u64 = acc * 10000 + frac_acc * scale;
    if neg {
        let wide: i128 = -(mag as i128);
        if wide < i64::MIN as i128 {
            None
        } else {
            Some(wide as i64)
        }
    } else {
        if mag > i64::MAX as u64 {
            None
        } else {
            Some(mag as i64)
        }
    }
}

} // verus!
