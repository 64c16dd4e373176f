//! Decimal reading and writing of `u32` values.
//!
//! The paginator both reads offsets out of query strings and writes them
//! back into request paths, so both directions are specified here, together
//! with the fact that they invert each other.

use vstd::prelude::*;

verus! {

/// Is `c` an ASCII decimal digit?
pub open spec fn is_digit(c: char) -> bool {
    48 <= c as int <= 57
}

/// The numeric value of a decimal digit character.
pub open spec fn digit_val(c: char) -> nat
    recommends
        is_digit(c),
{
    (c as int - 48) as nat
}

/// The decimal digit character for a value below ten.
pub open spec fn digit_char(d: nat) -> char
    recommends
        d < 10,
{
    seq!['0', '1', '2', '3', '4', '5', '6', '7', '8', '9'][d as int]
}

/// Does `s` consist of decimal digits only?
pub open spec fn all_digits(s: Seq<char>) -> bool {
    forall|i: int| 0 <= i < s.len() ==> is_digit(#[trigger] s[i])
}

/// The number that a digit string denotes, most significant digit first.
pub open spec fn decimal_value(s: Seq<char>) -> nat
    recommends
        all_digits(s),
    decreases s.len(),
{
    if s.len() == 0 {
        0
    } else {
        decimal_value(s.drop_last()) * 10 + digit_val(s.last())
    }
}

/// What parsing a string as a `u32` yields: the denoted number for a
/// non-empty all-digit string whose value fits, and nothing otherwise.
pub open spec fn spec_parse_u32(s: Seq<char>) -> Option<u32> {
    if s.len() > 0 && all_digits(s) && decimal_value(s) <= u32::MAX {
        Some(decimal_value(s) as u32)
    } else {
        None
    }
}

/// The canonical decimal digit string of a number: no sign, no leading
/// zero except for the number zero itself.
pub open spec fn spec_decimal_digits(n: nat) -> Seq<char>
    decreases n,
{
    if n < 10 {
        seq![digit_char(n)]
    } else {
        spec_decimal_digits(n / 10) + seq![digit_char(n % 10)]
    }
}

/// A longer all-digit prefix of a digit string never denotes a smaller
/// number.
proof fn lemma_decimal_value_prefix_monotonic(s: Seq<char>, j: int, k: int)
    requires
        0 <= j <= k <= s.len(),
        all_digits(s.take(k)),
    ensures
        decimal_value(s.take(j)) <= decimal_value(s.take(k)),
    decreases k - j,
{
    if j < k {
        lemma_decimal_value_prefix_monotonic(s, j, k - 1);
        assert(s.take(k - 1) =~= s.take(k).drop_last());
        assert(all_digits(s.take(k - 1)));
        assert(decimal_value(s.take(k)) == decimal_value(s.take(k - 1)) * 10 + digit_val(
            s.take(k).last(),
        ));
    }
}

/// Read a `u32` from its decimal notation. Accepts exactly the non-empty
/// all-digit strings whose value fits in a `u32`.
pub fn parse_u32(s: &str) -> (r: Option<u32>)
    ensures
        r == spec_parse_u32(s@),
{
    let n = s.unicode_len();
    if n == 0 {
        return None;
    }
    let mut value: u64 = 0;
    let mut i: usize = 0;
    while i < n
        invariant
            0 < n == s@.len(),
            0 <= i <= n,
            all_digits(s@.take(i as int)),
            value == decimal_value(s@.take(i as int)),
            value <= u32::MAX,
        decreases n - i,
    {
        let c = s.get_char(i);
        let code = c as u32;
        if code < 48 || code > 57 {
            assert(!is_digit(s@[i as int]));
            assert(!all_digits(s@));
            return None;
        }
        let d = code - 48;
        value = value * 10 + (d as u64);
        proof {
            assert(s@.take(i as int) =~= s@.take(i + 1).drop_last());
            assert(s@.take(i + 1).last() == s@[i as int]);
        }
        i = i + 1;
        if value > u32::MAX as u64 {
            proof {
                assert(s@.take(s@.len() as int) =~= s@);
                if all_digits(s@) {
                    lemma_decimal_value_prefix_monotonic(s@, i as int, s@.len() as int);
                    assert(decimal_value(s@) > u32::MAX);
                }
            }
            return None;
        }
    }
    proof {
        assert(s@.take(n as int) =~= s@);
    }
    Some(value as u32)
}

/// Write `n` in decimal notation.
pub fn format_u32(n: u32) -> (r: String)
    ensures
        r@ == spec_decimal_digits(n as nat),
{
    let mut digits: Vec<u32> = Vec::new();
    if n == 0 {
        digits.push(0);
        proof {
            assert(rev_digit_chars(digits@.drop_last()) =~= Seq::<char>::empty());
            assert(rev_digit_chars(digits@) =~= seq![digit_char(0)]);
        }
    } else {
        let mut m = n;
        proof {
            assert(rev_digit_chars(digits@) =~= Seq::<char>::empty());
            assert(spec_decimal_digits(n as nat) + rev_digit_chars(digits@)
                =~= spec_decimal_digits(n as nat));
        }
        while m > 0
            invariant
                forall|j: int| 0 <= j < digits@.len() ==> #[trigger] digits@[j] < 10,
                spec_decimal_digits(n as nat) == if m == 0 {
                    rev_digit_chars(digits@)
                } else {
                    spec_decimal_digits(m as nat) + rev_digit_chars(digits@)
                },
                m > 0 || digits@.len() > 0,
            decreases m,
        {
            let d = m % 10;
            let next = m / 10;
            let ghost pre = digits@;
            digits.push(d);
            proof {
                assert(digits@.drop_last() =~= pre);
                assert(digits@.last() == d);
                assert(rev_digit_chars(digits@) =~= seq![digit_char(d as nat)]
                    + rev_digit_chars(pre));
                if next > 0 {
                    assert(spec_decimal_digits(m as nat) == spec_decimal_digits(next as nat)
                        + seq![digit_char((m % 10) as nat)]);
                    assert(spec_decimal_digits(next as nat) + rev_digit_chars(digits@)
                        =~= (spec_decimal_digits(next as nat) + seq![digit_char(d as nat)])
                            + rev_digit_chars(pre));
                } else {
                    assert(spec_decimal_digits(m as nat) =~= seq![digit_char(d as nat)]);
                    assert(spec_decimal_digits(m as nat) + rev_digit_chars(pre)
                        =~= rev_digit_chars(digits@));
                }
            }
            m = next;
        }
    }
    let mut r = String::new();
    let mut k = digits.len();
    proof {
        assert(digits@.take(k as int) =~= digits@);
        assert(r@ + rev_digit_chars(digits@.take(k as int)) =~= rev_digit_chars(digits@));
    }
    while k > 0
        invariant
            k <= digits@.len(),
            forall|j: int| 0 <= j < digits@.len() ==> #[trigger] digits@[j] < 10,
            r@ + rev_digit_chars(digits@.take(k as int)) == rev_digit_chars(digits@),
        decreases k,
    {
        let d = digits[k - 1];
        let piece = digit_str(d);
        r.append(piece);
        proof {
            assert(digits@.take(k as int).drop_last() =~= digits@.take(k - 1));
            assert(digits@.take(k as int).last() == digits@[k - 1]);
        }
        k = k - 1;
    }
    proof {
        assert(digits@.take(digits@.len() as int) =~= digits@);
        assert(digits@.take(0int) =~= Seq::<u32>::empty());
        assert(r@ + rev_digit_chars(digits@.take(0int)) =~= r@);
    }
    r
}

/// The digit characters of a least-significant-first digit sequence, read
/// back most significant first.
spec fn rev_digit_chars(ds: Seq<u32>) -> Seq<char>
    decreases ds.len(),
{
    if ds.len() == 0 {
        Seq::empty()
    } else {
        seq![digit_char(ds.last() as nat)] + rev_digit_chars(ds.drop_last())
    }
}

/// The one-character string of a decimal digit value.
fn digit_str(d: u32) -> (r: &'static str)
    requires
        d < 10,
    ensures
        r@ =~= seq![digit_char(d as nat)],
{
    let table = "0123456789";
    proof {
        reveal_strlit("0123456789");
    }
    table.substring_ascii(d as usize, d as usize + 1)
}

/// Writing a number in decimal and reading it back yields the number: the
/// digit string is non-empty, all digits, and denotes the number itself.
pub proof fn lemma_decimal_round_trip(n: u32)
    ensures
        spec_parse_u32(spec_decimal_digits(n as nat)) == Some(n),
{
    lemma_decimal_digits_value(n as nat);
}

/// The decimal digit string of `n` is non-empty, consists of digits, and
/// denotes `n`.
pub proof fn lemma_decimal_digits_value(n: nat)
    ensures
        spec_decimal_digits(n).len() > 0,
        all_digits(spec_decimal_digits(n)),
        decimal_value(spec_decimal_digits(n)) == n,
    decreases n,
{
    lemma_digit_char_val();
    if n < 10 {
        let s = spec_decimal_digits(n);
        assert(s =~= seq![digit_char(n)]);
        assert(s.drop_last() =~= Seq::<char>::empty());
        assert(s.last() == digit_char(n));
        assert(digit_val(digit_char(n)) == n);
        assert(decimal_value(s) == decimal_value(s.drop_last()) * 10 + digit_val(s.last()));
        assert(forall|i: int| 0 <= i < s.len() ==> #[trigger] s[i] == digit_char(n));
    } else {
        lemma_decimal_digits_value(n / 10);
        let prefix = spec_decimal_digits(n / 10);
        let whole = spec_decimal_digits(n);
        assert(whole =~= prefix + seq![digit_char(n % 10)]);
        assert(whole.drop_last() =~= prefix);
        assert(forall|i: int|
            0 <= i < whole.len() ==> is_digit(#[trigger] whole[i]) == if i < prefix.len() {
                is_digit(prefix[i])
            } else {
                is_digit(digit_char(n % 10))
            });
        assert(whole.last() == digit_char(n % 10));
        assert(digit_val(whole.last()) == n % 10);
        assert(decimal_value(whole) == decimal_value(whole.drop_last()) * 10 + digit_val(
            whole.last(),
        ));
        assert(decimal_value(whole) == (n / 10) * 10 + (n % 10));
        assert((n / 10) * 10 + (n % 10) == n) by (nonlinear_arith);
    }
}

/// Each digit value below ten maps to a digit character that maps back to
/// the value.
proof fn lemma_digit_char_val()
    ensures
        forall|d: nat| d < 10 ==> is_digit(#[trigger] digit_char(d)) && digit_val(digit_char(d))
            == d,
{
    assert forall|d: nat| d < 10 implies is_digit(#[trigger] digit_char(d)) && digit_val(
        digit_char(d),
    ) == d by {
        if d == 0 {
        } else if d == 1 {
        } else if d == 2 {
        } else if d == 3 {
        } else if d == 4 {
        } else if d == 5 {
        } else if d == 6 {
        } else if d == 7 {
        } else if d == 8 {
        } else {
            assert(d == 9);
        }
    }
}

} // verus!
