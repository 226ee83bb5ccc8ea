//! Plain-text building blocks for the persistence format: appending
//! characters to strings, decimal rendering and parsing of integers, and
//! fixed-point rendering of millisecond instants as fractional seconds.
use crate::json::is_digit_char;
use vstd::prelude::*;

verus! {

/// Relies on std's `String::push`: appends exactly the one given
/// character to the end of the string.
#[verifier::external_body]
pub fn push_char(s: &mut String, c: char)
    ensures
        final(s)@ == old(s)@.push(c),
{
    s.push(c);
}

/// The characters of a string slice, one per element.
pub fn to_chars(s: &str) -> (r: Vec<char>)
    ensures
        r@ == s@,
{
    let n = s.unicode_len();
    let mut out: Vec<char> = Vec::new();
    let mut i: usize = 0;
    while i < n
        invariant
            i <= n,
            n == s@.len(),
            out@ == s@.take(i as int),
        decreases n - i,
    {
        let c = s.get_char(i);
        out.push(c);
        proof {
            assert(out@ =~= s@.take(i + 1 as int));
        }
        i += 1;
    }
    proof {
        assert(s@.take(n as int) =~= s@);
    }
    out
}

/// The character for one decimal digit.
pub open spec fn digit_of(d: int) -> char {
    if d == 0 {
        '0'
    } else if d == 1 {
        '1'
    } else if d == 2 {
        '2'
    } else if d == 3 {
        '3'
    } else if d == 4 {
        '4'
    } else if d == 5 {
        '5'
    } else if d == 6 {
        '6'
    } else if d == 7 {
        '7'
    } else if d == 8 {
        '8'
    } else {
        '9'
    }
}

/// The value of one digit character.
pub open spec fn digit_val(c: char) -> int {
    c as u32 - '0' as u32
}

/// The canonical decimal rendering of a natural number, most significant
/// digit first.
pub open spec fn dec_digits(n: nat) -> Seq<char>
    decreases n,
{
    if n < 10 {
        seq![digit_of(n as int)]
    } else {
        dec_digits(n / 10).push(digit_of((n % 10) as int))
    }
}

/// The number read from a digit string, most significant digit first.
pub open spec fn val_of(t: Seq<char>) -> int
    decreases t.len(),
{
    if t.len() == 0 {
        0
    } else {
        val_of(t.drop_last()) * 10 + digit_val(t.last())
    }
}

/// Every character of a canonical rendering is a digit, and there is at
/// least one.
pub proof fn lemma_dec_digits_shape(n: nat)
    ensures
        dec_digits(n).len() >= 1,
        forall|i: int| 0 <= i < dec_digits(n).len() ==> is_digit_char(#[trigger] dec_digits(n)[i]),
    decreases n,
{
    if n >= 10 {
        lemma_dec_digits_shape(n / 10);
        assert forall|i: int| 0 <= i < dec_digits(n).len() implies is_digit_char(
            #[trigger] dec_digits(n)[i],
        ) by {
            if i < dec_digits(n).len() - 1 {
                assert(dec_digits(n)[i] == dec_digits(n / 10)[i]);
            }
        }
    }
}

/// Reading back the canonical rendering gives the number itself.
pub proof fn lemma_val_of_dec_digits(n: nat)
    ensures
        val_of(dec_digits(n)) == n,
    decreases n,
{
    if n < 10 {
        assert(dec_digits(n).drop_last() =~= Seq::<char>::empty());
        assert(val_of(Seq::<char>::empty()) == 0);
        assert(val_of(dec_digits(n)) == digit_val(digit_of(n as int)));
        assert(digit_val(digit_of(n as int)) == n);
    } else {
        lemma_val_of_dec_digits(n / 10);
        assert(dec_digits(n).drop_last() =~= dec_digits(n / 10));
        assert(dec_digits(n).last() == digit_of((n % 10) as int));
        assert(digit_val(digit_of((n % 10) as int)) == n % 10);
        assert(val_of(dec_digits(n)) == (n / 10) * 10 + n % 10);
        assert(n / 10 * 10 + n % 10 == n) by (nonlinear_arith);
    }
}

/// The value of a prefix of a digit string never exceeds the value of the
/// whole string.
pub proof fn lemma_val_of_take_le(t: Seq<char>, j: int)
    requires
        0 <= j <= t.len(),
        forall|i: int| 0 <= i < t.len() ==> is_digit_char(#[trigger] t[i]),
    ensures
        0 <= val_of(t.take(j)) <= val_of(t),
    decreases t.len() - j,
{
    if j == t.len() {
        assert(t.take(j) =~= t);
        lemma_val_of_nonneg(t);
    } else {
        lemma_val_of_take_le(t, j + 1);
        assert(t.take(j + 1).drop_last() =~= t.take(j));
        assert(t.take(j + 1).last() == t[j]);
        assert(is_digit_char(t[j]));
        assert(0 <= digit_val(t[j]) <= 9);
        lemma_val_of_nonneg(t.take(j));
    }
}

/// The value of a digit string is never negative.
pub proof fn lemma_val_of_nonneg(t: Seq<char>)
    requires
        forall|i: int| 0 <= i < t.len() ==> is_digit_char(#[trigger] t[i]),
    ensures
        val_of(t) >= 0,
    decreases t.len(),
{
    if t.len() > 0 {
        assert(forall|i: int|
            0 <= i < t.drop_last().len() ==> is_digit_char(#[trigger] t.drop_last()[i]));
        lemma_val_of_nonneg(t.drop_last());
        assert(is_digit_char(t.last()));
    }
}

/// The character for a digit, computed.
pub fn digit_char(d: u64) -> (c: char)
    requires
        d < 10,
    ensures
        c == digit_of(d as int),
{
    match d {
        0 => '0',
        1 => '1',
        2 => '2',
        3 => '3',
        4 => '4',
        5 => '5',
        6 => '6',
        7 => '7',
        8 => '8',
        _ => '9',
    }
}

/// Appends the canonical decimal rendering of `n`.
pub fn push_digits(out: &mut String, n: u64)
    ensures
        final(out)@ == old(out)@ + dec_digits(n as nat),
    decreases n,
{
    if n >= 10 {
        push_digits(out, n / 10);
        let c = digit_char(n % 10);
        push_char(out, c);
        proof {
            assert(final(out)@ =~= old(out)@ + dec_digits(n as nat));
        }
    } else {
        let c = digit_char(n);
        push_char(out, c);
        proof {
            assert(final(out)@ =~= old(out)@ + dec_digits(n as nat));
        }
    }
}

/// The numeric value of one digit character, computed.
pub fn digit_value(c: char) -> (d: u64)
    requires
        is_digit_char(c),
    ensures
        d == digit_val(c),
        d < 10,
{
    (c as u32 - 48) as u64
}

/// Whether the canonical rendering of `n` sits at `pos`, delimited by the
/// end of the text or a non-digit.
pub open spec fn digits_here(s: Seq<char>, pos: int, n: u64) -> bool {
    let t = dec_digits(n as nat);
    &&& pos + t.len() <= s.len()
    &&& s.subrange(pos, pos + t.len()) == t
    &&& (pos + t.len() == s.len() || !is_digit_char(s[pos + t.len()]))
}

/// Reads the longest run of digits starting at `pos` and its value.
/// Gives nothing when there is no digit at `pos` or the value would not
/// fit. On the canonical rendering of any `n`, delimited by a non-digit,
/// it reads back exactly `n`.
pub fn parse_digits(s: &Vec<char>, pos: usize) -> (r: Option<(u64, usize)>)
    ensures
        (r matches Some(p) ==> {
            &&& pos < p.1 <= s@.len()
            &&& (forall|i: int| pos <= i < p.1 ==> is_digit_char(#[trigger] s@[i]))
            &&& (p.1 == s@.len() || !is_digit_char(s@[p.1 as int]))
            &&& val_of(s@.subrange(pos as int, p.1 as int)) == p.0
        }),
        forall|n: u64| #[trigger] digits_here(s@, pos as int, n) ==> r == Some(
            (n, (pos + t_len(n)) as usize),
        ),
{
    let n = s.len();
    if pos >= n || !crate::json::digit_char_test(s[pos]) {
        proof {
            assert forall|m: u64| !(#[trigger] digits_here(s@, pos as int, m)) by {
                if digits_here(s@, pos as int, m) {
                    lemma_dec_digits_shape(m as nat);
                    assert(s@[pos as int] == dec_digits(m as nat)[0]);
                }
            }
        }
        return None;
    }
    let mut cur: usize = pos;
    let mut acc: u64 = 0;
    while cur < n && crate::json::digit_char_test(s[cur])
        invariant
            pos <= cur <= n,
            n == s@.len(),
            forall|i: int| pos <= i < cur ==> is_digit_char(#[trigger] s@[i]),
            val_of(s@.subrange(pos as int, cur as int)) == acc,
            cur == pos ==> is_digit_char(s@[pos as int]),
        decreases n - cur,
    {
        let d = digit_value(s[cur]);
        // The run may encode a number too large to hold; every canonical
        // rendering of a `u64` stays within the guard.
        if acc > (u64::MAX - d) / 10 {
            proof {
                let consumed = s@.subrange(pos as int, cur + 1);
                assert(consumed.drop_last() =~= s@.subrange(pos as int, cur as int));
                assert(consumed.last() == s@[cur as int]);
                assert(val_of(consumed) == acc * 10 + d);
                assert(acc * 10 + d > u64::MAX) by (nonlinear_arith)
                    requires
                        acc > (u64::MAX - d) / 10,
                        d < 10,
                ;
                assert forall|m: u64| !(#[trigger] digits_here(s@, pos as int, m)) by {
                    if digits_here(s@, pos as int, m) {
                        let t = dec_digits(m as nat);
                        lemma_dec_digits_shape(m as nat);
                        lemma_val_of_dec_digits(m as nat);
                        assert(s@.subrange(pos as int, pos + t.len()) == t);
                        if pos + t.len() <= cur {
                            assert(is_digit_char(s@[cur as int]));
                            if pos + t.len() < cur + 1 {
                                assert(is_digit_char(s@[pos + t.len()])) by {
                                    assert(s@[pos + t.len()] == s@[pos + t.len()]);
                                }
                                assert(pos + t.len() < s@.len());
                            }
                        }
                        assert(pos + t.len() >= cur + 1);
                        assert(consumed =~= t.take(cur + 1 - pos));
                        lemma_val_of_take_le(t, cur + 1 - pos);
                        assert(val_of(t) == m);
                    }
                }
            }
            return None;
        }
        proof {
            let consumed = s@.subrange(pos as int, cur + 1);
            assert(consumed.drop_last() =~= s@.subrange(pos as int, cur as int));
            assert(consumed.last() == s@[cur as int]);
            assert(acc * 10 + d <= u64::MAX) by (nonlinear_arith)
                requires
                    acc <= (u64::MAX - d) / 10,
                    d < 10,
            ;
        }
        acc = acc * 10 + d;
        cur += 1;
    }
    proof {
        assert forall|m: u64| #[trigger] digits_here(s@, pos as int, m) implies Some((acc, cur))
            == Some::<(u64, usize)>((m, (pos + t_len(m)) as usize)) by {
            let t = dec_digits(m as nat);
            lemma_dec_digits_shape(m as nat);
            lemma_val_of_dec_digits(m as nat);
            // the scan stops exactly at the end of the rendering
            if pos + t.len() < cur {
                assert(is_digit_char(s@[pos + t.len()]) || pos + t.len() == s@.len());
            }
            if cur < pos + t.len() {
                assert(s@[cur as int] == t[cur - pos]);
                assert(is_digit_char(s@[cur as int]));
            }
            assert(cur == pos + t.len());
            assert(s@.subrange(pos as int, cur as int) == t);
        }
    }
    Some((acc, cur))
}

/// The length of the canonical rendering; a helper for stating where a
/// parse of it ends.
pub open spec fn t_len(n: u64) -> int {
    dec_digits(n as nat).len() as int
}

/// A canonical rendering never starts with a superfluous zero.
pub proof fn lemma_dec_digits_no_leading_zero(n: nat)
    requires
        n >= 1,
    ensures
        dec_digits(n)[0] != '0',
    decreases n,
{
    if n >= 10 {
        lemma_dec_digits_no_leading_zero(n / 10);
        lemma_dec_digits_shape(n / 10);
        assert(dec_digits(n)[0] == dec_digits(n / 10)[0]);
    }
}

/// A digit character is recovered from its value.
pub proof fn lemma_digit_roundtrip(c: char)
    requires
        is_digit_char(c),
    ensures
        digit_of(digit_val(c)) == c,
{
}

/// A digit string that starts with a nonzero digit has a positive value.
pub proof fn lemma_val_of_first_pos(t: Seq<char>)
    requires
        t.len() >= 1,
        forall|i: int| 0 <= i < t.len() ==> is_digit_char(#[trigger] t[i]),
        digit_val(t[0]) >= 1,
    ensures
        val_of(t) >= 1,
    decreases t.len(),
{
    if t.len() == 1 {
        assert(t.drop_last() =~= Seq::<char>::empty());
        assert(val_of(Seq::<char>::empty()) == 0);
        assert(t.last() == t[0]);
    } else {
        let dl = t.drop_last();
        assert(forall|i: int| 0 <= i < dl.len() ==> is_digit_char(#[trigger] dl[i])) by {
            assert(forall|i: int| 0 <= i < dl.len() ==> dl[i] == t[i]);
        }
        assert(dl[0] == t[0]);
        lemma_val_of_first_pos(dl);
        assert(val_of(dl) * 10 >= 10) by (nonlinear_arith)
            requires
                val_of(dl) >= 1,
        ;
        assert(is_digit_char(t.last()));
    }
}

/// A digit string without a superfluous leading zero is the canonical
/// rendering of its value.
pub proof fn lemma_canonical_digits(t: Seq<char>)
    requires
        t.len() >= 1,
        forall|i: int| 0 <= i < t.len() ==> is_digit_char(#[trigger] t[i]),
        t.len() > 1 ==> digit_val(t[0]) >= 1,
    ensures
        0 <= val_of(t),
        dec_digits(val_of(t) as nat) == t,
    decreases t.len(),
{
    lemma_val_of_nonneg(t);
    if t.len() == 1 {
        assert(val_of(t.drop_last()) == 0) by {
            assert(t.drop_last() =~= Seq::<char>::empty());
            assert(val_of(Seq::<char>::empty()) == 0);
        }
        assert(val_of(t) == digit_val(t[0]));
        lemma_digit_roundtrip(t[0]);
        assert(dec_digits(val_of(t) as nat) =~= t);
    } else {
        let dl = t.drop_last();
        assert(forall|i: int| 0 <= i < dl.len() ==> is_digit_char(#[trigger] dl[i])) by {
            assert(forall|i: int| 0 <= i < dl.len() ==> dl[i] == t[i]);
        }
        assert(dl[0] == t[0]);
        if dl.len() > 1 {
            assert(digit_val(dl[0]) >= 1);
        }
        lemma_canonical_digits(dl);
        lemma_val_of_first_pos(dl);
        let m = val_of(t);
        let d = digit_val(t.last());
        assert(is_digit_char(t.last()));
        assert(0 <= d <= 9);
        assert(m == val_of(dl) * 10 + d);
        assert(m >= 10) by (nonlinear_arith)
            requires
                val_of(dl) >= 1,
                d >= 0,
                m == val_of(dl) * 10 + d,
        ;
        assert(m / 10 == val_of(dl) && m % 10 == d) by (nonlinear_arith)
            requires
                m == val_of(dl) * 10 + d,
                0 <= d <= 9,
                val_of(dl) >= 0,
        ;
        lemma_digit_roundtrip(t.last());
        assert(dec_digits(m as nat) == dec_digits((m as nat) / 10).push(
            digit_of(((m as nat) % 10) as int),
        ));
        assert((m as nat) / 10 == val_of(dl) && (m as nat) % 10 == d);
        assert(dec_digits(m as nat) =~= t);
    }
}

} // verus!
