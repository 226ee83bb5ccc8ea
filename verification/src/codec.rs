//! The persistence format: one structured text document for the whole
//! store. Strings are quoted with `"` and `\` escaped; instants are
//! written as seconds with three fraction digits; documents are written in
//! the usual bracket syntax with no surrounding whitespace. The parser
//! accepts exactly what the renderer emits, so a rendered store reads back
//! unchanged; any other text makes the store start empty.
use crate::json::arr_model;
use crate::json::digit_char_test;
use crate::json::is_digit_char;
use crate::json::is_num_char;
use crate::json::num_char_test;
use crate::json::obj_model;
use crate::json::wf_json;
use crate::json::wf_num_text;
use crate::json::Json;
use crate::json::JsonValue;
use crate::store::CacheEntry;
use crate::store::EntryModel;
use crate::store::unique_keys;
use crate::text::to_chars;
use vstd::string::StringExecFns;
use crate::text::dec_digits;
use crate::text::digit_char;
use crate::text::digit_of;
use crate::text::digit_val;
use crate::text::digit_value;
use crate::text::digits_here;
use crate::text::lemma_dec_digits_shape;
use crate::text::lemma_val_of_dec_digits;
use crate::text::parse_digits;
use crate::text::push_char;
use crate::text::push_digits;
use crate::text::t_len;
use crate::text::val_of;
use vstd::prelude::*;

verus! {

/// Characters that the string encoding escapes.
pub open spec fn is_escaped_char(c: char) -> bool {
    c == '"' || c == '\\'
}

/// The encoding of one string character.
pub open spec fn esc(c: char) -> Seq<char> {
    if is_escaped_char(c) {
        seq!['\\', c]
    } else {
        seq![c]
    }
}

/// The encoding of a string's characters (without the quotes).
pub open spec fn esc_seq(s: Seq<char>) -> Seq<char>
    decreases s.len(),
{
    if s.len() == 0 {
        Seq::empty()
    } else {
        esc_seq(s.drop_last()) + esc(s.last())
    }
}

/// Escaping distributes over concatenation.
pub proof fn lemma_esc_seq_cat(a: Seq<char>, b: Seq<char>)
    ensures
        esc_seq(a + b) == esc_seq(a) + esc_seq(b),
    decreases b.len(),
{
    if b.len() == 0 {
        assert(a + b =~= a);
        assert(esc_seq(b) =~= Seq::<char>::empty());
        assert(esc_seq(a) + esc_seq(b) =~= esc_seq(a));
    } else {
        lemma_esc_seq_cat(a, b.drop_last());
        assert((a + b).drop_last() =~= a + b.drop_last());
        assert((a + b).len() > 0);
        assert((a + b).last() == b.last());
        assert(esc_seq(a + b) =~= esc_seq(a) + esc_seq(b));
    }
}

/// The encoding of a string starts with the encoding of its first
/// character.
pub proof fn lemma_esc_seq_front(s: Seq<char>)
    requires
        s.len() > 0,
    ensures
        esc_seq(s) == esc(s[0]) + esc_seq(s.drop_first()),
{
    assert(s =~= seq![s[0]] + s.drop_first());
    lemma_esc_seq_cat(seq![s[0]], s.drop_first());
    assert(seq![s[0]].drop_last() =~= Seq::<char>::empty());
    assert(esc_seq(Seq::<char>::empty()) =~= Seq::<char>::empty());
    assert(seq![s[0]].last() == s[0]);
    assert(esc_seq(seq![s[0]]) =~= esc(s[0]));
}

/// An encoded string is at least as long as the string.
pub proof fn lemma_esc_seq_len(s: Seq<char>)
    ensures
        esc_seq(s).len() >= s.len(),
    decreases s.len(),
{
    if s.len() > 0 {
        lemma_esc_seq_len(s.drop_last());
    }
}

/// Whether the encoding of string `k`, closed by a quote, sits at `pos`.
pub open spec fn string_body_here(s: Seq<char>, pos: int, k: Seq<char>) -> bool {
    &&& pos + esc_seq(k).len() + 1 <= s.len()
    &&& s.subrange(pos, pos + esc_seq(k).len()) == esc_seq(k)
    &&& s[pos + esc_seq(k).len()] == '"'
}

/// What the scanner knows half-way through a string body: the consumed
/// region encodes `acc`, and any string whose closed encoding sits at
/// `pos` starts with `acc`.
proof fn lemma_string_step(s: Seq<char>, pos: int, cur: int, acc: Seq<char>, k: Seq<char>)
    requires
        0 <= pos <= cur <= s.len(),
        esc_seq(acc) == s.subrange(pos, cur),
        string_body_here(s, pos, k),
        acc.len() <= k.len(),
        k.take(acc.len() as int) == acc,
    ensures
        esc_seq(k) == esc_seq(acc) + esc_seq(k.skip(acc.len() as int)),
        esc_seq(k).len() == (cur - pos) + esc_seq(k.skip(acc.len() as int)).len(),
        k.skip(acc.len() as int).len() == 0 ==> cur < s.len() && s[cur] == '"' && k == acc,
        k.skip(acc.len() as int).len() > 0 ==> {
            let rest = k.skip(acc.len() as int);
            &&& cur < s.len()
            &&& esc_seq(rest).len() > 0
            &&& s[cur] == esc(rest[0])[0]
            &&& (is_escaped_char(rest[0]) ==> cur + 1 < s.len() && esc_seq(rest).len() >= 2 && s[cur
                + 1] == rest[0] && s[cur] == '\\')
            &&& (!is_escaped_char(rest[0]) ==> s[cur] == rest[0])
        },
{
    let rest = k.skip(acc.len() as int);
    assert(k =~= acc + rest);
    lemma_esc_seq_cat(acc, rest);
    assert(esc_seq(k) == esc_seq(acc) + esc_seq(rest));
    let len_k = esc_seq(k).len();
    assert(esc_seq(acc).len() == cur - pos);
    if rest.len() == 0 {
        assert(esc_seq(rest) =~= Seq::<char>::empty());
        assert(len_k == cur - pos);
        assert(s[pos + len_k] == '"');
        assert(k =~= acc);
    } else {
        lemma_esc_seq_front(rest);
        assert(esc_seq(rest).len() >= 1);
        assert(cur < pos + len_k);
        assert(pos + len_k < s.len());
        assert(s.subrange(pos, pos + len_k) == esc_seq(k));
        assert(s[cur] == esc_seq(k)[cur - pos]);
        assert(esc_seq(k)[cur - pos] == esc_seq(rest)[0]);
        assert(esc_seq(rest)[0] == esc(rest[0])[0]);
        if is_escaped_char(rest[0]) {
            assert(esc(rest[0]) =~= seq!['\\', rest[0]]);
            assert(esc_seq(rest).len() >= 2) by {
                lemma_esc_seq_len(rest.drop_first());
            }
            assert(cur + 1 < pos + len_k);
            assert(s[cur + 1] == esc_seq(k)[cur + 1 - pos]);
            assert(esc_seq(k)[cur + 1 - pos] == esc_seq(rest)[1]);
            assert(esc_seq(rest)[1] == esc(rest[0])[1]);
        }
    }
}

/// Reads a string body starting just after the opening quote, up to and
/// including the closing quote. Returns the decoded string and the index
/// after the quote. Reads back exactly what `esc_seq` emits.
pub fn parse_string_body(s: &Vec<char>, pos: usize) -> (r: Option<(String, usize)>)
    requires
        pos <= s@.len(),
    ensures
        (r matches Some(p) ==> {
            &&& pos < p.1 <= s@.len()
            &&& esc_seq(p.0@) == s@.subrange(pos as int, p.1 - 1)
            &&& s@[p.1 - 1] == '"'
        }),
        forall|k: Seq<char>| #[trigger]
            string_body_here(s@, pos as int, k) ==> (r matches Some(p) && p.0@ == k && p.1 == pos
                + esc_seq(k).len() + 1),
{
    let n = s.len();
    let mut cur: usize = pos;
    let mut acc = String::new();
    proof {
        assert(esc_seq(acc@) =~= s@.subrange(pos as int, pos as int));
        assert(forall|k: Seq<char>| k.take(0) =~= Seq::<char>::empty());
    }
    loop
        invariant
            pos <= cur <= n,
            n == s@.len(),
            esc_seq(acc@) == s@.subrange(pos as int, cur as int),
            forall|k: Seq<char>| #[trigger]
                string_body_here(s@, pos as int, k) ==> acc@.len() <= k.len() && k.take(
                    acc@.len() as int,
                ) == acc@,
        decreases n - cur,
    {
        if cur >= n {
            proof {
                assert forall|k: Seq<char>| !(#[trigger] string_body_here(s@, pos as int, k)) by {
                    if string_body_here(s@, pos as int, k) {
                        lemma_string_step(s@, pos as int, cur as int, acc@, k);
                    }
                }
            }
            return None;
        }
        let c = s[cur];
        if c == '"' {
            proof {
                assert forall|k: Seq<char>| #[trigger]
                    string_body_here(s@, pos as int, k) implies acc@ == k && cur + 1 == pos
                    + esc_seq(k).len() + 1 by {
                    lemma_string_step(s@, pos as int, cur as int, acc@, k);
                    let rest = k.skip(acc@.len() as int);
                    if rest.len() > 0 {
                        assert(s@[cur as int] == esc(rest[0])[0]);
                        assert(false);
                    }
                }
            }
            return Some((acc, cur + 1));
        }
        if c == '\\' {
            if cur + 1 >= n {
                proof {
                    assert forall|k: Seq<char>| !(#[trigger] string_body_here(s@, pos as int, k)) by {
                        if string_body_here(s@, pos as int, k) {
                            lemma_string_step(s@, pos as int, cur as int, acc@, k);
                            let rest = k.skip(acc@.len() as int);
                            if rest.len() > 0 {
                                if !is_escaped_char(rest[0]) {
                                    assert(s@[cur as int] == rest[0]);
                                }
                            }
                        }
                    }
                }
                return None;
            }
            let d = s[cur + 1];
            if d == '"' || d == '\\' {
                let ghost old_acc = acc@;
                proof {
                    assert forall|k: Seq<char>| #[trigger]
                        string_body_here(s@, pos as int, k) implies old_acc.push(d).len() <= k.len()
                        && k.take(old_acc.push(d).len() as int) == old_acc.push(d) by {
                        lemma_string_step(s@, pos as int, cur as int, old_acc, k);
                        let rest = k.skip(old_acc.len() as int);
                        if rest.len() == 0 {
                            assert(false);
                        } else {
                            if !is_escaped_char(rest[0]) {
                                assert(s@[cur as int] == rest[0]);
                                assert(false);
                            }
                            assert(rest[0] == s@[cur + 1]);
                            assert(k.take(old_acc.len() + 1 as int) =~= old_acc.push(rest[0]));
                        }
                    }
                }
                push_char(&mut acc, d);
                proof {
                    assert(acc@ == old_acc.push(d));
                    assert(acc@.drop_last() =~= old_acc);
                    assert(acc@.last() == d);
                    assert(esc_seq(acc@) == esc_seq(old_acc) + esc(d));
                    assert(esc(d) =~= seq!['\\', d]);
                    assert(esc_seq(acc@) =~= s@.subrange(pos as int, cur + 2));
                }
                cur += 2;
            } else {
                proof {
                    assert forall|k: Seq<char>| !(#[trigger] string_body_here(s@, pos as int, k)) by {
                        if string_body_here(s@, pos as int, k) {
                            lemma_string_step(s@, pos as int, cur as int, acc@, k);
                            let rest = k.skip(acc@.len() as int);
                            if rest.len() > 0 {
                                if !is_escaped_char(rest[0]) {
                                    assert(s@[cur as int] == rest[0]);
                                } else {
                                    assert(s@[cur + 1] == rest[0]);
                                }
                            }
                        }
                    }
                }
                return None;
            }
        } else {
            let ghost old_acc = acc@;
            proof {
                assert forall|k: Seq<char>| #[trigger]
                    string_body_here(s@, pos as int, k) implies old_acc.push(c).len() <= k.len()
                    && k.take(old_acc.push(c).len() as int) == old_acc.push(c) by {
                    lemma_string_step(s@, pos as int, cur as int, old_acc, k);
                    let rest = k.skip(old_acc.len() as int);
                    if rest.len() == 0 {
                        assert(false);
                    } else {
                        if is_escaped_char(rest[0]) {
                            assert(s@[cur as int] == '\\');
                            assert(false);
                        }
                        assert(rest[0] == s@[cur as int]);
                        assert(k.take(old_acc.len() + 1 as int) =~= old_acc.push(rest[0]));
                    }
                }
            }
            push_char(&mut acc, c);
            proof {
                assert(acc@ == old_acc.push(c));
                assert(acc@.drop_last() =~= old_acc);
                assert(acc@.last() == c);
                assert(esc_seq(acc@) == esc_seq(old_acc) + esc(c));
                assert(esc(c) =~= seq![c]);
                assert(esc_seq(acc@) =~= s@.subrange(pos as int, cur + 1));
            }
            cur += 1;
        }
    }
}

/// Appends the escaped form of `content`.
pub fn push_escaped(out: &mut String, content: &str)
    ensures
        final(out)@ == old(out)@ + esc_seq(content@),
{
    let n = content.unicode_len();
    let mut i: usize = 0;
    proof {
        assert(old(out)@ + esc_seq(content@.take(0)) =~= old(out)@);
        assert(esc_seq(content@.take(0)) =~= Seq::<char>::empty());
    }
    while i < n
        invariant
            i <= n,
            n == content@.len(),
            out@ == old(out)@ + esc_seq(content@.take(i as int)),
        decreases n - i,
    {
        let c = content.get_char(i);
        if c == '"' || c == '\\' {
            push_char(out, '\\');
        }
        push_char(out, c);
        proof {
            assert(content@.take(i + 1).drop_last() =~= content@.take(i as int));
            assert(content@.take(i + 1).last() == c);
            assert(esc_seq(content@.take(i + 1)) == esc_seq(content@.take(i as int)) + esc(c));
            assert(out@ =~= old(out)@ + esc_seq(content@.take(i + 1)));
        }
        i += 1;
    }
    proof {
        assert(content@.take(n as int) =~= content@);
    }
}

/// The three zero-padded fraction digits of a millisecond count.
pub open spec fn pad3(f: int) -> Seq<char> {
    seq![digit_of(f / 100), digit_of((f / 10) % 10), digit_of(f % 10)]
}

/// An instant in epoch milliseconds, written as seconds with exactly
/// three fraction digits.
pub open spec fn fixed_text(ms: u64) -> Seq<char> {
    dec_digits((ms / 1000) as nat) + seq!['.'] + pad3((ms % 1000) as int)
}

/// Appends the fixed-point rendering of an instant.
pub fn push_fixed(out: &mut String, ms: u64)
    ensures
        final(out)@ == old(out)@ + fixed_text(ms),
{
    push_digits(out, ms / 1000);
    push_char(out, '.');
    let f = ms % 1000;
    let c1 = digit_char(f / 100);
    let c2 = digit_char((f / 10) % 10);
    let c3 = digit_char(f % 10);
    push_char(out, c1);
    push_char(out, c2);
    push_char(out, c3);
    proof {
        assert(final(out)@ =~= old(out)@ + fixed_text(ms));
    }
}

/// Whether the fixed-point rendering of `ms` sits at `pos`.
pub open spec fn fixed_here(s: Seq<char>, pos: int, ms: u64) -> bool {
    &&& pos + fixed_text(ms).len() <= s.len()
    &&& s.subrange(pos, pos + fixed_text(ms).len()) == fixed_text(ms)
}

/// Reads a fixed-point instant: a canonical run of digits, a point, and
/// exactly three fraction digits. Reads back exactly what `fixed_text`
/// emits, and rejects a seconds part with a superfluous leading zero, so
/// that whatever it accepts re-renders to the consumed text.
pub fn parse_fixed(s: &Vec<char>, pos: usize) -> (r: Option<(u64, usize)>)
    ensures
        (r matches Some(p) ==> pos < p.1 <= s@.len() && s@.subrange(pos as int, p.1 as int)
            == fixed_text(p.0)),
        forall|ms: u64| #[trigger]
            fixed_here(s@, pos as int, ms) ==> r == Some(
                (ms, (pos + fixed_text(ms).len()) as usize),
            ),
{
    let n = s.len();
    proof {
        assert forall|ms: u64| #[trigger]
            fixed_here(s@, pos as int, ms) implies digits_here(s@, pos as int, ms / 1000) by {
            let sec_t = dec_digits((ms / 1000) as nat);
            let ft = fixed_text(ms);
            assert(ft.len() == sec_t.len() + 4);
            assert(s@.subrange(pos as int, pos + sec_t.len()) =~= sec_t) by {
                assert forall|i: int| 0 <= i < sec_t.len() implies s@.subrange(
                    pos as int,
                    pos + sec_t.len(),
                )[i] == sec_t[i] by {
                    assert(s@[pos + i] == ft[i]);
                }
            }
            assert(s@[pos + sec_t.len()] == ft[sec_t.len() as int]);
            assert(ft[sec_t.len() as int] == '.');
            assert(!is_digit_char('.'));
        }
    }
    let first = match parse_digits(s, pos) {
        None => {
            return None;
        },
        Some(p) => p,
    };
    let (sec, p1) = first;
    proof {
        assert forall|ms: u64| #[trigger]
            fixed_here(s@, pos as int, ms) implies sec == ms / 1000 && p1 == pos + t_len(ms / 1000)
            && p1 + 4 <= s@.len() && s@[p1 as int] == '.' by {
            assert(digits_here(s@, pos as int, ms / 1000));
            let sec_t = dec_digits((ms / 1000) as nat);
            let ft = fixed_text(ms);
            assert(s@[pos + sec_t.len()] == ft[sec_t.len() as int]);
        }
    }
    if p1 >= n || p1 > pos + 1 && s[pos] == '0' {
        proof {
            assert forall|ms: u64| !(#[trigger] fixed_here(s@, pos as int, ms)) by {
                if fixed_here(s@, pos as int, ms) {
                    if (ms / 1000) as nat >= 1 {
                        crate::text::lemma_dec_digits_no_leading_zero((ms / 1000) as nat);
                        lemma_dec_digits_shape((ms / 1000) as nat);
                        assert(s@[pos as int] == dec_digits((ms / 1000) as nat)[0]);
                    } else {
                        assert(dec_digits((ms / 1000) as nat).len() == 1);
                    }
                }
            }
        }
        return None;
    }
    if n < 4 || p1 > n - 4 || s[p1] != '.' {
        return None;
    }
    if !digit_char_test(s[p1 + 1]) || !digit_char_test(s[p1 + 2]) || !digit_char_test(s[p1 + 3]) {
        proof {
            assert forall|ms: u64| !(#[trigger] fixed_here(s@, pos as int, ms)) by {
                if fixed_here(s@, pos as int, ms) {
                    let sec_t = dec_digits((ms / 1000) as nat);
                    let ft = fixed_text(ms);
                    let f = (ms % 1000) as int;
                    assert(s@[p1 + 1] == ft[sec_t.len() as int + 1]);
                    assert(s@[p1 + 2] == ft[sec_t.len() as int + 2]);
                    assert(s@[p1 + 3] == ft[sec_t.len() as int + 3]);
                    assert(ft[sec_t.len() as int + 1] == digit_of(f / 100));
                    assert(ft[sec_t.len() as int + 2] == digit_of((f / 10) % 10));
                    assert(ft[sec_t.len() as int + 3] == digit_of(f % 10));
                }
            }
        }
        return None;
    }
    let d1 = digit_value(s[p1 + 1]);
    let d2 = digit_value(s[p1 + 2]);
    let d3 = digit_value(s[p1 + 3]);
    let frac = d1 * 100 + d2 * 10 + d3;
    proof {
        assert forall|ms: u64| #[trigger]
            fixed_here(s@, pos as int, ms) implies frac == ms % 1000 by {
            let sec_t = dec_digits((ms / 1000) as nat);
            let ft = fixed_text(ms);
            let f = (ms % 1000) as int;
            assert(s@[p1 + 1] == ft[sec_t.len() as int + 1]);
            assert(s@[p1 + 2] == ft[sec_t.len() as int + 2]);
            assert(s@[p1 + 3] == ft[sec_t.len() as int + 3]);
            assert(ft[sec_t.len() as int + 1] == digit_of(f / 100));
            assert(ft[sec_t.len() as int + 2] == digit_of((f / 10) % 10));
            assert(ft[sec_t.len() as int + 3] == digit_of(f % 10));
            assert(0 <= f < 1000);
            assert(digit_val(digit_of(f / 100)) == f / 100);
            assert(digit_val(digit_of((f / 10) % 10)) == (f / 10) % 10);
            assert(digit_val(digit_of(f % 10)) == f % 10);
            assert((f / 100) * 100 + ((f / 10) % 10) * 10 + f % 10 == f) by (nonlinear_arith)
                requires
                    0 <= f < 1000,
            ;
        }
    }
    if sec > (u64::MAX - frac) / 1000 {
        proof {
            assert forall|ms: u64| !(#[trigger] fixed_here(s@, pos as int, ms)) by {
                if fixed_here(s@, pos as int, ms) {
                    assert(sec == ms / 1000 && frac == ms % 1000);
                    assert(sec * 1000 + frac == ms) by (nonlinear_arith)
                        requires
                            sec == ms / 1000,
                            frac == ms % 1000,
                    ;
                    assert(sec <= (u64::MAX - frac) / 1000) by (nonlinear_arith)
                        requires
                            sec * 1000 + frac == ms,
                            ms <= u64::MAX,
                            0 <= frac < 1000,
                    ;
                }
            }
        }
        return None;
    }
    proof {
        assert(sec * 1000 + frac <= u64::MAX) by (nonlinear_arith)
            requires
                sec <= (u64::MAX - frac) / 1000,
                0 <= frac < 1000,
        ;
    }
    let ms = sec * 1000 + frac;
    proof {
        assert(ms / 1000 == sec && ms % 1000 == frac) by (nonlinear_arith)
            requires
                ms == sec * 1000 + frac,
                0 <= frac < 1000,
        ;
        let region = s@.subrange(pos as int, p1 as int);
        assert(forall|i: int| 0 <= i < region.len() ==> is_digit_char(#[trigger] region[i])) by {
            assert(forall|i: int| 0 <= i < region.len() ==> region[i] == s@[pos + i]);
        }
        if region.len() > 1 {
            assert(s@[pos as int] != '0');
            assert(region[0] == s@[pos as int]);
            assert(is_digit_char(region[0]));
            assert(digit_val(region[0]) >= 1) by {
                crate::text::lemma_digit_roundtrip(region[0]);
                if digit_val(region[0]) == 0 {
                    assert(digit_of(0) == '0');
                    assert(region[0] == '0');
                }
            }
        }
        crate::text::lemma_canonical_digits(region);
        assert(dec_digits(sec as nat) == region);
        assert(s@.subrange(pos as int, p1 + 4) =~= fixed_text(ms)) by {
            assert(fixed_text(ms) == dec_digits(sec as nat) + seq!['.'] + pad3(frac as int));
            assert(digit_of(frac as int / 100) == s@[p1 + 1]) by {
                crate::text::lemma_digit_roundtrip(s@[p1 + 1]);
                assert(frac as int / 100 == d1) by (nonlinear_arith)
                    requires
                        frac == d1 * 100 + d2 * 10 + d3,
                        0 <= d1 <= 9,
                        0 <= d2 <= 9,
                        0 <= d3 <= 9,
                ;
            }
            assert(digit_of((frac as int / 10) % 10) == s@[p1 + 2]) by {
                crate::text::lemma_digit_roundtrip(s@[p1 + 2]);
                assert((frac as int / 10) % 10 == d2) by (nonlinear_arith)
                    requires
                        frac == d1 * 100 + d2 * 10 + d3,
                        0 <= d1 <= 9,
                        0 <= d2 <= 9,
                        0 <= d3 <= 9,
                ;
            }
            assert(digit_of(frac as int % 10) == s@[p1 + 3]) by {
                crate::text::lemma_digit_roundtrip(s@[p1 + 3]);
                assert(frac as int % 10 == d3) by (nonlinear_arith)
                    requires
                        frac == d1 * 100 + d2 * 10 + d3,
                        0 <= d1 <= 9,
                        0 <= d2 <= 9,
                        0 <= d3 <= 9,
                ;
            }
        }
        assert forall|m2: u64| #[trigger]
            fixed_here(s@, pos as int, m2) implies Some((ms, (p1 + 4) as usize)) == Some::<
            (u64, usize),
        >((m2, (pos + fixed_text(m2).len()) as usize)) by {
            assert(sec == m2 / 1000 && frac == m2 % 1000);
            assert(ms == m2) by (nonlinear_arith)
                requires
                    sec == m2 / 1000,
                    frac == m2 % 1000,
                    ms == sec * 1000 + frac,
            ;
            assert(fixed_text(m2).len() == t_len(m2 / 1000) + 4);
        }
    }
    Some((ms, p1 + 4))
}

/// A quoted, escaped string.
pub open spec fn string_text(k: Seq<char>) -> Seq<char> {
    seq!['"'] + esc_seq(k) + seq!['"']
}

/// The rendering of a document.
pub open spec fn json_text(v: Json) -> Seq<char>
    decreases v,
{
    match v {
        Json::Null => seq!['n', 'u', 'l', 'l'],
        Json::Bool(b) => if b {
            seq!['t', 'r', 'u', 'e']
        } else {
            seq!['f', 'a', 'l', 's', 'e']
        },
        Json::Num(t) => t,
        Json::Str(k) => string_text(k),
        Json::Arr(items) => seq!['['] + elems_text(items) + seq![']'],
        Json::Obj(pairs) => seq!['{'] + members_text(pairs) + seq!['}'],
    }
}

/// The rendering of an array's elements, comma-separated.
pub open spec fn elems_text(items: Seq<Json>) -> Seq<char>
    decreases items,
{
    if items.len() == 0 {
        Seq::empty()
    } else if items.len() == 1 {
        json_text(items[0])
    } else {
        json_text(items[0]) + seq![','] + elems_text(items.drop_first())
    }
}

/// The rendering of an object's members, comma-separated.
pub open spec fn members_text(pairs: Seq<(Seq<char>, Json)>) -> Seq<char>
    decreases pairs,
{
    if pairs.len() == 0 {
        Seq::empty()
    } else if pairs.len() == 1 {
        string_text(pairs[0].0) + seq![':'] + json_text(pairs[0].1)
    } else {
        string_text(pairs[0].0) + seq![':'] + json_text(pairs[0].1) + seq![','] + members_text(
            pairs.drop_first(),
        )
    }
}

/// Every rendering is non-empty and starts with a character that names its
/// variant; the variants' first characters are mutually distinct.
pub proof fn lemma_value_start(v: Json)
    requires
        wf_json(v),
    ensures
        json_text(v).len() >= 1,
        v is Null ==> json_text(v)[0] == 'n',
        v is Bool ==> json_text(v)[0] == (if v->Bool_0 {
            't'
        } else {
            'f'
        }),
        v is Num ==> (is_digit_char(json_text(v)[0]) || json_text(v)[0] == '-') && is_num_char(
            json_text(v)[0],
        ),
        v is Str ==> json_text(v)[0] == '"',
        v is Arr ==> json_text(v)[0] == '[',
        v is Obj ==> json_text(v)[0] == '{',
{
    match v {
        Json::Null => {},
        Json::Bool(b) => {},
        Json::Num(t) => {},
        Json::Str(k) => {
            assert(json_text(v)[0] == '"');
        },
        Json::Arr(items) => {
            assert(json_text(v)[0] == '[');
        },
        Json::Obj(pairs) => {
            assert(json_text(v)[0] == '{');
        },
    }
}

/// Appends a quoted, escaped string.
pub fn push_string_text(out: &mut String, content: &str)
    ensures
        final(out)@ == old(out)@ + string_text(content@),
{
    push_char(out, '"');
    push_escaped(out, content);
    push_char(out, '"');
    proof {
        assert(final(out)@ =~= old(out)@ + string_text(content@));
    }
}

/// Appends the rendering of a document.
pub fn push_value(out: &mut String, v: &JsonValue)
    ensures
        final(out)@ == old(out)@ + json_text(v@),
    decreases v, 0int,
{
    match v {
        JsonValue::Null => {
            push_char(out, 'n');
            push_char(out, 'u');
            push_char(out, 'l');
            push_char(out, 'l');
            proof {
                assert(final(out)@ =~= old(out)@ + json_text(v@));
            }
        },
        JsonValue::Bool(b) => {
            if *b {
                push_char(out, 't');
                push_char(out, 'r');
                push_char(out, 'u');
                push_char(out, 'e');
            } else {
                push_char(out, 'f');
                push_char(out, 'a');
                push_char(out, 'l');
                push_char(out, 's');
                push_char(out, 'e');
            }
            proof {
                assert(final(out)@ =~= old(out)@ + json_text(v@));
            }
        },
        JsonValue::Num(t) => {
            out.append(t.as_str());
        },
        JsonValue::Str(k) => {
            push_string_text(out, k.as_str());
        },
        JsonValue::Arr(items) => {
            push_char(out, '[');
            if items.len() > 0 {
                proof {
                    assert(*v == JsonValue::Arr(*items));
                    assert(decreases_to!(JsonValue::Arr(*items) => *items));
                }
                push_elems(out, items, 0);
                proof {
                    assert(arr_model(items).skip(0) =~= arr_model(items));
                }
            } else {
                proof {
                    assert(arr_model(items).len() == 0);
                }
            }
            push_char(out, ']');
            proof {
                assert(v@ is Arr);
                assert(v@->Arr_0 =~= arr_model(items));
                assert(v@ =~= Json::Arr(arr_model(items)));
                assert(final(out)@ =~= old(out)@ + json_text(v@));
            }
        },
        JsonValue::Obj(pairs) => {
            push_char(out, '{');
            if pairs.len() > 0 {
                proof {
                    assert(*v == JsonValue::Obj(*pairs));
                    assert(decreases_to!(JsonValue::Obj(*pairs) => *pairs));
                }
                push_members(out, pairs, 0);
                proof {
                    assert(obj_model(pairs).skip(0) =~= obj_model(pairs));
                }
            } else {
                proof {
                    assert(obj_model(pairs).len() == 0);
                }
            }
            push_char(out, '}');
            proof {
                assert(v@ is Obj);
                assert(v@->Obj_0 =~= obj_model(pairs));
                assert(v@ =~= Json::Obj(obj_model(pairs)));
                assert(final(out)@ =~= old(out)@ + json_text(v@));
            }
        },
    }
}

/// Appends the elements of an array from index `i` on.
pub fn push_elems(out: &mut String, items: &Vec<JsonValue>, i: usize)
    requires
        i < items@.len(),
    ensures
        final(out)@ == old(out)@ + elems_text(arr_model(items).skip(i as int)),
    decreases items, items@.len() - i, 1int,
{
    let ghost tail = arr_model(items).skip(i as int);
    proof {
        assert(decreases_to!(*items => items@[i as int]));
        assert(tail[0] == arr_model(items)[i as int]);
        assert(arr_model(items)[i as int] == items@[i as int]@);
    }
    push_value(out, &items[i]);
    if i < items.len() - 1 {
        push_char(out, ',');
        push_elems(out, items, i + 1);
        proof {
            assert(tail.drop_first() =~= arr_model(items).skip(i + 1));
            assert(tail.len() > 1);
            assert(elems_text(tail) == json_text(tail[0]) + seq![','] + elems_text(
                tail.drop_first(),
            ));
            assert(final(out)@ =~= old(out)@ + elems_text(tail));
        }
    } else {
        proof {
            assert(tail.len() == 1);
            assert(elems_text(tail) == json_text(tail[0]));
            assert(final(out)@ =~= old(out)@ + elems_text(tail));
        }
    }
}

/// Appends the members of an object from index `i` on.
pub fn push_members(out: &mut String, pairs: &Vec<(String, JsonValue)>, i: usize)
    requires
        i < pairs@.len(),
    ensures
        final(out)@ == old(out)@ + members_text(obj_model(pairs).skip(i as int)),
    decreases pairs, pairs@.len() - i, 1int,
{
    let ghost tail = obj_model(pairs).skip(i as int);
    proof {
        assert(decreases_to!(*pairs => pairs@[i as int]));
        assert(tail[0] == obj_model(pairs)[i as int]);
        assert(obj_model(pairs)[i as int].0 == pairs@[i as int].0@);
        assert(obj_model(pairs)[i as int].1 == pairs@[i as int].1@);
    }
    push_string_text(out, pairs[i].0.as_str());
    push_char(out, ':');
    push_value(out, &pairs[i].1);
    if i < pairs.len() - 1 {
        push_char(out, ',');
        push_members(out, pairs, i + 1);
        proof {
            assert(tail.drop_first() =~= obj_model(pairs).skip(i + 1));
            assert(tail.len() > 1);
            assert(members_text(tail) == string_text(tail[0].0) + seq![':'] + json_text(tail[0].1)
                + seq![','] + members_text(tail.drop_first()));
            assert(final(out)@ =~= old(out)@ + members_text(tail));
        }
    } else {
        proof {
            assert(tail.len() == 1);
            assert(members_text(tail) == string_text(tail[0].0) + seq![':'] + json_text(
                tail[0].1,
            ));
            assert(final(out)@ =~= old(out)@ + members_text(tail));
        }
    }
}

/// Whether the rendering of a well-formed document sits at `pos`,
/// delimited so that a number cannot run on.
pub open spec fn value_here(s: Seq<char>, pos: int, v: Json) -> bool {
    &&& wf_json(v)
    &&& pos + json_text(v).len() <= s.len()
    &&& s.subrange(pos, pos + json_text(v).len()) == json_text(v)
    &&& (pos + json_text(v).len() == s.len() || !is_num_char(s[pos + json_text(v).len()]))
}

/// Whether the rendering of a non-empty element list, closed by `]`, sits
/// at `pos`.
pub open spec fn elems_here(s: Seq<char>, pos: int, items: Seq<Json>) -> bool {
    &&& items.len() >= 1
    &&& (forall|i: int| 0 <= i < items.len() ==> wf_json(#[trigger] items[i]))
    &&& pos + elems_text(items).len() + 1 <= s.len()
    &&& s.subrange(pos, pos + elems_text(items).len()) == elems_text(items)
    &&& s[pos + elems_text(items).len()] == ']'
}

/// Whether the rendering of a non-empty member list, closed by `}`, sits
/// at `pos`.
pub open spec fn members_here(s: Seq<char>, pos: int, pairs: Seq<(Seq<char>, Json)>) -> bool {
    &&& pairs.len() >= 1
    &&& (forall|i: int| 0 <= i < pairs.len() ==> wf_json((#[trigger] pairs[i]).1))
    &&& pos + members_text(pairs).len() + 1 <= s.len()
    &&& s.subrange(pos, pos + members_text(pairs).len()) == members_text(pairs)
    &&& s[pos + members_text(pairs).len()] == '}'
}

/// The shape of an element list's rendering, by its length.
proof fn lemma_elems_split(items: Seq<Json>)
    requires
        items.len() >= 1,
    ensures
        items.len() == 1 ==> elems_text(items) == json_text(items[0]),
        items.len() > 1 ==> elems_text(items) == json_text(items[0]) + seq![','] + elems_text(
            items.drop_first(),
        ),
{
}

/// The shape of a member list's rendering, by its length.
proof fn lemma_members_split(pairs: Seq<(Seq<char>, Json)>)
    requires
        pairs.len() >= 1,
    ensures
        pairs.len() == 1 ==> members_text(pairs) == string_text(pairs[0].0) + seq![':'] + json_text(
            pairs[0].1,
        ),
        pairs.len() > 1 ==> members_text(pairs) == string_text(pairs[0].0) + seq![':'] + json_text(
            pairs[0].1,
        ) + seq![','] + members_text(pairs.drop_first()),
{
}

/// Reads one document rendering starting at `pos`. Accepts exactly the
/// renderings of well-formed documents and nothing else, so the result
/// re-renders to the consumed region; on the rendering of any `v` whose
/// end is visible, it reads back `v` itself.
#[verifier::rlimit(100)]
pub fn parse_value(s: &Vec<char>, pos: usize) -> (r: Option<(JsonValue, usize)>)
    requires
        pos <= s@.len(),
    ensures
        (r matches Some(p) ==> pos < p.1 <= s@.len() && wf_json(p.0@) && s@.subrange(
            pos as int,
            p.1 as int,
        ) == json_text(p.0@)),
        forall|v: Json| #[trigger]
            value_here(s@, pos as int, v) ==> (r matches Some(p) && p.0@ == v && p.1 == pos
                + json_text(v).len()),
    decreases s@.len() - pos, 0int,
{
    let n = s.len();
    if pos >= n {
        proof {
            assert forall|v: Json| !(#[trigger] value_here(s@, pos as int, v)) by {
                if value_here(s@, pos as int, v) {
                    lemma_value_start(v);
                }
            }
        }
        return None;
    }
    let c = s[pos];
    if c == 'n' {
        if n >= 4 && pos <= n - 4 && s[pos + 1] == 'u' && s[pos + 2] == 'l' && s[pos + 3] == 'l' {
            proof {
                assert(s@.subrange(pos as int, pos + 4) =~= json_text(Json::Null));
                assert forall|v: Json| #[trigger]
                    value_here(s@, pos as int, v) implies v == Json::Null && pos + 4 == pos
                    + json_text(v).len() by {
                    lemma_value_start(v);
                    assert(s@[pos as int] == json_text(v)[0]);
                }
            }
            return Some((JsonValue::Null, pos + 4));
        }
        proof {
            assert forall|v: Json| !(#[trigger] value_here(s@, pos as int, v)) by {
                if value_here(s@, pos as int, v) {
                    lemma_value_start(v);
                    assert(s@[pos as int] == json_text(v)[0]);
                    assert(v is Null);
                    assert(pos + 4 <= s@.len());
                    assert(s@[pos + 1] == json_text(v)[1]);
                    assert(s@[pos + 2] == json_text(v)[2]);
                    assert(s@[pos + 3] == json_text(v)[3]);
                }
            }
        }
        return None;
    }
    if c == 't' {
        if n >= 4 && pos <= n - 4 && s[pos + 1] == 'r' && s[pos + 2] == 'u' && s[pos + 3] == 'e' {
            proof {
                assert(s@.subrange(pos as int, pos + 4) =~= json_text(Json::Bool(true)));
                assert forall|v: Json| #[trigger]
                    value_here(s@, pos as int, v) implies v == Json::Bool(true) && pos + 4 == pos
                    + json_text(v).len() by {
                    lemma_value_start(v);
                    assert(s@[pos as int] == json_text(v)[0]);
                }
            }
            return Some((JsonValue::Bool(true), pos + 4));
        }
        proof {
            assert forall|v: Json| !(#[trigger] value_here(s@, pos as int, v)) by {
                if value_here(s@, pos as int, v) {
                    lemma_value_start(v);
                    assert(s@[pos as int] == json_text(v)[0]);
                    assert(v == Json::Bool(true));
                    assert(pos + 4 <= s@.len());
                    assert(s@[pos + 1] == json_text(v)[1]);
                    assert(s@[pos + 2] == json_text(v)[2]);
                    assert(s@[pos + 3] == json_text(v)[3]);
                }
            }
        }
        return None;
    }
    if c == 'f' {
        if n >= 5 && pos <= n - 5 && s[pos + 1] == 'a' && s[pos + 2] == 'l' && s[pos + 3] == 's'
            && s[pos + 4] == 'e' {
            proof {
                assert(s@.subrange(pos as int, pos + 5) =~= json_text(Json::Bool(false)));
                assert forall|v: Json| #[trigger]
                    value_here(s@, pos as int, v) implies v == Json::Bool(false) && pos + 5 == pos
                    + json_text(v).len() by {
                    lemma_value_start(v);
                    assert(s@[pos as int] == json_text(v)[0]);
                }
            }
            return Some((JsonValue::Bool(false), pos + 5));
        }
        proof {
            assert forall|v: Json| !(#[trigger] value_here(s@, pos as int, v)) by {
                if value_here(s@, pos as int, v) {
                    lemma_value_start(v);
                    assert(s@[pos as int] == json_text(v)[0]);
                    assert(v == Json::Bool(false));
                    assert(pos + 5 <= s@.len());
                    assert(s@[pos + 1] == json_text(v)[1]);
                    assert(s@[pos + 2] == json_text(v)[2]);
                    assert(s@[pos + 3] == json_text(v)[3]);
                    assert(s@[pos + 4] == json_text(v)[4]);
                }
            }
        }
        return None;
    }
    if c == '"' {
        proof {
            assert forall|v: Json| #[trigger]
                value_here(s@, pos as int, v) implies v is Str && string_body_here(
                s@,
                pos + 1,
                v->Str_0,
            ) by {
                lemma_value_start(v);
                assert(s@[pos as int] == json_text(v)[0]);
                assert(v is Str);
                let k = v->Str_0;
                assert(json_text(v) == string_text(k));
                let e = esc_seq(k).len() as int;
                assert(string_text(k).len() == e + 2);
                assert(s@.subrange(pos + 1, pos + 1 + e) =~= esc_seq(k)) by {
                    assert forall|i: int| 0 <= i < e implies s@.subrange(pos + 1, pos + 1 + e)[i]
                        == esc_seq(k)[i] by {
                        assert(s@[pos + 1 + i] == json_text(v)[1 + i]);
                        assert(string_text(k)[1 + i] == esc_seq(k)[i]);
                    }
                }
                assert(s@[pos + 1 + e] == json_text(v)[1 + e]);
                assert(string_text(k)[1 + e] == '"');
            }
        }
        let body = match parse_string_body(s, pos + 1) {
            None => {
                return None;
            },
            Some(p) => p,
        };
        let (w, e) = body;
        proof {
            assert(s@.subrange(pos as int, e as int) =~= string_text(w@));
        }
        return Some((JsonValue::Str(w), e));
    }
    if digit_char_test(c) || c == '-' {
        let mut cur: usize = pos;
        let mut text = String::new();
        proof {
            assert(text@ =~= s@.subrange(pos as int, pos as int));
        }
        while cur < n && num_char_test(s[cur])
            invariant
                pos <= cur <= n,
                n == s@.len(),
                text@ == s@.subrange(pos as int, cur as int),
                forall|i: int| pos <= i < cur ==> is_num_char(#[trigger] s@[i]),
            decreases n - cur,
        {
            let ghost old_text = text@;
            push_char(&mut text, s[cur]);
            proof {
                assert(text@ =~= s@.subrange(pos as int, cur + 1));
            }
            cur += 1;
        }
        proof {
            assert(is_num_char(s@[pos as int]));
            assert(cur > pos);
            assert(wf_num_text(text@));
            assert(wf_json(Json::Num(text@)));
            assert(json_text(Json::Num(text@)) == text@);
            assert forall|v: Json| #[trigger]
                value_here(s@, pos as int, v) implies v == Json::Num(text@) && cur == pos
                + json_text(v).len() by {
                lemma_value_start(v);
                assert(s@[pos as int] == json_text(v)[0]);
                assert(v is Num);
                let t = v->Num_0;
                assert(json_text(v) == t);
                assert(forall|i: int| 0 <= i < t.len() ==> is_num_char(#[trigger] t[i]));
                assert forall|i: int| pos <= i < pos + t.len() implies is_num_char(
                    #[trigger] s@[i],
                ) by {
                    assert(s@.subrange(pos as int, pos + t.len())[i - pos] == s@[i]);
                    assert(t[i - pos] == s@[i]);
                    assert(is_num_char(t[i - pos]));
                }
                if cur < pos + t.len() {
                    assert(is_num_char(s@[cur as int]));
                    assert(false);
                }
                if cur > pos + t.len() {
                    assert(is_num_char(s@[pos + t.len()]));
                    assert(pos + t.len() < s@.len());
                    assert(false);
                }
                assert(text@ =~= t);
            }
        }
        return Some((JsonValue::Num(text), cur));
    }
    if c == '[' {
        if pos + 1 < n && s[pos + 1] == ']' {
            let empty: Vec<JsonValue> = Vec::new();
            let out = JsonValue::Arr(empty);
            proof {
                assert(out@ is Arr);
                assert(out@->Arr_0 =~= Seq::<Json>::empty());
                assert(out@ =~= Json::Arr(Seq::<Json>::empty()));
                assert(elems_text(Seq::<Json>::empty()) =~= Seq::<char>::empty());
                assert(s@.subrange(pos as int, pos + 2) =~= json_text(out@));
                assert forall|v: Json| #[trigger]
                    value_here(s@, pos as int, v) implies v == out@ && pos + 2 == pos + json_text(
                    v,
                ).len() by {
                    lemma_value_start(v);
                    assert(s@[pos as int] == json_text(v)[0]);
                    assert(v is Arr);
                    let items = v->Arr_0;
                    if items.len() >= 1 {
                        lemma_elems_split(items);
                        lemma_value_start(items[0]);
                        assert(json_text(v)[1] == elems_text(items)[0]);
                        assert(elems_text(items)[0] == json_text(items[0])[0]);
                        assert(s@[pos + 1] == json_text(v)[1]);
                        assert(false);
                    }
                    assert(elems_text(items) =~= Seq::<char>::empty());
                    assert(v->Arr_0 =~= Seq::<Json>::empty());
                    assert(v =~= Json::Arr(Seq::<Json>::empty()));
                    assert(v == out@);
                }
            }
            return Some((out, pos + 2));
        }
        proof {
            assert forall|v: Json| #[trigger]
                value_here(s@, pos as int, v) implies v is Arr && v->Arr_0.len() >= 1
                && elems_here(s@, pos + 1, v->Arr_0) by {
                lemma_value_start(v);
                assert(s@[pos as int] == json_text(v)[0]);
                assert(v is Arr);
                let items = v->Arr_0;
                let el = elems_text(items).len() as int;
                assert(json_text(v).len() == el + 2);
                assert(s@[pos + 1 + el] == json_text(v)[1 + el]);
                assert(json_text(v)[1 + el] == ']');
                if items.len() == 0 {
                    assert(elems_text(items) =~= Seq::<char>::empty());
                    assert(s@[pos + 1] == ']');
                    assert(pos + 2 <= s@.len());
                    assert(false);
                }
                assert(s@.subrange(pos + 1, pos + 1 + el) =~= elems_text(items)) by {
                    assert forall|i: int| 0 <= i < el implies s@.subrange(pos + 1, pos + 1 + el)[i]
                        == elems_text(items)[i] by {
                        assert(s@[pos + 1 + i] == json_text(v)[1 + i]);
                    }
                }
            }
        }
        let inner = match parse_elems(s, pos + 1) {
            None => {
                return None;
            },
            Some(p) => p,
        };
        let (vs, e) = inner;
        let ghost model = arr_model(&vs);
        let out = JsonValue::Arr(vs);
        proof {
            assert(out@ is Arr);
            assert(out@->Arr_0 =~= model);
            assert(out@ =~= Json::Arr(model));
            assert(s@.subrange(pos as int, e as int) =~= json_text(out@));
        }
        return Some((out, e));
    }
    if c == '{' {
        if pos + 1 < n && s[pos + 1] == '}' {
            let empty: Vec<(String, JsonValue)> = Vec::new();
            let out = JsonValue::Obj(empty);
            proof {
                assert(out@ is Obj);
                assert(out@->Obj_0 =~= Seq::<(Seq<char>, Json)>::empty());
                assert(out@ =~= Json::Obj(Seq::<(Seq<char>, Json)>::empty()));
                assert(members_text(Seq::<(Seq<char>, Json)>::empty()) =~= Seq::<char>::empty());
                assert(s@.subrange(pos as int, pos + 2) =~= json_text(out@));
                assert forall|v: Json| #[trigger]
                    value_here(s@, pos as int, v) implies v == out@ && pos + 2 == pos + json_text(
                    v,
                ).len() by {
                    lemma_value_start(v);
                    assert(s@[pos as int] == json_text(v)[0]);
                    assert(v is Obj);
                    let pairs = v->Obj_0;
                    if pairs.len() >= 1 {
                        lemma_members_split(pairs);
                        assert(json_text(v)[1] == members_text(pairs)[0]);
                        assert(members_text(pairs)[0] == string_text(pairs[0].0)[0]);
                        assert(string_text(pairs[0].0)[0] == '"');
                        assert(s@[pos + 1] == json_text(v)[1]);
                        assert(false);
                    }
                    assert(members_text(pairs) =~= Seq::<char>::empty());
                    assert(v->Obj_0 =~= Seq::<(Seq<char>, Json)>::empty());
                    assert(v =~= Json::Obj(Seq::<(Seq<char>, Json)>::empty()));
                    assert(v == out@);
                }
            }
            return Some((out, pos + 2));
        }
        proof {
            assert forall|v: Json| #[trigger]
                value_here(s@, pos as int, v) implies v is Obj && v->Obj_0.len() >= 1
                && members_here(s@, pos + 1, v->Obj_0) by {
                lemma_value_start(v);
                assert(s@[pos as int] == json_text(v)[0]);
                assert(v is Obj);
                let pairs = v->Obj_0;
                let ml = members_text(pairs).len() as int;
                assert(json_text(v).len() == ml + 2);
                assert(s@[pos + 1 + ml] == json_text(v)[1 + ml]);
                assert(json_text(v)[1 + ml] == '}');
                if pairs.len() == 0 {
                    assert(members_text(pairs) =~= Seq::<char>::empty());
                    assert(s@[pos + 1] == '}');
                    assert(pos + 2 <= s@.len());
                    assert(false);
                }
                assert(s@.subrange(pos + 1, pos + 1 + ml) =~= members_text(pairs)) by {
                    assert forall|i: int| 0 <= i < ml implies s@.subrange(pos + 1, pos + 1 + ml)[i]
                        == members_text(pairs)[i] by {
                        assert(s@[pos + 1 + i] == json_text(v)[1 + i]);
                    }
                }
            }
        }
        let inner = match parse_members(s, pos + 1) {
            None => {
                return None;
            },
            Some(p) => p,
        };
        let (vs, e) = inner;
        let ghost model = obj_model(&vs);
        let out = JsonValue::Obj(vs);
        proof {
            assert(out@ is Obj);
            assert(out@->Obj_0 =~= model);
            assert(out@ =~= Json::Obj(model));
            assert(s@.subrange(pos as int, e as int) =~= json_text(out@));
        }
        return Some((out, e));
    }
    proof {
        assert forall|v: Json| !(#[trigger] value_here(s@, pos as int, v)) by {
            if value_here(s@, pos as int, v) {
                lemma_value_start(v);
                assert(s@[pos as int] == json_text(v)[0]);
            }
        }
    }
    None
}

/// Reads a non-empty, comma-separated element list and its closing `]`.
pub fn parse_elems(s: &Vec<char>, pos: usize) -> (r: Option<(Vec<JsonValue>, usize)>)
    requires
        pos <= s@.len(),
    ensures
        (r matches Some(p) ==> {
            &&& pos < p.1 <= s@.len()
            &&& arr_model(&p.0).len() >= 1
            &&& (forall|i: int|
                0 <= i < arr_model(&p.0).len() ==> wf_json(#[trigger] arr_model(&p.0)[i]))
            &&& s@.subrange(pos as int, p.1 - 1) == elems_text(arr_model(&p.0))
            &&& s@[p.1 - 1] == ']'
        }),
        forall|items: Seq<Json>| #[trigger]
            elems_here(s@, pos as int, items) ==> (r matches Some(p) && arr_model(&p.0) == items
                && p.1 == pos + elems_text(items).len() + 1),
    decreases s@.len() - pos, 1int,
{
    let n = s.len();
    proof {
        assert forall|items: Seq<Json>| #[trigger]
            elems_here(s@, pos as int, items) implies value_here(s@, pos as int, items[0]) by {
            lemma_elems_split(items);
            lemma_value_start(items[0]);
            let jl = json_text(items[0]).len() as int;
            assert(s@.subrange(pos as int, pos + jl) =~= json_text(items[0])) by {
                assert forall|i: int| 0 <= i < jl implies s@.subrange(pos as int, pos + jl)[i]
                    == json_text(items[0])[i] by {
                    assert(s@[pos + i] == elems_text(items)[i]);
                }
            }
            if items.len() == 1 {
                assert(s@[pos + jl] == ']');
            } else {
                assert(s@[pos + jl] == elems_text(items)[jl as int]);
                assert(elems_text(items)[jl as int] == ',');
            }
        }
    }
    let first = match parse_value(s, pos) {
        None => {
            return None;
        },
        Some(p) => p,
    };
    let (v0, e0) = first;
    proof {
        assert forall|items: Seq<Json>| #[trigger]
            elems_here(s@, pos as int, items) implies v0@ == items[0] && e0 == pos + json_text(
            items[0],
        ).len() && e0 < s@.len() && (items.len() == 1 ==> s@[e0 as int] == ']') && (items.len() > 1
            ==> s@[e0 as int] == ',') by {
            lemma_elems_split(items);
            let jl = json_text(items[0]).len() as int;
            if items.len() == 1 {
                assert(s@[pos + jl] == ']');
            } else {
                assert(s@[pos + jl] == elems_text(items)[jl as int]);
                assert(elems_text(items)[jl as int] == ',');
                assert(pos + jl < pos + elems_text(items).len());
            }
        }
    }
    if e0 >= n {
        return None;
    }
    let c = s[e0];
    if c == ']' {
        let mut vs: Vec<JsonValue> = Vec::new();
        vs.push(v0);
        let ghost model = arr_model(&vs);
        proof {
            assert(model =~= seq![v0@]);
            assert(elems_text(model) == json_text(v0@)) by {
                lemma_elems_split(model);
            }
            assert(s@.subrange(pos as int, e0 + 1 - 1) == elems_text(model));
            assert forall|items: Seq<Json>| #[trigger]
                elems_here(s@, pos as int, items) implies model == items && e0 + 1 == pos
                + elems_text(items).len() + 1 by {
                if items.len() > 1 {
                    assert(s@[e0 as int] == ',');
                    assert(false);
                }
                assert(items =~= model);
                lemma_elems_split(items);
            }
        }
        return Some((vs, e0 + 1));
    }
    if c == ',' {
        proof {
            assert forall|items: Seq<Json>| #[trigger]
                elems_here(s@, pos as int, items) implies items.len() > 1 && elems_here(
                s@,
                e0 + 1,
                items.drop_first(),
            ) by {
                if items.len() == 1 {
                    assert(s@[e0 as int] == ']');
                    assert(false);
                }
                lemma_elems_split(items);
                let jl = json_text(items[0]).len() as int;
                let rest_text = elems_text(items.drop_first());
                assert(elems_text(items).len() == jl + 1 + rest_text.len());
                assert(s@.subrange(e0 + 1, e0 + 1 + rest_text.len()) =~= rest_text) by {
                    assert forall|i: int| 0 <= i < rest_text.len() implies s@.subrange(
                        e0 + 1,
                        e0 + 1 + rest_text.len(),
                    )[i] == rest_text[i] by {
                        assert(s@[pos + (jl + 1 + i)] == elems_text(items)[jl + 1 + i]);
                        assert(elems_text(items)[jl + 1 + i] == rest_text[i]);
                    }
                }
                assert(s@[e0 + 1 + rest_text.len()] == s@[pos + elems_text(items).len()]);
                assert(forall|i: int|
                    0 <= i < items.drop_first().len() ==> wf_json(
                        #[trigger] items.drop_first()[i],
                    )) by {
                    assert(forall|i: int|
                        0 <= i < items.drop_first().len() ==> items.drop_first()[i] == items[i
                            + 1]);
                }
            }
        }
        let rest = match parse_elems(s, e0 + 1) {
            None => {
                return None;
            },
            Some(p) => p,
        };
        let (mut vs, e1) = rest;
        let ghost rest_model = arr_model(&vs);
        vs.insert(0, v0);
        let ghost model = arr_model(&vs);
        proof {
            assert(model =~= seq![v0@] + rest_model) by {
                assert(vs@ == rest.0@.insert(0, v0));
                assert forall|i: int| 0 <= i < model.len() implies model[i] == (seq![v0@]
                    + rest_model)[i] by {
                    if i > 0 {
                        assert(vs@[i] == rest.0@[i - 1]);
                    }
                }
            }
            assert(model.len() > 1);
            assert(model[0] == v0@);
            assert(model.drop_first() =~= rest_model);
            lemma_elems_split(model);
            assert(elems_text(model) == json_text(v0@) + seq![','] + elems_text(rest_model));
            assert(s@.subrange(pos as int, e1 - 1) =~= elems_text(model));
            assert forall|items: Seq<Json>| #[trigger]
                elems_here(s@, pos as int, items) implies model == items && e1 == pos + elems_text(
                items,
            ).len() + 1 by {
                assert(items.len() > 1 && elems_here(s@, e0 + 1, items.drop_first()));
                assert(rest_model == items.drop_first());
                assert(model =~= items);
                lemma_elems_split(items);
            }
        }
        return Some((vs, e1));
    }
    None
}

/// Reads a non-empty, comma-separated member list and its closing `}`.
pub fn parse_members(s: &Vec<char>, pos: usize) -> (r: Option<(Vec<(String, JsonValue)>, usize)>)
    requires
        pos <= s@.len(),
    ensures
        (r matches Some(p) ==> {
            &&& pos < p.1 <= s@.len()
            &&& obj_model(&p.0).len() >= 1
            &&& (forall|i: int|
                0 <= i < obj_model(&p.0).len() ==> wf_json((#[trigger] obj_model(&p.0)[i]).1))
            &&& s@.subrange(pos as int, p.1 - 1) == members_text(obj_model(&p.0))
            &&& s@[p.1 - 1] == '}'
        }),
        forall|pairs: Seq<(Seq<char>, Json)>| #[trigger]
            members_here(s@, pos as int, pairs) ==> (r matches Some(p) && obj_model(&p.0) == pairs
                && p.1 == pos + members_text(pairs).len() + 1),
    decreases s@.len() - pos, 1int,
{
    let n = s.len();
    proof {
        assert forall|pairs: Seq<(Seq<char>, Json)>| #[trigger]
            members_here(s@, pos as int, pairs) implies pos < s@.len() && s@[pos as int] == '"'
            && string_body_here(s@, pos + 1, pairs[0].0) by {
            lemma_members_split(pairs);
            let kl = string_text(pairs[0].0).len() as int;
            let el = esc_seq(pairs[0].0).len() as int;
            assert(kl == el + 2);
            assert(s@[pos as int] == members_text(pairs)[0]);
            assert(members_text(pairs)[0] == string_text(pairs[0].0)[0]);
            assert(s@.subrange(pos + 1, pos + 1 + el) =~= esc_seq(pairs[0].0)) by {
                assert forall|i: int| 0 <= i < el implies s@.subrange(pos + 1, pos + 1 + el)[i]
                    == esc_seq(pairs[0].0)[i] by {
                    assert(s@[pos + 1 + i] == members_text(pairs)[1 + i]);
                    assert(members_text(pairs)[1 + i] == string_text(pairs[0].0)[1 + i]);
                    assert(string_text(pairs[0].0)[1 + i] == esc_seq(pairs[0].0)[i]);
                }
            }
            assert(s@[pos + 1 + el] == members_text(pairs)[1 + el]);
            assert(members_text(pairs)[1 + el] == string_text(pairs[0].0)[1 + el]);
            assert(string_text(pairs[0].0)[1 + el] == '"');
        }
    }
    if pos >= n || s[pos] != '"' {
        return None;
    }
    let key = match parse_string_body(s, pos + 1) {
        None => {
            return None;
        },
        Some(p) => p,
    };
    let (k, e0) = key;
    proof {
        assert forall|pairs: Seq<(Seq<char>, Json)>| #[trigger]
            members_here(s@, pos as int, pairs) implies k@ == pairs[0].0 && e0 == pos + string_text(
            pairs[0].0,
        ).len() && e0 < s@.len() && s@[e0 as int] == ':' && value_here(s@, e0 + 1, pairs[0].1) by {
            lemma_members_split(pairs);
            let kl = string_text(pairs[0].0).len() as int;
            let jl = json_text(pairs[0].1).len() as int;
            assert(s@[pos + kl] == members_text(pairs)[kl as int]);
            assert(members_text(pairs)[kl as int] == ':');
            assert(s@.subrange(pos + kl + 1, pos + kl + 1 + jl) =~= json_text(pairs[0].1)) by {
                assert forall|i: int| 0 <= i < jl implies s@.subrange(
                    pos + kl + 1,
                    pos + kl + 1 + jl,
                )[i] == json_text(pairs[0].1)[i] by {
                    assert(s@[pos + (kl + 1 + i)] == members_text(pairs)[kl + 1 + i]);
                    assert(members_text(pairs)[kl + 1 + i] == json_text(pairs[0].1)[i]);
                }
            }
            if pairs.len() == 1 {
                assert(s@[pos + kl + 1 + jl] == '}');
                assert(!is_num_char('}'));
            } else {
                assert(s@[pos + kl + 1 + jl] == members_text(pairs)[kl + 1 + jl]);
                assert(members_text(pairs)[kl + 1 + jl] == ',');
                assert(!is_num_char(','));
            }
        }
    }
    if e0 >= n || s[e0] != ':' {
        return None;
    }
    let val = match parse_value(s, e0 + 1) {
        None => {
            return None;
        },
        Some(p) => p,
    };
    let (v0, e1) = val;
    proof {
        assert forall|pairs: Seq<(Seq<char>, Json)>| #[trigger]
            members_here(s@, pos as int, pairs) implies v0@ == pairs[0].1 && e1 == e0 + 1
            + json_text(pairs[0].1).len() && e1 < s@.len() && (pairs.len() == 1 ==> s@[e1 as int]
            == '}') && (pairs.len() > 1 ==> s@[e1 as int] == ',') by {
            lemma_members_split(pairs);
            let kl = string_text(pairs[0].0).len() as int;
            let jl = json_text(pairs[0].1).len() as int;
            if pairs.len() == 1 {
                assert(s@[pos + kl + 1 + jl] == '}');
            } else {
                assert(s@[pos + kl + 1 + jl] == members_text(pairs)[kl + 1 + jl]);
                assert(members_text(pairs)[kl + 1 + jl] == ',');
                assert(pos + kl + 1 + jl < pos + members_text(pairs).len());
            }
        }
    }
    if e1 >= n {
        return None;
    }
    let c = s[e1];
    if c == '}' {
        let mut vs: Vec<(String, JsonValue)> = Vec::new();
        vs.push((k, v0));
        let ghost model = obj_model(&vs);
        proof {
            assert(model =~= seq![(k@, v0@)]);
            lemma_members_split(model);
            assert(members_text(model) == string_text(k@) + seq![':'] + json_text(v0@));
            assert(s@.subrange(pos as int, e1 + 1 - 1) =~= members_text(model));
            assert forall|pairs: Seq<(Seq<char>, Json)>| #[trigger]
                members_here(s@, pos as int, pairs) implies model == pairs && e1 + 1 == pos
                + members_text(pairs).len() + 1 by {
                if pairs.len() > 1 {
                    assert(s@[e1 as int] == ',');
                    assert(false);
                }
                assert(pairs[0] == (pairs[0].0, pairs[0].1));
                assert(pairs =~= model);
                lemma_members_split(pairs);
            }
        }
        return Some((vs, e1 + 1));
    }
    if c == ',' {
        proof {
            assert forall|pairs: Seq<(Seq<char>, Json)>| #[trigger]
                members_here(s@, pos as int, pairs) implies pairs.len() > 1 && members_here(
                s@,
                e1 + 1,
                pairs.drop_first(),
            ) by {
                if pairs.len() == 1 {
                    assert(s@[e1 as int] == '}');
                    assert(false);
                }
                lemma_members_split(pairs);
                let kl = string_text(pairs[0].0).len() as int;
                let jl = json_text(pairs[0].1).len() as int;
                let rest_text = members_text(pairs.drop_first());
                assert(members_text(pairs).len() == kl + 1 + jl + 1 + rest_text.len());
                assert(s@.subrange(e1 + 1, e1 + 1 + rest_text.len()) =~= rest_text) by {
                    assert forall|i: int| 0 <= i < rest_text.len() implies s@.subrange(
                        e1 + 1,
                        e1 + 1 + rest_text.len(),
                    )[i] == rest_text[i] by {
                        assert(s@[pos + (kl + 1 + jl + 1 + i)] == members_text(pairs)[kl + 1 + jl
                            + 1 + i]);
                        assert(members_text(pairs)[kl + 1 + jl + 1 + i] == rest_text[i]);
                    }
                }
                assert(s@[e1 + 1 + rest_text.len()] == s@[pos + members_text(pairs).len()]);
                assert(forall|i: int|
                    0 <= i < pairs.drop_first().len() ==> wf_json(
                        (#[trigger] pairs.drop_first()[i]).1,
                    )) by {
                    assert(forall|i: int|
                        0 <= i < pairs.drop_first().len() ==> pairs.drop_first()[i] == pairs[i
                            + 1]);
                }
            }
        }
        let rest = match parse_members(s, e1 + 1) {
            None => {
                return None;
            },
            Some(p) => p,
        };
        let (mut vs, e2) = rest;
        let ghost rest_model = obj_model(&vs);
        vs.insert(0, (k, v0));
        let ghost model = obj_model(&vs);
        proof {
            assert(model =~= seq![(k@, v0@)] + rest_model) by {
                assert(vs@ == rest.0@.insert(0, (k, v0)));
                assert forall|i: int| 0 <= i < model.len() implies model[i] == (seq![(k@, v0@)]
                    + rest_model)[i] by {
                    if i > 0 {
                        assert(vs@[i] == rest.0@[i - 1]);
                    }
                }
            }
            assert(model.len() > 1);
            assert(model[0] == (k@, v0@));
            assert(model.drop_first() =~= rest_model);
            lemma_members_split(model);
            assert(members_text(model) == string_text(k@) + seq![':'] + json_text(v0@) + seq![',']
                + members_text(rest_model));
            assert(s@.subrange(pos as int, e2 - 1) =~= members_text(model));
            assert forall|pairs: Seq<(Seq<char>, Json)>| #[trigger]
                members_here(s@, pos as int, pairs) implies model == pairs && e2 == pos
                + members_text(pairs).len() + 1 by {
                assert(pairs.len() > 1 && members_here(s@, e1 + 1, pairs.drop_first()));
                assert(rest_model == pairs.drop_first());
                assert(pairs[0] == (pairs[0].0, pairs[0].1));
                assert(model =~= pairs);
                lemma_members_split(pairs);
            }
        }
        return Some((vs, e2));
    }
    None
}

/// The opening of an entry object, up to its value.
pub open spec fn value_header() -> Seq<char> {
    seq!['{', '"', 'v', 'a', 'l', 'u', 'e', '"', ':']
}

/// The field separator before the deadline.
pub open spec fn expires_header() -> Seq<char> {
    seq![',', '"', 'e', 'x', 'p', 'i', 'r', 'e', 's', '_', 'a', 't', '"', ':']
}

/// The field separator before the sliding flag.
pub open spec fn sliding_header() -> Seq<char> {
    seq![',', '"', 's', 'l', 'i', 'd', 'i', 'n', 'g', '"', ':']
}

/// The field separator before the sliding window.
pub open spec fn ttl_header() -> Seq<char> {
    seq![',', '"', 's', 'l', 'i', 'd', 'i', 'n', 'g', '_', 't', 't', 'l', '"', ':']
}

/// The rendering of one cache entry.
#[verifier::opaque]
pub open spec fn entry_text(e: EntryModel) -> Seq<char> {
    value_header() + json_text(e.value) + expires_header() + fixed_text(e.expires_at)
        + sliding_header() + json_text(Json::Bool(e.sliding)) + ttl_header() + fixed_text(
        e.sliding_ttl,
    ) + seq!['}']
}

/// The rendering of the store's members, comma-separated.
pub open spec fn store_members_text(es: Seq<(Seq<char>, EntryModel)>) -> Seq<char>
    decreases es.len(),
{
    if es.len() == 0 {
        Seq::empty()
    } else if es.len() == 1 {
        string_text(es[0].0) + seq![':'] + entry_text(es[0].1)
    } else {
        string_text(es[0].0) + seq![':'] + entry_text(es[0].1) + seq![','] + store_members_text(
            es.drop_first(),
        )
    }
}

/// The rendering of the whole store: one object mapping keys to entries.
pub open spec fn store_text(es: Seq<(Seq<char>, EntryModel)>) -> Seq<char> {
    seq!['{'] + store_members_text(es) + seq!['}']
}

/// A well-formed entry: its document is well-formed and a non-sliding
/// entry carries a zero window.
pub open spec fn wf_entry(e: EntryModel) -> bool {
    wf_json(e.value) && (!e.sliding ==> e.sliding_ttl == 0)
}

/// Appends exactly the characters of `w`.
pub fn push_chars(out: &mut String, w: &Vec<char>)
    ensures
        final(out)@ == old(out)@ + w@,
{
    let mut i: usize = 0;
    proof {
        assert(old(out)@ + w@.take(0) =~= old(out)@);
    }
    while i < w.len()
        invariant
            i <= w@.len(),
            out@ == old(out)@ + w@.take(i as int),
        decreases w@.len() - i,
    {
        push_char(out, w[i]);
        proof {
            assert(old(out)@ + w@.take(i + 1) =~= (old(out)@ + w@.take(i as int)).push(
                w@[i as int],
            ));
        }
        i += 1;
    }
    proof {
        assert(w@.take(w@.len() as int) =~= w@);
    }
}

/// Whether the characters of `w` sit at `pos`.
pub open spec fn chars_here(s: Seq<char>, pos: int, w: Seq<char>) -> bool {
    pos + w.len() <= s.len() && s.subrange(pos, pos + w.len()) == w
}

/// Consumes exactly the characters of `w`, or nothing if they are not
/// there.
pub fn expect_chars(s: &Vec<char>, pos: usize, w: &Vec<char>) -> (r: Option<usize>)
    requires
        pos <= s@.len(),
    ensures
        r is Some <==> chars_here(s@, pos as int, w@),
        r matches Some(e) ==> e == pos + w@.len() && pos <= e <= s@.len(),
{
    let n = s.len();
    let m = w.len();
    if m > n - pos {
        return None;
    }
    let mut i: usize = 0;
    while i < m
        invariant
            i <= m,
            m == w@.len(),
            n == s@.len(),
            pos + m <= n,
            forall|j: int| 0 <= j < i ==> s@[pos + j] == w@[j],
        decreases m - i,
    {
        if s[pos + i] != w[i] {
            proof {
                assert(s@.subrange(pos as int, pos + w@.len())[i as int] == s@[pos + i]);
            }
            return None;
        }
        i += 1;
    }
    proof {
        assert(s@.subrange(pos as int, pos + w@.len()) =~= w@);
    }
    Some(pos + m)
}

/// Whether the rendering of entry `e` sits at `pos`.
pub open spec fn entry_here(s: Seq<char>, pos: int, e: EntryModel) -> bool {
    &&& wf_entry(e)
    &&& pos + entry_text(e).len() <= s.len()
    &&& s.subrange(pos, pos + entry_text(e).len()) == entry_text(e)
}

/// Appends the rendering of one cache entry.
pub fn push_entry(out: &mut String, entry: &CacheEntry)
    ensures
        final(out)@ == old(out)@ + entry_text(entry@),
{
    let vh = to_chars("{\"value\":");
    proof {
        reveal_strlit("{\"value\":");
        assert(vh@ =~= value_header());
    }
    push_chars(out, &vh);
    push_value(out, &entry.value);
    let eh = to_chars(",\"expires_at\":");
    proof {
        reveal_strlit(",\"expires_at\":");
        assert(eh@ =~= expires_header());
    }
    push_chars(out, &eh);
    push_fixed(out, entry.expires_at);
    let sh = to_chars(",\"sliding\":");
    proof {
        reveal_strlit(",\"sliding\":");
        assert(sh@ =~= sliding_header());
    }
    push_chars(out, &sh);
    let flag = JsonValue::Bool(entry.sliding);
    push_value(out, &flag);
    let th = to_chars(",\"sliding_ttl\":");
    proof {
        reveal_strlit(",\"sliding_ttl\":");
        assert(th@ =~= ttl_header());
    }
    push_chars(out, &th);
    push_fixed(out, entry.sliding_ttl);
    push_char(out, '}');
    proof {
        reveal(entry_text);
        assert(final(out)@ =~= old(out)@ + entry_text(entry@));
    }
}

/// Reads one cache entry, written exactly as `entry_text` lays it out.
#[verifier::rlimit(100)]
pub fn parse_entry(s: &Vec<char>, pos: usize) -> (r: Option<(CacheEntry, usize)>)
    requires
        pos <= s@.len(),
    ensures
        (r matches Some(p) ==> pos < p.1 <= s@.len() && wf_entry(p.0@) && s@.subrange(
            pos as int,
            p.1 as int,
        ) == entry_text(p.0@)),
        forall|e: EntryModel| #[trigger]
            entry_here(s@, pos as int, e) ==> (r matches Some(p) && p.0@ == e && p.1 == pos
                + entry_text(e).len()),
{
    let n = s.len();
    let vh = to_chars("{\"value\":");
    let eh = to_chars(",\"expires_at\":");
    let sh = to_chars(",\"sliding\":");
    let th = to_chars(",\"sliding_ttl\":");
    let tru = to_chars("true");
    let fal = to_chars("false");
    proof {
        reveal_strlit("{\"value\":");
        reveal_strlit(",\"expires_at\":");
        reveal_strlit(",\"sliding\":");
        reveal_strlit(",\"sliding_ttl\":");
        reveal_strlit("true");
        reveal_strlit("false");
        assert(vh@ =~= value_header());
        assert(eh@ =~= expires_header());
        assert(sh@ =~= sliding_header());
        assert(th@ =~= ttl_header());
        assert(tru@ =~= json_text(Json::Bool(true)));
        assert(fal@ =~= json_text(Json::Bool(false)));
    }
    proof {
        assert forall|e: EntryModel| #[trigger]
            entry_here(s@, pos as int, e) implies chars_here(s@, pos as int, value_header())
            && value_here(s@, pos + value_header().len(), e.value) by {
            lemma_entry_pieces(s@, pos as int, e);
        }
    }
    let p1 = match expect_chars(s, pos, &vh) {
        None => {
            return None;
        },
        Some(p) => p,
    };
    let val = match parse_value(s, p1) {
        None => {
            return None;
        },
        Some(p) => p,
    };
    let (doc, p2) = val;
    proof {
        assert forall|e: EntryModel| #[trigger]
            entry_here(s@, pos as int, e) implies doc@ == e.value && chars_here(
            s@,
            p2 as int,
            expires_header(),
        ) && fixed_here(s@, p2 + expires_header().len(), e.expires_at) by {
            lemma_entry_pieces(s@, pos as int, e);
        }
    }
    let p3 = match expect_chars(s, p2, &eh) {
        None => {
            return None;
        },
        Some(p) => p,
    };
    let exp = match parse_fixed(s, p3) {
        None => {
            return None;
        },
        Some(p) => p,
    };
    let (expires_at, p4) = exp;
    proof {
        assert forall|e: EntryModel| #[trigger]
            entry_here(s@, pos as int, e) implies expires_at == e.expires_at && chars_here(
            s@,
            p4 as int,
            sliding_header(),
        ) && chars_here(
            s@,
            p4 + sliding_header().len(),
            json_text(Json::Bool(e.sliding)),
        ) by {
            lemma_entry_pieces(s@, pos as int, e);
        }
    }
    let p5 = match expect_chars(s, p4, &sh) {
        None => {
            return None;
        },
        Some(p) => p,
    };
    let flag_parse = match expect_chars(s, p5, &tru) {
        Some(p) => Some((true, p)),
        None => match expect_chars(s, p5, &fal) {
            Some(p) => Some((false, p)),
            None => None,
        },
    };
    let flag = match flag_parse {
        None => {
            return None;
        },
        Some(p) => p,
    };
    let (sliding, p6) = flag;
    proof {
        assert forall|e: EntryModel| #[trigger]
            entry_here(s@, pos as int, e) implies sliding == e.sliding && chars_here(
            s@,
            p6 as int,
            ttl_header(),
        ) && fixed_here(s@, p6 + ttl_header().len(), e.sliding_ttl) by {
            lemma_entry_pieces(s@, pos as int, e);
            assert(json_text(Json::Bool(true))[0] == 't');
            assert(json_text(Json::Bool(false))[0] == 'f');
            if e.sliding {
                assert(s@.subrange(p5 as int, p5 + 4)[0] == 't');
            } else {
                assert(s@.subrange(p5 as int, p5 + 5)[0] == 'f');
                if chars_here(s@, p5 as int, tru@) {
                    assert(s@.subrange(p5 as int, p5 + 4)[0] == 't');
                }
            }
        }
    }
    let p7 = match expect_chars(s, p6, &th) {
        None => {
            return None;
        },
        Some(p) => p,
    };
    let ttl = match parse_fixed(s, p7) {
        None => {
            return None;
        },
        Some(p) => p,
    };
    let (sliding_ttl, p8) = ttl;
    proof {
        assert forall|e: EntryModel| #[trigger]
            entry_here(s@, pos as int, e) implies sliding_ttl == e.sliding_ttl && p8 < s@.len()
            && s@[p8 as int] == '}' && p8 + 1 == pos + entry_text(e).len() by {
            lemma_entry_pieces(s@, pos as int, e);
        }
    }
    if p8 >= n || s[p8] != '}' {
        return None;
    }
    if !sliding && sliding_ttl != 0 {
        proof {
            assert forall|e: EntryModel| !(#[trigger] entry_here(s@, pos as int, e)) by {
                if entry_here(s@, pos as int, e) {
                    assert(wf_entry(e));
                }
            }
        }
        return None;
    }
    let entry = CacheEntry { value: doc, expires_at, sliding, sliding_ttl };
    proof {
        reveal(entry_text);
        assert(wf_entry(entry@));
        let flag_text = json_text(Json::Bool(sliding));
        assert(s@.subrange(p5 as int, p6 as int) == flag_text) by {
            if sliding {
                assert(chars_here(s@, p5 as int, tru@));
            } else {
                assert(chars_here(s@, p5 as int, fal@));
            }
        }
        assert(s@.subrange(p8 as int, p8 + 1) =~= seq!['}']) by {
            assert(s@.subrange(p8 as int, p8 + 1)[0] == s@[p8 as int]);
        }
        lemma_concat_join(s@, pos as int, p1 as int, p2 as int, value_header(), json_text(doc@));
        lemma_concat_join(
            s@,
            pos as int,
            p2 as int,
            p3 as int,
            value_header() + json_text(doc@),
            expires_header(),
        );
        lemma_concat_join(
            s@,
            pos as int,
            p3 as int,
            p4 as int,
            value_header() + json_text(doc@) + expires_header(),
            fixed_text(expires_at),
        );
        lemma_concat_join(
            s@,
            pos as int,
            p4 as int,
            p5 as int,
            value_header() + json_text(doc@) + expires_header() + fixed_text(expires_at),
            sliding_header(),
        );
        lemma_concat_join(
            s@,
            pos as int,
            p5 as int,
            p6 as int,
            value_header() + json_text(doc@) + expires_header() + fixed_text(expires_at)
                + sliding_header(),
            flag_text,
        );
        lemma_concat_join(
            s@,
            pos as int,
            p6 as int,
            p7 as int,
            value_header() + json_text(doc@) + expires_header() + fixed_text(expires_at)
                + sliding_header() + flag_text,
            ttl_header(),
        );
        lemma_concat_join(
            s@,
            pos as int,
            p7 as int,
            p8 as int,
            value_header() + json_text(doc@) + expires_header() + fixed_text(expires_at)
                + sliding_header() + flag_text + ttl_header(),
            fixed_text(sliding_ttl),
        );
        lemma_concat_join(
            s@,
            pos as int,
            p8 as int,
            p8 + 1,
            value_header() + json_text(doc@) + expires_header() + fixed_text(expires_at)
                + sliding_header() + flag_text + ttl_header() + fixed_text(sliding_ttl),
            seq!['}'],
        );
        assert(s@.subrange(pos as int, p8 + 1) == entry_text(entry@));
    }
    Some((entry, p8 + 1))
}

/// Where each piece of an entry's rendering sits, given that the whole
/// rendering sits at `pos`.
proof fn lemma_entry_pieces(s: Seq<char>, pos: int, e: EntryModel)
    requires
        0 <= pos,
        entry_here(s, pos, e),
    ensures
        chars_here(s, pos, value_header()),
        value_here(s, pos + value_header().len(), e.value),
        chars_here(
            s,
            pos + value_header().len() + json_text(e.value).len(),
            expires_header(),
        ),
        fixed_here(
            s,
            pos + value_header().len() + json_text(e.value).len() + expires_header().len(),
            e.expires_at,
        ),
        chars_here(
            s,
            pos + value_header().len() + json_text(e.value).len() + expires_header().len()
                + fixed_text(e.expires_at).len(),
            sliding_header(),
        ),
        chars_here(
            s,
            pos + value_header().len() + json_text(e.value).len() + expires_header().len()
                + fixed_text(e.expires_at).len() + sliding_header().len(),
            json_text(Json::Bool(e.sliding)),
        ),
        chars_here(
            s,
            pos + value_header().len() + json_text(e.value).len() + expires_header().len()
                + fixed_text(e.expires_at).len() + sliding_header().len() + json_text(
                Json::Bool(e.sliding),
            ).len(),
            ttl_header(),
        ),
        fixed_here(
            s,
            pos + value_header().len() + json_text(e.value).len() + expires_header().len()
                + fixed_text(e.expires_at).len() + sliding_header().len() + json_text(
                Json::Bool(e.sliding),
            ).len() + ttl_header().len(),
            e.sliding_ttl,
        ),
        s[pos + entry_text(e).len() - 1] == '}',
        entry_text(e).len() == value_header().len() + json_text(e.value).len()
            + expires_header().len() + fixed_text(e.expires_at).len() + sliding_header().len()
            + json_text(Json::Bool(e.sliding)).len() + ttl_header().len() + fixed_text(
            e.sliding_ttl,
        ).len() + 1,
{
    reveal(entry_text);
    let t = entry_text(e);
    let vh = value_header();
    let jv = json_text(e.value);
    let eh = expires_header();
    let fx = fixed_text(e.expires_at);
    let sh = sliding_header();
    let jb = json_text(Json::Bool(e.sliding));
    let th = ttl_header();
    let ft = fixed_text(e.sliding_ttl);
    let p1 = vh;
    let p2 = p1 + jv;
    let p3 = p2 + eh;
    let p4 = p3 + fx;
    let p5 = p4 + sh;
    let p6 = p5 + jb;
    let p7 = p6 + th;
    let p8 = p7 + ft;
    assert(t == p8 + seq!['}']);
    lemma_concat_pieces(s, pos, p8, seq!['}']);
    lemma_concat_pieces(s, pos, p7, ft);
    lemma_concat_pieces(s, pos, p6, th);
    lemma_concat_pieces(s, pos, p5, jb);
    lemma_concat_pieces(s, pos, p4, sh);
    lemma_concat_pieces(s, pos, p3, fx);
    lemma_concat_pieces(s, pos, p2, eh);
    lemma_concat_pieces(s, pos, p1, jv);
    let a0 = value_header().len() as int;
    let a1 = a0 + json_text(e.value).len();
    let a2 = a1 + expires_header().len();
    let a3 = a2 + fixed_text(e.expires_at).len();
    let a4 = a3 + sliding_header().len();
    let a5 = a4 + json_text(Json::Bool(e.sliding)).len();
    let a6 = a5 + ttl_header().len();
    let a7 = a6 + fixed_text(e.sliding_ttl).len();
    assert(t.len() == a7 + 1);
    assert(s.subrange(pos + a7, pos + a7 + 1) == seq!['}']);
    assert(s[pos + a7] == seq!['}'][0]) by {
        assert(s.subrange(pos + a7, pos + a7 + 1)[0] == s[pos + a7]);
    }
    assert(s[pos + a1] == eh[0]) by {
        assert(s.subrange(pos + a1, pos + a2)[0] == s[pos + a1]);
    }
    assert(!is_num_char(','));
}

/// Joins the known contents of two adjacent regions.
proof fn lemma_concat_join(s: Seq<char>, pos: int, mid: int, end: int, a: Seq<char>, b: Seq<char>)
    requires
        0 <= pos <= mid <= end <= s.len(),
        s.subrange(pos, mid) == a,
        s.subrange(mid, end) == b,
    ensures
        s.subrange(pos, end) == a + b,
{
    assert forall|i: int| 0 <= i < end - pos implies s.subrange(pos, end)[i] == (a + b)[i] by {
        assert(s.subrange(pos, end)[i] == s[pos + i]);
        if i < mid - pos {
            assert(s.subrange(pos, mid)[i] == s[pos + i]);
        } else {
            assert(s.subrange(mid, end)[i - (mid - pos)] == s[pos + i]);
        }
    }
    assert(s.subrange(pos, end) =~= a + b);
}

/// Splits the known contents of a region into its two parts.
proof fn lemma_concat_pieces(s: Seq<char>, pos: int, a: Seq<char>, b: Seq<char>)
    requires
        0 <= pos,
        pos + a.len() + b.len() <= s.len(),
        s.subrange(pos, pos + a.len() + b.len()) == a + b,
    ensures
        s.subrange(pos, pos + a.len()) == a,
        s.subrange(pos + a.len(), pos + a.len() + b.len()) == b,
{
    let whole = s.subrange(pos, pos + a.len() + b.len());
    assert forall|i: int| 0 <= i < a.len() implies s.subrange(pos, pos + a.len() as int)[i] == a[i] by {
        assert(whole[i] == s[pos + i]);
        assert(s.subrange(pos, pos + a.len() as int)[i] == s[pos + i]);
        assert((a + b)[i] == a[i]);
    }
    assert(s.subrange(pos, pos + a.len() as int) =~= a);
    assert forall|i: int|
        0 <= i < b.len() implies s.subrange(pos + a.len(), pos + a.len() + b.len())[i] == b[i] by {
        assert(whole[a.len() + i] == s[pos + a.len() + i]);
        assert(s.subrange(pos + a.len(), pos + a.len() + b.len())[i] == s[pos + a.len() + i]);
        assert((a + b)[a.len() + i] == b[i]);
    }
    assert(s.subrange(pos + a.len(), pos + a.len() + b.len()) =~= b);
}

/// The model of a vector of keyed entries, elementwise.
pub open spec fn entries_model(entries: &Vec<(String, CacheEntry)>) -> Seq<(Seq<char>, EntryModel)> {
    Seq::new(entries@.len(), |i: int| (entries@[i].0@, entries@[i].1@))
}

/// The shape of the store members' rendering, by its length.
pub proof fn lemma_store_members_split_pub(es: Seq<(Seq<char>, EntryModel)>)
    requires
        es.len() >= 1,
    ensures
        es.len() == 1 ==> store_members_text(es) == string_text(es[0].0) + seq![':'] + entry_text(
            es[0].1,
        ),
        es.len() > 1 ==> store_members_text(es) == string_text(es[0].0) + seq![':'] + entry_text(
            es[0].1,
        ) + seq![','] + store_members_text(es.drop_first()),
{
}

/// Whether the rendering of a non-empty member list of the store, closed
/// by `}`, sits at `pos`, with unique keys and well-formed entries.
pub open spec fn store_members_here(s: Seq<char>, pos: int, es: Seq<(Seq<char>, EntryModel)>) -> bool {
    &&& es.len() >= 1
    &&& unique_keys(es)
    &&& (forall|i: int| 0 <= i < es.len() ==> wf_entry((#[trigger] es[i]).1))
    &&& pos + store_members_text(es).len() + 1 <= s.len()
    &&& s.subrange(pos, pos + store_members_text(es).len()) == store_members_text(es)
    &&& s[pos + store_members_text(es).len()] == '}'
}

/// Whether some key of the vector reads `key`.
pub fn vec_has_key(entries: &Vec<(String, CacheEntry)>, key: &str) -> (b: bool)
    ensures
        b <==> exists|i: int|
            0 <= i < entries_model(entries).len() && (#[trigger] entries_model(entries)[i]).0
                == key@,
{
    let mut i: usize = 0;
    while i < entries.len()
        invariant
            i <= entries@.len(),
            forall|j: int| 0 <= j < i ==> (#[trigger] entries_model(entries)[j]).0 != key@,
        decreases entries@.len() - i,
    {
        if crate::json::str_eq(entries[i].0.as_str(), key) {
            proof {
                assert(entries_model(entries)[i as int].0 == key@);
            }
            return true;
        }
        i += 1;
    }
    false
}

/// Reads a non-empty, comma-separated list of keyed entries and its
/// closing `}`. Rejects a repeated key, so what it accepts is a valid
/// store image.
#[verifier::rlimit(100)]
pub fn parse_store_members(s: &Vec<char>, pos: usize) -> (r: Option<
    (Vec<(String, CacheEntry)>, usize),
>)
    requires
        pos <= s@.len(),
    ensures
        (r matches Some(p) ==> {
            &&& pos < p.1 <= s@.len()
            &&& entries_model(&p.0).len() >= 1
            &&& unique_keys(entries_model(&p.0))
            &&& (forall|i: int|
                0 <= i < entries_model(&p.0).len() ==> wf_entry(
                    (#[trigger] entries_model(&p.0)[i]).1,
                ))
            &&& s@.subrange(pos as int, p.1 - 1) == store_members_text(entries_model(&p.0))
            &&& s@[p.1 - 1] == '}'
        }),
        forall|es: Seq<(Seq<char>, EntryModel)>| #[trigger]
            store_members_here(s@, pos as int, es) ==> (r matches Some(p) && entries_model(&p.0)
                == es && p.1 == pos + store_members_text(es).len() + 1),
    decreases s@.len() - pos,
{
    let n = s.len();
    proof {
        assert forall|es: Seq<(Seq<char>, EntryModel)>| #[trigger]
            store_members_here(s@, pos as int, es) implies pos < s@.len() && s@[pos as int] == '"'
            && string_body_here(s@, pos + 1, es[0].0) by {
            lemma_store_members_split_pub(es);
            let kl = string_text(es[0].0).len() as int;
            let el = esc_seq(es[0].0).len() as int;
            assert(s@[pos as int] == store_members_text(es)[0]);
            assert(store_members_text(es)[0] == string_text(es[0].0)[0]);
            assert(s@.subrange(pos + 1, pos + 1 + el) =~= esc_seq(es[0].0)) by {
                assert forall|i: int| 0 <= i < el implies s@.subrange(pos + 1, pos + 1 + el)[i]
                    == esc_seq(es[0].0)[i] by {
                    assert(s@[pos + 1 + i] == store_members_text(es)[1 + i]);
                    assert(store_members_text(es)[1 + i] == string_text(es[0].0)[1 + i]);
                    assert(string_text(es[0].0)[1 + i] == esc_seq(es[0].0)[i]);
                }
            }
            assert(s@[pos + 1 + el] == store_members_text(es)[1 + el]);
            assert(store_members_text(es)[1 + el] == string_text(es[0].0)[1 + el]);
            assert(string_text(es[0].0)[1 + el] == '"');
        }
    }
    if pos >= n || s[pos] != '"' {
        return None;
    }
    let key = match parse_string_body(s, pos + 1) {
        None => {
            return None;
        },
        Some(p) => p,
    };
    let (k, e0) = key;
    proof {
        assert forall|es: Seq<(Seq<char>, EntryModel)>| #[trigger]
            store_members_here(s@, pos as int, es) implies k@ == es[0].0 && e0 == pos + string_text(
            es[0].0,
        ).len() && e0 < s@.len() && s@[e0 as int] == ':' && entry_here(s@, e0 + 1, es[0].1) by {
            lemma_store_members_split_pub(es);
            let kl = string_text(es[0].0).len() as int;
            let jl = entry_text(es[0].1).len() as int;
            assert(s@[pos + kl] == store_members_text(es)[kl as int]);
            assert(store_members_text(es)[kl as int] == ':');
            assert(s@.subrange(pos + kl + 1, pos + kl + 1 + jl) =~= entry_text(es[0].1)) by {
                assert forall|i: int| 0 <= i < jl implies s@.subrange(
                    pos + kl + 1,
                    pos + kl + 1 + jl,
                )[i] == entry_text(es[0].1)[i] by {
                    assert(s@[pos + (kl + 1 + i)] == store_members_text(es)[kl + 1 + i]);
                    assert(store_members_text(es)[kl + 1 + i] == entry_text(es[0].1)[i]);
                }
            }
        }
    }
    if e0 >= n || s[e0] != ':' {
        return None;
    }
    let ent = match parse_entry(s, e0 + 1) {
        None => {
            return None;
        },
        Some(p) => p,
    };
    let (entry, e1) = ent;
    proof {
        assert forall|es: Seq<(Seq<char>, EntryModel)>| #[trigger]
            store_members_here(s@, pos as int, es) implies entry@ == es[0].1 && e1 == e0 + 1
            + entry_text(es[0].1).len() && e1 < s@.len() && (es.len() == 1 ==> s@[e1 as int] == '}')
            && (es.len() > 1 ==> s@[e1 as int] == ',') by {
            lemma_store_members_split_pub(es);
            let kl = string_text(es[0].0).len() as int;
            let jl = entry_text(es[0].1).len() as int;
            if es.len() == 1 {
                assert(s@[pos + kl + 1 + jl] == '}');
            } else {
                assert(s@[pos + kl + 1 + jl] == store_members_text(es)[kl + 1 + jl]);
                assert(store_members_text(es)[kl + 1 + jl] == ',');
                assert(pos + kl + 1 + jl < pos + store_members_text(es).len());
            }
        }
    }
    if e1 >= n {
        return None;
    }
    let c = s[e1];
    if c == '}' {
        let mut vs: Vec<(String, CacheEntry)> = Vec::new();
        vs.push((k, entry));
        let ghost model = entries_model(&vs);
        proof {
            assert(model =~= seq![(k@, entry@)]);
            lemma_store_members_split_pub(model);
            assert(store_members_text(model) == string_text(k@) + seq![':'] + entry_text(entry@));
            assert(s@.subrange(pos as int, e1 + 1 - 1) =~= store_members_text(model));
            assert forall|es: Seq<(Seq<char>, EntryModel)>| #[trigger]
                store_members_here(s@, pos as int, es) implies model == es && e1 + 1 == pos
                + store_members_text(es).len() + 1 by {
                if es.len() > 1 {
                    assert(s@[e1 as int] == ',');
                    assert(false);
                }
                assert(es[0] == (es[0].0, es[0].1));
                assert(es =~= model);
                lemma_store_members_split_pub(es);
            }
        }
        return Some((vs, e1 + 1));
    }
    if c == ',' {
        proof {
            assert forall|es: Seq<(Seq<char>, EntryModel)>| #[trigger]
                store_members_here(s@, pos as int, es) implies es.len() > 1 && store_members_here(
                s@,
                e1 + 1,
                es.drop_first(),
            ) && es.drop_first()[0] == es[1] by {
                if es.len() == 1 {
                    assert(s@[e1 as int] == '}');
                    assert(false);
                }
                lemma_store_members_split_pub(es);
                let kl = string_text(es[0].0).len() as int;
                let jl = entry_text(es[0].1).len() as int;
                let rest_text = store_members_text(es.drop_first());
                assert(store_members_text(es).len() == kl + 1 + jl + 1 + rest_text.len());
                assert(s@.subrange(e1 + 1, e1 + 1 + rest_text.len()) =~= rest_text) by {
                    assert forall|i: int| 0 <= i < rest_text.len() implies s@.subrange(
                        e1 + 1,
                        e1 + 1 + rest_text.len(),
                    )[i] == rest_text[i] by {
                        assert(s@[pos + (kl + 1 + jl + 1 + i)] == store_members_text(es)[kl + 1
                            + jl + 1 + i]);
                        assert(store_members_text(es)[kl + 1 + jl + 1 + i] == rest_text[i]);
                    }
                }
                assert(s@[e1 + 1 + rest_text.len()] == s@[pos + store_members_text(es).len()]);
                assert(unique_keys(es.drop_first())) by {
                    assert forall|a: int, b: int|
                        0 <= a < b < es.drop_first().len() implies (#[trigger] es.drop_first()[a]).0
                        != (#[trigger] es.drop_first()[b]).0 by {
                        assert(es.drop_first()[a] == es[a + 1]);
                        assert(es.drop_first()[b] == es[b + 1]);
                    }
                }
                assert(forall|i: int|
                    0 <= i < es.drop_first().len() ==> wf_entry(
                        (#[trigger] es.drop_first()[i]).1,
                    )) by {
                    assert(forall|i: int|
                        0 <= i < es.drop_first().len() ==> es.drop_first()[i] == es[i + 1]);
                }
            }
        }
        let rest = match parse_store_members(s, e1 + 1) {
            None => {
                return None;
            },
            Some(p) => p,
        };
        let (mut vs, e2) = rest;
        if vec_has_key(&vs, k.as_str()) {
            proof {
                assert forall|es: Seq<(Seq<char>, EntryModel)>| !(#[trigger] store_members_here(
                    s@,
                    pos as int,
                    es,
                )) by {
                    if store_members_here(s@, pos as int, es) {
                        assert(entries_model(&rest.0) == es.drop_first());
                        let w = choose|i: int|
                            0 <= i < entries_model(&rest.0).len() && (#[trigger] entries_model(
                                &rest.0,
                            )[i]).0 == k@;
                        assert(es.drop_first()[w] == es[w + 1]);
                        assert(es[w + 1].0 == es[0].0);
                    }
                }
            }
            return None;
        }
        let ghost rest_model = entries_model(&vs);
        vs.insert(0, (k, entry));
        let ghost model = entries_model(&vs);
        proof {
            assert(model =~= seq![(k@, entry@)] + rest_model) by {
                assert(vs@ == rest.0@.insert(0, (k, entry)));
                assert forall|i: int| 0 <= i < model.len() implies model[i] == (seq![(k@, entry@)]
                    + rest_model)[i] by {
                    if i > 0 {
                        assert(vs@[i] == rest.0@[i - 1]);
                    }
                }
            }
            assert(model.len() > 1);
            assert(model[0] == (k@, entry@));
            assert(model.drop_first() =~= rest_model);
            assert(unique_keys(model)) by {
                assert forall|a: int, b: int|
                    0 <= a < b < model.len() implies (#[trigger] model[a]).0 != (
                #[trigger] model[b]).0 by {
                    if a == 0 {
                        assert(model[b] == rest_model[b - 1]);
                        assert(!(exists|i: int|
                            0 <= i < entries_model(&rest.0).len() && (#[trigger] entries_model(
                                &rest.0,
                            )[i]).0 == k@));
                        assert(rest_model[b - 1].0 != k@);
                    } else {
                        assert(model[a] == rest_model[a - 1]);
                        assert(model[b] == rest_model[b - 1]);
                    }
                }
            }
            lemma_store_members_split_pub(model);
            assert(store_members_text(model) == string_text(k@) + seq![':'] + entry_text(entry@)
                + seq![','] + store_members_text(rest_model));
            assert(s@.subrange(pos as int, e2 - 1) =~= store_members_text(model));
            assert forall|es: Seq<(Seq<char>, EntryModel)>| #[trigger]
                store_members_here(s@, pos as int, es) implies model == es && e2 == pos
                + store_members_text(es).len() + 1 by {
                assert(es.len() > 1 && store_members_here(s@, e1 + 1, es.drop_first()));
                assert(rest_model == es.drop_first());
                assert(es[0] == (es[0].0, es[0].1));
                assert(model =~= es);
                lemma_store_members_split_pub(es);
            }
        }
        return Some((vs, e2));
    }
    None
}

/// Appends the members of the store from index `i` on.
pub fn push_store_members(out: &mut String, entries: &Vec<(String, CacheEntry)>, i: usize)
    requires
        i < entries@.len(),
    ensures
        final(out)@ == old(out)@ + store_members_text(entries_model(entries).skip(i as int)),
    decreases entries@.len() - i,
{
    let ghost tail = entries_model(entries).skip(i as int);
    proof {
        assert(tail[0] == entries_model(entries)[i as int]);
    }
    push_string_text(out, entries[i].0.as_str());
    push_char(out, ':');
    push_entry(out, &entries[i].1);
    if i < entries.len() - 1 {
        push_char(out, ',');
        push_store_members(out, entries, i + 1);
        proof {
            assert(tail.drop_first() =~= entries_model(entries).skip(i + 1));
            assert(tail.len() > 1);
            lemma_store_members_split_pub(tail);
            assert(final(out)@ =~= old(out)@ + store_members_text(tail));
        }
    } else {
        proof {
            assert(tail.len() == 1);
            lemma_store_members_split_pub(tail);
            assert(final(out)@ =~= old(out)@ + store_members_text(tail));
        }
    }
}

/// Whether `t` is the rendering of the valid store image `es`.
pub open spec fn store_here(t: Seq<char>, es: Seq<(Seq<char>, EntryModel)>) -> bool {
    &&& unique_keys(es)
    &&& (forall|i: int| 0 <= i < es.len() ==> wf_entry((#[trigger] es[i]).1))
    &&& t == store_text(es)
}

} // verus!
