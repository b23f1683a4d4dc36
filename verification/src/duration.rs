//! Rendering durations as zero-padded `HH:MM` text and parsing that text
//! back, with the round trip proved at minute granularity.

use vstd::prelude::*;
use vstd::string::*;
use crate::strutil::{spec_find, find_sub, lemma_find_at, lemma_find_props};

verus! {

/// The character for one decimal digit.
pub open spec fn digit_char(d: int) -> char {
    if d == 0 {
        '0'
    } else if d == 1 {
        '1'
    } else if d == 2 {
        '2'
    } else if d == 3 {
        '3'
    } else if d == 4 {
        '4'
    } else if d == 5 {
        '5'
    } else if d == 6 {
        '6'
    } else if d == 7 {
        '7'
    } else if d == 8 {
        '8'
    } else {
        '9'
    }
}

/// Decimal text of a non-negative integer, most significant digit first.
pub open spec fn dec_rep(n: int) -> Seq<char>
    decreases n,
{
    if n < 10 {
        seq![digit_char(n)]
    } else {
        dec_rep(n / 10).push(digit_char(n % 10))
    }
}

/// Left-pad with one `'0'` to a width of two.
pub open spec fn pad2(s: Seq<char>) -> Seq<char> {
    if s.len() < 2 {
        seq!['0'] + s
    } else {
        s
    }
}

/// A non-negative duration in seconds as `HH:MM`: whole hours, then the
/// remaining whole minutes, both zero-padded to two digits.  Seconds that do
/// not make a whole minute are dropped.
pub open spec fn spec_format_duration(t: int) -> Seq<char> {
    pad2(dec_rep(t / 3600)) + seq![':'] + pad2(dec_rep((t / 60) % 60))
}

pub open spec fn is_digit(c: char) -> bool {
    '0' <= c && c <= '9'
}

pub open spec fn digit_val(c: char) -> int {
    c as int - '0' as int
}

pub open spec fn all_digits(s: Seq<char>) -> bool {
    forall|i: int| 0 <= i < s.len() ==> is_digit(#[trigger] s[i])
}

/// The value of decimal text, most significant digit first.
pub open spec fn dec_val(s: Seq<char>) -> int
    decreases s.len(),
{
    if s.len() == 0 {
        0
    } else {
        dec_val(s.drop_last()) * 10 + digit_val(s.last())
    }
}

/// What `HH:MM` text means in seconds: the text before the first `':'` is
/// the hours, the exactly-two digits after it the minutes, below sixty.
pub open spec fn spec_parse_duration(s: Seq<char>) -> Option<int> {
    match spec_find(s, seq![':'], 0) {
        None => None,
        Some(i) => {
            let h = s.subrange(0, i);
            let m = s.subrange(i + 1, s.len() as int);
            if h.len() >= 1 && all_digits(h) && m.len() == 2 && all_digits(m) && dec_val(m) < 60 {
                Some(dec_val(h) * 3600 + dec_val(m) * 60)
            } else {
                None
            }
        },
    }
}

fn digit_str(d: u64) -> (r: &'static str)
    requires
        d < 10,
    ensures
        r@ == seq![digit_char(d as int)],
{
    proof {
        reveal_strlit("0");
        reveal_strlit("1");
        reveal_strlit("2");
        reveal_strlit("3");
        reveal_strlit("4");
        reveal_strlit("5");
        reveal_strlit("6");
        reveal_strlit("7");
        reveal_strlit("8");
        reveal_strlit("9");
    }
    let r = if d == 0 {
        "0"
    } else if d == 1 {
        "1"
    } else if d == 2 {
        "2"
    } else if d == 3 {
        "3"
    } else if d == 4 {
        "4"
    } else if d == 5 {
        "5"
    } else if d == 6 {
        "6"
    } else if d == 7 {
        "7"
    } else if d == 8 {
        "8"
    } else {
        "9"
    };
    proof {
        assert(r@ =~= seq![digit_char(d as int)]);
    }
    r
}

fn dec_str(n: u64) -> (r: String)
    ensures
        r@ == dec_rep(n as int),
    decreases n,
{
    if n < 10 {
        String::from_str(digit_str(n))
    } else {
        let mut s = dec_str(n / 10);
        s.append(digit_str(n % 10));
        proof {
            assert(s@ =~= dec_rep(n as int / 10).push(digit_char(n as int % 10)));
        }
        s
    }
}

/// `dec_rep` is one digit for values below ten, longer above.
proof fn lemma_dec_rep_len(n: int)
    requires
        0 <= n,
    ensures
        dec_rep(n).len() >= 1,
        n < 10 ==> dec_rep(n).len() == 1,
        n >= 10 ==> dec_rep(n).len() >= 2,
        n < 100 ==> dec_rep(n).len() <= 2,
    decreases n,
{
    if n >= 10 {
        lemma_dec_rep_len(n / 10);
    }
}

/// Every character `dec_rep` emits is a decimal digit.
proof fn lemma_dec_rep_digits(n: int)
    requires
        0 <= n,
    ensures
        all_digits(dec_rep(n)),
    decreases n,
{
    if n < 10 {
        assert(dec_rep(n) =~= seq![digit_char(n)]);
    } else {
        lemma_dec_rep_digits(n / 10);
        assert forall|i: int| 0 <= i < dec_rep(n).len() implies is_digit(dec_rep(n)[i]) by {
            if i < dec_rep(n / 10).len() {
                assert(dec_rep(n)[i] == dec_rep(n / 10)[i]);
            }
        }
    }
}

proof fn lemma_pad2_digits(s: Seq<char>)
    requires
        all_digits(s),
        s.len() >= 1,
    ensures
        all_digits(pad2(s)),
        pad2(s).len() >= 2,
        s.len() >= 1 ==> pad2(s).len() == if s.len() < 2 { 2int } else { s.len() as int },
{
    if s.len() < 2 {
        assert forall|i: int| 0 <= i < pad2(s).len() implies is_digit(pad2(s)[i]) by {
            if i >= 1 {
                assert(pad2(s)[i] == s[i - 1]);
            }
        }
    }
}

proof fn lemma_digit_round_trip(d: int)
    requires
        0 <= d < 10,
    ensures
        digit_val(digit_char(d)) == d,
{
}

/// Reading back the digits of `n` gives `n`.
proof fn lemma_dec_val_of_rep(n: int)
    requires
        0 <= n,
    ensures
        dec_val(dec_rep(n)) == n,
    decreases n,
{
    if n < 10 {
        lemma_digit_round_trip(n);
        assert(dec_rep(n) =~= seq![digit_char(n)]);
        assert(dec_rep(n).drop_last() =~= Seq::<char>::empty());
        assert(dec_val(dec_rep(n)) == dec_val(Seq::<char>::empty()) * 10 + digit_val(
            digit_char(n),
        ));
    } else {
        lemma_dec_val_of_rep(n / 10);
        lemma_digit_round_trip(n % 10);
        assert(dec_rep(n).drop_last() =~= dec_rep(n / 10));
        assert(dec_rep(n).last() == digit_char(n % 10));
        assert(dec_val(dec_rep(n)) == (n / 10) * 10 + (n % 10));
    }
}

/// A leading zero does not change the value of decimal text.
proof fn lemma_dec_val_pad(s: Seq<char>)
    ensures
        dec_val(pad2(s)) == dec_val(s),
    decreases s.len(),
{
    if s.len() < 2 {
        lemma_dec_val_zero_prepend(s);
    }
}

proof fn lemma_dec_val_zero_prepend(s: Seq<char>)
    ensures
        dec_val(seq!['0'] + s) == dec_val(s),
    decreases s.len(),
{
    if s.len() == 0 {
        assert(seq!['0'] + s =~= seq!['0']);
        assert(dec_val(seq!['0']) == dec_val(seq!['0'].drop_last()) * 10 + digit_val('0'));
        assert(seq!['0'].drop_last() =~= Seq::<char>::empty());
    } else {
        lemma_dec_val_zero_prepend(s.drop_last());
        assert((seq!['0'] + s).drop_last() =~= seq!['0'] + s.drop_last());
        assert((seq!['0'] + s).last() == s.last());
    }
}

fn pad2_str(n: u64) -> (r: String)
    ensures
        r@ == pad2(dec_rep(n as int)),
{
    proof {
        lemma_dec_rep_len(n as int);
    }
    if n < 10 {
        proof {
            reveal_strlit("0");
        }
        let mut s = String::from_str("0");
        s.append(dec_str(n).as_str());
        proof {
            assert(s@ =~= pad2(dec_rep(n as int)));
        }
        s
    } else {
        dec_str(n)
    }
}

/// Render a duration in seconds as zero-padded `HH:MM`, dropping any part of
/// a minute.  Negative durations are not accepted: callers take the absolute
/// value first where sign matters.
pub fn format_timediff(t: i64) -> (r: String)
    requires
        0 <= t,
    ensures
        r@ == spec_format_duration(t as int),
{
    let hours = (t / 3600) as u64;
    let minutes = ((t / 60) % 60) as u64;
    let mut s = pad2_str(hours);
    proof {
        reveal_strlit(":");
    }
    s.append(":");
    s.append(pad2_str(minutes).as_str());
    proof {
        assert(s@ =~= spec_format_duration(t as int));
    }
    s
}

fn parse_dec(s: &str) -> (r: Option<i64>)
    ensures
        match r {
            Some(v) => s@.len() >= 1 && all_digits(s@) && v == dec_val(s@) && 0 <= v,
            None => !(s@.len() >= 1 && all_digits(s@) && dec_val(s@) <= i64::MAX),
        },
{
    let n = s.unicode_len();
    if n == 0 {
        return None;
    }
    let mut acc: i64 = 0;
    let mut i: usize = 0;
    while i < n
        invariant
            n == s@.len(),
            0 <= i <= n,
            all_digits(s@.subrange(0, i as int)),
            0 <= acc,
            acc == dec_val(s@.subrange(0, i as int)),
        decreases n - i,
    {
        let c = s.get_char(i);
        if !(c >= '0' && c <= '9') {
            proof {
                assert(!is_digit(s@[i as int]));
            }
            return None;
        }
        let d = (c as u32 - '0' as u32) as i64;
        if acc > (i64::MAX - d) / 10 {
            proof {
                if all_digits(s@) {
                    lemma_dec_val_monotonic(s@, i as int + 1);
                    assert(s@.subrange(0, i as int + 1).drop_last() =~= s@.subrange(0, i as int));
                    assert(dec_val(s@.subrange(0, i as int + 1)) == acc * 10 + d);
                    assert(acc * 10 + d > i64::MAX) by {
                        assert(acc >= (i64::MAX - d) / 10 + 1);
                        assert(acc * 10 >= ((i64::MAX - d) / 10 + 1) * 10) by (nonlinear_arith)
                            requires
                                acc >= (i64::MAX - d) / 10 + 1,
                        ;
                        assert((i64::MAX - d) / 10 * 10 + 10 > i64::MAX - d);
                    }
                }
            }
            return None;
        }
        acc = acc * 10 + d;
        i += 1;
        proof {
            assert(s@.subrange(0, i as int).drop_last() =~= s@.subrange(0, i as int - 1));
            assert(all_digits(s@.subrange(0, i as int))) by {
                assert(forall|k: int| 0 <= k < i ==> s@.subrange(0, i as int)[k] == s@[k]);
            }
        }
    }
    proof {
        assert(s@.subrange(0, n as int) =~= s@);
    }
    Some(acc)
}

/// If `s` is all digits, the value of a prefix never exceeds the value of the
/// whole.
proof fn lemma_dec_val_monotonic(s: Seq<char>, j: int)
    requires
        0 <= j <= s.len(),
        all_digits(s),
    ensures
        dec_val(s.subrange(0, j)) <= dec_val(s),
        0 <= dec_val(s.subrange(0, j)),
    decreases s.len() - j, s.len(),
{
    lemma_dec_val_nonneg(s.subrange(0, j));
    if j < s.len() {
        lemma_dec_val_monotonic(s, j + 1);
        assert(s.subrange(0, j + 1).drop_last() =~= s.subrange(0, j));
        assert(is_digit(s[j]));
        assert(dec_val(s.subrange(0, j + 1)) == dec_val(s.subrange(0, j)) * 10 + digit_val(s[j]));
    } else {
        assert(s.subrange(0, j) =~= s);
    }
}

proof fn lemma_dec_val_nonneg(s: Seq<char>)
    requires
        all_digits(s),
    ensures
        0 <= dec_val(s),
    decreases s.len(),
{
    if s.len() > 0 {
        assert(all_digits(s.drop_last())) by {
            assert(forall|k: int| 0 <= k < s.len() - 1 ==> s.drop_last()[k] == s[k]);
        }
        lemma_dec_val_nonneg(s.drop_last());
        assert(is_digit(s.last()));
    }
}

/// Parse zero-padded `HH:MM` text back into seconds: the inverse of
/// `format_timediff` at minute granularity.  `None` where the text is not of
/// that shape or its value does not fit.
pub fn format_duration_inverse(s: &str) -> (r: Option<i64>)
    ensures
        match r {
            Some(v) => spec_parse_duration(s@) == Some(v as int) && 0 <= v,
            None => match spec_parse_duration(s@) {
                Some(w) => w > i64::MAX,
                None => true,
            },
        },
{
    proof {
        reveal_strlit(":");
        assert(":"@ =~= seq![':']);
    }
    let n = s.unicode_len();
    let colon = find_sub(s, ":", 0);
    match colon {
        None => None,
        Some(i) => {
            proof {
                lemma_find_props(s@, ":"@, 0);
            }
            let h = s.substring_char(0, i);
            let m = s.substring_char(i + 1, n);
            proof {
                assert(s@.subrange(i as int, i + 1) =~= ":"@);
                assert(s@.subrange(i + ":"@.len(), s@.len() as int) == s@.subrange(
                    i + 1,
                    s@.len() as int,
                ));
            }
            let mlen = m.unicode_len();
            if mlen != 2 {
                return None;
            }
            let hv = parse_dec(h);
            let mv = parse_dec(m);
            match (hv, mv) {
                (Some(hval), Some(mval)) => {
                    if mval >= 60 {
                        return None;
                    }
                    if hval > (i64::MAX - mval * 60) / 3600 {
                        proof {
                            lemma_parse_overflow(hval as int, mval as int);
                        }
                        return None;
                    }
                    Some(hval * 3600 + mval * 60)
                },
                _ => None,
            }
        },
    }
}

proof fn lemma_parse_overflow(h: int, m: int)
    requires
        0 <= m < 60,
        h > (i64::MAX - m * 60) / 3600,
    ensures
        h * 3600 + m * 60 > i64::MAX,
{
    assert(h >= (i64::MAX - m * 60) / 3600 + 1);
    assert(h * 3600 >= ((i64::MAX - m * 60) / 3600 + 1) * 3600) by (nonlinear_arith)
        requires
            h >= (i64::MAX - m * 60) / 3600 + 1,
    ;
    assert((i64::MAX - m * 60) / 3600 * 3600 + 3600 > i64::MAX - m * 60);
}

/// The formatter emits no `':'` before the one that separates hours from
/// minutes, so parsing finds exactly that separator.
proof fn lemma_format_colon(t: int)
    requires
        0 <= t,
    ensures
        spec_find(spec_format_duration(t), seq![':'], 0) == Some(pad2(dec_rep(t / 3600)).len() as int),
{
    let h = pad2(dec_rep(t / 3600));
    let m = pad2(dec_rep((t / 60) % 60));
    let s = spec_format_duration(t);
    let hl = h.len() as int;
    lemma_dec_rep_digits(t / 3600);
    lemma_pad2_digits(dec_rep(t / 3600));
    lemma_dec_rep_len(t / 3600);
    assert(s == (h + seq![':']) + m);
    assert(s.subrange(hl, hl + 1) =~= seq![':']);
    assert forall|k: int| 0 <= k < hl implies #[trigger] s.subrange(k, k + 1) != seq![':'] by {
        assert((h + seq![':'])[k] == h[k]);
        assert(s[k] == (h + seq![':'])[k]);
        assert(is_digit(h[k]));
        assert(s[k] != ':');
        assert(s.subrange(k, k + 1) =~= seq![s[k]]);
        assert(seq![s[k]][0] == s[k]);
        assert(seq![':'][0] == ':');
    }
    lemma_find_at(s, seq![':'], 0, hl);
}

/// Parsing what the formatter wrote gives the duration back, truncated to
/// whole minutes: the round trip is exact for durations of whole minutes.
pub proof fn lemma_duration_round_trip(t: int)
    requires
        0 <= t,
    ensures
        spec_parse_duration(spec_format_duration(t)) == Some(60 * (t / 60)),
        t % 60 == 0 ==> spec_parse_duration(spec_format_duration(t)) == Some(t),
        spec_format_duration(60 * (t / 60)) == spec_format_duration(t),
{
    let hrep = dec_rep(t / 3600);
    let mrep = dec_rep((t / 60) % 60);
    let h = pad2(hrep);
    let m = pad2(mrep);
    let s = spec_format_duration(t);
    let hl = h.len() as int;
    lemma_format_colon(t);
    lemma_dec_rep_digits(t / 3600);
    lemma_dec_rep_digits((t / 60) % 60);
    lemma_dec_rep_len(t / 3600);
    lemma_dec_rep_len((t / 60) % 60);
    lemma_pad2_digits(hrep);
    lemma_pad2_digits(mrep);
    assert(s.subrange(0, hl) =~= h);
    assert(s.subrange(hl + 1, s.len() as int) =~= m);
    lemma_dec_val_pad(hrep);
    lemma_dec_val_pad(mrep);
    lemma_dec_val_of_rep(t / 3600);
    lemma_dec_val_of_rep((t / 60) % 60);
    assert(m.len() == 2);
    assert(dec_val(m) == (t / 60) % 60);
    assert(dec_val(h) == t / 3600);
    assert(spec_parse_duration(s) == Some((t / 3600) * 3600 + ((t / 60) % 60) * 60));
    assert((t / 3600) * 3600 + ((t / 60) % 60) * 60 == 60 * (t / 60)) by {
        assert(t / 3600 == (t / 60) / 60) by (nonlinear_arith);
        assert((t / 60) == ((t / 60) / 60) * 60 + ((t / 60) % 60)) by (nonlinear_arith);
        assert(((t / 60) / 60) * 3600 + ((t / 60) % 60) * 60 == 60 * (((t / 60) / 60) * 60 + ((t
            / 60) % 60))) by (nonlinear_arith);
    }
    if t % 60 == 0 {
        assert(60 * (t / 60) == t) by (nonlinear_arith)
            requires
                t % 60 == 0,
        ;
    }
    let w = 60 * (t / 60);
    assert(w / 3600 == t / 3600 && (w / 60) % 60 == (t / 60) % 60) by (nonlinear_arith)
        requires
            0 <= t,
            w == 60 * (t / 60),
    ;
}

} // verus!
