//! Small verified string utilities: finding a separator and splitting on it.
//!
//! These are the workhorses of the importer's line grammar and of duration
//! parsing.  Everything is specified against `Seq<char>` views.

use vstd::prelude::*;
use vstd::string::*;

verus! {

/// The least index at or after `from` where `sep` occurs as a subsequence of
/// `s`, if any.
pub open spec fn spec_find(s: Seq<char>, sep: Seq<char>, from: int) -> Option<int>
    decreases s.len() - from,
{
    if sep.len() == 0 || from < 0 || from + sep.len() > s.len() {
        None
    } else if s.subrange(from, from + sep.len() as int) == sep {
        Some(from)
    } else {
        spec_find(s, sep, from + 1)
    }
}

/// A found index is in bounds and marks a real occurrence of `sep`.
pub proof fn lemma_find_props(s: Seq<char>, sep: Seq<char>, from: int)
    requires
        spec_find(s, sep, from) is Some,
    ensures
        ({
            let i = spec_find(s, sep, from)->Some_0;
            0 <= from <= i && i + sep.len() <= s.len() && s.subrange(i, i + sep.len() as int)
                == sep
        }),
    decreases s.len() - from,
{
    if !(sep.len() == 0 || from < 0 || from + sep.len() > s.len())
        && s.subrange(from, from + sep.len() as int) != sep {
        lemma_find_props(s, sep, from + 1);
    }
}

/// An occurrence at `i`, with none between `from` and `i`, is exactly what
/// `spec_find` returns.
pub proof fn lemma_find_at(s: Seq<char>, sep: Seq<char>, from: int, i: int)
    requires
        sep.len() >= 1,
        0 <= from <= i,
        i + sep.len() <= s.len(),
        s.subrange(i, i + sep.len() as int) == sep,
        forall|k: int| from <= k < i ==> #[trigger] s.subrange(k, k + sep.len() as int) != sep,
    ensures
        spec_find(s, sep, from) == Some(i),
    decreases i - from,
{
    if from < i {
        lemma_find_at(s, sep, from + 1, i);
    }
}

/// Splitting `s` at every occurrence of `sep`, leftmost first; a string with
/// no occurrence splits into itself alone.
pub open spec fn spec_split(s: Seq<char>, sep: Seq<char>) -> Seq<Seq<char>>
    decreases s.len(),
{
    if sep.len() == 0 {
        seq![s]
    } else {
        match spec_find(s, sep, 0) {
            None => seq![s],
            Some(i) => if 0 <= i && i + sep.len() <= s.len() {
                seq![s.subrange(0, i)] + spec_split(
                    s.subrange(i + sep.len() as int, s.len() as int),
                    sep,
                )
            } else {
                seq![s]
            },
        }
    }
}

/// True exactly when `sep` occurs in `s` starting at `at`.
fn str_eq_at(s: &str, sep: &str, at: usize, s_len: usize, sep_len: usize) -> (b: bool)
    requires
        s_len == s@.len(),
        sep_len == sep@.len(),
        at + sep_len <= s_len,
    ensures
        b == (s@.subrange(at as int, at + sep@.len()) == sep@),
{
    let mut j: usize = 0;
    while j < sep_len
        invariant
            s_len == s@.len(),
            sep_len == sep@.len(),
            at + sep_len <= s_len,
            0 <= j <= sep_len,
            forall|k: int| 0 <= k < j ==> s@[at + k] == sep@[k],
        decreases sep_len - j,
    {
        let cs = s.get_char(at + j);
        let cp = sep.get_char(j);
        if cs != cp {
            proof {
                assert(s@.subrange(at as int, at + sep@.len())[j as int] != sep@[j as int]);
            }
            return false;
        }
        j += 1;
    }
    proof {
        assert(s@.subrange(at as int, at + sep@.len()) =~= sep@);
    }
    true
}

/// The least index at or after `from` where `sep` occurs in `s`, if any.
pub fn find_sub(s: &str, sep: &str, from: usize) -> (r: Option<usize>)
    requires
        sep@.len() >= 1,
    ensures
        match r {
            Some(i) => spec_find(s@, sep@, from as int) == Some(i as int),
            None => spec_find(s@, sep@, from as int) is None,
        },
{
    let n = s.unicode_len();
    let m = sep.unicode_len();
    if m > n || from > n - m {
        return None;
    }
    let mut i: usize = from;
    while i <= n - m
        invariant
            n == s@.len(),
            m == sep@.len(),
            1 <= m <= n,
            from <= i <= n - m + 1,
            spec_find(s@, sep@, from as int) == spec_find(s@, sep@, i as int),
        decreases n - i,
    {
        if str_eq_at(s, sep, i, n, m) {
            return Some(i);
        }
        i += 1;
    }
    None
}

/// The part of `s` before the first occurrence of `sep`, and what follows
/// that occurrence; the whole of `s` and nothing when `sep` does not occur.
pub open spec fn spec_split_first(s: Seq<char>, sep: Seq<char>) -> (Seq<char>, Option<Seq<char>>) {
    match spec_find(s, sep, 0) {
        None => (s, None),
        Some(i) => (s.subrange(0, i), Some(s.subrange(i + sep.len(), s.len() as int))),
    }
}

/// The executable form of `spec_split_first`.
pub fn split_first<'a>(s: &'a str, sep: &str) -> (r: (&'a str, Option<&'a str>))
    requires
        sep@.len() >= 1,
    ensures
        r.0@ == spec_split_first(s@, sep@).0,
        match (r.1, spec_split_first(s@, sep@).1) {
            (Some(a), Some(b)) => a@ == b,
            (None, None) => true,
            _ => false,
        },
{
    let n = s.unicode_len();
    match find_sub(s, sep, 0) {
        Some(i) => {
            proof {
                lemma_find_props(s@, sep@, 0);
            }
            let m = sep.unicode_len();
            let head = s.substring_char(0, i);
            let tail = s.substring_char(i + m, n);
            (head, Some(tail))
        },
        None => (s, None),
    }
}

/// All the parts of `s` between occurrences of `sep`, leftmost first.
pub fn split_all(s: &str, sep: &str) -> (r: Vec<String>)
    requires
        sep@.len() >= 1,
    ensures
        r.deep_view() == spec_split(s@, sep@),
{
    let mut acc: Vec<String> = Vec::new();
    let mut cur: &str = s;
    loop
        invariant
            sep@.len() >= 1,
            spec_split(s@, sep@) == acc.deep_view() + spec_split(cur@, sep@),
        decreases cur@.len(),
    {
        let ghost acc0 = acc.deep_view();
        match split_first(cur, sep) {
            (head, Some(rest)) => {
                proof {
                    lemma_find_props(cur@, sep@, 0);
                }
                acc.push(String::from_str(head));
                proof {
                    assert(acc.deep_view() =~= acc0.push(head@));
                    assert(acc0.push(head@) + spec_split(rest@, sep@) =~= acc0 + (seq![head@]
                        + spec_split(rest@, sep@)));
                }
                cur = rest;
            },
            (_, None) => {
                acc.push(String::from_str(cur));
                proof {
                    assert(acc.deep_view() =~= acc0.push(cur@));
                    assert(acc0.push(cur@) =~= acc0 + seq![cur@]);
                }
                return acc;
            },
        }
    }
}

} // verus!
