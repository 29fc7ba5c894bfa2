//! Free-text extraction of a word-puzzle result.
//!
//! A message reports a result when it contains a score fraction: a run of
//! digits, a `/`, and another digit (for example `3/6`).  The score is the
//! number before the slash.  The puzzle id is taken independently from the
//! first digit group anywhere in the text, where a comma directly after the
//! group joins the digits that follow it (so `1,234` reads as `1234`).  A
//! message whose only digits are the fraction itself therefore reuses those
//! digits as the puzzle id: `3/6` alone yields puzzle `3`, score `3`.  A
//! number too large for the score or id type makes the whole extraction
//! fail.

use crate::digits::digits_val;
use crate::digits::is_digit;
use crate::digits::lemma_digits_val_prefix_le;
use vstd::prelude::*;
use vstd::string::StrSliceExecFns;

verus! {

/// End of the digit run starting at `i`: the first position at or after `i`
/// that is past the end or holds a non-digit.
pub open spec fn run_end(s: Seq<char>, i: int) -> int
    decreases s.len() - i,
{
    if 0 <= i < s.len() && is_digit(s[i]) {
        run_end(s, i + 1)
    } else {
        i
    }
}

pub proof fn lemma_run_end(s: Seq<char>, i: int)
    requires
        0 <= i <= s.len(),
    ensures
        i <= run_end(s, i) <= s.len(),
        run_end(s, i) < s.len() ==> !is_digit(s[run_end(s, i)]),
        forall|k: int| i <= k < run_end(s, i) ==> is_digit(#[trigger] s[k]),
    decreases s.len() - i,
{
    if i < s.len() && is_digit(s[i]) {
        lemma_run_end(s, i + 1);
    }
}

/// Every position inside a digit run shares the run's end.
pub proof fn lemma_run_end_within(s: Seq<char>, i: int, j: int)
    requires
        0 <= i <= j <= run_end(s, i),
        i <= s.len(),
    ensures
        run_end(s, j) == run_end(s, i),
    decreases j - i,
{
    lemma_run_end(s, i);
    if i < j {
        lemma_run_end_within(s, i + 1, j);
    }
}

/// A score fraction starts at `i`: a digit run followed by `/` and a digit.
pub open spec fn frac_match_at(s: Seq<char>, i: int) -> bool {
    let e = run_end(s, i);
    &&& 0 <= i < s.len()
    &&& is_digit(s[i])
    &&& e + 1 < s.len()
    &&& s[e] == '/'
    &&& is_digit(s[e + 1])
}

/// First position at or after `i` where a score fraction starts, or -1.
pub open spec fn first_frac(s: Seq<char>, i: int) -> int
    decreases s.len() - i,
{
    if i >= s.len() {
        -1
    } else if frac_match_at(s, i) {
        i
    } else {
        first_frac(s, i + 1)
    }
}

pub proof fn lemma_first_frac_skip(s: Seq<char>, lo: int, hi: int)
    requires
        0 <= lo <= hi <= s.len(),
        forall|j: int| lo <= j < hi ==> !frac_match_at(s, j),
    ensures
        first_frac(s, lo) == first_frac(s, hi),
    decreases hi - lo,
{
    if lo < hi {
        lemma_first_frac_skip(s, lo + 1, hi);
    }
}

/// First digit position at or after `i`, or -1.
pub open spec fn first_digit(s: Seq<char>, i: int) -> int
    decreases s.len() - i,
{
    if i >= s.len() {
        -1
    } else if is_digit(s[i]) {
        i
    } else {
        first_digit(s, i + 1)
    }
}

/// The digit characters that make up the puzzle id: the first digit group in
/// the text, with the digits after one directly attached comma joined on.
pub open spec fn id_digits(s: Seq<char>) -> Seq<char> {
    let p = first_digit(s, 0);
    let e1 = run_end(s, p);
    let base = s.subrange(p, e1);
    if e1 < s.len() && s[e1] == ',' {
        base + s.subrange(e1 + 1, run_end(s, e1 + 1))
    } else {
        base
    }
}

/// What extraction returns on a given text.
pub open spec fn extract_spec(s: Seq<char>) -> Option<(i32, i32)> {
    let m = first_frac(s, 0);
    if m < 0 {
        None
    } else {
        let sv = digits_val(s.subrange(m, run_end(s, m)));
        if sv > i32::MAX {
            None
        } else {
            let p = first_digit(s, 0);
            if p < 0 {
                None
            } else {
                let iv = digits_val(id_digits(s));
                if iv > i32::MAX {
                    None
                } else {
                    Some((iv as i32, sv as i32))
                }
            }
        }
    }
}

fn exec_is_digit(c: char) -> (b: bool)
    ensures
        b == is_digit(c),
{
    let v = c as u32;
    48 <= v && v <= 57
}

fn chars_of(text: &str) -> (r: Vec<char>)
    ensures
        r@ == text@,
{
    let n = text.unicode_len();
    let mut r: Vec<char> = Vec::new();
    let mut i: usize = 0;
    while i < n
        invariant
            0 <= i <= n,
            n == text@.len(),
            r@ == text@.take(i as int),
        decreases n - i,
    {
        r.push(text.get_char(i));
        i = i + 1;
        assert(r@ =~= text@.take(i as int));
    }
    assert(r@ =~= text@);
    r
}

fn exec_run_end(chars: &Vec<char>, i: usize) -> (e: usize)
    requires
        i <= chars@.len(),
    ensures
        e as int == run_end(chars@, i as int),
        i <= e <= chars@.len(),
{
    let ghost s = chars@;
    let n = chars.len();
    let mut e = i;
    while e < n && exec_is_digit(chars[e])
        invariant
            i <= e <= n,
            n == s.len(),
            s == chars@,
            run_end(s, i as int) == run_end(s, e as int),
        decreases n - e,
    {
        assert(run_end(s, e as int) == run_end(s, e as int + 1));
        e = e + 1;
    }
    assert(run_end(s, e as int) == e as int);
    e
}

fn find_frac(chars: &Vec<char>) -> (r: Option<usize>)
    ensures
        ({
            let f = first_frac(chars@, 0);
            if f >= 0 {
                r == Some(f as usize) && f < chars@.len()
            } else {
                r == None::<usize>
            }
        }),
{
    let ghost s = chars@;
    let n = chars.len();
    let mut i: usize = 0;
    while i < n
        invariant
            0 <= i <= n,
            n == s.len(),
            s == chars@,
            first_frac(s, 0) == first_frac(s, i as int),
        decreases n - i,
    {
        if exec_is_digit(chars[i]) {
            let e = exec_run_end(chars, i);
            if e < n && chars[e] == '/' && e + 1 < n && exec_is_digit(chars[e + 1]) {
                assert(frac_match_at(s, i as int));
                assert(first_frac(s, i as int) == i as int);
                return Some(i);
            } else {
                // No position of this digit run starts a fraction, and the
                // position after the run is not a digit.
                let next = if e < n {
                    e + 1
                } else {
                    e
                };
                proof {
                    lemma_run_end(s, i as int);
                    assert forall|j: int| i <= j < next implies !frac_match_at(s, j) by {
                        if j < e {
                            lemma_run_end_within(s, i as int, j);
                        }
                    }
                    lemma_first_frac_skip(s, i as int, next as int);
                }
                i = next;
            }
        } else {
            assert(!frac_match_at(s, i as int));
            assert(first_frac(s, i as int) == first_frac(s, i as int + 1));
            i = i + 1;
        }
    }
    assert(first_frac(s, i as int) == -1);
    None
}

fn find_first_digit(chars: &Vec<char>) -> (r: Option<usize>)
    ensures
        ({
            let p = first_digit(chars@, 0);
            if p >= 0 {
                r == Some(p as usize) && p < chars@.len()
            } else {
                r == None::<usize>
            }
        }),
{
    let ghost s = chars@;
    let n = chars.len();
    let mut i: usize = 0;
    while i < n
        invariant
            0 <= i <= n,
            n == s.len(),
            s == chars@,
            first_digit(s, 0) == first_digit(s, i as int),
        decreases n - i,
    {
        if exec_is_digit(chars[i]) {
            assert(first_digit(s, i as int) == i as int);
            return Some(i);
        }
        assert(first_digit(s, i as int) == first_digit(s, i as int + 1));
        i = i + 1;
    }
    assert(first_digit(s, i as int) == -1);
    None
}

/// Parses the digit characters `chars[from..to]` as a number; fails exactly
/// when the value does not fit the result type.
fn parse_digits_i32(chars: &Vec<char>, from: usize, to: usize) -> (r: Option<i32>)
    requires
        from <= to <= chars@.len(),
        forall|k: int| from <= k < to ==> is_digit(#[trigger] chars@[k]),
    ensures
        ({
            let v = digits_val(chars@.subrange(from as int, to as int));
            if v <= i32::MAX {
                r == Some(v as i32)
            } else {
                r == None::<i32>
            }
        }),
{
    let ghost s = chars@;
    let ghost whole = s.subrange(from as int, to as int);
    let mut acc: u64 = 0;
    let mut i = from;
    while i < to
        invariant
            from <= i <= to <= s.len(),
            s == chars@,
            whole == s.subrange(from as int, to as int),
            forall|k: int| from <= k < to ==> is_digit(#[trigger] s[k]),
            acc <= 0x7fff_ffff,
            acc as nat == digits_val(s.subrange(from as int, i as int)),
        decreases to - i,
    {
        let c = chars[i];
        assert(is_digit(s[i as int]));
        let d: u64 = (c as u32 as u64) - 48;
        let new_acc: u64 = acc * 10 + d;
        proof {
            let prev = s.subrange(from as int, i as int);
            let cur = s.subrange(from as int, i as int + 1);
            assert(cur.drop_last() =~= prev);
            assert(cur.last() == s[i as int]);
            assert(digits_val(cur) == acc * 10 + d);
        }
        if new_acc > 0x7fff_ffff {
            proof {
                let cur = s.subrange(from as int, i as int + 1);
                assert(whole.take(i as int + 1 - from) =~= cur);
                assert forall|k: int| 0 <= k < whole.len() implies is_digit(#[trigger] whole[k]) by {
                    assert(whole[k] == s[from + k]);
                }
                lemma_digits_val_prefix_le(whole, i as int + 1 - from);
            }
            return None;
        }
        acc = new_acc;
        i = i + 1;
    }
    assert(s.subrange(from as int, i as int) =~= whole);
    Some(acc as i32)
}

/// Extracts `(puzzle_id, score)` from a message, or nothing when the message
/// reports no result.
pub fn extract_wordle_score(content: &str) -> (r: Option<(i32, i32)>)
    ensures
        r == extract_spec(content@),
{
    let chars = chars_of(content);
    let ghost s = content@;
    let m = match find_frac(&chars) {
        None => {
            return None;
        },
        Some(m) => m,
    };
    let e = exec_run_end(&chars, m);
    proof {
        lemma_run_end(s, m as int);
    }
    let score = match parse_digits_i32(&chars, m, e) {
        None => {
            return None;
        },
        Some(v) => v,
    };
    let p = match find_first_digit(&chars) {
        None => {
            return None;
        },
        Some(p) => p,
    };
    let e1 = exec_run_end(&chars, p);
    proof {
        lemma_run_end(s, p as int);
    }
    let n = chars.len();
    let mut id_chars: Vec<char> = Vec::new();
    let mut k = p;
    while k < e1
        invariant
            p <= k <= e1 <= n,
            n == s.len(),
            s == chars@,
            id_chars@ == s.subrange(p as int, k as int),
        decreases e1 - k,
    {
        id_chars.push(chars[k]);
        k = k + 1;
        assert(id_chars@ =~= s.subrange(p as int, k as int));
    }
    if e1 < n && chars[e1] == ',' {
        let e2 = exec_run_end(&chars, e1 + 1);
        proof {
            lemma_run_end(s, e1 as int + 1);
        }
        let mut k2 = e1 + 1;
        assert(id_chars@ =~= s.subrange(p as int, e1 as int) + s.subrange(
            e1 as int + 1,
            k2 as int,
        ));
        while k2 < e2
            invariant
                e1 + 1 <= k2 <= e2 <= n,
                n == s.len(),
                s == chars@,
                id_chars@ == s.subrange(p as int, e1 as int) + s.subrange(
                    e1 as int + 1,
                    k2 as int,
                ),
            decreases e2 - k2,
        {
            id_chars.push(chars[k2]);
            k2 = k2 + 1;
            assert(id_chars@ =~= s.subrange(p as int, e1 as int) + s.subrange(
                e1 as int + 1,
                k2 as int,
            ));
        }
        assert(id_chars@ == id_digits(s));
    } else {
        assert(id_chars@ == id_digits(s));
    }
    proof {
        assert forall|j: int| 0 <= j < id_chars@.len() implies is_digit(
            #[trigger] id_chars@[j],
        ) by {
            lemma_run_end(s, p as int);
            if e1 < s.len() && s[e1 as int] == ',' {
                lemma_run_end(s, e1 as int + 1);
            }
        }
    }
    let id_len = id_chars.len();
    assert(id_chars@.subrange(0, id_len as int) =~= id_chars@);
    match parse_digits_i32(&id_chars, 0, id_len) {
        None => None,
        Some(id) => Some((id, score)),
    }
}

} // verus!
