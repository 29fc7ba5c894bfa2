//! The ranked report: every user's mean score, best (lowest) first.
//!
//! Means are compared as exact rationals (sum and count), so the ranking
//! never suffers rounding.  A mean is rendered as an integer when it is one,
//! and otherwise with up to two fractional digits (truncated).  Ties keep
//! the order in which the users first appeared, which makes the report
//! deterministic for one process run.

use crate::digits::dec_str;
use crate::digits::dec_u64;
use crate::digits::digit_char;
use crate::ledger::LedgerMap;
use crate::ledger::UserView;
use crate::ledger::distinct_pids;
use vstd::prelude::*;
use vstd::seq_lib::*;
use vstd::set_lib::lemma_int_range;
use vstd::set_lib::lemma_len_subset;
use vstd::set_lib::set_int_range;
use vstd::string::StringExecFns;
use crate::digits::digit_text;
use vstd::arithmetic::div_mod::lemma_fundamental_div_mod;
use vstd::arithmetic::div_mod::lemma_mod_bound;

verus! {

/// One row of the ranking: a display name and the exact mean as a fraction.
pub struct RankedView {
    pub name: Seq<char>,
    pub sum: int,
    pub count: int,
}

/// Bounds that every row built from a well-formed ledger obeys: at most one
/// score per distinct puzzle id, so the count fits 2^32, and the sum is
/// bounded by count times the score range.
pub open spec fn wf_ranked(r: RankedView) -> bool {
    &&& 1 <= r.count <= 0x1_0000_0000
    &&& (-0x8000_0000) * r.count <= r.sum <= 0x7fff_ffff * r.count
}

/// `a`'s mean is at most `b`'s: sum_a/count_a <= sum_b/count_b, cleared of
/// denominators.
pub open spec fn mean_le(a: RankedView, b: RankedView) -> bool {
    a.sum * b.count <= b.sum * a.count
}

pub open spec fn sorted_by_mean(s: Seq<RankedView>) -> bool {
    forall|x: int, y: int| 0 <= x < y < s.len() ==> mean_le(#[trigger] s[x], #[trigger] s[y])
}

/// Insertion of `x` into a sorted sequence, after every row whose mean is
/// not above `x`'s; equal means therefore keep their earlier row first.
pub open spec fn insert_sorted(s: Seq<RankedView>, x: RankedView) -> Seq<RankedView>
    decreases s.len(),
{
    if s.len() == 0 {
        seq![x]
    } else if mean_le(s.last(), x) {
        s.push(x)
    } else {
        insert_sorted(s.drop_last(), x).push(s.last())
    }
}

/// Stable insertion sort by mean, in the order the rows are given.
pub open spec fn sort_by_mean(s: Seq<RankedView>) -> Seq<RankedView>
    decreases s.len(),
{
    if s.len() == 0 {
        s
    } else {
        insert_sorted(sort_by_mean(s.drop_last()), s.last())
    }
}

/// Sum of the scores in a row.
pub open spec fn sum_scores(scores: Seq<(i32, i32)>) -> int
    decreases scores.len(),
{
    if scores.len() == 0 {
        0
    } else {
        sum_scores(scores.drop_last()) + scores.last().1
    }
}

/// The rows of the ranking, one per user, in ledger order.
pub open spec fn ranked_of(users: Seq<UserView>) -> Seq<RankedView> {
    users.map_values(
        |u: UserView|
            RankedView { name: u.name, sum: sum_scores(u.scores), count: u.scores.len() as int },
    )
}

/// Mean of `sum`/`count` as text: exact integers without a point, other
/// values with one or two fractional digits (truncated past the second).
pub open spec fn mean_chars(sum: int, count: int) -> Seq<char> {
    let a = if sum >= 0 {
        sum
    } else {
        -sum
    };
    let sign: Seq<char> = if sum < 0 {
        seq!['-']
    } else {
        Seq::<char>::empty()
    };
    let w = a / count;
    let r = a % count;
    if r == 0 {
        sign + dec_str(w as nat)
    } else {
        let f = (r * 100) / count;
        if f % 10 == 0 {
            sign + dec_str(w as nat) + seq!['.'] + seq![digit_char(f / 10)]
        } else {
            sign + dec_str(w as nat) + seq!['.'] + seq![digit_char(f / 10), digit_char(f % 10)]
        }
    }
}

/// One line of the report.
pub open spec fn line_chars(e: RankedView, rank: int) -> Seq<char> {
    dec_str(rank as nat) + ") "@ + e.name + ", Score: "@ + mean_chars(e.sum, e.count) + "\n"@
}

/// The report lines for `s`, numbering from `rank`.
pub open spec fn lines_from(s: Seq<RankedView>, rank: int) -> Seq<char>
    decreases s.len(),
{
    if s.len() == 0 {
        Seq::<char>::empty()
    } else {
        line_chars(s[0], rank) + lines_from(s.drop_first(), rank + 1)
    }
}

/// The whole report for a ledger.
pub open spec fn report_chars(users: Seq<UserView>) -> Seq<char> {
    if users.len() == 0 {
        "Leaderboard is empty"@
    } else {
        lines_from(sort_by_mean(ranked_of(users)), 1)
    }
}

/// A row with distinct puzzle ids cannot hold more scores than there are
/// puzzle ids.
pub proof fn lemma_count_bound(scores: Seq<(i32, i32)>)
    requires
        distinct_pids(scores),
    ensures
        scores.len() <= 0x1_0000_0000,
{
    let pids = Seq::new(scores.len(), |k: int| scores[k].0 as int);
    assert(pids.no_duplicates());
    pids.unique_seq_to_set();
    let range = set_int_range(-0x8000_0000, 0x8000_0000);
    lemma_int_range(-0x8000_0000, 0x8000_0000);
    assert forall|x: int| pids.to_set().contains(x) implies range.contains(x) by {
        let k = choose|k: int| 0 <= k < pids.len() && pids[k] == x;
        assert(scores[k].0 as int == x);
    }
    lemma_len_subset(pids.to_set(), range);
}

/// Sorting keeps the length.
pub proof fn lemma_sort_len(s: Seq<RankedView>)
    ensures
        sort_by_mean(s).len() == s.len(),
    decreases s.len(),
{
    if s.len() > 0 {
        lemma_sort_len(s.drop_last());
        lemma_insert_len(sort_by_mean(s.drop_last()), s.last());
    }
}

pub proof fn lemma_insert_len(s: Seq<RankedView>, x: RankedView)
    ensures
        insert_sorted(s, x).len() == s.len() + 1,
    decreases s.len(),
{
    if s.len() > 0 && !mean_le(s.last(), x) {
        lemma_insert_len(s.drop_last(), x);
    }
}

/// When no row from position `j` on has a mean at or below `x`'s, insertion
/// happens within the first `j` rows.
proof fn lemma_insert_sorted_split(s: Seq<RankedView>, x: RankedView, j: int)
    requires
        0 <= j <= s.len(),
        forall|k: int| j <= k < s.len() ==> !mean_le(#[trigger] s[k], x),
    ensures
        insert_sorted(s, x) == insert_sorted(s.take(j), x) + s.skip(j),
    decreases s.len() - j,
{
    if j == s.len() {
        assert(s.take(j) =~= s);
        assert(insert_sorted(s.take(j), x) + s.skip(j) =~= insert_sorted(s, x));
    } else {
        lemma_insert_sorted_split(s, x, j + 1);
        let t = s.take(j + 1);
        assert(t.last() == s[j]);
        assert(t.drop_last() =~= s.take(j));
        assert(insert_sorted(t, x) == insert_sorted(s.take(j), x).push(s[j]));
        assert(insert_sorted(s.take(j), x).push(s[j]) + s.skip(j + 1) =~= insert_sorted(
            s.take(j),
            x,
        ) + s.skip(j));
    }
}

/// The rows of an executable ranking vector.
pub struct RankedUser {
    pub name: String,
    pub sum: i128,
    pub count: usize,
}

impl View for RankedUser {
    type V = RankedView;

    open spec fn view(&self) -> RankedView {
        RankedView { name: self.name@, sum: self.sum as int, count: self.count as int }
    }
}

pub open spec fn rviews(v: Seq<RankedUser>) -> Seq<RankedView> {
    v.map_values(|r: RankedUser| r@)
}

/// Exact mean comparison, cleared of denominators.
fn mean_le_exec(a: &RankedUser, b: &RankedUser) -> (r: bool)
    requires
        wf_ranked(a@),
        wf_ranked(b@),
    ensures
        r == mean_le(a@, b@),
{
    proof {
        let sa = a@.sum;
        let ca = a@.count;
        let sb = b@.sum;
        let cb = b@.count;
        assert((-0x8000_0000_0000_0000_0000_0000) <= sa * cb <= 0x8000_0000_0000_0000_0000_0000
            && (-0x8000_0000_0000_0000_0000_0000) <= sb * ca
                <= 0x8000_0000_0000_0000_0000_0000) by (nonlinear_arith)
            requires
                (-0x8000_0000) * ca <= sa <= 0x7fff_ffff * ca,
                (-0x8000_0000) * cb <= sb <= 0x7fff_ffff * cb,
                1 <= ca <= 0x1_0000_0000,
                1 <= cb <= 0x1_0000_0000,
        {}
    }
    a.sum * (b.count as i128) <= b.sum * (a.count as i128)
}

/// Inserts `x` into a vector sorted by mean, after every row whose mean is
/// not above `x`'s.
fn insert_ranked(out: &mut Vec<RankedUser>, x: RankedUser)
    requires
        forall|k: int| 0 <= k < old(out)@.len() ==> wf_ranked((#[trigger] old(out)@[k])@),
        wf_ranked(x@),
    ensures
        rviews(final(out)@) == insert_sorted(rviews(old(out)@), x@),
        forall|k: int| 0 <= k < final(out)@.len() ==> wf_ranked((#[trigger] final(out)@[k])@),
{
    let ghost s = rviews(out@);
    let mut j: usize = out.len();
    while j > 0 && !mean_le_exec(&out[j - 1], &x)
        invariant
            0 <= j <= s.len(),
            s == rviews(out@),
            s.len() == out@.len(),
            forall|k: int| 0 <= k < out@.len() ==> wf_ranked((#[trigger] out@[k])@),
            wf_ranked(x@),
            forall|k: int| j <= k < s.len() ==> !mean_le(#[trigger] s[k], x@),
        decreases j,
    {
        j = j - 1;
    }
    proof {
        lemma_insert_sorted_split(s, x@, j as int);
    }
    let ghost v0 = out@;
    out.insert(j, x);
    proof {
        let whole = insert_sorted(s, x@);
        lemma_insert_len(s, x@);
        if j == 0 {
            assert(s.take(0) =~= Seq::<RankedView>::empty());
            assert(insert_sorted(s.take(0), x@) == seq![x@]);
        } else {
            let t = s.take(j as int);
            assert(t.last() == s[j - 1]);
            assert(mean_le(t.last(), x@));
            assert(insert_sorted(t, x@) == t.push(x@));
        }
        assert(out@ == v0.insert(j as int, x));
        assert forall|k: int| 0 <= k < out@.len() implies rviews(out@)[k] == whole[k] by {
            if k < j {
                assert(out@[k] == v0[k]);
                assert(whole[k] == s.take(j as int)[k]);
            } else if k == j {
                assert(out@[k] == x);
            } else {
                assert(out@[k] == v0[k - 1]);
                assert(whole[k] == s.skip(j as int)[k - j - 1]);
            }
        }
        assert(rviews(out@) =~= whole);
    }
}

/// Mean text for a bounded sum/count pair.
fn mean_text(sum: i128, count: usize) -> (r: String)
    requires
        1 <= count <= 0x1_0000_0000,
        (-0x8000_0000) * (count as int) <= sum as int <= 0x7fff_ffff * (count as int),
    ensures
        r@ == mean_chars(sum as int, count as int),
{
    proof {
        assert((-0x8000_0000_0000_0000) <= sum as int <= 0x7fff_ffff_0000_0000) by (nonlinear_arith)
            requires
                (-0x8000_0000) * (count as int) <= sum as int <= 0x7fff_ffff * (count as int),
                1 <= (count as int) <= 0x1_0000_0000,
        {}
    }
    let neg = sum < 0;
    let a128: i128 = if neg {
        -sum
    } else {
        sum
    };
    let a: u64 = a128 as u64;
    let c: u64 = count as u64;
    let w: u64 = a / c;
    let rem: u64 = a % c;
    let mut s: String = if neg {
        String::from_str("-")
    } else {
        String::new()
    };
    proof {
        reveal_strlit("-");
        assert(s@ =~= (if (sum as int) < 0 {
            seq!['-']
        } else {
            Seq::<char>::empty()
        }));
    }
    let wtext = dec_u64(w);
    s.append(wtext.as_str());
    if rem == 0 {
        proof {
            assert(s@ =~= mean_chars(sum as int, count as int));
        }
        s
    } else {
        let f: u64 = rem * 100 / c;
        proof {
            let remi = rem as int;
            let ci = c as int;
            let fi = remi * 100 / ci;
            lemma_fundamental_div_mod(remi * 100, ci);
            lemma_mod_bound(remi * 100, ci);
            assert(ci * fi <= remi * 100);
            assert(fi < 100) by (nonlinear_arith)
                requires
                    ci * fi <= remi * 100,
                    remi < ci,
                    1 <= ci,
            {}
        }
        let d1: u64 = f / 10;
        let d2: u64 = f % 10;
        s.append(".");
        s.append(digit_text(d1));
        if d2 != 0 {
            s.append(digit_text(d2));
        }
        proof {
            reveal_strlit(".");
            assert("."@ =~= seq!['.']);
            assert(s@ =~= mean_chars(sum as int, count as int));
        }
        s
    }
}

impl LedgerMap {
    /// The ranking row for user `i`: name, score sum and score count.
    fn make_ranked(&self, i: usize) -> (x: RankedUser)
        requires
            self.wf(),
            i < self@.len(),
        ensures
            x@ == ranked_of(self@)[i as int],
            wf_ranked(x@),
    {
        let ghost uv = self@[i as int];
        proof {
            assert(uv == self.users@[i as int]@);
            lemma_count_bound(uv.scores);
            assert(uv.scores.len() >= 1);
        }
        let count = self.users[i].scores.len();
        let mut sum: i128 = 0;
        let mut k: usize = 0;
        while k < count
            invariant
                0 <= k <= count,
                i < self@.len(),
                uv == self@[i as int],
                uv == self.users@[i as int]@,
                count == uv.scores.len(),
                count <= 0x1_0000_0000,
                sum as int == sum_scores(uv.scores.take(k as int)),
                (-0x8000_0000) * (k as int) <= sum as int <= 0x7fff_ffff * (k as int),
            decreases count - k,
        {
            let sc = self.users[i].scores[k].score;
            proof {
                let t = uv.scores.take(k as int + 1);
                assert(t.drop_last() =~= uv.scores.take(k as int));
                assert(t.last() == uv.scores[k as int]);
                assert(uv.scores[k as int] == (
                    self.users@[i as int].scores@[k as int].puzzle_id,
                    self.users@[i as int].scores@[k as int].score,
                ));
            }
            sum = sum + (sc as i128);
            k = k + 1;
        }
        proof {
            assert(uv.scores.take(count as int) =~= uv.scores);
        }
        let x = RankedUser { name: self.users[i].display_name.clone(), sum, count };
        proof {
            assert(x@ == ranked_of(self@)[i as int]);
        }
        x
    }

    /// Renders the ranked report, or the fixed text for an empty ledger.
    pub fn render_report(&self) -> (r: String)
        requires
            self.wf(),
        ensures
            r@ == report_chars(self@),
    {
        let ghost users = self@;
        let n = self.users.len();
        if n == 0 {
            return String::from_str("Leaderboard is empty");
        }
        let mut out: Vec<RankedUser> = Vec::new();
        let mut i: usize = 0;
        proof {
            assert(ranked_of(users.take(0)) =~= Seq::<RankedView>::empty());
            assert(rviews(out@) =~= Seq::<RankedView>::empty());
        }
        while i < n
            invariant
                0 <= i <= n,
                n == users.len(),
                users == self@,
                self.wf(),
                rviews(out@) == sort_by_mean(ranked_of(users.take(i as int))),
                forall|k: int| 0 <= k < out@.len() ==> wf_ranked((#[trigger] out@[k])@),
            decreases n - i,
        {
            let x = self.make_ranked(i);
            proof {
                let t = ranked_of(users.take(i as int + 1));
                assert(t.drop_last() =~= ranked_of(users.take(i as int)));
                assert(t.last() == ranked_of(users)[i as int]);
                assert(ranked_of(users)[i as int] == ranked_of(users.take(i as int + 1)).last());
            }
            insert_ranked(&mut out, x);
            i = i + 1;
        }
        proof {
            assert(users.take(n as int) =~= users);
        }
        let ghost sorted = rviews(out@);
        let m = out.len();
        let mut text = String::new();
        let mut j: usize = 0;
        proof {
            assert(sorted.skip(0) =~= sorted);
            assert(text@ + lines_from(sorted, 1) =~= lines_from(sorted, 1));
        }
        while j < m
            invariant
                0 <= j <= m,
                m == out@.len(),
                sorted == rviews(out@),
                sorted.len() == m as int,
                forall|k: int| 0 <= k < out@.len() ==> wf_ranked((#[trigger] out@[k])@),
                lines_from(sorted, 1) == text@ + lines_from(sorted.skip(j as int), j as int + 1),
            decreases m - j,
        {
            let rank: u64 = (j as u64) + 1;
            let rtext = dec_u64(rank);
            let entry_sum = out[j].sum;
            let entry_count = out[j].count;
            proof {
                assert(sorted[j as int] == out@[j as int]@);
                assert(wf_ranked(out@[j as int]@));
            }
            let mtext = mean_text(entry_sum, entry_count);
            let ghost pre = text@;
            text.append(rtext.as_str());
            text.append(") ");
            text.append(out[j].name.as_str());
            text.append(", Score: ");
            text.append(mtext.as_str());
            text.append("\n");
            proof {
                let e = sorted[j as int];
                assert(text@ =~= pre + line_chars(e, j as int + 1));
                let rest = sorted.skip(j as int);
                assert(rest[0] == e);
                assert(rest.drop_first() =~= sorted.skip(j as int + 1));
                assert(lines_from(rest, j as int + 1) == line_chars(e, j as int + 1)
                    + lines_from(sorted.skip(j as int + 1), j as int + 2));
                assert(lines_from(sorted, 1) =~= text@ + lines_from(
                    sorted.skip(j as int + 1),
                    j as int + 2,
                ));
            }
            j = j + 1;
        }
        proof {
            assert(sorted.skip(m as int) =~= Seq::<RankedView>::empty());
            assert(text@ =~= lines_from(sorted, 1));
        }
        text
    }
}

} // verus!
