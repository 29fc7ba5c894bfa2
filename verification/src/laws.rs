//! The laws the ledger and report obey, stated and proved over the same
//! spec functions the executable contracts use.

use crate::digits::dec_str;
use crate::ledger::UserView;
use crate::ledger::distinct_pids;
use crate::ledger::has_pid;
use crate::ledger::lemma_user_idx_is;
use crate::ledger::lemma_user_idx_props;
use crate::ledger::record_accepts;
use crate::ledger::record_result;
use crate::ledger::user_idx;
use crate::ledger::wf_users;
use crate::report::RankedView;
use crate::report::insert_sorted;
use crate::report::lemma_sort_len;
use crate::report::line_chars;
use crate::report::lines_from;
use crate::report::mean_chars;
use crate::report::mean_le;
use crate::report::ranked_of;
use crate::report::report_chars;
use crate::report::sort_by_mean;
use crate::report::sorted_by_mean;
use crate::report::sum_scores;
use vstd::prelude::*;
use vstd::seq_lib::to_multiset_build;
use vstd::seq_lib::to_multiset_contains;
use vstd::multiset::group_multiset_axioms;

verus! {

/// First position of `pid` in a row's scores, or -1.
pub open spec fn pid_idx(scores: Seq<(i32, i32)>, pid: i32) -> int
    decreases scores.len(),
{
    if scores.len() == 0 {
        -1
    } else if scores[0].0 == pid {
        0
    } else {
        let r = pid_idx(scores.drop_first(), pid);
        if r < 0 {
            -1
        } else {
            r + 1
        }
    }
}

/// The score on file for (`uid`, `pid`), if any.
pub open spec fn score_of(users: Seq<UserView>, uid: u64, pid: i32) -> Option<i32> {
    let i = user_idx(users, uid);
    if i < 0 {
        None
    } else {
        let k = pid_idx(users[i].scores, pid);
        if k < 0 {
            None
        } else {
            Some(users[i].scores[k].1)
        }
    }
}

pub proof fn lemma_pid_idx_is(scores: Seq<(i32, i32)>, pid: i32, k: int)
    requires
        0 <= k < scores.len(),
        scores[k].0 == pid,
        forall|j: int| 0 <= j < k ==> (#[trigger] scores[j]).0 != pid,
    ensures
        pid_idx(scores, pid) == k,
    decreases scores.len(),
{
    if k > 0 {
        lemma_pid_idx_is(scores.drop_first(), pid, k - 1);
    }
}

/// Recording keeps the ledger well formed.
pub proof fn lemma_record_preserves_wf(
    us: Seq<UserView>,
    uid: u64,
    name: Seq<char>,
    pid: i32,
    sc: i32,
)
    requires
        wf_users(us),
    ensures
        wf_users(record_result(us, uid, name, pid, sc)),
{
    let i = user_idx(us, uid);
    let m1 = record_result(us, uid, name, pid, sc);
    lemma_user_idx_props(us, uid);
    if i < 0 {
        let row = UserView { user_id: uid, name, scores: seq![(pid, sc)] };
        assert(m1 == us.push(row));
        assert forall|a: int, b: int|
            0 <= a < b < m1.len() implies (#[trigger] m1[a]).user_id != (
        #[trigger] m1[b]).user_id by {
            if b < us.len() {
                assert(m1[a] == us[a] && m1[b] == us[b]);
            } else {
                assert(m1[a] == us[a]);
            }
        }
        assert(distinct_pids(row.scores));
    } else if has_pid(us[i].scores, pid) {
        assert(m1 == us);
    } else {
        let row = UserView { user_id: uid, name: us[i].name, scores: us[i].scores.push(
            (pid, sc),
        ) };
        assert(m1 == us.update(i, row));
        assert forall|a: int| 0 <= a < m1.len() implies distinct_pids(
            (#[trigger] m1[a]).scores,
        ) by {
            if a == i {
                let ns = m1[a].scores;
                assert(ns == us[i].scores.push((pid, sc)));
                assert forall|k: int, l: int|
                    0 <= k < l < ns.len() implies (#[trigger] ns[k]).0 != (#[trigger] ns[l]).0 by {
                    assert(ns[k] == us[i].scores[k]);
                    if l < ns.len() - 1 {
                        assert(ns[l] == us[i].scores[l]);
                    } else {
                        assert(us[i].scores[k].0 != pid);
                    }
                }
            } else {
                assert(m1[a] == us[a]);
            }
        }
    }
}

/// Two submissions for the same (user, puzzle) pair: the first is accepted,
/// the second is rejected and changes nothing, whatever its score or name,
/// and the score on file stays the first one.  A record holds the write
/// lock for its whole check-and-insert, so concurrent submissions serialize
/// into exactly this sequence: of N simultaneous attempts one is accepted
/// and the rest are rejected.
pub proof fn lemma_duplicate_submission(
    us: Seq<UserView>,
    uid: u64,
    name1: Seq<char>,
    name2: Seq<char>,
    pid: i32,
    s1: i32,
    s2: i32,
)
    requires
        wf_users(us),
        record_accepts(us, uid, pid),
    ensures
        ({
            let m1 = record_result(us, uid, name1, pid, s1);
            &&& !record_accepts(m1, uid, pid)
            &&& record_result(m1, uid, name2, pid, s2) == m1
            &&& score_of(m1, uid, pid) == Some(s1)
        }),
{
    let i = user_idx(us, uid);
    let m1 = record_result(us, uid, name1, pid, s1);
    lemma_user_idx_props(us, uid);
    if i < 0 {
        let row = UserView { user_id: uid, name: name1, scores: seq![(pid, s1)] };
        assert(m1 == us.push(row));
        assert forall|j: int| 0 <= j < us.len() implies (#[trigger] m1[j]).user_id != uid by {
            assert(m1[j] == us[j]);
        }
        lemma_user_idx_is(m1, uid, us.len() as int);
        assert(m1[user_idx(m1, uid)].scores[0].0 == pid);
        lemma_pid_idx_is(m1[user_idx(m1, uid)].scores, pid, 0);
    } else {
        let row = UserView { user_id: uid, name: us[i].name, scores: us[i].scores.push(
            (pid, s1),
        ) };
        assert(m1 == us.update(i, row));
        assert forall|j: int| 0 <= j < i implies (#[trigger] m1[j]).user_id != uid by {
            assert(m1[j] == us[j]);
        }
        lemma_user_idx_is(m1, uid, i);
        let old_len = us[i].scores.len() as int;
        assert(m1[i].scores[old_len].0 == pid);
        assert forall|j: int| 0 <= j < old_len implies (#[trigger] m1[i].scores[j]).0 != pid by {
            assert(m1[i].scores[j] == us[i].scores[j]);
        }
        lemma_pid_idx_is(m1[i].scores, pid, old_len);
    }
}

/// The display name on a row is the one supplied by the record that created
/// it: a record for an existing user changes no name, and a record that
/// creates a row stores the name it was given.
pub proof fn lemma_display_name_fixed(
    us: Seq<UserView>,
    uid: u64,
    name: Seq<char>,
    pid: i32,
    sc: i32,
)
    requires
        wf_users(us),
    ensures
        ({
            let m1 = record_result(us, uid, name, pid, sc);
            &&& user_idx(us, uid) >= 0 ==> m1[user_idx(us, uid)].name == us[user_idx(
                us,
                uid,
            )].name
            &&& user_idx(us, uid) < 0 ==> m1.last().user_id == uid && m1.last().name == name
        }),
{
    lemma_user_idx_props(us, uid);
}

proof fn lemma_mean_le_trans(a: RankedView, b: RankedView, c: RankedView)
    requires
        a.count >= 1,
        b.count >= 1,
        c.count >= 1,
        mean_le(a, b),
        mean_le(b, c),
    ensures
        mean_le(a, c),
{
    assert(a.sum * c.count <= c.sum * a.count) by (nonlinear_arith)
        requires
            a.sum * b.count <= b.sum * a.count,
            b.sum * c.count <= c.sum * b.count,
            a.count >= 1,
            b.count >= 1,
            c.count >= 1,
    {}
}

/// Rows whose means every insertion compares have at least one score each.
pub open spec fn counted(s: Seq<RankedView>) -> bool {
    forall|k: int| 0 <= k < s.len() ==> (#[trigger] s[k]).count >= 1
}

proof fn lemma_insert_sorted_props(s: Seq<RankedView>, x: RankedView)
    requires
        sorted_by_mean(s),
        counted(s),
        x.count >= 1,
    ensures
        sorted_by_mean(insert_sorted(s, x)),
        insert_sorted(s, x).to_multiset() == s.to_multiset().insert(x),
        counted(insert_sorted(s, x)),
    decreases s.len(),
{
    broadcast use to_multiset_build;
    broadcast use to_multiset_contains;
    broadcast use group_multiset_axioms;

    let t = insert_sorted(s, x);
    if s.len() == 0 {
        assert(seq![x] =~= s.push(x));
        assert(t.to_multiset() == s.to_multiset().insert(x));
        assert(counted(t)) by {
            assert(t[0] == x);
        }
    } else if mean_le(s.last(), x) {
        assert(t == s.push(x));
        assert forall|k: int, l: int| 0 <= k < l < t.len() implies mean_le(
            #[trigger] t[k],
            #[trigger] t[l],
        ) by {
            if l < t.len() - 1 {
                assert(t[k] == s[k] && t[l] == s[l]);
            } else {
                assert(t[k] == s[k] && t[l] == x);
                if k < s.len() - 1 {
                    lemma_mean_le_trans(s[k], s.last(), x);
                }
            }
        }
        assert(counted(t)) by {
            assert forall|k: int| 0 <= k < t.len() implies (#[trigger] t[k]).count >= 1 by {
                if k < s.len() {
                    assert(t[k] == s[k]);
                } else {
                    assert(t[k] == x);
                }
            }
        }
    } else {
        let d = s.drop_last();
        assert(sorted_by_mean(d)) by {
            assert forall|k: int, l: int| 0 <= k < l < d.len() implies mean_le(
                #[trigger] d[k],
                #[trigger] d[l],
            ) by {
                assert(d[k] == s[k] && d[l] == s[l]);
            }
        }
        assert(counted(d)) by {
            assert forall|k: int| 0 <= k < d.len() implies (#[trigger] d[k]).count >= 1 by {
                assert(d[k] == s[k]);
            }
        }
        lemma_insert_sorted_props(d, x);
        let u = insert_sorted(d, x);
        assert(t == u.push(s.last()));
        assert(s =~= d.push(s.last()));
        assert(t.to_multiset() == u.to_multiset().insert(s.last()));
        assert(u.to_multiset() == d.to_multiset().insert(x));
        assert(s.to_multiset() == d.to_multiset().insert(s.last()));
        assert(d.to_multiset().insert(x).insert(s.last()) =~= d.to_multiset().insert(
            s.last(),
        ).insert(x));
        assert(t.to_multiset() == s.to_multiset().insert(x));
        // Every row of `u` is `x` or a row of `d`, and both sit at or below
        // the dropped last row's mean.
        assert forall|k: int, l: int| 0 <= k < l < t.len() implies mean_le(
            #[trigger] t[k],
            #[trigger] t[l],
        ) by {
            if l < t.len() - 1 {
                assert(t[k] == u[k] && t[l] == u[l]);
            } else {
                assert(t[k] == u[k] && t[l] == s.last());
                let y = u[k];
                assert(u.contains(y));
                assert(u.to_multiset().count(y) > 0);
                if y == x {
                    assert(mean_le(x, s.last()));
                } else {
                    assert(d.to_multiset().count(y) > 0);
                    assert(d.contains(y));
                    let j = choose|j: int| 0 <= j < d.len() && d[j] == y;
                    assert(d[j] == s[j]);
                    assert(mean_le(s[j], s.last()));
                }
            }
        }
        assert(counted(t)) by {
            assert forall|k: int| 0 <= k < t.len() implies (#[trigger] t[k]).count >= 1 by {
                if k < t.len() - 1 {
                    assert(t[k] == u[k]);
                } else {
                    assert(t[k] == s.last());
                    assert(s.last() == s[s.len() - 1]);
                }
            }
        }
    }
}

proof fn lemma_sort_props(s: Seq<RankedView>)
    requires
        counted(s),
    ensures
        sorted_by_mean(sort_by_mean(s)),
        sort_by_mean(s).to_multiset() == s.to_multiset(),
        counted(sort_by_mean(s)),
    decreases s.len(),
{
    broadcast use to_multiset_build;

    if s.len() > 0 {
        let d = s.drop_last();
        assert(counted(d)) by {
            assert forall|k: int| 0 <= k < d.len() implies (#[trigger] d[k]).count >= 1 by {
                assert(d[k] == s[k]);
            }
        }
        lemma_sort_props(d);
        assert(s.last().count >= 1) by {
            assert(s.last() == s[s.len() - 1]);
        }
        lemma_insert_sorted_props(sort_by_mean(d), s.last());
        assert(s =~= d.push(s.last()));
        assert(s.to_multiset() == d.to_multiset().insert(s.last()));
    }
}

/// The report ranks ascending by mean: its rows are exactly the ledger's
/// rows, rearranged so that every mean is at most the next.
pub proof fn lemma_report_ranked_ascending(users: Seq<UserView>)
    requires
        wf_users(users),
    ensures
        sorted_by_mean(sort_by_mean(ranked_of(users))),
        sort_by_mean(ranked_of(users)).to_multiset() == ranked_of(users).to_multiset(),
{
    let r = ranked_of(users);
    assert(counted(r)) by {
        assert forall|k: int| 0 <= k < r.len() implies (#[trigger] r[k]).count >= 1 by {
            assert(r[k].count == users[k].scores.len() as int);
        }
    }
    lemma_sort_props(r);
}

/// Some line of the report text is exactly the line of row `i`.
proof fn lemma_lines_contains(s: Seq<RankedView>, r0: int, i: int)
    requires
        0 <= i < s.len(),
    ensures
        ({
            let line = line_chars(s[i], r0 + i);
            exists|pos: int|
                0 <= pos && pos + line.len() <= lines_from(s, r0).len() && #[trigger] lines_from(
                    s,
                    r0,
                ).subrange(pos, pos + line.len()) == line
        }),
    decreases i,
{
    let line = line_chars(s[i], r0 + i);
    let whole = lines_from(s, r0);
    let head = line_chars(s[0], r0);
    let rest = lines_from(s.drop_first(), r0 + 1);
    if i == 0 {
        assert(whole.subrange(0, line.len() as int) =~= line);
        assert(0 + line.len() <= whole.len() && whole.subrange(0, 0 + line.len() as int)
            == line);
    } else {
        lemma_lines_contains(s.drop_first(), r0 + 1, i - 1);
        assert(s.drop_first()[i - 1] == s[i]);
        let inner = choose|pos: int|
            0 <= pos && pos + line.len() <= rest.len() && #[trigger] rest.subrange(
                pos,
                pos + line.len(),
            ) == line;
        let pos = inner + head.len();
        assert(whole.subrange(pos, pos + line.len() as int) =~= rest.subrange(
            inner,
            inner + line.len(),
        ));
    }
}

/// A valid first submission is accepted, and the report of the new ledger
/// carries a line for the user whose mean text is exactly the single score.
pub proof fn lemma_first_record_reported(
    us: Seq<UserView>,
    uid: u64,
    name: Seq<char>,
    pid: i32,
    sc: i32,
)
    requires
        wf_users(us),
        user_idx(us, uid) < 0,
    ensures
        record_accepts(us, uid, pid),
        ({
            let m1 = record_result(us, uid, name, pid, sc);
            let e = RankedView { name: name, sum: sc as int, count: 1 };
            &&& wf_users(m1)
            &&& sort_by_mean(ranked_of(m1)).contains(e)
            &&& mean_chars(e.sum, e.count) == (if sc >= 0 {
                dec_str(sc as nat)
            } else {
                seq!['-'] + dec_str((-(sc as int)) as nat)
            })
            &&& exists|pos: int, rank: int|
                1 <= rank <= m1.len() && 0 <= pos && pos + line_chars(e, rank).len()
                    <= report_chars(m1).len() && #[trigger] report_chars(m1).subrange(
                    pos,
                    pos + line_chars(e, rank).len(),
                ) == line_chars(e, rank)
        }),
{
    broadcast use to_multiset_contains;
    broadcast use group_multiset_axioms;

    let m1 = record_result(us, uid, name, pid, sc);
    let e = RankedView { name: name, sum: sc as int, count: 1 };
    lemma_record_preserves_wf(us, uid, name, pid, sc);
    let row = UserView { user_id: uid, name, scores: seq![(pid, sc)] };
    assert(m1 == us.push(row));
    let r = ranked_of(m1);
    assert(sum_scores(row.scores) == sc) by {
        assert(row.scores.drop_last() =~= Seq::<(i32, i32)>::empty());
        assert(sum_scores(Seq::<(i32, i32)>::empty()) == 0);
        assert(row.scores.last() == (pid, sc));
    }
    assert(r[m1.len() - 1] == e);
    assert(r.contains(e));
    lemma_report_ranked_ascending(m1);
    let sorted = sort_by_mean(r);
    assert(sorted.to_multiset().count(e) > 0);
    assert(sorted.contains(e));
    let idx = choose|idx: int| 0 <= idx < sorted.len() && sorted[idx] == e;
    lemma_sort_len(r);
    lemma_lines_contains(sorted, 1, idx);
    assert(report_chars(m1) == lines_from(sorted, 1));
    let line = line_chars(e, 1 + idx);
    let pos = choose|pos: int|
        0 <= pos && pos + line.len() <= lines_from(sorted, 1).len() && #[trigger] lines_from(
            sorted,
            1,
        ).subrange(pos, pos + line.len()) == line;
    assert(1 <= 1 + idx <= m1.len() && 0 <= pos && pos + line_chars(e, 1 + idx).len()
        <= report_chars(m1).len() && report_chars(m1).subrange(
        pos,
        pos + line_chars(e, 1 + idx).len(),
    ) == line_chars(e, 1 + idx));
}

} // verus!
