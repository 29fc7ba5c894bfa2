//! The score ledger: one entry per user, one score per puzzle per user.
//!
//! The first score recorded for a (user, puzzle) pair wins; a later attempt
//! for the same pair is rejected and changes nothing.  A user's display name
//! is fixed by the call that creates the entry and is not refreshed by later
//! records.

use vstd::prelude::*;

verus! {

/// One recorded score.
pub struct ScoreEntry {
    pub puzzle_id: i32,
    pub score: i32,
}

/// One user's row: a stable id, the display name seen when the row was
/// created, and the scores recorded so far.
pub struct UserEntry {
    pub user_id: u64,
    pub display_name: String,
    pub scores: Vec<ScoreEntry>,
}

/// The ledger itself, in the order the users first appeared.
pub struct LedgerMap {
    pub users: Vec<UserEntry>,
}

/// Mathematical image of a user's row.
pub struct UserView {
    pub user_id: u64,
    pub name: Seq<char>,
    pub scores: Seq<(i32, i32)>,
}

impl View for UserEntry {
    type V = UserView;

    open spec fn view(&self) -> UserView {
        UserView {
            user_id: self.user_id,
            name: self.display_name@,
            scores: self.scores@.map_values(|e: ScoreEntry| (e.puzzle_id, e.score)),
        }
    }
}

impl View for LedgerMap {
    type V = Seq<UserView>;

    open spec fn view(&self) -> Seq<UserView> {
        self.users@.map_values(|u: UserEntry| u@)
    }
}

/// Index of the first row for `uid`, or -1 when there is none.
pub open spec fn user_idx(users: Seq<UserView>, uid: u64) -> int
    decreases users.len(),
{
    if users.len() == 0 {
        -1
    } else if users[0].user_id == uid {
        0
    } else {
        let r = user_idx(users.drop_first(), uid);
        if r < 0 {
            -1
        } else {
            r + 1
        }
    }
}

pub proof fn lemma_user_idx_props(users: Seq<UserView>, uid: u64)
    ensures
        user_idx(users, uid) < 0 ==> forall|k: int|
            0 <= k < users.len() ==> (#[trigger] users[k]).user_id != uid,
        user_idx(users, uid) >= 0 ==> {
            let i = user_idx(users, uid);
            &&& i < users.len()
            &&& users[i].user_id == uid
            &&& forall|k: int| 0 <= k < i ==> (#[trigger] users[k]).user_id != uid
        },
    decreases users.len(),
{
    if users.len() > 0 && users[0].user_id != uid {
        let rest = users.drop_first();
        lemma_user_idx_props(rest, uid);
        assert forall|k: int| 1 <= k < users.len() implies users[k] == rest[k - 1] by {}
        if user_idx(users, uid) >= 0 {
            let i = user_idx(users, uid);
            assert(users[i] == rest[i - 1]);
        }
    }
}

/// `user_idx` is the position of the first matching row.
pub proof fn lemma_user_idx_is(users: Seq<UserView>, uid: u64, k: int)
    requires
        0 <= k < users.len(),
        users[k].user_id == uid,
        forall|j: int| 0 <= j < k ==> (#[trigger] users[j]).user_id != uid,
    ensures
        user_idx(users, uid) == k,
    decreases users.len(),
{
    if k > 0 {
        lemma_user_idx_is(users.drop_first(), uid, k - 1);
    }
}

/// Whether a score for `pid` is already on file.
pub open spec fn has_pid(scores: Seq<(i32, i32)>, pid: i32) -> bool {
    exists|k: int| 0 <= k < scores.len() && scores[k].0 == pid
}

/// Whether a record of (`uid`, `pid`) is accepted: the user is new, or has
/// no score for that puzzle yet.
pub open spec fn record_accepts(users: Seq<UserView>, uid: u64, pid: i32) -> bool {
    let i = user_idx(users, uid);
    i < 0 || !has_pid(users[i].scores, pid)
}

/// The ledger after a record call: a new row for a new user, the untouched
/// ledger on a duplicate puzzle, or the score appended to the user's row
/// (name unchanged) otherwise.
pub open spec fn record_result(
    users: Seq<UserView>,
    uid: u64,
    name: Seq<char>,
    pid: i32,
    sc: i32,
) -> Seq<UserView> {
    let i = user_idx(users, uid);
    if i < 0 {
        users.push(UserView { user_id: uid, name, scores: seq![(pid, sc)] })
    } else if has_pid(users[i].scores, pid) {
        users
    } else {
        users.update(
            i,
            UserView { user_id: uid, name: users[i].name, scores: users[i].scores.push((pid, sc)) },
        )
    }
}

/// No puzzle is scored twice within one row.
pub open spec fn distinct_pids(scores: Seq<(i32, i32)>) -> bool {
    forall|k: int, l: int|
        0 <= k < l < scores.len() ==> (#[trigger] scores[k]).0 != (#[trigger] scores[l]).0
}

/// Well-formedness: user ids are unique, every row has at least one score,
/// and no row scores the same puzzle twice.
pub open spec fn wf_users(users: Seq<UserView>) -> bool {
    &&& forall|i: int, j: int|
        0 <= i < j < users.len() ==> (#[trigger] users[i]).user_id != (
        #[trigger] users[j]).user_id
    &&& forall|i: int|
        0 <= i < users.len() ==> (#[trigger] users[i]).scores.len() >= 1
    &&& forall|i: int| 0 <= i < users.len() ==> distinct_pids((#[trigger] users[i]).scores)
}

impl LedgerMap {
    pub open spec fn wf(&self) -> bool {
        wf_users(self@)
    }

    /// An empty ledger.
    pub fn new() -> (r: Self)
        ensures
            r@ =~= Seq::<UserView>::empty(),
            r.wf(),
    {
        LedgerMap { users: Vec::new() }
    }

    fn find_user(&self, uid: u64) -> (r: Option<usize>)
        ensures
            match r {
                Some(j) => j as int == user_idx(self@, uid) && (j as int) < self@.len(),
                None => user_idx(self@, uid) < 0,
            },
    {
        let ghost us = self@;
        let n = self.users.len();
        let mut j: usize = 0;
        while j < n
            invariant
                0 <= j <= n,
                n == us.len(),
                us == self@,
                forall|k: int| 0 <= k < j ==> (#[trigger] us[k]).user_id != uid,
            decreases n - j,
        {
            if self.users[j].user_id == uid {
                proof {
                    lemma_user_idx_is(us, uid, j as int);
                }
                return Some(j);
            }
            j = j + 1;
        }
        proof {
            lemma_user_idx_props(us, uid);
            if user_idx(us, uid) >= 0 {
                assert(us[user_idx(us, uid)].user_id == uid);
            }
        }
        None
    }

    fn scores_contain(scores: &Vec<ScoreEntry>, pid: i32) -> (r: bool)
        ensures
            r <==> (exists|k: int|
                0 <= k < scores@.len() && (#[trigger] scores@[k]).puzzle_id == pid),
    {
        let n = scores.len();
        let mut k: usize = 0;
        while k < n
            invariant
                0 <= k <= n,
                n == scores@.len(),
                forall|l: int| 0 <= l < k ==> (#[trigger] scores@[l]).puzzle_id != pid,
            decreases n - k,
        {
            if scores[k].puzzle_id == pid {
                return true;
            }
            k = k + 1;
        }
        false
    }

    /// Records a score for (`user_id`, `puzzle_id`), unless that pair already
    /// has one; says whether the score was taken.
    pub fn record_score(
        &mut self,
        user_id: u64,
        display_name: String,
        puzzle_id: i32,
        score: i32,
    ) -> (accepted: bool)
        requires
            old(self).wf(),
        ensures
            final(self).wf(),
            accepted == record_accepts(old(self)@, user_id, puzzle_id),
            final(self)@ == record_result(old(self)@, user_id, display_name@, puzzle_id, score),
    {
        let ghost us = self@;
        match self.find_user(user_id) {
            None => {
                let mut scores: Vec<ScoreEntry> = Vec::new();
                scores.push(ScoreEntry { puzzle_id, score });
                let entry = UserEntry { user_id, display_name, scores };
                proof {
                    assert(entry@.scores =~= seq![(puzzle_id, score)]);
                }
                self.users.push(entry);
                proof {
                    assert(self@ =~= us.push(
                        UserView {
                            user_id,
                            name: entry.display_name@,
                            scores: seq![(puzzle_id, score)],
                        },
                    ));
                    assert(record_accepts(us, user_id, puzzle_id));
                    lemma_user_idx_props(us, user_id);
                }
                true
            },
            Some(j) => {
                let ghost i = j as int;
                let ghost rows = self.users@[i].scores@;
                proof {
                    lemma_user_idx_props(us, user_id);
                    assert(us[i] == self.users@[i]@);
                    assert forall|k: int| 0 <= k < rows.len() implies (#[trigger] us[i].scores[k])
                        == (rows[k].puzzle_id, rows[k].score) by {}
                }
                let dup = Self::scores_contain(&self.users[j].scores, puzzle_id);
                proof {
                    if dup {
                        let k = choose|k: int|
                            0 <= k < rows.len() && (#[trigger] rows[k]).puzzle_id == puzzle_id;
                        assert(us[i].scores[k].0 == puzzle_id);
                    } else if has_pid(us[i].scores, puzzle_id) {
                        let k = choose|k: int|
                            0 <= k < us[i].scores.len() && (#[trigger] us[i].scores[k]).0
                                == puzzle_id;
                        assert(rows[k].puzzle_id == puzzle_id);
                    }
                    assert(dup == has_pid(us[i].scores, puzzle_id));
                }
                if dup {
                    proof {
                        assert(user_idx(us, user_id) == i);
                        assert(has_pid(us[i].scores, puzzle_id));
                        assert(!record_accepts(us, user_id, puzzle_id));
                        assert(self@ == record_result(us, user_id, display_name@, puzzle_id, score));
                    }
                    false
                } else {
                    let ghost uv0 = self.users@;
                    let mut entry = self.users.remove(j);
                    entry.scores.push(ScoreEntry { puzzle_id, score });
                    self.users.insert(j, entry);
                    proof {
                        let target = us.update(
                            i,
                            UserView {
                                user_id,
                                name: us[i].name,
                                scores: us[i].scores.push((puzzle_id, score)),
                            },
                        );
                        assert(self.users@ == uv0.remove(i).insert(i, entry));
                        assert(self.users@.len() == us.len());
                        assert(entry@.scores =~= us[i].scores.push((puzzle_id, score)));
                        assert(entry@ == target[i]);
                        assert forall|a: int| 0 <= a < self@.len() implies self@[a] == target[a] by {
                            if a != i {
                                assert(self.users@[a] == uv0[a]);
                            } else {
                                assert(self.users@[a] == entry);
                            }
                        }
                        assert(self@ =~= target);
                        assert(final(self).wf()) by {
                            assert forall|a: int| 0 <= a < self@.len() implies distinct_pids(
                                (#[trigger] self@[a]).scores,
                            ) by {
                                if a == i {
                                    let ns = self@[a].scores;
                                    assert(ns.drop_last() =~= us[i].scores);
                                    assert(!has_pid(us[i].scores, puzzle_id));
                                    assert forall|k: int, l: int|
                                        0 <= k < l < ns.len() implies (#[trigger] ns[k]).0 != (
                                    #[trigger] ns[l]).0 by {
                                        assert(ns[k] == us[i].scores[k]);
                                        if l < ns.len() - 1 {
                                            assert(ns[l] == us[i].scores[l]);
                                        } else {
                                            assert(us[i].scores[k].0 != puzzle_id);
                                        }
                                    }
                                } else {
                                    assert(self@[a] == us[a]);
                                }
                            }
                        }
                    }
                    true
                }
            },
        }
    }
}

} // verus!
