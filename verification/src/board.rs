//! The shared leaderboard service and the message dispatcher.
//!
//! The ledger sits behind a readers-writer lock: reports share read access,
//! while recording a score holds exclusive access for its whole
//! check-and-insert, so no concurrent interleaving can record two scores for
//! the same (user, puzzle) pair or lose an update.

use crate::digits::dec_str;
use crate::digits::dec_u64;
use crate::extract::extract_spec;
use crate::extract::extract_wordle_score;
use crate::ledger::LedgerMap;
use crate::ledger::record_accepts;
use crate::report::report_chars;
use vstd::prelude::*;
use vstd::rwlock::RwLock;
use vstd::string::StringExecFns;

verus! {

/// Reply to an accepted score, opening with a mention of the user.
pub open spec fn success_chars(uid: u64) -> Seq<char> {
    "<@"@ + dec_str(uid as nat) + "> Your score has been saved"@
}

/// Reply to a duplicate submission for a puzzle the user already scored.
pub open spec fn reject_chars(uid: u64) -> Seq<char> {
    "<@"@ + dec_str(uid as nat) + "> No Cheating! You've already done this wordle!"@
}

fn mention_prefixed(uid: u64, tail: &str) -> (r: String)
    ensures
        r@ == "<@"@ + dec_str(uid as nat) + tail@,
{
    let mut s = String::from_str("<@");
    s.append(dec_u64(uid).as_str());
    s.append(tail);
    proof {
        assert(s@ =~= "<@"@ + dec_str(uid as nat) + tail@);
    }
    s
}

/// What every ledger stored behind the lock obeys.
pub open spec fn ledger_inv(m: LedgerMap) -> bool {
    m.wf()
}

/// The shared leaderboard: a well-formed ledger behind a readers-writer
/// lock.
pub struct Leaderboard {
    lock: RwLock<LedgerMap, spec_fn(LedgerMap) -> bool>,
}

impl Leaderboard {
    pub closed spec fn wf(&self) -> bool {
        forall|m: LedgerMap| #[trigger] self.lock.inv(m) <==> ledger_inv(m)
    }

    /// A leaderboard over an empty ledger.
    pub fn new() -> (r: Self)
        ensures
            r.wf(),
    {
        let lock = RwLock::new(LedgerMap::new(), Ghost(|m: LedgerMap| ledger_inv(m)));
        Leaderboard { lock }
    }

    /// Records the score under exclusive access and answers with the
    /// success text, or with the rejection text when this user already
    /// scored this puzzle.
    pub fn check_message(
        &self,
        user_id: u64,
        user_display_name: String,
        wordle_id: i32,
        score: i32,
    ) -> (reply: String)
        requires
            self.wf(),
        ensures
            reply@ == success_chars(user_id) || reply@ == reject_chars(user_id),
            exists|before: LedgerMap|
                #[trigger] before.wf() && reply@ == (if record_accepts(before@, user_id, wordle_id) {
                    success_chars(user_id)
                } else {
                    reject_chars(user_id)
                }),
    {
        let (mut ledger, handle) = self.lock.acquire_write();
        let ghost before = ledger;
        let accepted = ledger.record_score(user_id, user_display_name, wordle_id, score);
        handle.release_write(ledger);
        if accepted {
            let reply = mention_prefixed(user_id, "> Your score has been saved");
            proof {
                assert(before.wf() && reply@ == (if record_accepts(before@, user_id, wordle_id) {
                    success_chars(user_id)
                } else {
                    reject_chars(user_id)
                }));
            }
            reply
        } else {
            let reply = mention_prefixed(user_id, "> No Cheating! You've already done this wordle!");
            proof {
                assert(before.wf() && reply@ == (if record_accepts(before@, user_id, wordle_id) {
                    success_chars(user_id)
                } else {
                    reject_chars(user_id)
                }));
            }
            reply
        }
    }

    /// Renders the standings from a shared read of the ledger.
    pub fn wordle_leaderboard(&self) -> (text: String)
        requires
            self.wf(),
        ensures
            exists|m: LedgerMap| #[trigger] m.wf() && text@ == report_chars(m@),
    {
        let handle = self.lock.acquire_read();
        let ghost m = handle.view();
        let text = handle.borrow().render_report();
        handle.release_read();
        proof {
            assert(m.wf() && text@ == report_chars(m@));
        }
        text
    }
}

/// The dispatcher's decision on one inbound message: a message with a
/// readable result is recorded and answered; the literal `!wordle` command
/// is answered with the standings; anything else gets no reply.
pub fn handle_message(
    board: &Leaderboard,
    user_id: u64,
    display_name: String,
    text: &String,
) -> (reply: Option<String>)
    requires
        board.wf(),
    ensures
        match extract_spec(text@) {
            Some(v) => reply matches Some(t) && (t@ == success_chars(user_id) || t@
                == reject_chars(user_id)),
            None => {
                if text@ == "!wordle"@ {
                    reply matches Some(t) && (exists|m: LedgerMap|
                        #[trigger] m.wf() && t@ == report_chars(m@))
                } else {
                    reply is None
                }
            },
        },
{
    match extract_wordle_score(text.as_str()) {
        Some((wordle_id, score)) => Some(
            board.check_message(user_id, display_name, wordle_id, score),
        ),
        None => {
            let cmd = String::from_str("!wordle");
            if text.eq(&cmd) {
                Some(board.wordle_leaderboard())
            } else {
                None
            }
        },
    }
}

} // verus!
