use wordle_ledger::board::Leaderboard;
use wordle_ledger::board::handle_message;
use wordle_ledger::digits::dec_u64;

#[test]
fn first_submission_is_saved() {
    let board = Leaderboard::new();
    let reply = board.check_message(42, String::from("Bob"), 10, 4);
    assert_eq!(reply, "<@42> Your score has been saved");
}

#[test]
fn duplicate_submission_is_rejected() {
    let board = Leaderboard::new();
    let _ = board.check_message(42, String::from("Bob"), 10, 4);
    let reply = board.check_message(42, String::from("Bob"), 10, 2);
    assert_eq!(reply, "<@42> No Cheating! You've already done this wordle!");
}

#[test]
fn exactly_one_of_repeated_submissions_wins() {
    let board = Leaderboard::new();
    let mut saved = 0;
    let mut rejected = 0;
    for score in [4, 2, 6, 3] {
        let reply = board.check_message(9, String::from("Racer"), 77, score);
        if reply == "<@9> Your score has been saved" {
            saved += 1;
        } else {
            assert_eq!(reply, "<@9> No Cheating! You've already done this wordle!");
            rejected += 1;
        }
    }
    assert_eq!(saved, 1);
    assert_eq!(rejected, 3);
    // The score on file is the first caller's.
    assert_eq!(board.wordle_leaderboard(), "1) Racer, Score: 4\n");
}

#[test]
fn empty_leaderboard_text() {
    let board = Leaderboard::new();
    assert_eq!(board.wordle_leaderboard(), "Leaderboard is empty");
}

#[test]
fn leaderboard_after_records() {
    let board = Leaderboard::new();
    let _ = board.check_message(1, String::from("A"), 100, 2);
    let _ = board.check_message(1, String::from("A"), 101, 4);
    let _ = board.check_message(2, String::from("B"), 100, 5);
    assert_eq!(board.wordle_leaderboard(), "1) A, Score: 3\n2) B, Score: 5\n");
}

#[test]
fn dispatcher_records_results() {
    let board = Leaderboard::new();
    let reply = handle_message(
        &board,
        5,
        String::from("Cam"),
        &String::from("Wordle 1,234 3/6"),
    );
    assert_eq!(reply, Some(String::from("<@5> Your score has been saved")));
}

#[test]
fn dispatcher_answers_report_command() {
    let board = Leaderboard::new();
    let reply = handle_message(&board, 5, String::from("Cam"), &String::from("!wordle"));
    assert_eq!(reply, Some(String::from("Leaderboard is empty")));
}

#[test]
fn dispatcher_ignores_other_messages() {
    let board = Leaderboard::new();
    let reply = handle_message(&board, 5, String::from("Cam"), &String::from("hello"));
    assert_eq!(reply, None);
    // The command match is exact: trailing text is not the command.
    let reply = handle_message(&board, 5, String::from("Cam"), &String::from("!wordle "));
    assert_eq!(reply, None);
}

#[test]
fn decimal_text_of_numbers() {
    assert_eq!(dec_u64(0), "0");
    assert_eq!(dec_u64(7), "7");
    assert_eq!(dec_u64(1234), "1234");
    assert_eq!(dec_u64(u64::MAX), "18446744073709551615");
}
