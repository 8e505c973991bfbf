//! The decisions around requests, runs, submissions and sign-in: endpoints and error text,
//! the Run button and the edit toggle, the judging poll, practice titles and the session.

use synapse_client::api::{
    allowlist_entry_endpoint, bearer_header, blog_post_endpoint, c4_doc_endpoint, error_message,
    http_status_message, lesson_endpoint, submission_endpoint,
};
use synapse_client::execution::executor::{EditMode, ExecutorState, RunState};
use synapse_client::execution::practice::practice_title;
use synapse_client::execution::submit::{
    can_submit, on_polled, on_submitted, poll_reply, PollReply, SubmitState, MAX_POLLS,
};
use synapse_client::quiz::{can_check, is_correct, option_marks, verdict, Quiz};
use synapse_client::identity::{
    grant_request, granted, granting, revoked, revoking,
    busy, erased_message, keeps_refreshing, local_keys, on_refreshed, on_session, Action,
    ActionStatus, AuthStatus,
};

#[test]
fn endpoints_name_their_resources() {
    let path = vec!["learn".to_owned(), "dsa".to_owned(), "intro".to_owned()];
    assert_eq!(lesson_endpoint(&path), "/api/synapse/learn/dsa/intro");
    assert_eq!(
        c4_doc_endpoint("btPersonal.btSmallWeb", &path),
        "/api/synapse/c4-doc/btPersonal.btSmallWeb?lesson=learn/dsa/intro"
    );
    assert_eq!(submission_endpoint("abc"), "/api/submissions/abc");
    assert_eq!(blog_post_endpoint("hello"), "/api/blog/hello");
    assert_eq!(allowlist_entry_endpoint("ada"), "/api/admin/allowlist/ada");
    assert_eq!(bearer_header("t0k"), "Bearer t0k");
}

#[test]
fn a_refused_request_reads_as_the_servers_error() {
    assert_eq!(error_message("not_found", None), "not_found");
    assert_eq!(error_message("not_found", Some("no such lesson")), "not_found: no such lesson");
    assert_eq!(http_status_message(502), "HTTP 502");
    assert_eq!(http_status_message(0), "HTTP 0");
}

#[derive(Debug, Clone, PartialEq)]
struct Output(String);

#[test]
fn the_run_button_waits_for_the_run_in_flight() {
    let idle: ExecutorState<Output> = ExecutorState::initial("print(1)");
    let running = idle.launch().unwrap();
    assert_eq!(running.run_state, RunState::Running);
    assert_ne!(running.run_id, idle.run_id);
    assert!(running.launch().is_none(), "a run in flight wins");
    let done = running.completed(running.run_id, Output("1".to_owned()));
    let again = done.launch().unwrap();
    assert_eq!(again.result, None);
}

#[test]
fn the_edit_toggle_unlocks_and_locking_reverts_the_buffer() {
    let state: ExecutorState<Output> = ExecutorState::initial("authored");
    let (unlocked, editing) = state.toggle_edit(false, "authored");
    assert!(unlocked);
    assert_eq!(editing.edit_mode, EditMode::Editing);
    let edited = editing.set_code("changed");
    let (unlocked, locked) = edited.toggle_edit(true, "authored");
    assert!(!unlocked);
    assert_eq!(locked.edit_mode, EditMode::ReadOnly);
    assert_eq!(locked.code, "authored");
}

#[test]
fn judging_polls_until_a_verdict_and_gives_up_at_the_limit() {
    let idle: SubmitState<u32> = SubmitState::Idle;
    assert!(can_submit(&idle));
    let (judging, poll) = on_submitted::<u32>(Ok("s1".to_owned()));
    assert!(poll);
    assert_eq!(judging, SubmitState::Judging("s1".to_owned()));
    assert!(!can_submit(&judging), "one judging at a time");
    let (failed, poll) = on_submitted::<u32>(Err("forbidden".to_owned()));
    assert!(!poll);
    assert_eq!(failed, SubmitState::Failed("forbidden".to_owned()));

    assert_eq!(
        on_polled::<u32>("s1".to_owned(), 0, PollReply::Pending),
        (SubmitState::Judging("s1".to_owned()), true)
    );
    assert_eq!(on_polled("s1".to_owned(), 3, PollReply::Completed(7u32)), (SubmitState::Done(7), false));
    assert_eq!(
        on_polled::<u32>("s1".to_owned(), 4, PollReply::Error("HTTP 500".to_owned())),
        (SubmitState::Failed("HTTP 500".to_owned()), false)
    );
    assert_eq!(
        on_polled::<u32>("s1".to_owned(), MAX_POLLS - 1, PollReply::Pending),
        (SubmitState::Failed("judging timed out".to_owned()), false)
    );
}

#[test]
fn a_practice_problem_takes_its_title_from_the_heading_above() {
    assert_eq!(practice_title(Some("Practice: Two Sum ")), "Two Sum");
    assert_eq!(practice_title(Some("  Warm-up  ")), "Warm-up");
    assert_eq!(practice_title(Some("Practice:   ")), "Your Turn");
    assert_eq!(practice_title(None), "Your Turn");
}

#[test]
fn a_session_is_adopted_only_when_verified_and_lost_when_refresh_fails() {
    assert_eq!(on_session(Some("ada")), AuthStatus::Authed("ada"));
    assert_eq!(on_session::<&str>(None), AuthStatus::Anonymous);
    assert!(keeps_refreshing(&AuthStatus::Authed(1)));
    assert!(!keeps_refreshing(&AuthStatus::<u8>::Anonymous));
    assert!(!keeps_refreshing(&AuthStatus::<u8>::Loading));
    assert_eq!(on_refreshed(AuthStatus::Authed(1), true), (AuthStatus::Authed(1), true));
    assert_eq!(on_refreshed(AuthStatus::Authed(1), false), (AuthStatus::Anonymous, false));
}

#[test]
fn account_actions_report_in_their_banner() {
    assert_eq!(erased_message(3), "Deleted 3 submission(s).");
    assert_eq!(busy(Action::EraseAll), ActionStatus::Busy("Erasing your data…".to_owned()));
    assert_eq!(
        busy(Action::DeleteAccount),
        ActionStatus::Busy("Deleting your account…".to_owned())
    );
    assert_eq!(local_keys(), vec!["reader-prefs"]);
}

fn quiz() -> Quiz {
    Quiz {
        prompt: "2 + 2?".to_owned(),
        options: vec!["3".to_owned(), "4".to_owned(), "5".to_owned()],
        answer: "4".to_owned(),
        input: None,
    }
}

#[test]
fn a_checked_quiz_marks_the_answer_and_a_wrong_pick() {
    let q = quiz();
    assert!(!can_check(None));
    assert!(can_check(Some(0)));
    let before = option_marks(&q, Some(0), false, 0);
    assert!(before.selected && !before.right && !before.wrong);
    let picked = option_marks(&q, Some(0), true, 0);
    assert!(!picked.selected && !picked.right && picked.wrong);
    let answer = option_marks(&q, Some(0), true, 1);
    assert!(answer.right && !answer.wrong);
    assert!(!is_correct(&q, Some(0)));
    assert!(is_correct(&q, Some(1)));
    assert!(!is_correct(&q, Some(9)));
    assert!(!is_correct(&q, None));
    assert_eq!(verdict(&q, Some(1)), "Correct ✓");
    assert_eq!(verdict(&q, Some(2)), "Not quite — the answer is “4”");
}

#[test]
fn a_poll_answer_is_judged_only_when_completed() {
    assert!(matches!(poll_reply(Ok(("completed".to_owned(), 5u8))), PollReply::Completed(5)));
    assert!(matches!(poll_reply(Ok(("judging".to_owned(), 5u8))), PollReply::Pending));
    assert!(matches!(poll_reply::<u8>(Err("HTTP 500".to_owned())), PollReply::Error(m) if m == "HTTP 500"));
}

#[test]
fn a_large_count_prints_whole() {
    assert_eq!(erased_message(u64::MAX), "Deleted 18446744073709551615 submission(s).");
    assert_eq!(erased_message(0), "Deleted 0 submission(s).");
}

#[test]
fn a_grant_needs_a_username_and_keeps_only_a_real_note() {
    assert_eq!(grant_request("  ", "vip"), Err("A grant needs a username".to_owned()));
    assert_eq!(grant_request("ada", "   "), Ok(("ada".to_owned(), None)));
    assert_eq!(
        grant_request("ada", "beta tester"),
        Ok(("ada".to_owned(), Some("beta tester".to_owned())))
    );
    assert_eq!(granting(), ActionStatus::Busy("Granting…".to_owned()));
    assert_eq!(granted("ada"), ActionStatus::Done("Granted 'ada'.".to_owned()));
    assert_eq!(revoking("ada"), ActionStatus::Busy("Revoking 'ada'…".to_owned()));
    assert_eq!(revoked("ada"), ActionStatus::Done("Revoked 'ada'.".to_owned()));
}
