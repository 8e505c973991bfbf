//! Runnable-block variants, the code-runner state machine, the language vocabulary, the
//! remembered language and the practice-problem model.
//!
//! The JSON a page carries is decoded here with `serde_json::Value` into the library's plain
//! input values, the way the application decodes it before calling the library.

use serde_json::Value;
use synapse_client::execution::blocks::{
    display_lang, expected_for, parse_variants, seed_values, RawVariant, Variant,
};
use synapse_client::execution::executor::{changed_line_count, is_dirty, EditMode, ExecutorState, RunState};
use synapse_client::execution::lang_pref::{index_for, store, LANG_KEY};
use synapse_client::execution::language::{
    canonical_lang, copy_target, language_table, preferred_index, runnable_fence,
};
use synapse_client::execution::practice::{decode_practice, solution_complexities, EditorialWire};
use synapse_client::wire::{ArgSpec, TestCase, TestSpec};

fn text(v: &Value, key: &str) -> Option<String> {
    v.get(key).and_then(Value::as_str).map(str::to_owned)
}

/// `data-variants`: a JSON array of `{lang, source, viz?}`; anything else is malformed.
fn raw_variants(json: &str) -> Option<Vec<RawVariant>> {
    let value: Value = serde_json::from_str(json).ok()?;
    let mut out = Vec::new();
    for item in value.as_array()? {
        out.push(RawVariant {
            lang: text(item, "lang")?,
            source: text(item, "source")?,
            viz: text(item, "viz"),
        });
    }
    Some(out)
}

/// `data-spec`: `{args:[{id,label,type}], cases:[{args:{id:value}, expected?}]}`.
fn test_spec(json: &str) -> Option<TestSpec> {
    let value: Value = serde_json::from_str(json).ok()?;
    let mut args = Vec::new();
    for a in value.get("args")?.as_array()? {
        args.push(ArgSpec { id: text(a, "id")?, label: text(a, "label")?, kind: text(a, "type")? });
    }
    let mut cases = Vec::new();
    for c in value.get("cases")?.as_array()? {
        let mut values = Vec::new();
        for (k, v) in c.get("args")?.as_object()? {
            values.push((k.clone(), v.as_str()?.to_owned()));
        }
        cases.push(TestCase { args: values, expected: text(c, "expected") });
    }
    Some(TestSpec { args, cases })
}

/// `data-editorials`: `[{tag, md}]`, absent fields empty.
fn editorials(json: &str) -> Option<Vec<EditorialWire>> {
    let value: Value = serde_json::from_str(json).ok()?;
    Some(
        value
            .as_array()?
            .iter()
            .map(|e| EditorialWire {
                tag: text(e, "tag").unwrap_or_default(),
                md: text(e, "md").unwrap_or_default(),
            })
            .collect(),
    )
}

// ─────────────────────────────────────────────────────────────────────────────
// Variants
// ─────────────────────────────────────────────────────────────────────────────

#[test]
fn decodes_single_and_adjacent_variants_in_order() {
    let json =
        r#"[{"lang":"python","source":"print(1)"},{"lang":"java","source":"class S {}","viz":"array"}]"#;
    let variants = parse_variants(raw_variants(json)).unwrap();
    assert_eq!(variants.len(), 2);
    assert_eq!(variants[0].language, "python");
    assert_eq!(variants[1].source, "class S {}");
    assert_eq!(variants[1].viz.as_deref(), Some("array"));
}

#[test]
fn trims_langs_and_drops_blank_ones() {
    let json = r#"[{"lang":"  py  ","source":"a"},{"lang":"   ","source":"b"}]"#;
    let variants = parse_variants(raw_variants(json)).unwrap();
    assert_eq!(variants.len(), 1);
    assert_eq!(variants[0].language, "py");
}

#[test]
fn malformed_or_empty_means_skip() {
    assert_eq!(parse_variants(raw_variants("not json")), None);
    assert_eq!(parse_variants(raw_variants("[]")), None);
    assert_eq!(parse_variants(raw_variants(r#"[{"lang":" ","source":"x"}]"#)), None);
}

#[test]
fn display_names_read_well() {
    assert_eq!(display_lang("cpp"), "C++");
    assert_eq!(display_lang("python"), "Python");
    assert_eq!(display_lang("js"), "Js");
}

// ─────────────────────────────────────────────────────────────────────────────
// The code-runner state machine
// ─────────────────────────────────────────────────────────────────────────────

#[derive(Debug, Clone, PartialEq, Eq)]
struct RunResult {
    stdout: String,
    stderr: String,
}

fn result(stdout: &str) -> RunResult {
    RunResult { stdout: stdout.to_owned(), stderr: String::new() }
}

#[test]
fn initial_state_is_idle_readonly_and_empty() {
    let state: ExecutorState<RunResult> = ExecutorState::initial("print(1)");
    assert_eq!(state.code, "print(1)");
    assert_eq!(state.run_state, RunState::Idle);
    assert_eq!(state.edit_mode, EditMode::ReadOnly);
    assert_eq!(state.result, None);
    assert_eq!(state.error, None);
}

#[test]
fn started_clears_the_previous_outcome_and_mints_a_new_handle() {
    let done = ExecutorState::initial("x").started();
    let handle = done.run_id;
    let done = done.completed(handle, result("42"));
    let restarted = done.started();
    assert_eq!(restarted.run_state, RunState::Running);
    assert_eq!(restarted.result, None);
    assert_eq!(restarted.error, None);
    assert_ne!(restarted.run_id, handle);
}

#[test]
fn completed_applies_only_on_a_matching_handle() {
    let running = ExecutorState::initial("x").started();
    let live = running.run_id;
    let done = running.completed(live, result("42"));
    assert_eq!(done.run_state, RunState::Done);
    assert_eq!(done.result.as_ref().unwrap().stdout, "42");
}

#[test]
fn stale_results_and_failures_are_no_ops() {
    let first = ExecutorState::initial("x").started();
    let stale_handle = first.run_id;
    let second = first.started(); // restart: the first run's handle is now stale
    let after_stale_result = second.completed(stale_handle, result("stale"));
    assert_eq!(after_stale_result, second, "a stale result must change nothing");
    let after_stale_failure = second.failed(stale_handle, "stale error");
    assert_eq!(after_stale_failure, second);
}

#[test]
fn a_result_for_a_cancelled_run_is_ignored() {
    let running = ExecutorState::initial("x").started();
    let in_flight = running.run_id;
    let cancelled = running.cancel();
    assert_eq!(cancelled.run_state, RunState::Idle);
    let late = cancelled.completed(in_flight, result("late"));
    assert_eq!(late, cancelled, "the cancelled run's result must be dropped");
}

#[test]
fn failed_records_the_error_on_a_matching_handle() {
    let running: ExecutorState<RunResult> = ExecutorState::initial("x").started();
    let failed = running.failed(running.run_id, "backend down");
    assert_eq!(failed.run_state, RunState::Done);
    assert_eq!(failed.error.as_deref(), Some("backend down"));
}

#[test]
fn set_code_touches_nothing_else() {
    let running: ExecutorState<RunResult> = ExecutorState::initial("a").started();
    let typed = running.set_code("b");
    assert_eq!(typed.code, "b");
    assert_eq!(typed.run_state, RunState::Running);
    assert_eq!(typed.run_id, running.run_id);
}

#[test]
fn edit_mode_toggles_and_cancel_edit_reverts_code_but_keeps_the_result() {
    let state = ExecutorState::initial("authored");
    let editing = state.enter_edit();
    assert_eq!(editing.edit_mode, EditMode::Editing);
    let ran = editing.set_code("hacked").started();
    let done = ran.completed(ran.run_id, result("42"));
    let reverted = done.cancel_edit("authored");
    assert_eq!(reverted.code, "authored");
    assert_eq!(reverted.edit_mode, EditMode::ReadOnly);
    assert_eq!(
        reverted.result.as_ref().unwrap().stdout,
        "42",
        "the result survives"
    );
}

#[test]
fn dirtiness_and_changed_lines_compare_against_the_authored_source() {
    let state: ExecutorState<RunResult> = ExecutorState::initial("a\nb\nc");
    assert!(!is_dirty(&state, "a\nb\nc"));
    let edited = state.set_code("a\nX\nc\nd");
    assert!(is_dirty(&edited, "a\nb\nc"));
    assert_eq!(
        changed_line_count(&edited, "a\nb\nc"),
        2,
        "one changed + one added"
    );
    assert_eq!(changed_line_count(&state, "a\nb\nc"), 0);
}

#[test]
fn clear_outcome_drops_the_panel_but_keeps_code_and_stale_guards_inflight_runs() {
    let state = ExecutorState::initial("authored").enter_edit().set_code("edited");
    let ran = state.started();
    let done = ran.completed(ran.run_id, result("42"));
    let cleared = done.clear_outcome();
    assert_eq!(cleared.run_state, RunState::Idle);
    assert!(cleared.result.is_none() && cleared.error.is_none());
    assert_eq!(cleared.code, "edited", "the buffer survives");
    assert_eq!(cleared.edit_mode, EditMode::Editing, "the unlock survives");
    // A reply still in flight for the old handle must not resurrect the panel.
    let resurrected = cleared.completed(ran.run_id, result("stale"));
    assert!(
        resurrected.result.is_none(),
        "the bumped handle drops the stale reply"
    );
}

#[test]
fn reset_returns_to_the_starter() {
    let state: ExecutorState<RunResult> =
        ExecutorState::initial("authored").enter_edit().set_code("edited").started();
    let fresh: ExecutorState<RunResult> = ExecutorState::reset("authored");
    assert_eq!(fresh.code, "authored");
    assert_eq!(fresh.run_state, RunState::Idle);
    assert_eq!(fresh.edit_mode, EditMode::ReadOnly);
    assert_ne!(fresh.run_id, state.run_id);
}

// ─────────────────────────────────────────────────────────────────────────────
// The language vocabulary
// ─────────────────────────────────────────────────────────────────────────────

fn variant(language: &str) -> Variant {
    Variant {
        language: language.to_owned(),
        source: String::new(),
        viz: None,
    }
}

#[test]
fn every_spelling_of_a_language_folds_onto_one_token() {
    for alias in ["python", "py", "python3", "PYTHON", "  Python  ", "Py"] {
        assert_eq!(canonical_lang(alias), Some("python"), "{alias}");
    }
    assert_eq!(canonical_lang("c++"), Some("cpp"));
    assert_eq!(canonical_lang("NODE"), Some("javascript"));
}

#[test]
fn sqlite_resolves_to_sql() {
    assert_eq!(canonical_lang("sqlite"), Some("sql"));
    assert_eq!(canonical_lang("sql"), Some("sql"));
}

#[test]
fn unknown_and_blank_aliases_are_none() {
    assert_eq!(canonical_lang("cobol"), None);
    assert_eq!(canonical_lang(""), None);
    assert_eq!(canonical_lang("   "), None);
    assert_eq!(canonical_lang("plaintext"), None);
}

#[test]
fn aliases_are_globally_unique_and_round_trip() {
    let mut seen: Vec<&str> = Vec::new();
    for (canonical, aliases) in language_table() {
        assert_eq!(
            aliases.first(),
            Some(&canonical),
            "canonical must lead its aliases"
        );
        for alias in aliases {
            assert!(!seen.contains(&alias), "duplicate alias: {alias}");
            seen.push(alias);
            assert_eq!(canonical_lang(alias), Some(canonical));
        }
    }
}

#[test]
fn preferred_index_finds_the_wanted_variant() {
    let variants = [variant("python"), variant("java")];
    assert_eq!(preferred_index(&variants, Some("java")), 1);
    assert_eq!(preferred_index(&variants, Some("python")), 0);
}

#[test]
fn preferred_index_matches_across_aliases() {
    let variants = [variant("java"), variant("py")];
    assert_eq!(preferred_index(&variants, Some("python")), 1);
    let variants = [variant("java"), variant("python3")];
    assert_eq!(preferred_index(&variants, Some("python")), 1);
}

#[test]
fn preferred_index_falls_back_to_the_first_variant() {
    let variants = [variant("python"), variant("java")];
    assert_eq!(preferred_index(&variants, None), 0);
    assert_eq!(preferred_index(&variants, Some("")), 0);
    assert_eq!(preferred_index(&variants, Some("cobol")), 0);
    assert_eq!(preferred_index(&variants, Some("rust")), 0);
}

#[test]
fn preferred_index_is_always_in_bounds() {
    let pool = ["python", "java", "rs", "sqlite", "not-a-language", ""];
    for len in 1..=pool.len() {
        let variants: Vec<Variant> = pool[..len].iter().map(|l| variant(l)).collect();
        for preference in pool {
            let i = preferred_index(&variants, Some(preference));
            assert!(i < variants.len(), "{preference} over {len} variants → {i}");
        }
        assert!(preferred_index(&variants, None) < variants.len());
    }
}

#[test]
fn the_remembered_language_is_stored_canonically() {
    assert_eq!(store("py"), Some((LANG_KEY, "python")));
    assert_eq!(store("  Python3 "), Some(("wb-language", "python")));
    assert_eq!(store("cobol"), None);
    assert_eq!(store(""), None);
    let variants = [variant("java"), variant("python3")];
    assert_eq!(index_for(&variants, Some("python")), 1);
    assert_eq!(index_for(&variants, None), 0);
}

// ─────────────────────────────────────────────────────────────────────────────
// The practice-problem model
// ─────────────────────────────────────────────────────────────────────────────

const VARIANTS: &str = r#"[{"lang":"python","source":"print(1)"}]"#;

fn decode(
    problem: &str,
    variants: &str,
    spec: Option<&str>,
    eds: Option<&str>,
) -> Option<synapse_client::execution::practice::PracticeSpec> {
    decode_practice(problem, raw_variants(variants), spec.and_then(test_spec), eds.and_then(editorials))
}

#[test]
fn decodes_a_full_practice_problem() {
    let spec = decode(
        "State the problem.",
        VARIANTS,
        Some(r#"{"args":[{"id":"n","label":"n","type":"int"}],"cases":[{"args":{"n":"3"}}]}"#),
        Some(r#"[{"tag":"","md":"The editorial."}]"#),
    )
    .unwrap();
    assert_eq!(spec.variants.len(), 1);
    assert!(spec.spec.is_some());
    assert_eq!(spec.editorials.len(), 1);
    assert_eq!(spec.editorials[0].label, "Editorial");
    assert_eq!(spec.editorials[0].md, "The editorial.");
}

#[test]
fn a_blank_statement_or_empty_variants_reads_as_no_widget() {
    assert!(decode("  ", VARIANTS, None, None).is_none());
    assert!(decode("Statement", "[]", None, None).is_none());
    assert!(decode("Statement", "not json", None, None).is_none());
}

#[test]
fn a_malformed_spec_degrades_to_no_tests_and_blank_editorials_drop() {
    let spec = decode(
        "Statement",
        VARIANTS,
        Some("not json"),
        Some(r#"[{"tag":"approach-optimal-1","md":"   "}]"#),
    )
    .unwrap();
    assert!(spec.spec.is_none());
    assert!(spec.editorials.is_empty());
}

#[test]
fn approach_tags_become_titled_tabs_in_authoring_order() {
    let spec = decode(
        "Statement",
        VARIANTS,
        None,
        Some(
            r#"[{"tag":"approach-brute-force-1","md":"Try all."},
                {"tag":"approach-optimal-1","md":"Two pointers."}]"#,
        ),
    )
    .unwrap();
    let labels: Vec<&str> = spec.editorials.iter().map(|a| a.label.as_str()).collect();
    assert_eq!(labels, ["Brute Force", "Optimal"]);
}

#[test]
fn a_repeated_kind_numbers_its_tabs() {
    let spec = decode(
        "Statement",
        VARIANTS,
        None,
        Some(
            r#"[{"tag":"approach-brute-force-1","md":"A."},
                {"tag":"approach-brute-force-2","md":"B."},
                {"tag":"approach-optimal-1","md":"C."}]"#,
        ),
    )
    .unwrap();
    let labels: Vec<&str> = spec.editorials.iter().map(|a| a.label.as_str()).collect();
    assert_eq!(labels, ["Brute Force 1", "Brute Force 2", "Optimal"]);
}

#[test]
fn extracts_time_and_space_claims_from_a_solution_meta() {
    assert_eq!(
        solution_complexities("solution time=O(n) space=O(1)"),
        vec![
            ("time".to_owned(), "O(n)".to_owned()),
            ("space".to_owned(), "O(1)".to_owned())
        ]
    );
    assert!(solution_complexities("solution").is_empty());
}

#[test]
fn a_spaced_complexity_value_survives_whole() {
    assert_eq!(
        solution_complexities("solution time=O(log N) space=O(1)"),
        vec![
            ("time".to_owned(), "O(log N)".to_owned()),
            ("space".to_owned(), "O(1)".to_owned())
        ]
    );
    assert_eq!(
        solution_complexities("solution time=O(log(min(N1, N2))) space=O(min(N1, N2))"),
        vec![
            ("time".to_owned(), "O(log(min(N1, N2)))".to_owned()),
            ("space".to_owned(), "O(min(N1, N2))".to_owned())
        ]
    );
    // An unbalanced value swallows the rest rather than panicking.
    assert_eq!(
        solution_complexities("solution time=O(log space=O(1)"),
        vec![("time".to_owned(), "O(log space=O(1)".to_owned())]
    );
}

#[test]
fn a_case_seeds_its_values_and_expected_output() {
    let spec = TestSpec {
        args: vec![ArgSpec { id: "n".to_owned(), label: "n".to_owned(), kind: "int".to_owned() }],
        cases: vec![
            TestCase { args: vec![("n".to_owned(), "3".to_owned())], expected: Some("6".to_owned()) },
            TestCase { args: vec![], expected: None },
        ],
    };
    assert_eq!(seed_values(&spec, 0), vec![("n".to_owned(), "3".to_owned())]);
    assert_eq!(expected_for(&spec, 0).as_deref(), Some("6"));
    assert_eq!(expected_for(&spec, 1), None);
    assert!(seed_values(&spec, 5).is_empty());
    assert_eq!(expected_for(&spec, 5), None);
}

#[test]
fn a_copied_solution_lands_in_the_matching_tab() {
    let variants = [variant("java"), variant("py")];
    assert_eq!(copy_target(&variants, "python3", 0), 1);
    assert_eq!(copy_target(&variants, "JAVA", 1), 0);
    assert_eq!(copy_target(&variants, "cobol", 1), 1, "an unknown language stays on the active tab");
    assert_eq!(copy_target(&variants, "rust", 1), 1);
    assert!(runnable_fence("sqlite"));
    assert!(!runnable_fence("text"));
}
