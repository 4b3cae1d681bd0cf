use cli4all::desktop::{
    search_catalog_suggestions_internal, cd_candidate, complete_cd, handle_translate_builtin, home_dir, initial_translate_cwd, native_shell_path, normalize_search_token,
    parse_cd_command, resolve_confirmation, risk_priority, strip_wrapping_quotes, submit_terminal_line,
    ConfirmationResolutionAction, PendingConfirmation, TerminalError, TerminalStep, TranslateSession,
};
use cli4all::data_paths::{candidate_data_dirs, find_data_dir, find_data_file, path_components, CandidateDir};
use cli4all::detector::{detect_command, extract_command_token};
use cli4all::executor::{CommandExecutor, ExecError, ExecutionResult, SystemCommandExecutor};
use cli4all::output::{format_risk, format_unknown_command};
use cli4all::platform::{normalize_target_platform, Platform};
use cli4all::rules::{
    apply_template_captures, build_command_pattern, build_command_regex, Captures, RiskCatalog, RiskRule, RuleError,
};
use cli4all::safety::{assess_risk, RiskAssessment};
use cli4all::shell::{
    command_to_run, decide_shell_command, decimal, finish_terminal_command, plan_terminal_command, section_footer, section_header,
    shell_prompt, shell_step, strongest_risk_level, ShellAction, ShellDecision, ShellError, ShellStep, TerminalResponse,
};
use cli4all::store::bplus_tree::{build_index_bytes, IndexError, ReadOnlyBPlusTree};
use cli4all::store::formats::{DataPointer, IndexEntry};
use cli4all::store::c4db_builder::{build_data_file, validate_record, BuildError};
use cli4all::store::c4db_store::frame_records;
use cli4all::store::command_store::{records_well_formed, StoreError};
use cli4all::store::normalize::{category_key, exact_command_key, intent_key, normalize_category, normalize_command};
use cli4all::store::{build_store_files, prepare_records, C4DbCommandStore, CommandRecord, CommandStore};
use cli4all::translator::{translate_command, TranslateError};

fn record(intent: &str, category: &str, risk: &str, commands: &[(&str, &[&str])]) -> CommandRecord {
    CommandRecord {
        intent: intent.to_string(),
        description: format!("{intent} description"),
        category: category.to_string(),
        risk_level: risk.to_string(),
        commands: commands
            .iter()
            .map(|(platform, examples)| (platform.to_string(), examples.iter().map(|e| e.to_string()).collect()))
            .collect(),
        notes: Vec::new(),
    }
}

fn small_records() -> Vec<CommandRecord> {
    vec![
        record("show_ip_config", "networking", "low", &[
            ("windows_cmd", &["ipconfig"]),
            ("macos", &["ifconfig"]),
            ("ubuntu", &["ip addr"]),
        ]),
        record("list_files", "filesystem", "low", &[
            ("windows_cmd", &["dir", "dir <path>"]),
            ("macos", &["ls", "ls <path>"]),
            ("ubuntu", &["ls", "ls <path>"]),
        ]),
        record("remove_file", "filesystem", "medium", &[
            ("windows_cmd", &["del <file>"]),
            ("macos", &["rm <file>"]),
            ("ubuntu", &["rm <file>"]),
        ]),
        record("remove_directory_tree", "filesystem", "destructive", &[
            ("windows_cmd", &["rmdir /S <path>"]),
            ("macos", &["rm -rf <path>"]),
            ("ubuntu", &["rm -rf <path>"]),
        ]),
        record("clear_screen", "terminal", "low", &[
            ("windows_cmd", &["cls"]),
            ("powershell", &["Clear-Host"]),
            ("macos", &["clear"]),
            ("ubuntu", &["clear"]),
        ]),
    ]
}

fn open_store(records: Vec<CommandRecord>) -> C4DbCommandStore {
    let records = prepare_records(&records).expect("records should be valid");
    let blobs: Vec<Vec<u8>> = records.iter().map(|r| r.intent.as_bytes().to_vec()).collect();
    let (index, data) = build_store_files(&records, &blobs).expect("files should build");
    C4DbCommandStore::from_parts(index, data, records).expect("store should open")
}

fn rule(name: &str, level: &str, reason: &str, pattern: &str) -> RiskRule {
    RiskRule {
        name: name.to_string(),
        level: level.to_string(),
        reason: reason.to_string(),
        patterns: vec![pattern.to_string()],
    }
}

fn risk_catalog() -> RiskCatalog {
    RiskCatalog::new(vec![
        rule("root_delete", "destructive", "recursively removes the root filesystem.", r"rm\s+-(rf|fr)\s+/\s*$"),
        rule("chmod_world_writable", "medium", "makes a file world writable.", r"chmod\s+777"),
    ])
    .expect("rules should compile")
}

fn session(cwd: &str) -> TranslateSession {
    TranslateSession {
        initial_cwd: cwd.to_string(),
        cwd: cwd.to_string(),
        pending_confirmation: None,
        running_command: None,
    }
}

/// Plans a line, runs the command it hands over (if any) and fills the
/// response with the run's output.
fn process_terminal_command<E: CommandExecutor>(
    input: &str,
    platform: Platform,
    store: &C4DbCommandStore,
    rules: &RiskCatalog,
    executor: &E,
) -> Result<TerminalResponse, ShellError> {
    let (response, to_run) = plan_terminal_command(input, platform, store, rules)?;
    match to_run {
        None => Ok(response),
        Some(command) => finish_terminal_command(response, executor.execute(&command)),
    }
}

struct EchoExecutor;

impl CommandExecutor for EchoExecutor {
    fn execute(&self, command: &str) -> Result<ExecutionResult, ExecError> {
        Ok(ExecutionResult {
            command: command.to_string(),
            stdout: format!("ran {command}\n"),
            stderr: String::new(),
            status_code: Some(0),
        })
    }
}

struct FailingExecutor;

impl CommandExecutor for FailingExecutor {
    fn execute(&self, _command: &str) -> Result<ExecutionResult, ExecError> {
        Err(ExecError { message: "no shell".to_string() })
    }
}

// ---- keys and normalization ----

#[test]
fn exact_key_collapses_whitespace_and_case() {
    assert_eq!(exact_command_key("  Dir   /A "), "exact:dir /a");
    assert_eq!(normalize_command("\tLS  -LA\n"), "ls -la");
}

#[test]
fn intent_and_category_keys() {
    assert_eq!(intent_key("  Show_IP_Config "), "intent:show_ip_config");
    assert_eq!(category_key("Networking", "Show_IP"), "category:network:show_ip");
    assert_eq!(normalize_category(" File System "), "file_system");
    assert_eq!(normalize_category("network"), "network");
}

#[test]
fn normalize_command_is_idempotent_on_examples() {
    for input in ["  A  b\tC ", "ls -la", "", "   "] {
        let once = normalize_command(input);
        assert_eq!(normalize_command(&once), once);
    }
}

// ---- data file framing ----

#[test]
fn data_file_round_trips_its_blobs() {
    let blobs: Vec<Vec<u8>> = vec![b"alpha".to_vec(), Vec::new(), b"gamma ray".to_vec()];
    let (data, pointers) = build_data_file(&blobs).expect("data file should build");
    assert_eq!(&data[0..4], b"C4D1");
    let framed = frame_records(&data).expect("data file should frame");
    assert_eq!(framed, pointers);
    assert_eq!(framed.len(), 3);
    for (pointer, blob) in framed.iter().zip(blobs.iter()) {
        let start = pointer.offset as usize;
        assert_eq!(&data[start..start + pointer.len as usize], blob.as_slice());
    }
    assert_eq!(framed[0].offset, 20);
    assert_eq!(framed[1].offset, 29);
    assert_eq!(framed[2].offset, 33);
}

#[test]
fn store_errors_for_malformed_data() {
    let records = prepare_records(&small_records()).unwrap();
    let blobs: Vec<Vec<u8>> = records.iter().map(|r| r.intent.as_bytes().to_vec()).collect();
    let (index, data) = build_store_files(&records, &blobs).unwrap();

    let err = C4DbCommandStore::from_parts(index.clone(), vec![1, 2, 3], records.clone()).unwrap_err();
    assert_eq!(err, StoreError::DataTooSmall);

    let mut bad_magic = data.clone();
    bad_magic[0] = b'X';
    let err = C4DbCommandStore::from_parts(index.clone(), bad_magic, records.clone()).unwrap_err();
    assert_eq!(err, StoreError::BadDataMagic);

    let mut bad_version = data.clone();
    bad_version[4] = 2;
    let err = C4DbCommandStore::from_parts(index.clone(), bad_version, records.clone()).unwrap_err();
    assert_eq!(err, StoreError::UnsupportedDataVersion(2));

    let truncated = data[..data.len() - 1].to_vec();
    let err = C4DbCommandStore::from_parts(index.clone(), truncated, records.clone()).unwrap_err();
    assert_eq!(err, StoreError::DataEnded);

    let fewer = records[..records.len() - 1].to_vec();
    let err = C4DbCommandStore::from_parts(index.clone(), data.clone(), fewer).unwrap_err();
    assert_eq!(err, StoreError::RecordCountMismatch);

    let err = C4DbCommandStore::from_parts(vec![0; 8], data.clone(), records.clone()).unwrap_err();
    assert_eq!(err, StoreError::Index(IndexError::TooSmall));

    let mut bad_index = index.clone();
    bad_index[0] = b'Z';
    let err = C4DbCommandStore::from_parts(bad_index, data.clone(), records.clone()).unwrap_err();
    assert_eq!(err, StoreError::Index(IndexError::BadMagic));

    let mut invalid = records.clone();
    invalid[0].commands[0].1[0] = "cp <a> <a>".to_string();
    let err = C4DbCommandStore::from_parts(index.clone(), data.clone(), invalid).unwrap_err();
    assert_eq!(err, StoreError::InvalidExample);
}

#[test]
fn index_header_errors() {
    let mut bytes = vec![0u8; 64];
    bytes[0..4].copy_from_slice(b"C4I1");
    bytes[4] = 7;
    assert_eq!(ReadOnlyBPlusTree::from_bytes(bytes.clone()).unwrap_err(), IndexError::UnsupportedVersion(7));
    bytes[4] = 1;
    bytes[8] = 1;
    assert_eq!(ReadOnlyBPlusTree::from_bytes(bytes).unwrap_err(), IndexError::UnsupportedPageSize(1));
}

#[test]
fn index_answers_every_key_written() {
    let store_records = prepare_records(&small_records()).unwrap();
    let blobs: Vec<Vec<u8>> = store_records.iter().map(|r| r.intent.as_bytes().to_vec()).collect();
    let (index, data) = build_store_files(&store_records, &blobs).unwrap();
    let pointers = frame_records(&data).unwrap();
    let tree = ReadOnlyBPlusTree::from_bytes(index).unwrap();
    for (record, pointer) in store_records.iter().zip(pointers.iter()) {
        assert_eq!(tree.get(&intent_key(&record.intent)).unwrap(), Some(*pointer));
        assert_eq!(tree.get(&category_key(&record.category, &record.intent)).unwrap(), Some(*pointer));
        for (_, examples) in &record.commands {
            for example in examples {
                assert_eq!(tree.get(&exact_command_key(example)).unwrap(), Some(*pointer));
            }
        }
    }
    assert_eq!(tree.get("exact:no such command").unwrap(), None);
    let filesystem = tree.scan_prefix("category:filesystem:").unwrap();
    assert_eq!(filesystem.len(), 3);
}

// ---- building ----

#[test]
fn validate_record_reports_each_problem() {
    let blank = record("  ", "x", "low", &[("macos", &["ls"])]);
    assert!(matches!(validate_record(&blank), Err(BuildError::EmptyIntent)));

    let no_category = record("list", " ", "low", &[("macos", &["ls"])]);
    assert!(matches!(validate_record(&no_category), Err(BuildError::EmptyCategory(i)) if i == "list"));

    let no_platforms = record("list", "fs", "low", &[]);
    assert!(matches!(validate_record(&no_platforms), Err(BuildError::NoPlatforms(i)) if i == "list"));

    let no_examples = record("list", "fs", "low", &[("macos", &["ls"]), ("ubuntu", &[])]);
    assert!(matches!(
        validate_record(&no_examples),
        Err(BuildError::NoExamples { intent, platform }) if intent == "list" && platform == "ubuntu"
    ));

    let invalid = record("copy", "fs", "low", &[("macos", &["cp <a> <b>", "cp <a> <a>"])]);
    assert!(matches!(
        validate_record(&invalid),
        Err(BuildError::InvalidExample { intent, platform, command })
            if intent == "copy" && platform == "macos" && command == "cp <a> <a>"
    ));

    assert!(validate_record(&small_records()[0]).is_ok());
}

#[test]
fn build_refuses_mismatched_blobs_and_collisions() {
    let records = prepare_records(&small_records()).unwrap();
    let err = build_store_files(&records, &Vec::new()).unwrap_err();
    assert!(matches!(err, BuildError::BlobCountMismatch));

    let clash = vec![
        record("first", "a", "low", &[("macos", &["same thing"])]),
        record("second", "a", "low", &[("ubuntu", &["Same   Thing"])]),
    ];
    let clash = prepare_records(&clash).unwrap();
    let blobs: Vec<Vec<u8>> = clash.iter().map(|r| r.intent.as_bytes().to_vec()).collect();
    let err = build_store_files(&clash, &blobs).unwrap_err();
    assert!(matches!(err, BuildError::KeyCollision(k) if k == "exact:same thing"));
}

#[test]
fn build_refuses_a_key_larger_than_a_page() {
    let long = "a".repeat(5000);
    let records = vec![record("long", "a", "low", &[("macos", &[long.as_str()])])];
    let records = prepare_records(&records).unwrap();
    let blobs: Vec<Vec<u8>> = records.iter().map(|r| r.intent.as_bytes().to_vec()).collect();
    let err = build_store_files(&records, &blobs).unwrap_err();
    assert!(matches!(err, BuildError::Index(IndexError::KeyTooLarge)));
}

#[test]
fn prepare_records_sorts_by_intent() {
    let prepared = prepare_records(&small_records()).unwrap();
    let intents: Vec<&str> = prepared.iter().map(|r| r.intent.as_str()).collect();
    assert_eq!(intents, vec!["clear_screen", "list_files", "remove_directory_tree", "remove_file", "show_ip_config"]);
    let bad = vec![record("ok", "a", "low", &[("macos", &["ls"])]), record("", "a", "low", &[("macos", &["ls"])])];
    assert!(prepare_records(&bad).is_err());
}

// ---- patterns and rules ----

#[test]
fn command_pattern_escapes_literals() {
    let pattern = build_command_pattern("a.b <file>");
    assert!(pattern.starts_with("(?i)^\\s*a\\.b\\s+(?P<file>"));
    assert!(pattern.ends_with("\\s*$"));
    assert!(build_command_regex("a.b <file>").is_ok());
    assert!(matches!(build_command_regex("cp <a> <a>"), Err(RuleError::InvalidGeneratedPattern(_))));
}

#[test]
fn risk_catalog_refuses_a_bad_pattern() {
    let err = RiskCatalog::new(vec![rule("broken", "high", "broken", "(")]).unwrap_err();
    assert!(matches!(err, RuleError::InvalidPattern { rule, pattern } if rule == "broken" && pattern == "("));
}

#[test]
fn captures_keep_the_latest_value() {
    let mut captures = Captures::new();
    assert!(captures.is_empty());
    captures.insert("path".to_string(), "/tmp".to_string());
    captures.insert("path".to_string(), "/var".to_string());
    assert!(!captures.is_empty());
    assert_eq!(captures.get("path"), Some("/var"));
    assert_eq!(captures.get("file"), None);
    assert_eq!(apply_template_captures("ls <path>", &captures), "ls /var");
    assert_eq!(apply_template_captures("cat <file>", &captures), "cat <file>");
}

#[test]
fn command_token_comes_from_shell_errors() {
    assert_eq!(extract_command_token("zsh: command not found: ipconfig"), Some("ipconfig".to_string()));
    assert_eq!(extract_command_token("  ls -la"), Some("ls".to_string()));
}

// ---- risk ----

#[test]
fn assess_risk_picks_the_matching_rule() {
    let catalog = risk_catalog();
    let destructive = assess_risk("rm -rf /", &catalog);
    assert_eq!(destructive.level, "destructive");
    assert_eq!(destructive.matched_rule.as_deref(), Some("root_delete"));
    let medium = assess_risk("chmod 777 notes.txt", &catalog);
    assert_eq!(medium.level, "medium");
    let none = assess_risk("ls -la", &catalog);
    assert_eq!(none.level, "none");
    assert_eq!(none.reason, "No known high-risk pattern matched.");
    assert!(none.matched_rule.is_none());
}

#[test]
fn strongest_risk_level_dominates() {
    let levels = vec!["low".to_string(), "HIGH".to_string(), "medium".to_string()];
    assert_eq!(strongest_risk_level(&levels), "HIGH");
    assert_eq!(strongest_risk_level(&Vec::new()), "low");
    let levels = vec!["medium".to_string(), "destructive".to_string(), "high".to_string()];
    assert_eq!(strongest_risk_level(&levels), "destructive");
}

#[test]
fn format_risk_exact_text() {
    let assessment = RiskAssessment {
        level: "high".to_string(),
        reason: "because".to_string(),
        matched_rule: None,
    };
    assert_eq!(format_risk(&assessment), "Risk level: high\nReason: because");
    assert_eq!(
        format_unknown_command("foo"),
        "No deterministic rule matched 'foo'. Add a command record and rebuild the C4DB index to support this command."
    );
}

// ---- shell ----

#[test]
fn unsupported_platform_is_refused() {
    let store = open_store(small_records());
    let err = decide_shell_command("ls", "plan9", &store, &risk_catalog()).unwrap_err();
    assert!(matches!(err, ShellError::UnsupportedPlatform(p) if p == "plan9"));
}

#[test]
fn destructive_commands_are_blocked() {
    let store = open_store(small_records());
    let decision = decide_shell_command("rm -rf /", "macos", &store, &risk_catalog()).unwrap();
    assert_eq!(decision.action, ShellAction::Block);
    let decision = decide_shell_command("rm -rf build", "windows", &store, &risk_catalog()).unwrap();
    assert_eq!(decision.action, ShellAction::Block);
}

#[test]
fn levels_in_any_case_still_ask_first() {
    let mut records = small_records();
    records.push(record("shout_remove", "filesystem", "HIGH", &[
        ("windows_cmd", &["erase <file>"]),
        ("macos", &["unlink <file>"]),
        ("ubuntu", &["unlink <file>"]),
    ]));
    records.push(record("mixed_move", "filesystem", "Medium", &[
        ("windows_cmd", &["move <a> <b>"]),
        ("macos", &["mv <a> <b>"]),
        ("ubuntu", &["mv <a> <b>"]),
    ]));
    let store = open_store(records);
    let decision = decide_shell_command("erase notes.txt", "ubuntu", &store, &risk_catalog()).unwrap();
    assert_eq!(decision.action, ShellAction::Confirm);
    assert_eq!(decision.risk_level, "HIGH");
    let decision = decide_shell_command("move a.txt b.txt", "macos", &store, &risk_catalog()).unwrap();
    assert_eq!(decision.action, ShellAction::Confirm);
    let (response, to_run) = plan_terminal_command("erase notes.txt", Platform::Ubuntu, &store, &risk_catalog()).unwrap();
    assert!(to_run.is_none());
    assert!(response.confirmation_prompt.is_some());
}

#[test]
fn planned_runs_hand_over_the_translated_command() {
    let store = open_store(small_records());
    let (response, to_run) = plan_terminal_command("ipconfig", Platform::Ubuntu, &store, &risk_catalog()).unwrap();
    assert_eq!(to_run.as_deref(), Some("ip addr"));
    assert_eq!(response.original_command, "ipconfig");
    assert!(response.stdout.is_empty());
    assert!(response.exit_status.is_none());
    let ran = ExecutionResult {
        command: "ip addr".to_string(),
        stdout: "inet 10.0.0.2\n".to_string(),
        stderr: "warn\n".to_string(),
        status_code: Some(3),
    };
    let done = finish_terminal_command(response.clone(), Ok(ran)).unwrap();
    assert_eq!(done.stdout, "inet 10.0.0.2\n");
    assert_eq!(done.stderr, "warn\n");
    assert_eq!(done.exit_status, Some(3));
    assert_eq!(done.translated_command.as_deref(), Some("ip addr"));
    let failed = finish_terminal_command(response, Err(ExecError { message: "boom".to_string() })).unwrap_err();
    assert!(matches!(failed, ShellError::Execution(e) if e.message == "boom"));
}

#[test]
fn detection_prefers_full_matches_then_the_best_ranked_platform() {
    let store = open_store(small_records());
    let d = detect_command("ls", &store).unwrap().unwrap();
    assert_eq!(d.source_platform, "ubuntu");
    assert_eq!(d.matched_example, "ls");
    let d = detect_command("ls docs", &store).unwrap().unwrap();
    assert_eq!(d.source_platform, "ubuntu");
    assert_eq!(d.matched_example, "ls <path>");
}

#[test]
fn shell_runs_only_on_execute_or_a_yes() {
    assert_eq!(shell_step(ShellAction::Execute, None), ShellStep::Run);
    assert_eq!(shell_step(ShellAction::Confirm, None), ShellStep::AskConfirmation);
    assert_eq!(shell_step(ShellAction::Confirm, Some(" YES \n")), ShellStep::Run);
    assert_eq!(shell_step(ShellAction::Confirm, Some("y")), ShellStep::Run);
    assert_eq!(shell_step(ShellAction::Confirm, Some("nope")), ShellStep::Cancelled);
    assert_eq!(shell_step(ShellAction::Confirm, Some("")), ShellStep::Cancelled);
    assert_eq!(shell_step(ShellAction::Block, Some("yes")), ShellStep::Blocked);
    assert_eq!(shell_step(ShellAction::UnknownNoExecute, Some("yes")), ShellStep::NotRun);
}

#[test]
fn records_name_each_platform_once() {
    let good = small_records();
    assert!(records_well_formed(&good));
    assert!(good[0].has_unique_platforms());
    let twice = record("twice", "misc", "low", &[("ubuntu", &["a"]), ("macos", &["b"]), ("ubuntu", &["c"])]);
    assert!(!twice.has_unique_platforms());
    assert!(!records_well_formed(&vec![good[0].clone(), twice]));
}

#[test]
fn unknown_commands_never_run() {
    let store = open_store(small_records());
    let decision = decide_shell_command("frobnicate --now", "ubuntu", &store, &risk_catalog()).unwrap();
    assert_eq!(decision.action, ShellAction::UnknownNoExecute);
    assert!(decision.translated_command.is_none());
    let response = process_terminal_command("frobnicate --now", Platform::Ubuntu, &store, &risk_catalog(), &EchoExecutor)
        .unwrap();
    assert!(response.stdout.is_empty());
    assert!(response.exit_status.is_none());
}

#[test]
fn known_low_risk_commands_run_translated() {
    let store = open_store(small_records());
    let response = process_terminal_command("ipconfig", Platform::Macos, &store, &risk_catalog(), &EchoExecutor).unwrap();
    assert_eq!(response.action, ShellAction::Execute);
    assert_eq!(response.translated_command.as_deref(), Some("ifconfig"));
    assert_eq!(response.stdout, "ran ifconfig\n");
    assert_eq!(response.detected_source, "Windows CMD");
    assert_eq!(response.current_os, "macOS");
}

#[test]
fn medium_risk_commands_ask_first() {
    let store = open_store(small_records());
    let response =
        process_terminal_command("del notes.txt", Platform::Ubuntu, &store, &risk_catalog(), &EchoExecutor).unwrap();
    assert_eq!(response.action, ShellAction::Confirm);
    assert_eq!(response.translated_command.as_deref(), Some("rm notes.txt"));
    assert!(response.stdout.is_empty());
    assert!(response.confirmation_prompt.is_some());
}

#[test]
fn execution_errors_are_reported() {
    let store = open_store(small_records());
    let err = process_terminal_command("ipconfig", Platform::Macos, &store, &risk_catalog(), &FailingExecutor).unwrap_err();
    assert!(matches!(err, ShellError::Execution(e) if e.message == "no shell"));

    let decision = ShellDecision {
        original_command: "x".to_string(),
        detected_source: "unknown".to_string(),
        current_platform: "macos".to_string(),
        intent: None,
        translated_command: None,
        risk_level: "low".to_string(),
        risk_reason: None,
        action: ShellAction::Execute,
    };
    assert!(matches!(command_to_run(&decision), Err(ShellError::MissingTranslation)));
    let decision = ShellDecision { translated_command: Some("ifconfig".to_string()), ..decision };
    assert_eq!(command_to_run(&decision).unwrap(), "ifconfig");
}

#[test]
fn translation_errors() {
    let store = open_store(small_records());
    let err = translate_command("ipconfig", "plan9", &store).unwrap_err();
    assert!(matches!(err, TranslateError::UnsupportedTarget(t) if t == "plan9"));
    assert!(translate_command("frobnicate", "macos", &store).unwrap().is_none());
    let result = translate_command("ls docs", "windows", &store).unwrap().unwrap();
    assert_eq!(result.suggestions.first().map(String::as_str), Some("Get-ChildItem docs"));
    assert!(result.suggestions.iter().any(|s| s == "dir docs"));
    let mut seen = result.suggestions.clone();
    seen.sort();
    seen.dedup();
    assert_eq!(seen.len(), result.suggestions.len());
}

#[test]
fn every_example_is_detected_as_its_record() {
    let records = small_records();
    let store = open_store(records.clone());
    for record in &records {
        for (_, examples) in &record.commands {
            for example in examples {
                if example.contains('<') {
                    continue;
                }
                let detection = detect_command(example, &store).unwrap().expect("example should be detected");
                assert_eq!(detection.intent.intent, record.intent);
            }
        }
    }
}

#[test]
fn shell_formatting() {
    assert_eq!(decimal(-42), "-42");
    assert_eq!(decimal(0), "0");
    assert_eq!(decimal(2147483647), "2147483647");
    assert_eq!(section_header("Out", 30), format!("{} Out {}", "-".repeat(16), "-".repeat(9)));
    assert_eq!(section_header("a very long title indeed", 20), format!("{} a very long title indeed ", "-".repeat(16)));
    assert_eq!(section_footer(5), "-----");
    assert_eq!(shell_prompt(Platform::Macos), "cli4all-macos> ");
}

// ---- platforms and execution ----

#[test]
fn target_platform_names() {
    assert_eq!(normalize_target_platform(" Windows "), Some(Platform::Windows));
    assert_eq!(normalize_target_platform("linux"), Some(Platform::Ubuntu));
    assert_eq!(normalize_target_platform("plan9"), None);
    assert_eq!(Platform::from_os_name("linux"), Some(Platform::Ubuntu));
    assert_eq!(Platform::from_os_name("freebsd"), None);
}

#[test]
fn system_executor_invocations() {
    let mac = SystemCommandExecutor::new(Platform::Macos);
    assert_eq!(mac.invocation("ls"), Some(("/bin/zsh".to_string(), vec!["-c".to_string(), "ls".to_string()])));
    let win = SystemCommandExecutor::new(Platform::Windows);
    assert_eq!(
        win.invocation("dir"),
        Some((
            "powershell.exe".to_string(),
            vec!["-NoProfile".to_string(), "-Command".to_string(), "dir".to_string()]
        ))
    );
    assert_eq!(mac.invocation("ls\nrm x"), None);
}

// ---- data directories ----

#[test]
fn data_dirs_are_trimmed_and_deduplicated() {
    let dirs = candidate_data_dirs(&vec![
        CandidateDir::Configured("  /opt/data ".to_string()),
        CandidateDir::Configured("   ".to_string()),
        CandidateDir::Fixed("/opt/data".to_string()),
        CandidateDir::Fixed("./data".to_string()),
    ]);
    assert_eq!(dirs, vec!["/opt/data".to_string(), "./data".to_string()]);
}

#[test]
fn data_dirs_are_compared_as_paths() {
    let dirs = candidate_data_dirs(&vec![
        CandidateDir::Fixed("/x/data/".to_string()),
        CandidateDir::Fixed("/x/data".to_string()),
        CandidateDir::Configured(" /x//data ".to_string()),
        CandidateDir::Fixed("/x/./data".to_string()),
        CandidateDir::Fixed("data".to_string()),
        CandidateDir::Fixed("./data".to_string()),
        CandidateDir::Fixed("data/".to_string()),
        CandidateDir::Fixed("/x/data/more".to_string()),
    ]);
    assert_eq!(
        dirs,
        vec!["/x/data/".to_string(), "data".to_string(), "./data".to_string(), "/x/data/more".to_string()]
    );
}

#[test]
fn path_components_follow_separators() {
    assert_eq!(path_components("/x//data/"), vec!["/", "x", "data"]);
    assert_eq!(path_components("./a/./b"), vec![".", "a", "b"]);
    assert_eq!(path_components("a/../b"), vec!["a", "..", "b"]);
    assert_eq!(path_components("."), vec!["."]);
    assert!(path_components("").is_empty());
    assert_eq!(path_components("/"), vec!["/"]);
}

#[test]
fn missing_file_report_names_the_file_and_every_directory() {
    let dirs = vec!["/one".to_string(), "/two".to_string()];
    let err = find_data_file("risks.yaml", &dirs, &vec![false, false]).unwrap_err();
    assert_eq!(
        err,
        "CLI4ALL could not locate required runtime data file(s): risks.yaml\nSearched directories:\n- /one (missing: risks.yaml)\n- /two (missing: risks.yaml)\nSet CLI4ALL_DATA_DIR to a directory containing these files, or reinstall CLI4ALL so the bundled runtime data is restored."
    );
}

#[test]
fn data_dir_is_the_first_complete_one() {
    let required = vec!["a.c4idx".to_string(), "a.c4dat".to_string()];
    let dirs = vec!["/one".to_string(), "/two".to_string()];
    let present = vec![vec![true, false], vec![true, true]];
    assert_eq!(find_data_dir(&required, &dirs, &present), Ok(1));
    let missing = vec![vec![false, false], vec![true, false]];
    let err = find_data_dir(&required, &dirs, &missing).unwrap_err();
    assert!(err.contains("/one"));
    assert!(err.contains("a.c4dat"));
    assert_eq!(find_data_file("risks.yaml", &dirs, &vec![false, true]), Ok(1));
    assert!(find_data_file("risks.yaml", &dirs, &vec![false, false]).is_err());
}

// ---- desktop terminal ----

#[test]
fn cd_parsing_edge_cases() {
    assert_eq!(parse_cd_command("CD  foo "), Some("foo"));
    assert_eq!(parse_cd_command("cd"), Some(""));
    assert_eq!(parse_cd_command("cdx"), None);
    assert_eq!(parse_cd_command("c"), None);
    assert_eq!(strip_wrapping_quotes("\"a b\""), "a b");
    assert_eq!(strip_wrapping_quotes("'x"), "'x");
}

#[test]
fn cd_candidates() {
    assert_eq!(cd_candidate("~/docs", "/tmp", "/init", Some("/home/u")), "/home/u/docs");
    assert_eq!(cd_candidate("~", "/tmp", "/init", None), "/init");
    assert_eq!(cd_candidate("'sub dir'", "/tmp", "/init", None), "/tmp/sub dir");
    assert_eq!(cd_candidate("/abs", "/tmp", "/init", None), "/abs");
    assert_eq!(cd_candidate("", "/tmp/", "/init", Some("/h")), "/h");
}

#[test]
fn desktop_environment_defaults() {
    assert_eq!(native_shell_path(Platform::Windows, Some("/bin/fish")), "powershell.exe");
    assert_eq!(native_shell_path(Platform::Macos, Some("")), "/bin/zsh");
    assert_eq!(native_shell_path(Platform::Macos, Some("/bin/fish")), "/bin/fish");
    assert_eq!(home_dir(Some(""), Some("C:\\Users\\u")), Some("C:\\Users\\u".to_string()));
    assert_eq!(home_dir(None, None), None);
    assert_eq!(initial_translate_cwd(None, Some("/home/u".to_string())), "/home/u");
    assert_eq!(initial_translate_cwd(None, None), "/");
    assert_eq!(normalize_search_token("(Git!)"), "git");
    assert_eq!(risk_priority("destructive"), 3);
    assert_eq!(risk_priority("unknown"), 4);
}

#[test]
fn terminal_pwd_and_cd() {
    let store = open_store(small_records());
    let rules = risk_catalog();
    let mut state = session("/work");
    match submit_terminal_line("  PWD ", Platform::Ubuntu, &mut state, &store, &rules).unwrap() {
        TerminalStep::Respond(resp) => {
            assert_eq!(resp.stdout, "/work\n");
            assert_eq!(resp.translated_command.as_deref(), Some("pwd"));
        },
        other => panic!("unexpected step {other:?}"),
    }
    match submit_terminal_line("cd ..", Platform::Ubuntu, &mut state, &store, &rules).unwrap() {
        TerminalStep::ResolveDirectory(target) => assert_eq!(target, ".."),
        other => panic!("unexpected step {other:?}"),
    }
    let resp = complete_cd("cd ..", Platform::Ubuntu, &mut state, Ok("/".to_string()));
    assert_eq!(state.cwd, "/");
    assert_eq!(resp.exit_status, Some(0));
    let resp = complete_cd("cd nowhere", Platform::Ubuntu, &mut state, Err("no such directory".to_string()));
    assert_eq!(state.cwd, "/");
    assert_eq!(resp.exit_status, Some(1));
    assert_eq!(resp.stderr, "no such directory\n");
}

#[test]
fn builtin_pwd_reports_the_native_command() {
    let state = TranslateSession {
        initial_cwd: "/home/u".to_string(),
        cwd: "/home/u/proj".to_string(),
        pending_confirmation: None,
        running_command: None,
    };
    match handle_translate_builtin("  PWD ", Platform::Windows, &state) {
        Some(TerminalStep::Respond(resp)) => {
            assert_eq!(resp.original_command, "PWD");
            assert_eq!(resp.translated_command.as_deref(), Some("Get-Location"));
            assert_eq!(resp.matched_intent.as_deref(), Some("print_working_directory"));
            assert_eq!(resp.stdout, "/home/u/proj\n");
            assert_eq!(resp.exit_status, Some(0));
            assert_eq!(resp.current_dir, "/home/u/proj");
            assert_eq!(resp.action, ShellAction::Execute);
        },
        other => panic!("unexpected step {other:?}"),
    }
    assert_eq!(state.cwd, "/home/u/proj");
}

#[test]
fn terminal_confirmation_flow() {
    let store = open_store(small_records());
    let rules = risk_catalog();
    let mut state = session("/work");
    match submit_terminal_line("del notes.txt", Platform::Macos, &mut state, &store, &rules).unwrap() {
        TerminalStep::Respond(resp) => assert_eq!(resp.action, ShellAction::Confirm),
        other => panic!("unexpected step {other:?}"),
    }
    assert_eq!(state.pending_confirmation.as_ref().map(|p| p.translated_command.as_str()), Some("rm notes.txt"));
    let err = submit_terminal_line("ls", Platform::Macos, &mut state, &store, &rules).unwrap_err();
    assert!(matches!(err, TerminalError::ConfirmationPending));

    let (resp, run) = resolve_confirmation(false, &mut state).unwrap();
    assert_eq!(resp.action, ConfirmationResolutionAction::Cancelled);
    assert!(run.is_none());
    assert!(state.pending_confirmation.is_none());
    assert!(matches!(resolve_confirmation(true, &mut state), Err(TerminalError::NoConfirmationPending)));

    state.pending_confirmation = Some(PendingConfirmation {
        translated_command: "rm notes.txt".to_string(),
        clear_display: false,
    });
    let (resp, run) = resolve_confirmation(true, &mut state).unwrap();
    assert_eq!(resp.action, ConfirmationResolutionAction::Execute);
    assert_eq!(run.as_deref(), Some("rm notes.txt"));

    state.running_command = Some(7);
    let err = submit_terminal_line("ls", Platform::Macos, &mut state, &store, &rules).unwrap_err();
    assert!(matches!(err, TerminalError::CommandRunning));
}

#[test]
fn terminal_runs_low_risk_translations() {
    let store = open_store(small_records());
    let rules = risk_catalog();
    let mut state = session("/work");
    match submit_terminal_line("ipconfig", Platform::Ubuntu, &mut state, &store, &rules).unwrap() {
        TerminalStep::Run(resp, command) => {
            assert_eq!(command, "ip addr");
            assert_eq!(resp.action, ShellAction::Execute);
        },
        other => panic!("unexpected step {other:?}"),
    }
    match submit_terminal_line("rm -rf /", Platform::Ubuntu, &mut state, &store, &rules).unwrap() {
        TerminalStep::Respond(resp) => assert_eq!(resp.action, ShellAction::Block),
        other => panic!("unexpected step {other:?}"),
    }
}

#[test]
fn built_store_finds_records_by_intent_and_category() {
    let records = small_records();
    let store = open_store(records.clone());
    for record in &records {
        let found = store.find_by_intent(&record.intent).unwrap().expect("record should be found by intent");
        assert_eq!(found.intent, record.intent);
        let listed = store.list_by_category(&format!("  {}  ", record.category.to_uppercase())).unwrap();
        assert!(listed.iter().any(|r| r.intent == record.intent));
    }
    let network = store.list_by_category("network").unwrap();
    assert_eq!(network.len(), 1);
    assert_eq!(network[0].intent, "show_ip_config");
    let filesystem: Vec<String> = store.list_by_category("filesystem").unwrap().into_iter().map(|r| r.intent).collect();
    assert_eq!(filesystem, vec!["list_files", "remove_directory_tree", "remove_file"]);
    assert!(store.list_by_category("nothing here").unwrap().is_empty());
    assert!(store.find_by_intent("no_such_intent").unwrap().is_none());
}

#[test]
fn search_never_offers_destructive_suggestions() {
    let records = small_records();
    for query in ["rm", "rm -rf", "remove", "dir", "ls"] {
        let suggestions = search_catalog_suggestions_internal(&records, query, Platform::Macos, 10);
        assert!(suggestions.iter().all(|s| s.risk != "destructive" && s.score > 0), "query {query}");
    }
    let suggestions = search_catalog_suggestions_internal(&records, "rm", Platform::Ubuntu, 10);
    assert!(suggestions.iter().any(|s| s.intent_id == "remove_file"));
    assert!(search_catalog_suggestions_internal(&records, "   ", Platform::Ubuntu, 10).is_empty());
}

#[test]
fn search_shows_the_first_limit_in_order() {
    let records = small_records();
    let all = search_catalog_suggestions_internal(&records, "ls", Platform::Ubuntu, 10);
    assert!(!all.is_empty());
    for pair in all.windows(2) {
        assert!(pair[0].score >= pair[1].score);
    }
    let mut keys: Vec<String> = all.iter().map(|s| format!("{}::{}", s.source_shell, s.command_template.to_lowercase())).collect();
    keys.sort();
    keys.dedup();
    assert_eq!(keys.len(), all.len());
    assert!(all.iter().all(|s| s.target_shell == "ubuntu"));
    let one = search_catalog_suggestions_internal(&records, "ls", Platform::Ubuntu, 1);
    assert_eq!(one.len(), 1);
    assert_eq!(one[0].command_template, all[0].command_template);
    assert_eq!(one[0].source_shell, all[0].source_shell);
    assert!(search_catalog_suggestions_internal(&records, "ls", Platform::Ubuntu, 0).is_empty());
}

#[test]
fn index_writer_refuses_and_reader_checks_keys() {
    let entry = |key: &str, offset: u64| IndexEntry { key: key.to_string(), pointer: DataPointer { offset, len: 1 } };
    let unsorted = vec![entry("b", 20), entry("a", 30)];
    assert_eq!(build_index_bytes(&unsorted).unwrap_err(), IndexError::UnsortedEntries);
    let repeated = vec![entry("a", 20), entry("a", 30)];
    assert_eq!(build_index_bytes(&repeated).unwrap_err(), IndexError::UnsortedEntries);

    let bytes = build_index_bytes(&[entry("alpha", 20), entry("beta", 40)]).unwrap();
    let tree = ReadOnlyBPlusTree::from_bytes(bytes.clone()).unwrap();
    assert_eq!(tree.get("beta").unwrap(), Some(DataPointer { offset: 40, len: 1 }));
    assert_eq!(tree.get("gamma").unwrap(), None);
    assert_eq!(tree.scan_prefix("al").unwrap(), vec![DataPointer { offset: 20, len: 1 }]);

    let mut corrupt = bytes;
    let first_key = 36 + 16 + 2;
    assert_eq!(corrupt[first_key], b'a');
    corrupt[first_key] = 0xff;
    let tree = ReadOnlyBPlusTree::from_bytes(corrupt).unwrap();
    assert_eq!(tree.get("beta").unwrap_err(), IndexError::KeyNotUtf8);
}

#[test]
fn multi_level_index_round_trip() {
    let pad = "x".repeat(100);
    let entries: Vec<IndexEntry> = (0..3000u64)
        .map(|i| IndexEntry {
            key: format!("key-{i:05}-{pad}"),
            pointer: DataPointer { offset: 16 + i * 10, len: (i % 7) as u32 },
        })
        .collect();
    let bytes = build_index_bytes(&entries).unwrap();
    assert!(bytes.len() > 90 * 4096);
    let tree = ReadOnlyBPlusTree::from_bytes(bytes).unwrap();
    for entry in &entries {
        assert_eq!(tree.get(&entry.key).unwrap(), Some(entry.pointer));
    }
    assert_eq!(tree.get("key-").unwrap(), None);
    assert_eq!(tree.get("zzz").unwrap(), None);
    assert_eq!(tree.get(&format!("key-01500-{pad}y")).unwrap(), None);
    let scanned = tree.scan_prefix("key-012").unwrap();
    let expected: Vec<DataPointer> = entries[1200..1300].iter().map(|e| e.pointer).collect();
    assert_eq!(scanned, expected);
    assert_eq!(tree.scan_prefix("").unwrap().len(), 3000);
    assert!(tree.scan_prefix("nope").unwrap().is_empty());
}
