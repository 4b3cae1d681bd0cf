use cli4all::desktop::{native_pwd_command, parse_cd_command, search_catalog_suggestions_internal};
use cli4all::detector::detect_command;
use cli4all::platform::Platform;
use cli4all::rules::{RiskCatalog, RiskRule};
use cli4all::safety::assess_risk;
use cli4all::shell::{decide_shell_command, ShellAction, ShellDecision};
use cli4all::store::{build_store_files, prepare_records, C4DbCommandStore, CommandRecord, CommandStore};
use cli4all::translator::translate_command;

fn record(intent: &str, category: &str, risk: &str, description: &str, commands: &[(&str, &[&str])]) -> CommandRecord {
    CommandRecord {
        intent: intent.to_string(),
        description: description.to_string(),
        category: category.to_string(),
        risk_level: risk.to_string(),
        commands: commands
            .iter()
            .map(|(platform, examples)| {
                (platform.to_string(), examples.iter().map(|e| e.to_string()).collect())
            })
            .collect(),
        notes: Vec::new(),
    }
}

fn reviewed_records() -> Vec<CommandRecord> {
    vec![
        record("show_ip_config", "network", "low", "Show network interface addresses", &[
            ("windows_cmd", &["ipconfig"]),
            ("powershell", &["Get-NetIPConfiguration"]),
            ("macos", &["ifconfig"]),
            ("ubuntu", &["ip addr"]),
        ]),
        record("show_ip_config_details", "network", "low", "Show detailed network and DNS settings", &[
            ("windows_cmd", &["ipconfig /all"]),
            ("macos", &["scutil --dns"]),
            ("ubuntu", &["resolvectl status"]),
        ]),
        record("show_dns_config", "networking", "low", "Show the configured DNS servers", &[
            ("powershell", &["Get-DnsClientServerAddress"]),
            ("macos", &["cat /etc/resolv.conf"]),
            ("ubuntu", &["resolvectl dns"]),
        ]),
        record("list_files", "filesystem", "low", "List directory contents", &[
            ("windows_cmd", &["dir", "dir <path>"]),
            ("powershell", &["Get-ChildItem", "Get-ChildItem <path>"]),
            ("macos", &["ls", "ls <path>"]),
            ("ubuntu", &["ls", "ls <path>"]),
        ]),
        record("list_all_files", "filesystem", "low", "List directory contents including hidden entries", &[
            ("windows_cmd", &["dir /a", "dir /a <path>"]),
            ("powershell", &["Get-ChildItem -Force", "Get-ChildItem -Force <path>"]),
            ("macos", &["ls -la", "ls -a <path>"]),
            ("ubuntu", &["ls -la", "ls -a", "ls -la <path>", "ls -a <path>"]),
        ]),
        record("clear_screen", "terminal", "low", "Clear the terminal screen", &[
            ("windows_cmd", &["cls"]),
            ("powershell", &["Clear-Host"]),
            ("macos", &["clear"]),
            ("ubuntu", &["clear"]),
        ]),
        record("print_current_user", "system", "low", "Print the current user name", &[
            ("windows_cmd", &["whoami"]),
            ("powershell", &["whoami"]),
            ("macos", &["whoami"]),
            ("ubuntu", &["whoami"]),
        ]),
        record("print_working_directory", "filesystem", "low", "Print the working directory", &[
            ("powershell", &["Get-Location"]),
            ("macos", &["pwd"]),
            ("ubuntu", &["pwd"]),
        ]),
        record("show_file_content", "filesystem", "low", "Print a file", &[
            ("windows_cmd", &["type <file>"]),
            ("powershell", &["Get-Content <file>"]),
            ("macos", &["cat <file>"]),
            ("ubuntu", &["cat <file>"]),
        ]),
        record("copy_file", "filesystem", "low", "Copy a file", &[
            ("windows_cmd", &["copy <source> <destination>"]),
            ("powershell", &["Copy-Item <source> <destination>"]),
            ("macos", &["cp <source> <destination>"]),
            ("ubuntu", &["cp <source> <destination>"]),
        ]),
        record("remove_file", "filesystem", "medium", "Delete a file", &[
            ("windows_cmd", &["del <file>"]),
            ("powershell", &["Remove-Item <file>"]),
            ("macos", &["rm <file>"]),
            ("ubuntu", &["rm <file>"]),
        ]),
        record("remove_directory_tree", "filesystem", "destructive", "Delete a directory tree", &[
            ("windows_cmd", &["rmdir /S <path>"]),
            ("powershell", &["Remove-Item -Recurse -Force <path>"]),
            ("macos", &["rm -rf <path>"]),
            ("ubuntu", &["rm -rf <path>"]),
        ]),
        record("search_text", "text", "low", "Search a file for text", &[
            ("windows_cmd", &["findstr <pattern> <file>", "findstr /i <pattern> <file>"]),
            ("powershell", &["Select-String <pattern> <file>"]),
            ("macos", &["grep <pattern> <file>"]),
            ("ubuntu", &["grep <pattern> <file>", "grep -i <pattern> <file>"]),
        ]),
        record("search_text_recursive", "text", "low", "Search a directory tree for text", &[
            ("powershell", &["Select-String -Path <path> -Pattern <pattern> -Recurse"]),
            ("macos", &["grep -r <pattern> <path>"]),
            ("ubuntu", &["grep -R <pattern> <path>"]),
        ]),
        record("locate_command", "system", "low", "Show where a command lives", &[
            ("windows_cmd", &["where <name>"]),
            ("powershell", &["Get-Command <name>"]),
            ("macos", &["which <name>", "command -v <name>"]),
            ("ubuntu", &["which <name>", "command -v <name>"]),
        ]),
        record("list_processes", "process", "low", "List running processes", &[
            ("windows_cmd", &["tasklist"]),
            ("powershell", &["Get-Process"]),
            ("macos", &["ps aux"]),
            ("ubuntu", &["ps aux"]),
        ]),
        record("kill_process", "process", "medium", "Stop a process by id", &[
            ("windows_cmd", &["taskkill /PID <pid> /F", "taskkill /PID <pid>"]),
            ("powershell", &["Stop-Process -Id <pid>"]),
            ("macos", &["kill <pid>"]),
            ("ubuntu", &["kill <pid>"]),
        ]),
        record("show_routes", "network", "low", "Show the routing table", &[
            ("windows_cmd", &["route print"]),
            ("powershell", &["Get-NetRoute"]),
            ("macos", &["netstat -rn"]),
            ("ubuntu", &["ip route"]),
        ]),
        record("list_listening_ports", "network", "low", "List listening ports", &[
            ("windows_cmd", &["netstat -ano"]),
            ("powershell", &["Get-NetTCPConnection -State Listen"]),
            ("macos", &["lsof -i -P -n | grep LISTEN"]),
            ("ubuntu", &["ss -tulnp"]),
        ]),
        record("process_by_port", "network", "low", "Find the process using a port", &[
            ("windows_cmd", &["netstat -ano | findstr <port>"]),
            ("powershell", &["Get-NetTCPConnection -LocalPort <port>"]),
            ("macos", &["lsof -i <port_token>"]),
            ("ubuntu", &["lsof -i <port_token>"]),
        ]),
        record("open_current_directory", "filesystem", "low", "Open the current directory in the file manager", &[
            ("windows_cmd", &["start ."]),
            ("powershell", &["Invoke-Item ."]),
            ("macos", &["open ."]),
            ("ubuntu", &["xdg-open ."]),
        ]),
        record("open_path", "filesystem", "low", "Open a file or folder with its default application", &[
            ("windows_cmd", &["start <path>"]),
            ("powershell", &["Start-Process <path>"]),
            ("macos", &["open <path>"]),
            ("ubuntu", &["xdg-open <path>"]),
        ]),
        record("ping_host", "network", "low", "Check that a host answers", &[
            ("windows_cmd", &["ping <host>", "ping -n <count> <host>"]),
            ("powershell", &["Test-Connection <host>"]),
            ("macos", &["ping -c 4 <host>"]),
            ("ubuntu", &["ping -c <count> <host>"]),
        ]),
        record("make_directory", "filesystem", "low", "Create a directory", &[
            ("windows_cmd", &["mkdir <path>"]),
            ("powershell", &["New-Item -ItemType Directory <path>"]),
            ("macos", &["mkdir <path>"]),
            ("ubuntu", &["mkdir <path>"]),
        ]),
        record("copy_to_clipboard", "text", "low", "Copy text to the clipboard", &[
            ("windows_cmd", &["clip <text>"]),
            ("powershell", &["Set-Clipboard <text>"]),
            ("macos", &["printf %s <text> | pbcopy"]),
            ("ubuntu", &["printf %s <text> | xclip -selection clipboard"]),
        ]),
        record("head_file", "text", "low", "Show the first lines of a file", &[
            ("powershell", &["Get-Content <file> -TotalCount <count>"]),
            ("macos", &["head -n <count> <file>"]),
            ("ubuntu", &["head -n <count> <file>"]),
        ]),
        record("tail_file", "text", "low", "Show the last lines of a file", &[
            ("powershell", &["Get-Content <file> -Tail <count>"]),
            ("macos", &["tail -n <count> <file>"]),
            ("ubuntu", &["tail -n <count> <file>"]),
        ]),
        record("find_by_name", "filesystem", "low", "Find files by name", &[
            ("powershell", &["Get-ChildItem -Path <path> -Recurse -Filter <pattern>"]),
            ("macos", &["find <path> -name <pattern>"]),
            ("ubuntu", &["find <path> -name <pattern>"]),
        ]),
        record("trace_route", "network", "low", "Trace the route to a host", &[
            ("windows_cmd", &["tracert <host>"]),
            ("powershell", &["Test-NetConnection -TraceRoute <host>"]),
            ("macos", &["traceroute <host>"]),
            ("ubuntu", &["traceroute <host>"]),
        ]),
        record("dns_lookup", "network", "low", "Look up the address of a host name", &[
            ("windows_cmd", &["nslookup <host>"]),
            ("powershell", &["Resolve-DnsName <host>"]),
            ("macos", &["nslookup <host>"]),
            ("ubuntu", &["nslookup <host>", "dig <host>"]),
        ]),
        record("http_headers", "network", "low", "Fetch the response headers of a URL", &[
            ("powershell", &["Invoke-WebRequest -Method Head <url>"]),
            ("macos", &["curl -I <url>"]),
            ("ubuntu", &["curl -I <url>"]),
        ]),
        record("download_file", "network", "low", "Download a URL to a file", &[
            ("powershell", &["Invoke-WebRequest <url> -OutFile <file>"]),
            ("macos", &["curl -L <url> -o <file>"]),
            ("ubuntu", &["curl -L <url> -o <file>"]),
        ]),
        record("create_zip", "archive", "low", "Create a zip archive", &[
            ("powershell", &["Compress-Archive -Path <path> -DestinationPath <archive>"]),
            ("macos", &["zip -r <archive> <path>"]),
            ("ubuntu", &["zip -r <archive> <path>"]),
        ]),
        record("extract_zip", "archive", "low", "Extract a zip archive", &[
            ("powershell", &["Expand-Archive -Path <archive> -DestinationPath ."]),
            ("macos", &["unzip <archive>"]),
            ("ubuntu", &["unzip <archive>"]),
        ]),
        record("git_status", "development", "low", "Show the working tree status", &[
            ("windows_cmd", &["git status"]),
            ("powershell", &["git status"]),
            ("macos", &["git status"]),
            ("ubuntu", &["git status"]),
        ]),
        record("npm_install", "development", "medium", "Install the project's npm dependencies", &[
            ("windows_cmd", &["npm install"]),
            ("powershell", &["npm install"]),
            ("macos", &["npm install"]),
            ("ubuntu", &["npm install"]),
        ]),
        record("npm_run", "development", "medium", "Run an npm script", &[
            ("windows_cmd", &["npm run <script>"]),
            ("powershell", &["npm run <script>"]),
            ("macos", &["npm run <script>"]),
            ("ubuntu", &["npm run <script>"]),
        ]),
        record("package_manager_install", "packages", "medium", "Install a package with the system package manager", &[
            ("windows_cmd", &["winget install <package>"]),
            ("powershell", &["winget install <package>"]),
            ("macos", &["brew install <package>"]),
            ("ubuntu", &["sudo apt install <package>"]),
        ]),
        record("change_permission", "permissions", "high", "Change file permission bits", &[
            ("powershell", &["icacls <path> /grant <mode>"]),
            ("macos", &["chmod <mode> <path>", "chmod -R <mode> <path>"]),
            ("ubuntu", &["chmod <mode> <path>", "chmod -R <mode> <path>"]),
        ]),
        record("change_owner", "permissions", "medium", "Change the owner of a file", &[
            ("powershell", &["icacls <path> /setowner <owner>"]),
            ("macos", &["chown <owner> <path>"]),
            ("ubuntu", &["chown <owner> <path>"]),
        ]),
    ]
}

fn load_command_catalog() -> C4DbCommandStore {
    let records = prepare_records(&reviewed_records()).expect("records should be valid");
    let blobs: Vec<Vec<u8>> = records.iter().map(|r| r.intent.as_bytes().to_vec()).collect();
    let (index, data) = build_store_files(&records, &blobs).expect("files should build");
    C4DbCommandStore::from_parts(index, data, records).expect("store should open")
}

fn rule(name: &str, level: &str, reason: &str, patterns: &[&str]) -> RiskRule {
    RiskRule {
        name: name.to_string(),
        level: level.to_string(),
        reason: reason.to_string(),
        patterns: patterns.iter().map(|p| p.to_string()).collect(),
    }
}

fn load_risk_catalog() -> RiskCatalog {
    RiskCatalog::new(vec![
        rule("root_delete", "destructive", "recursively removes the root filesystem.", &[r"rm\s+-(rf|fr)\s+/\s*$"]),
        rule("windows_root_delete", "destructive", "recursively removes a drive root.", &[r"(?i)rmdir\s+/s\s+[a-z]:\\?\s*$"]),
        rule("format_drive", "destructive", "formats a whole drive.", &[r"(?i)^\s*format\s+[a-z]:"]),
        rule("chmod_root", "destructive", "makes the whole filesystem world writable.", &[r"chmod\s+-R\s+777\s+/\s*$"]),
        rule("chmod_recursive_777", "high", "recursively makes files world writable.", &[r"chmod\s+-R\s+777"]),
        rule("curl_pipe_shell", "high", "runs a downloaded script without review.", &[r"(curl|wget)\s+[^|]*\|\s*(sh|bash)\b"]),
        rule("chmod_world_writable", "medium", "makes a file world writable.", &[r"chmod\s+777"]),
    ])
    .expect("risk rules should compile")
}

fn suggestions_for(input: &str, target: &str) -> Vec<String> {
    let catalog = load_command_catalog();
    translate_command(input, target, &catalog)
        .expect("translation should succeed")
        .expect("command should be known")
        .suggestions
}

fn first_suggestion_for(input: &str, target: &str) -> String {
    suggestions_for(input, target)
        .into_iter()
        .next()
        .expect("translation should provide at least one suggestion")
}

fn shell_decision(input: &str, target: &str) -> ShellDecision {
    let store = load_command_catalog();
    let risk_catalog = load_risk_catalog();
    decide_shell_command(input, target, &store, &risk_catalog).expect("shell decision should succeed")
}

// ---- detection ----

#[test]
fn detects_windows_ipconfig() {
    let catalog = load_command_catalog();
    let detection = detect_command("ipconfig", &catalog)
        .expect("detection should succeed")
        .expect("ipconfig should be detected");

    assert_eq!(detection.command, "ipconfig");
    assert_eq!(detection.source_platform, "windows_cmd");
    assert_eq!(detection.intent.intent, "show_ip_config");
}

#[test]
fn detects_command_from_shell_error_text() {
    let catalog = load_command_catalog();
    let detection = detect_command("command not found: ipconfig", &catalog)
        .expect("detection should succeed")
        .expect("ipconfig should be extracted from shell error");

    assert_eq!(detection.command, "ipconfig");
    assert_eq!(detection.intent.intent, "show_ip_config");
}

// ---- risk ----

#[test]
fn flags_rm_root_as_destructive() {
    let catalog = load_risk_catalog();
    let result = assess_risk("rm -rf /", &catalog);

    assert_eq!(result.level, "destructive");
    assert_eq!(result.reason, "recursively removes the root filesystem.");
}

#[test]
fn flags_recursive_chmod_as_high_risk() {
    let catalog = load_risk_catalog();
    let result = assess_risk("chmod -R 777 .", &catalog);

    assert_eq!(result.level, "high");
}

#[test]
fn flags_windows_root_directory_removal_as_destructive() {
    let catalog = load_risk_catalog();
    let result = assess_risk(r"rmdir /S C:\", &catalog);

    assert_eq!(result.level, "destructive");
}

#[test]
fn flags_curl_pipe_to_shell_as_high_risk() {
    let catalog = load_risk_catalog();
    let result = assess_risk("curl https://example.com/install.sh | sh", &catalog);

    assert_eq!(result.level, "high");
}

#[test]
fn flags_windows_format_as_destructive() {
    let catalog = load_risk_catalog();
    let result = assess_risk("format C:", &catalog);

    assert_eq!(result.level, "destructive");
}

// ---- shell decisions ----

#[test]
fn translates_ipconfig_to_macos_without_executing_foreign_command() {
    let decision = shell_decision("ipconfig", "macos");

    assert_eq!(decision.intent.as_deref(), Some("show_ip_config"));
    assert_eq!(decision.translated_command.as_deref(), Some("ifconfig"));
    assert_ne!(decision.translated_command.as_deref(), Some(decision.original_command.as_str()));
    assert_eq!(decision.action, ShellAction::Execute);
}

#[test]
fn translates_dir_to_macos_command() {
    let decision = shell_decision("dir", "macos");

    assert_eq!(decision.intent.as_deref(), Some("list_files"));
    assert_eq!(decision.translated_command.as_deref(), Some("ls"));
    assert_eq!(decision.action, ShellAction::Execute);
}

#[test]
fn preserves_arguments_when_translating_dir_with_path() {
    let decision = shell_decision("dir Desktop", "macos");

    assert_eq!(decision.intent.as_deref(), Some("list_files"));
    assert_eq!(decision.translated_command.as_deref(), Some("ls Desktop"));
    assert_eq!(decision.action, ShellAction::Execute);
}

#[test]
fn preserves_quoted_path_when_translating_dir() {
    let decision = shell_decision(r#"dir "Program Files""#, "macos");

    assert_eq!(decision.intent.as_deref(), Some("list_files"));
    assert_eq!(decision.translated_command.as_deref(), Some(r#"ls "Program Files""#));
    assert_eq!(decision.action, ShellAction::Execute);
}

#[test]
fn normalizes_unix_hidden_listing_flags_for_windows() {
    let decision = shell_decision(r#"ls -a "Program Files""#, "windows");

    assert_eq!(decision.intent.as_deref(), Some("list_all_files"));
    assert_eq!(decision.translated_command.as_deref(), Some(r#"Get-ChildItem -Force "Program Files""#));
    assert_eq!(decision.action, ShellAction::Execute);
}

#[test]
fn maps_unix_listing_to_powershell_on_windows() {
    let decision = shell_decision("ls -la", "windows");

    assert_eq!(decision.intent.as_deref(), Some("list_all_files"));
    assert_eq!(decision.translated_command.as_deref(), Some("Get-ChildItem -Force"));
    assert_eq!(decision.action, ShellAction::Execute);
}

#[test]
fn blocks_destructive_command() {
    let decision = shell_decision("rm -rf /", "ubuntu");

    assert_eq!(decision.risk_level, "destructive");
    assert_eq!(decision.action, ShellAction::Block);
}

#[test]
fn unknown_command_is_not_auto_executed() {
    let decision = shell_decision("abracadabra", "ubuntu");

    assert_eq!(decision.intent, None);
    assert_eq!(decision.translated_command, None);
    assert_eq!(decision.action, ShellAction::UnknownNoExecute);
}

#[test]
fn low_risk_known_command_is_marked_executable() {
    let decision = shell_decision("open .", "ubuntu");

    assert_eq!(decision.risk_level, "low");
    assert_eq!(decision.translated_command.as_deref(), Some("xdg-open ."));
    assert_eq!(decision.action, ShellAction::Execute);
}

#[test]
fn translates_pwd_to_windows_without_marking_unknown() {
    let decision = shell_decision("pwd", "windows");

    assert_eq!(decision.intent.as_deref(), Some("print_working_directory"));
    assert_eq!(decision.translated_command.as_deref(), Some("Get-Location"));
    assert_eq!(decision.action, ShellAction::Execute);
}

#[test]
fn translates_whoami_to_macos_without_marking_unknown() {
    let decision = shell_decision("whoami", "macos");

    assert_eq!(decision.intent.as_deref(), Some("print_current_user"));
    assert_eq!(decision.translated_command.as_deref(), Some("whoami"));
    assert_eq!(decision.action, ShellAction::Execute);
}

#[test]
fn deleting_a_file_requires_confirmation() {
    let decision = shell_decision("del important.txt", "macos");

    assert_eq!(decision.intent.as_deref(), Some("remove_file"));
    assert_eq!(decision.translated_command.as_deref(), Some("rm important.txt"));
    assert_eq!(decision.action, ShellAction::Confirm);
}

#[test]
fn preserves_two_quoted_paths_when_copying() {
    let decision = shell_decision(r#"copy "old name.txt" "new name.txt""#, "macos");

    assert_eq!(decision.intent.as_deref(), Some("copy_file"));
    assert_eq!(decision.translated_command.as_deref(), Some(r#"cp "old name.txt" "new name.txt""#));
    assert_eq!(decision.action, ShellAction::Execute);
}

#[test]
fn normalizes_windows_ping_count_for_unix_targets() {
    let decision = shell_decision("ping -n 2 example.com", "macos");

    assert_eq!(decision.intent.as_deref(), Some("ping_host"));
    assert_eq!(decision.translated_command.as_deref(), Some("ping -c 2 example.com"));
    assert_eq!(decision.action, ShellAction::Execute);
}

#[test]
fn taskkill_requires_confirmation() {
    let decision = shell_decision("taskkill /PID 123 /F", "macos");

    assert_eq!(decision.intent.as_deref(), Some("kill_process"));
    assert_eq!(decision.translated_command.as_deref(), Some("kill 123"));
    assert_eq!(decision.action, ShellAction::Confirm);
}

#[test]
fn package_install_requires_confirmation() {
    let decision = shell_decision("winget install node", "macos");

    assert_eq!(decision.intent.as_deref(), Some("package_manager_install"));
    assert_eq!(decision.translated_command.as_deref(), Some("brew install node"));
    assert_eq!(decision.action, ShellAction::Confirm);
}

#[test]
fn apt_install_requires_confirmation() {
    let decision = shell_decision("sudo apt install ripgrep", "ubuntu");

    assert_eq!(decision.intent.as_deref(), Some("package_manager_install"));
    assert_eq!(decision.translated_command.as_deref(), Some("sudo apt install ripgrep"));
    assert_eq!(decision.action, ShellAction::Confirm);
}

#[test]
fn curl_piped_to_shell_is_not_auto_executed() {
    let decision = shell_decision("curl https://example.com/install.sh | sh", "macos");

    assert_eq!(decision.risk_level, "high");
    assert_ne!(decision.action, ShellAction::Execute);
}

#[test]
fn format_drive_is_blocked() {
    let decision = shell_decision("format C:", "windows");

    assert_eq!(decision.risk_level, "destructive");
    assert_eq!(decision.action, ShellAction::Block);
}

#[test]
fn preserves_quoted_pattern_and_file_for_text_search() {
    let decision = shell_decision(r#"findstr "error code" "app log.txt""#, "macos");

    assert_eq!(decision.intent.as_deref(), Some("search_text"));
    assert_eq!(decision.translated_command.as_deref(), Some(r#"grep "error code" "app log.txt""#));
    assert_eq!(decision.action, ShellAction::Execute);
}

#[test]
fn normalizes_case_insensitive_text_search_flags() {
    let decision = shell_decision(r#"findstr /i "error code" "app log.txt""#, "macos");

    assert_eq!(decision.intent.as_deref(), Some("search_text"));
    assert_eq!(decision.translated_command.as_deref(), Some(r#"grep -i "error code" "app log.txt""#));
    assert_eq!(decision.action, ShellAction::Execute);
}

#[test]
fn npm_install_requires_confirmation() {
    let decision = shell_decision("npm install", "macos");

    assert_eq!(decision.intent.as_deref(), Some("npm_install"));
    assert_eq!(decision.translated_command.as_deref(), Some("npm install"));
    assert_eq!(decision.action, ShellAction::Confirm);
}

#[test]
fn npm_run_requires_confirmation() {
    let decision = shell_decision("npm run dev", "macos");

    assert_eq!(decision.intent.as_deref(), Some("npm_run"));
    assert_eq!(decision.translated_command.as_deref(), Some("npm run dev"));
    assert_eq!(decision.action, ShellAction::Confirm);
}

#[test]
fn chmod_root_world_writable_is_blocked() {
    let decision = shell_decision("chmod -R 777 /", "macos");

    assert_eq!(decision.intent.as_deref(), Some("change_permission"));
    assert_eq!(decision.risk_level, "destructive");
    assert_eq!(decision.action, ShellAction::Block);
}

#[test]
fn chmod_requires_confirmation() {
    let decision = shell_decision("chmod 777 file.txt", "macos");

    assert_eq!(decision.intent.as_deref(), Some("change_permission"));
    assert_eq!(decision.translated_command.as_deref(), Some("chmod 777 file.txt"));
    assert_eq!(decision.action, ShellAction::Confirm);
}

#[test]
fn chown_requires_confirmation() {
    let decision = shell_decision("chown user file.txt", "macos");

    assert_eq!(decision.intent.as_deref(), Some("change_owner"));
    assert_eq!(decision.translated_command.as_deref(), Some("chown user file.txt"));
    assert_eq!(decision.action, ShellAction::Confirm);
}

// ---- store ----

#[test]
fn finds_ipconfig_by_exact_command() {
    let store = load_command_catalog();
    let record = store
        .find_by_command("ipconfig")
        .expect("lookup should succeed")
        .expect("record should exist");

    assert_eq!(record.intent, "show_ip_config");
}

#[test]
fn finds_dir_by_exact_command() {
    let store = load_command_catalog();
    let record = store
        .find_by_command("dir")
        .expect("lookup should succeed")
        .expect("record should exist");

    assert_eq!(record.intent, "list_files");
}

#[test]
fn finds_placeholder_command_by_template_scan() {
    let store = load_command_catalog();
    let record = store
        .find_by_command("type file.txt")
        .expect("lookup should succeed")
        .expect("record should exist");

    assert_eq!(record.intent, "show_file_content");
}

#[test]
fn finds_quoted_placeholder_command_by_template_scan() {
    let store = load_command_catalog();
    let record = store
        .find_by_command(r#"copy "old name.txt" "new name.txt""#)
        .expect("lookup should succeed")
        .expect("record should exist");

    assert_eq!(record.intent, "copy_file");
}

#[test]
fn finds_record_by_intent() {
    let store = load_command_catalog();
    let record = store
        .find_by_intent("show_ip_config")
        .expect("intent lookup should succeed")
        .expect("record should exist");

    assert_eq!(record.intent, "show_ip_config");
    assert_eq!(record.risk_level, "low");
}

#[test]
fn lists_network_category_records() {
    let store = load_command_catalog();
    let records = store.list_by_category("network").expect("category lookup should succeed");

    assert!(
        records.iter().any(|record| record.intent == "show_ip_config"),
        "show_ip_config should be listed under network"
    );
    assert!(
        records.iter().any(|record| record.intent == "show_dns_config"),
        "show_dns_config should be listed under network"
    );
}

// ---- translation ----

#[test]
fn translates_windows_dir_to_macos_ls() {
    assert_eq!(suggestions_for("dir", "macos"), vec!["ls"]);
}

#[test]
fn translates_windows_dir_with_path_to_macos_ls_path() {
    assert_eq!(suggestions_for("dir Desktop", "macos"), vec!["ls Desktop", "ls"]);
}

#[test]
fn translates_windows_dir_with_quoted_path_to_macos_ls_path() {
    assert_eq!(
        suggestions_for(r#"dir "Program Files""#, "macos"),
        vec![r#"ls "Program Files""#.to_string(), "ls".to_string()]
    );
}

#[test]
fn translates_windows_cls_to_macos_clear() {
    assert_eq!(suggestions_for("cls", "macos"), vec!["clear"]);
}

#[test]
fn translates_windows_ipconfig_to_macos_ifconfig() {
    assert_eq!(suggestions_for("ipconfig", "macos"), vec!["ifconfig"]);
}

#[test]
fn translates_windows_whoami_to_macos_whoami() {
    assert_eq!(suggestions_for("whoami", "macos"), vec!["whoami"]);
}

#[test]
fn translates_windows_type_file_to_macos_cat_file() {
    assert_eq!(suggestions_for("type file.txt", "macos"), vec!["cat file.txt"]);
}

#[test]
fn translates_copy_with_quoted_paths_to_macos_cp() {
    assert_eq!(
        suggestions_for(r#"copy "old name.txt" "new name.txt""#, "macos"),
        vec![r#"cp "old name.txt" "new name.txt""#]
    );
}

#[test]
fn translates_findstr_to_grep_on_macos() {
    assert_eq!(suggestions_for("findstr error log.txt", "macos"), vec!["grep error log.txt"]);
}

#[test]
fn translates_findstr_with_quoted_pattern_and_file() {
    assert_eq!(
        suggestions_for(r#"findstr "error code" "app log.txt""#, "macos"),
        vec![r#"grep "error code" "app log.txt""#]
    );
}

#[test]
fn translates_where_to_which_on_macos() {
    assert_eq!(suggestions_for("where git", "macos"), vec!["which git", "command -v git"]);
}

#[test]
fn translates_tasklist_to_macos_process_listing() {
    assert_eq!(suggestions_for("tasklist", "macos"), vec!["ps aux"]);
}

#[test]
fn translates_route_print_to_macos_route_table() {
    assert_eq!(suggestions_for("route print", "macos"), vec!["netstat -rn"]);
}

#[test]
fn translates_netstat_to_macos_connection_listing() {
    assert_eq!(
        suggestions_for("netstat -ano", "macos"),
        vec!["netstat -an", "lsof -i -P -n | grep LISTEN"]
    );
}

#[test]
fn translates_unix_ls_to_windows_powershell() {
    assert_eq!(first_suggestion_for("ls", "windows"), "Get-ChildItem");
}

#[test]
fn translates_unix_ls_with_flags_to_windows_powershell() {
    assert_eq!(first_suggestion_for("ls -la", "windows"), "Get-ChildItem -Force");
}

#[test]
fn translates_unix_ls_hidden_with_path_to_windows_powershell() {
    assert_eq!(
        first_suggestion_for(r#"ls -a "Program Files""#, "windows"),
        r#"Get-ChildItem -Force "Program Files""#
    );
}

#[test]
fn translates_unix_clear_to_windows_powershell() {
    assert_eq!(first_suggestion_for("clear", "windows"), "Clear-Host");
}

#[test]
fn translates_pwd_to_windows_powershell() {
    assert_eq!(first_suggestion_for("pwd", "windows"), "Get-Location");
}

#[test]
fn translates_open_current_directory_to_windows_powershell() {
    assert_eq!(first_suggestion_for("open .", "windows"), "Invoke-Item .");
}

#[test]
fn translates_open_quoted_path_to_windows_powershell() {
    assert_eq!(first_suggestion_for(r#"open "My Folder""#, "windows"), r#"Start-Process "My Folder""#);
}

#[test]
fn translates_grep_to_select_string_on_windows() {
    assert_eq!(
        first_suggestion_for("grep error log.txt", "windows"),
        "Select-String -CaseSensitive error log.txt"
    );
}

#[test]
fn translates_grep_ignore_case_to_select_string_on_windows() {
    assert_eq!(
        first_suggestion_for(r#"grep -i "error code" "app log.txt""#, "windows"),
        r#"Select-String "error code" "app log.txt""#
    );
}

#[test]
fn translates_which_to_get_command_on_windows() {
    assert_eq!(first_suggestion_for("which git", "windows"), "Get-Command git");
}

#[test]
fn translates_cat_to_get_content_on_windows() {
    assert_eq!(first_suggestion_for("cat file.txt", "windows"), "Get-Content file.txt");
}

#[test]
fn translates_windows_ipconfig_all_to_macos_dns_command() {
    assert_eq!(suggestions_for("ipconfig /all", "macos"), vec!["scutil --dns"]);
}

#[test]
fn translates_windows_ping_count_to_unix_ping_count() {
    assert_eq!(first_suggestion_for("ping -n 2 example.com", "macos"), "ping -c 2 example.com");
}

#[test]
fn translates_unix_ping_count_to_windows_test_connection() {
    assert_eq!(
        first_suggestion_for("ping -c 3 example.com", "windows"),
        "Test-Connection -Count 3 example.com"
    );
}

#[test]
fn translates_mkdir_with_argument() {
    assert_eq!(suggestions_for("mkdir test-folder", "macos"), vec!["mkdir test-folder"]);
}

#[test]
fn translates_clip_with_quoted_text_to_macos_pbcopy() {
    assert_eq!(
        suggestions_for(r#"clip "hello world""#, "macos"),
        vec![r#"printf %s "hello world" | pbcopy"#]
    );
}

#[test]
fn translates_findstr_ignore_case_to_grep_ignore_case() {
    assert_eq!(
        first_suggestion_for(r#"findstr /i "error code" "app log.txt""#, "macos"),
        r#"grep -i "error code" "app log.txt""#
    );
}

#[test]
fn translates_head_with_count_to_windows_powershell() {
    assert_eq!(
        first_suggestion_for("head -n 20 app.log", "windows"),
        "Get-Content app.log -TotalCount 20"
    );
}

#[test]
fn translates_tail_with_count_to_windows_powershell() {
    assert_eq!(first_suggestion_for("tail -n 50 app.log", "windows"), "Get-Content app.log -Tail 50");
}

#[test]
fn translates_recursive_grep_to_windows_powershell() {
    assert_eq!(
        first_suggestion_for(r#"grep -R "TODO" ."#, "windows"),
        r#"Select-String -Path . -Pattern "TODO" -Recurse"#
    );
}

#[test]
fn translates_find_by_name_to_windows_powershell() {
    assert_eq!(
        first_suggestion_for(r#"find . -name "*.rs""#, "windows"),
        r#"Get-ChildItem -Path . -Recurse -Filter "*.rs""#
    );
}

#[test]
fn translates_tracert_to_macos_traceroute() {
    assert_eq!(first_suggestion_for("tracert example.com", "macos"), "traceroute example.com");
}

#[test]
fn translates_nslookup_to_windows_dns_lookup() {
    assert_eq!(first_suggestion_for("nslookup example.com", "windows"), "Resolve-DnsName example.com");
}

#[test]
fn translates_curl_head_to_windows_invoke_webrequest() {
    assert_eq!(
        first_suggestion_for("curl -I https://example.com", "windows"),
        "Invoke-WebRequest -Method Head https://example.com"
    );
}

#[test]
fn translates_curl_download_to_windows_invoke_webrequest() {
    assert_eq!(
        first_suggestion_for("curl -L https://example.com/file.zip -o file.zip", "windows"),
        "Invoke-WebRequest https://example.com/file.zip -OutFile file.zip"
    );
}

#[test]
fn translates_listen_ports_to_macos_lsof() {
    assert_eq!(
        first_suggestion_for("Get-NetTCPConnection -State Listen", "macos"),
        "lsof -i -P -n | grep LISTEN"
    );
}

#[test]
fn translates_process_by_port_to_windows_powershell() {
    assert_eq!(
        first_suggestion_for("lsof -i :3000", "windows"),
        "Get-NetTCPConnection -LocalPort 3000"
    );
}

#[test]
fn translates_zip_creation_to_windows_compress_archive() {
    assert_eq!(
        first_suggestion_for("zip -r app.zip app", "windows"),
        "Compress-Archive -Path app -DestinationPath app.zip"
    );
}

#[test]
fn translates_unzip_to_windows_expand_archive() {
    assert_eq!(
        first_suggestion_for("unzip app.zip", "windows"),
        "Expand-Archive -Path app.zip -DestinationPath ."
    );
}

#[test]
fn translates_where_cargo_to_macos_which() {
    assert_eq!(first_suggestion_for("where cargo", "macos"), "which cargo");
}

#[test]
fn keeps_git_status_identical_across_platforms() {
    assert_eq!(first_suggestion_for("git status", "windows"), "git status");
}

// ---- desktop ----

#[test]
fn parse_cd_command_supports_parent_navigation() {
    assert_eq!(parse_cd_command("cd .."), Some(".."));
}

#[test]
fn native_pwd_command_matches_platform() {
    assert_eq!(native_pwd_command(Platform::Macos), "pwd");
    assert_eq!(native_pwd_command(Platform::Ubuntu), "pwd");
    assert_eq!(native_pwd_command(Platform::Windows), "Get-Location");
}

fn reviewed_catalog() -> Vec<CommandRecord> {
    reviewed_records()
}

#[test]
fn catalog_search_returns_curl_suggestions() {
    let catalog = reviewed_catalog();
    let suggestions = search_catalog_suggestions_internal(&catalog, "cur", Platform::Windows, 5);

    assert!(
        suggestions.iter().any(|suggestion| suggestion.command_template.starts_with("curl -I")),
        "curl header suggestion should appear"
    );
}

#[test]
fn catalog_search_returns_head_suggestions() {
    let catalog = reviewed_catalog();
    let suggestions = search_catalog_suggestions_internal(&catalog, "head", Platform::Windows, 5);

    assert!(
        suggestions.iter().any(|suggestion| suggestion.intent_id == "head_file"),
        "head_file should be discoverable"
    );
}

#[test]
fn catalog_search_matches_port_related_intents() {
    let catalog = reviewed_catalog();
    let suggestions = search_catalog_suggestions_internal(&catalog, "port", Platform::Macos, 5);

    assert!(
        suggestions.iter().any(|suggestion| {
            suggestion.intent_id == "process_by_port"
                || suggestion.intent_id == "list_listening_ports"
                || suggestion.intent_id == "check_port"
        }),
        "port query should surface reviewed port-related intents"
    );
}

#[test]
fn catalog_search_matches_git_status() {
    let catalog = reviewed_catalog();
    let suggestions = search_catalog_suggestions_internal(&catalog, "git s", Platform::Macos, 5);

    assert_eq!(suggestions.first().map(|item| item.intent_id.as_str()), Some("git_status"));
}

#[test]
fn catalog_search_marks_npm_risk() {
    let catalog = reviewed_catalog();
    let suggestions = search_catalog_suggestions_internal(&catalog, "npm", Platform::Macos, 5);

    assert!(suggestions
        .iter()
        .any(|suggestion| suggestion.intent_id == "npm_install" && suggestion.risk == "medium"));
    assert!(suggestions
        .iter()
        .any(|suggestion| suggestion.intent_id == "npm_run" && suggestion.risk == "medium"));
}

#[test]
fn catalog_search_hides_destructive_suggestions() {
    let catalog = reviewed_catalog();
    let suggestions = search_catalog_suggestions_internal(&catalog, "rm -rf /", Platform::Macos, 5);

    assert!(
        suggestions.iter().all(|suggestion| suggestion.risk != "destructive"),
        "destructive suggestions should not be returned"
    );
}

#[test]
fn catalog_search_can_surface_high_risk_permission_changes() {
    let catalog = reviewed_catalog();
    let suggestions = search_catalog_suggestions_internal(&catalog, "chmod", Platform::Macos, 5);

    assert!(suggestions
        .iter()
        .any(|suggestion| suggestion.intent_id == "change_permission" && suggestion.risk == "high"));
}
