use ergo::conditions::{Condition, DisplayState};
use ergo::config::{
    config_file_content, config_is_parsable, get_config_dir, get_config_path, log_file_path, parse_config, rejected_rules,
    ServiceMode,
};
use ergo::monitor::{command_shell, commands_to_run, display_state_from, rules_due, LookState};
use ergo::service::{
    firstrun_needed, record_firstrun_choice, service_action, service_mode_from_response, service_plist_content,
    service_plist_dir, service_plist_path, ServiceAction, SERVICE_LABEL,
};

const README_CONFIG: &str = "verbose
yesservice
+ and \"Built-in\" and =2 -> echo 'external display connected'
\"G27QC A\" -> open /Applications/DisplayCenter.app
- and =1 -> echo 'back to single display'
";

fn names(v: &[&str]) -> Vec<String> {
    v.iter().map(|s| s.to_string()).collect()
}

#[test]
fn readme_config_is_read() {
    assert!(config_is_parsable(README_CONFIG));
    let c = parse_config(README_CONFIG);
    assert!(c.verbose);
    assert!(!c.firstrun);
    assert_eq!(c.service_mode, Some(ServiceMode::YesService));
    assert_eq!(c.rules.len(), 3);
    assert_eq!(c.rules[0].1, "echo 'external display connected'");
    assert_eq!(c.rules[1].1, "open /Applications/DisplayCenter.app");
    assert_eq!(c.rules[1].0.condition, Condition::DisplayName("G27QC A".to_string()));
    assert_eq!(c.rules[2].1, "echo 'back to single display'");
}

#[test]
fn empty_config_sets_nothing() {
    let c = parse_config("");
    assert!(!c.verbose && !c.firstrun);
    assert_eq!(c.service_mode, None);
    assert!(c.rules.is_empty());
}

#[test]
fn comments_blank_lines_and_bad_rules_are_skipped() {
    let raw = "  # a comment -> echo no\n\n   \r\nnot a rule\n+ -> \n  firstrun  \r\n";
    assert!(config_is_parsable(raw));
    let c = parse_config(raw);
    assert!(c.firstrun);
    assert!(!c.verbose);
    assert!(c.rules.is_empty());
}

#[test]
fn last_service_keyword_wins() {
    let c = parse_config("yesservice\nnoservice");
    assert_eq!(c.service_mode, Some(ServiceMode::NoService));
    let c = parse_config("noservice\nyesservice\n");
    assert_eq!(c.service_mode, Some(ServiceMode::YesService));
}

#[test]
fn config_with_a_crashing_rule_is_reported() {
    assert!(!config_is_parsable("verbose\n-> echo\n"));
    assert!(!config_is_parsable("+ or -> echo"));
    assert!(config_is_parsable("verbose\n+ -> echo\n"));
}

#[test]
fn fresh_config_reads_back() {
    for mode in [ServiceMode::YesService, ServiceMode::NoService] {
        let text = config_file_content(mode);
        let c = parse_config(&text);
        assert_eq!(c.service_mode, Some(mode));
        assert!(!c.verbose && !c.firstrun && c.rules.is_empty());
    }
    assert_eq!(
        config_file_content(ServiceMode::NoService),
        "# ergo config\n# please see https://github.com/sse2/ergo for documentation\nnoservice\n"
    );
}

#[test]
fn config_dir_choices() {
    assert_eq!(get_config_dir(Some("/x/cfg"), Some("/home/u"), Some("u")), "/x/cfg");
    assert_eq!(get_config_dir(None, Some("/home/u"), Some("u")), "/home/u/.config");
    assert_eq!(get_config_dir(None, None, Some("alice")), "/Users/alice/.config");
    assert_eq!(get_config_dir(None, None, None), "/Users/defaultuser/.config");
    assert_eq!(get_config_path("/home/u/.config"), "/home/u/.config/ergorc");
}

#[test]
fn plist_paths_and_content() {
    assert_eq!(SERVICE_LABEL, "cat.fennec.ergo");
    assert_eq!(service_plist_dir("/Users/a"), "/Users/a/Library/LaunchAgents");
    assert_eq!(service_plist_path("/Users/a"), "/Users/a/Library/LaunchAgents/cat.fennec.ergo.plist");
    let c = service_plist_content("/Applications/Ergo.app/Contents/MacOS/ergo");
    assert!(c.starts_with("<?xml version=\"1.0\" encoding=\"UTF-8\"?>\n"));
    assert!(c.contains("<key>Label</key>\n    <string>cat.fennec.ergo</string>"));
    assert!(c.contains("<string>/Applications/Ergo.app/Contents/MacOS/ergo</string>"));
    assert!(c.ends_with("</dict>\n</plist>"));
}

#[test]
fn service_actions() {
    assert_eq!(service_action(Some(ServiceMode::YesService), false), ServiceAction::Install);
    assert_eq!(service_action(Some(ServiceMode::YesService), true), ServiceAction::Nothing);
    assert_eq!(service_action(Some(ServiceMode::NoService), true), ServiceAction::Uninstall);
    assert_eq!(service_action(Some(ServiceMode::NoService), false), ServiceAction::Nothing);
    assert_eq!(service_action(None, true), ServiceAction::Nothing);
}

#[test]
fn firstrun_choice() {
    let mut c = parse_config("firstrun\nverbose\nnoservice\n+ -> echo a");
    assert!(firstrun_needed(&c, false));
    record_firstrun_choice(&mut c, service_mode_from_response(1000));
    assert!(!c.firstrun);
    assert!(c.verbose);
    assert_eq!(c.service_mode, Some(ServiceMode::YesService));
    assert_eq!(c.rules.len(), 1);
    assert!(!firstrun_needed(&c, false));
    assert!(firstrun_needed(&c, true));
    assert_eq!(service_mode_from_response(1001), ServiceMode::NoService);
}

#[test]
fn display_changes() {
    let st = display_state_from(&names(&["A"]), names(&["A", "B"]));
    assert!(st.added && !st.removed);
    let st = display_state_from(&names(&["A", "B"]), names(&["B"]));
    assert!(!st.added && st.removed);
    let st = display_state_from(&names(&["A", "B"]), names(&["B", "A"]));
    assert!(!st.added && !st.removed);
    assert!(!rules_due(&st, false));
    assert!(rules_due(&st, true));
    let st = display_state_from(&names(&["A"]), names(&["C"]));
    assert!(st.added && st.removed);
    assert!(rules_due(&st, false));
}

#[test]
fn commands_follow_rule_order() {
    let c = parse_config("+ -> first\n=1 -> second\n- -> third\n+ or - -> fourth\n");
    let st = DisplayState { current_displays: names(&["X"]), added: true, removed: false };
    assert_eq!(commands_to_run(&c, &st), names(&["first", "second", "fourth"]));
    let st = DisplayState { current_displays: names(&["X", "Y"]), added: false, removed: false };
    assert!(commands_to_run(&c, &st).is_empty());
}

#[test]
fn rejected_rule_lines() {
    let raw = "verbose\n  not a rule  \n+ -> ok\n# comment\n\ntwo -> arrows -> here\nfirstrun";
    assert_eq!(rejected_rules(raw), names(&["not a rule", "two -> arrows -> here"]));
    assert!(rejected_rules(README_CONFIG).is_empty());
}

#[test]
fn shell_for_commands() {
    assert_eq!(command_shell(Some("/bin/bash")), "/bin/bash");
    assert_eq!(command_shell(None), "/bin/zsh");
}

#[test]
fn log_path() {
    assert_eq!(log_file_path("alice"), "/tmp/ergo-log-alice.log");
}

#[test]
fn looks_run_rules_only_on_change() {
    let c = parse_config("+ -> added\n- -> removed\n=1 -> one\n");
    let mut look = LookState::new(names(&["A"]));
    assert_eq!(look.look(names(&["A"]), &c), names(&["one"]));
    assert!(!look.first_look);
    assert!(look.look(names(&["A"]), &c).is_empty());
    assert_eq!(look.look(names(&["A", "B"]), &c), names(&["added"]));
    assert_eq!(look.previous_displays, names(&["A", "B"]));
    assert_eq!(look.look(names(&["B"]), &c), names(&["removed", "one"]));
}
