use roses::browser::launch_from_tokens;
use roses::browser::{default_opener, from_template, resolve};
use roses::config::BrowserPref;

fn pref(command: Option<&str>, terminal: bool) -> BrowserPref {
    BrowserPref {
        command: command.map(str::to_string),
        terminal,
    }
}

#[test]
fn default_uses_the_platform_opener() {
    let launch = resolve(&pref(None, false), None, "https://example.com/a", false);
    assert_eq!(launch.args, vec!["https://example.com/a".to_string()]);
    assert!(!launch.terminal);
    assert!(matches!(launch.program.as_str(), "open" | "xdg-open"));
}

#[test]
fn config_template_substitutes_placeholder() {
    let launch = resolve(&pref(Some("w3m %s"), true), None, "https://example.com/a", false);
    assert_eq!(launch.program, "w3m");
    assert_eq!(launch.args, vec!["https://example.com/a".to_string()]);
    assert!(launch.terminal, "config-marked terminal browser");
}

#[test]
fn config_template_without_placeholder_appends_url() {
    let launch = resolve(&pref(Some("firefox"), false), None, "https://example.com/a", false);
    assert_eq!(launch.program, "firefox");
    assert_eq!(launch.args, vec!["https://example.com/a".to_string()]);
}

#[test]
fn config_template_respects_quoted_arguments() {
    let launch = resolve(
        &pref(Some("open -a 'Google Chrome' %s"), false),
        None,
        "https://example.com/a",
        false,
    );
    assert_eq!(launch.program, "open");
    assert_eq!(
        launch.args,
        vec![
            "-a".to_string(),
            "Google Chrome".to_string(),
            "https://example.com/a".to_string()
        ]
    );
}

#[test]
fn brace_placeholder_also_works() {
    let launch = resolve(&pref(Some("links {url}"), true), None, "https://example.com/a", false);
    assert_eq!(launch.program, "links");
    assert_eq!(launch.args, vec!["https://example.com/a".to_string()]);
}

#[test]
fn env_browser_used_when_no_config() {
    let launch = resolve(&pref(None, false), Some("/usr/bin/qutebrowser %s"), "https://x/a", false);
    assert_eq!(launch.program, "/usr/bin/qutebrowser");
    assert_eq!(launch.args, vec!["https://x/a".to_string()]);
    assert!(!launch.terminal, "$BROWSER is treated as a GUI launch");
}

#[test]
fn config_command_takes_precedence_over_env() {
    let launch = resolve(&pref(Some("lynx %s"), true), Some("firefox %s"), "https://x/a", false);
    assert_eq!(launch.program, "lynx");
}

#[test]
fn env_browser_uses_first_list_entry() {
    let launch = resolve(&pref(None, false), Some("firefox %s:chromium %s"), "https://x/a", false);
    assert_eq!(launch.program, "firefox");
}

#[test]
fn default_opener_names_the_platform_tool() {
    assert_eq!(default_opener(true), "open");
    assert_eq!(default_opener(false), "xdg-open");
    let launch = resolve(&pref(None, false), None, "https://x", true);
    assert_eq!(launch.program, "open");
}

#[test]
fn blank_config_and_env_entries_are_skipped() {
    let launch = resolve(&pref(Some("   "), true), Some(" : :chromium"), "https://x/a", false);
    assert_eq!(launch.program, "chromium");
    assert_eq!(launch.args, vec!["https://x/a".to_string()]);
    assert!(!launch.terminal);
}

#[test]
fn placeholder_is_replaced_inside_a_token() {
    let launch = from_template("browse --url=%s --ref={url}", "u", false, false);
    assert_eq!(launch.program, "browse");
    assert_eq!(launch.args, vec!["--url=u".to_string(), "--ref=u".to_string()]);
}

#[test]
fn malformed_quoting_falls_back_to_whitespace_words() {
    let launch = from_template("lynx 'unclosed", "https://x", true, false);
    assert_eq!(launch.program, "lynx");
    assert_eq!(launch.args, vec!["'unclosed".to_string(), "https://x".to_string()]);
    assert!(launch.terminal);
}

#[test]
fn empty_template_falls_back_to_the_opener() {
    let launch = from_template("''", "https://x", true, false);
    assert_eq!(launch.program, "");
    let launch = from_template("", "https://x", true, false);
    assert_eq!(launch.program, "xdg-open");
    assert_eq!(launch.args, vec!["https://x".to_string()]);
    assert!(launch.terminal);
}

#[test]
fn launch_from_given_tokens() {
    let tokens = vec!["w3m".to_string(), "-o".to_string(), "{url}".to_string()];
    let l = launch_from_tokens(&tokens, "https://x", true, false);
    assert_eq!(l.program, "w3m");
    assert_eq!(l.args, vec!["-o".to_string(), "https://x".to_string()]);
    let l = launch_from_tokens(&vec!["lynx".to_string()], "https://x", true, false);
    assert_eq!(l.args, vec!["https://x".to_string()], "the URL is appended without a placeholder");
    let l = launch_from_tokens(&Vec::new(), "https://x", false, true);
    assert_eq!(l.program, "open");
}
