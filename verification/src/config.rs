//! Configuration values: credentials, the browser preference, where the
//! config file lives, the refresh interval and whether remote images load.
//! Reading and writing files,
//! the keychain and prompts stay with the program around the library.

use vstd::prelude::*;

verus! {

/// The logged-in Feedbin account.
#[derive(Debug, Clone)]
pub struct Credentials {
    pub email: String,
    /// Sent as the HTTP Basic auth password by the Feedbin client.
    pub password: String,
}

/// The user's browser preference from config. `$BROWSER` and the platform
/// opener are applied by the browser module, not here.
#[derive(Debug, Clone)]
pub struct BrowserPref {
    /// User-configured command template, if any.
    pub command: Option<String>,
    /// Whether the configured browser runs inside the terminal.
    pub terminal: bool,
}

} // verus!

verus! {

/// The non-secret settings kept in the config file.
#[derive(Debug, Clone)]
pub struct Settings {
    pub email: Option<String>,
    /// Command template to open article URLs.
    pub browser: Option<String>,
    /// Whether `browser` is a terminal browser.
    pub browser_terminal: Option<bool>,
    /// Background auto-refresh interval in seconds; unset or 0 disables it.
    pub refresh_interval_secs: Option<u64>,
    /// UI accent override as a hex color.
    pub highlight_color: Option<String>,
    /// Whether to fetch images from the hosts feeds name; unset means yes.
    pub load_remote_images: Option<bool>,
}

impl Default for Settings {
    fn default() -> (r: Settings)
        ensures
            r.email is None,
            r.browser is None,
            r.browser_terminal is None,
            r.refresh_interval_secs is None,
            r.highlight_color is None,
            r.load_remote_images is None,
    {
        Settings {
            email: None,
            browser: None,
            browser_terminal: None,
            refresh_interval_secs: None,
            highlight_color: None,
            load_remote_images: None,
        }
    }
}

/// The application's directory name under the config and data roots.
pub const APP_NAME: &'static str = "roses";

/// The config file's name.
pub const CONFIG_FILE: &'static str = "config.toml";

/// The shortest auto-refresh interval honoured, in seconds.
pub const MIN_REFRESH_SECS: u64 = 60;

/// `base` joined with the relative `part` by one `/`.
pub open spec fn join_spec(base: Seq<char>, part: Seq<char>) -> Seq<char> {
    if base.len() == 0 {
        part
    } else if base.last() == '/' {
        base + part
    } else {
        base + "/"@ + part
    }
}

/// Join a relative path component onto `base`.
pub fn join_path(base: &str, part: &str) -> (r: String)
    ensures
        r@ == join_spec(base@, part@),
{
    let v = crate::text::str_chars(base);
    let mut out = String::from_str(base);
    if v.len() > 0 && v[v.len() - 1] != '/' {
        out.append("/");
    }
    out.append(part);
    proof {
        if v.len() > 0 {
            assert(v@.last() == v@[v@.len() - 1]);
        }
    }
    out
}

/// `$XDG_CONFIG_HOME/roses` when set and non-empty, else `~/.config/roses`.
pub open spec fn config_dir_spec(xdg: Option<Seq<char>>, home: Seq<char>) -> Seq<char> {
    match xdg {
        Some(x) => if x.len() > 0 {
            join_spec(x, "roses"@)
        } else {
            join_spec(join_spec(home, ".config"@), "roses"@)
        },
        None => join_spec(join_spec(home, ".config"@), "roses"@),
    }
}

/// Resolve the config directory from `$XDG_CONFIG_HOME` and the home dir.
pub fn config_dir_from(xdg_config_home: Option<&str>, home: &str) -> (r: String)
    ensures
        r@ == config_dir_spec(
            match xdg_config_home {
                Some(x) => Some(x@),
                None => None,
            },
            home@,
        ),
{
    match xdg_config_home {
        Some(x) => {
            if !x.is_empty() {
                return join_path(x, APP_NAME);
            }
        },
        None => {},
    }
    let base = join_path(home, ".config");
    join_path(base.as_str(), APP_NAME)
}

/// The config file inside the config directory.
pub fn config_path(config_dir: &str) -> (r: String)
    ensures
        r@ == join_spec(config_dir@, "config.toml"@),
{
    join_path(config_dir, CONFIG_FILE)
}

/// The browser preference the settings give (no terminal unless said).
pub fn load_browser_pref(settings: &Settings) -> (r: BrowserPref)
    ensures
        r.command == settings.browser,
        r.terminal == (settings.browser_terminal == Some(true)),
{
    BrowserPref {
        command: crate::feedbin::copy_opt_string(&settings.browser),
        terminal: match settings.browser_terminal {
            Some(t) => t,
            None => false,
        },
    }
}

/// The stored credentials: none without a recorded email, else the email
/// with the password the keychain gave for it (none when it has none).
pub fn load_credentials(settings: &Settings, password: Option<String>) -> (r: Option<Credentials>)
    ensures
        match (settings.email, password) {
            (Some(e), Some(p)) => r matches Some(c) && c.email == e && c.password == p,
            _ => r is None,
        },
{
    match (&settings.email, password) {
        (Some(e), Some(p)) => Some(Credentials { email: e.clone(), password: p }),
        _ => None,
    }
}

/// Forget the logged-in email, keeping every other setting; returns the
/// email whose keychain password is to be deleted.
pub fn logout(settings: &mut Settings) -> (r: Option<String>)
    ensures
        r == old(settings).email,
        *final(settings) == (Settings { email: None, ..*old(settings) }),
{
    settings.email.take()
}

/// Why a login is refused, if it is: an empty email or an empty password.
pub fn check_login(email: &str, password: &str) -> (r: Result<(), String>)
    ensures
        email@.len() == 0 ==> (r matches Err(m) && m@ == "email must not be empty"@),
        email@.len() > 0 && password@.len() == 0 ==> (r matches Err(m) && m@
            == "password must not be empty"@),
        email@.len() > 0 && password@.len() > 0 ==> r is Ok,
{
    if email.is_empty() {
        return Err(String::from_str("email must not be empty"));
    }
    if password.is_empty() {
        return Err(String::from_str("password must not be empty"));
    }
    Ok(())
}

/// Record a login's email, keeping every other setting.
pub fn record_login(settings: &mut Settings, email: String)
    ensures
        *final(settings) == (Settings { email: Some(email), ..*old(settings) }),
{
    settings.email = Some(email);
}

/// The auto-refresh interval in seconds: off when unset or 0, and never
/// below the politeness floor.
pub fn refresh_interval(settings: &Settings) -> (r: Option<u64>)
    ensures
        r == match settings.refresh_interval_secs {
            None => None::<u64>,
            Some(s) => if s == 0 {
                None
            } else if s < MIN_REFRESH_SECS {
                Some(MIN_REFRESH_SECS)
            } else {
                Some(s)
            },
        },
{
    match settings.refresh_interval_secs {
        None => None,
        Some(s) => if s == 0 {
            None
        } else if s < MIN_REFRESH_SECS {
            Some(MIN_REFRESH_SECS)
        } else {
            Some(s)
        },
    }
}

/// Whether images may be fetched from the hosts feeds name: yes unless the
/// settings say `false`.
pub fn load_remote_images(settings: &Settings) -> (r: bool)
    ensures
        r == (settings.load_remote_images != Some(false)),
{
    match settings.load_remote_images {
        Some(false) => false,
        _ => true,
    }
}

} // verus!
