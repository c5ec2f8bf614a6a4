//! Opening article URLs in the user's chosen browser. Precedence: the
//! configured command template, then the first entry of `$BROWSER`, then the
//! platform opener. A template may hold a `%s`/`{url}` placeholder; without
//! one the URL is appended as the last argument.

use vstd::prelude::*;
use crate::config::BrowserPref;
use crate::reader::{split_words, words};
use crate::text::{contains_seq, replace_spec, split_char, split_on, str_contains, str_replace, trim, trim_str};

verus! {

/// A resolved browser invocation.
#[derive(Debug, PartialEq, Eq)]
pub struct Launch {
    pub program: String,
    pub args: Vec<String>,
    /// Whether this browser takes over the terminal (suspend the TUI for it).
    pub terminal: bool,
}

/// The mathematical content of a [`Launch`].
pub struct LaunchView {
    pub program: Seq<char>,
    pub args: Seq<Seq<char>>,
    pub terminal: bool,
}

impl View for Launch {
    type V = LaunchView;

    open spec fn view(&self) -> LaunchView {
        LaunchView {
            program: self.program@,
            args: self.args@.map_values(|a: String| a@),
            terminal: self.terminal,
        }
    }
}

/// The platform's opener: `open` on macOS, `xdg-open` elsewhere.
pub open spec fn opener_spec(macos: bool) -> Seq<char> {
    if macos {
        "open"@
    } else {
        "xdg-open"@
    }
}

/// The platform's default URL opener. The platform is the caller's to say.
pub fn default_opener(macos: bool) -> (r: &'static str)
    ensures
        r@ == opener_spec(macos),
{
    if macos {
        "open"
    } else {
        "xdg-open"
    }
}

/// What `shlex::split` gives for a string: its words under POSIX shell
/// quoting rules, or `None` when the quoting is malformed.
pub uninterp spec fn shlex_split(s: Seq<char>) -> Option<Seq<Seq<char>>>;

/// `shlex::split`: shell-style word splitting. The words it finds are named
/// ([`shlex_split`]), not stated.
#[verifier::external_body]
fn shell_words(s: &str) -> (r: Option<Vec<String>>)
    ensures
        match r {
            Some(v) => shlex_split(s@) == Some(v@.map_values(|w: String| w@)),
            None => shlex_split(s@) is None,
        },
{
    shlex::split(s)
}

/// Whether a token holds a URL placeholder.
pub open spec fn has_placeholder(t: Seq<char>) -> bool {
    contains_seq(t, "%s"@) || contains_seq(t, "{url}"@)
}

/// A token with both placeholders replaced by the URL.
pub open spec fn substitute(t: Seq<char>, url: Seq<char>) -> Seq<char> {
    replace_spec(replace_spec(t, "%s"@, url), "{url}"@, url)
}

/// The argv of a template: shell words, or plain whitespace words when the
/// quoting is malformed.
pub open spec fn template_tokens(template: Seq<char>) -> Seq<Seq<char>> {
    match shlex_split(template) {
        Some(t) => t,
        None => words(template),
    }
}

/// The tokens with placeholders substituted.
pub open spec fn template_args(tokens: Seq<Seq<char>>, url: Seq<char>) -> Seq<Seq<char>> {
    tokens.map_values(|t: Seq<char>| if has_placeholder(t) { substitute(t, url) } else { t })
}

/// Whether any token holds a placeholder.
pub open spec fn any_placeholder(tokens: Seq<Seq<char>>) -> bool {
    exists|i: int| 0 <= i < tokens.len() && has_placeholder(#[trigger] tokens[i])
}

/// The launch a command template gives: its first word is the program; the
/// URL replaces the placeholders or, without any, is appended. An empty
/// template falls back to the platform opener.
pub open spec fn from_template_spec(template: Seq<char>, url: Seq<char>, terminal: bool, macos: bool) -> LaunchView {
    tokens_launch_spec(template_tokens(template), url, terminal, macos)
}

/// The launch for a template already split into tokens.
pub open spec fn tokens_launch_spec(toks: Seq<Seq<char>>, url: Seq<char>, terminal: bool, macos: bool) -> LaunchView {
    let args = template_args(toks, url);
    if args.len() == 0 {
        LaunchView { program: opener_spec(macos), args: seq![url], terminal }
    } else {
        let all = if any_placeholder(toks) {
            args
        } else {
            args.push(url)
        };
        LaunchView { program: all[0], args: all.drop_first(), terminal }
    }
}

/// The first non-blank entry of a colon-separated list, trimmed.
pub open spec fn first_entry_from(pieces: Seq<Seq<char>>, i: int) -> Option<Seq<char>>
    decreases pieces.len() - i,
{
    if i < 0 || i >= pieces.len() {
        None
    } else if trim(pieces[i]).len() > 0 {
        Some(trim(pieces[i]))
    } else {
        first_entry_from(pieces, i + 1)
    }
}

/// How to open `url`: the configured template (trimmed, when not blank),
/// else the first `$BROWSER` entry as a GUI launch, else the platform opener.
pub open spec fn resolve_spec(pref: BrowserPref, env_browser: Option<Seq<char>>, url: Seq<char>, macos: bool) -> LaunchView {
    let cmd = match pref.command {
        Some(c) => if trim(c@).len() > 0 {
            Some(trim(c@))
        } else {
            None
        },
        None => None,
    };
    let env = match env_browser {
        Some(e) => first_entry_from(split_on(e, ':'), 0),
        None => None,
    };
    match cmd {
        Some(c) => from_template_spec(c, url, pref.terminal, macos),
        None => match env {
            Some(e) => from_template_spec(e, url, false, macos),
            None => LaunchView { program: opener_spec(macos), args: seq![url], terminal: false },
        },
    }
}

/// Whether no usable command is configured.
pub open spec fn command_blank(pref: BrowserPref) -> bool {
    match pref.command {
        Some(c) => trim(c@).len() == 0,
        None => true,
    }
}

fn opener_launch(url: &str, terminal: bool, macos: bool) -> (r: Launch)
    ensures
        r@ == (LaunchView { program: opener_spec(macos), args: seq![url@], terminal }),
{
    let mut args: Vec<String> = Vec::new();
    args.push(String::from_str(url));
    proof {
        assert(args@.map_values(|a: String| a@) =~= seq![url@]);
    }
    Launch { program: String::from_str(default_opener(macos)), args, terminal }
}

/// Split a command template into argv, substituting `url` for a `%s`/`{url}`
/// placeholder or appending it when there is none.
pub fn from_template(template: &str, url: &str, terminal: bool, macos: bool) -> (r: Launch)
    ensures
        r@ == from_template_spec(template@, url@, terminal, macos),
{
    let tokens = match shell_words(template) {
        Some(t) => t,
        None => split_words(template),
    };
    proof {
        assert(tokens@.map_values(|w: String| w@) == template_tokens(template@));
    }
    launch_from_tokens(&tokens, url, terminal, macos)
}

/// The launch for a template's tokens: placeholders (`%s`, `{url}`) are
/// replaced by the URL, the URL is appended when there was none, the first
/// word is the program; no words at all falls back to the platform opener.
pub fn launch_from_tokens(tokens: &Vec<String>, url: &str, terminal: bool, macos: bool) -> (r: Launch)
    ensures
        r@ == tokens_launch_spec(tokens@.map_values(|w: String| w@), url@, terminal, macos),
{
    let ghost tv = tokens@.map_values(|w: String| w@);
    let mut args: Vec<String> = Vec::new();
    let mut substituted = false;
    let mut i: usize = 0;
    while i < tokens.len()
        invariant
            0 <= i <= tokens@.len(),
            tv == tokens@.map_values(|w: String| w@),
            args@.map_values(|a: String| a@) == template_args(tv.take(i as int), url@),
            substituted == any_placeholder(tv.take(i as int)),
        decreases tokens@.len() - i,
    {
        let t = tokens[i].as_str();
        let ghost before = args@.map_values(|a: String| a@);
        proof {
            assert(tv.take(i + 1) == tv.take(i as int).push(t@));
        }
        if str_contains(t, "%s") || str_contains(t, "{url}") {
            proof {
                reveal_strlit("%s");
                reveal_strlit("{url}");
            }
            let a = str_replace(t, "%s", url);
            let b = str_replace(a.as_str(), "{url}", url);
            let ghost bv = b@;
            args.push(b);
            substituted = true;
            proof {
                assert(bv == substitute(t@, url@));
                assert(args@.map_values(|a: String| a@) =~= before.push(bv));
                assert(has_placeholder(t@));
                assert(tv.take(i + 1)[i as int] == t@);
            }
        } else {
            args.push(tokens[i].clone());
            proof {
                assert(args@.map_values(|a: String| a@) =~= before.push(t@));
                assert(!has_placeholder(t@));
                assert forall|j: int| 0 <= j < i + 1 && has_placeholder(#[trigger] tv.take(i + 1)[j]) implies
                    has_placeholder(tv.take(i as int)[j]) by {
                    if j < i {
                        assert(tv.take(i + 1)[j] == tv.take(i as int)[j]);
                    }
                }
            }
        }
        proof {
            assert(args@.map_values(|a: String| a@) =~= template_args(tv.take(i + 1), url@));
            if any_placeholder(tv.take(i as int)) {
                let j = choose|j: int| 0 <= j < tv.take(i as int).len() && has_placeholder(#[trigger] tv.take(i as int)[j]);
                assert(tv.take(i + 1)[j] == tv.take(i as int)[j]);
            }
        }
        i += 1;
    }
    proof {
        assert(tv.take(tv.len() as int) == tv);
    }
    if args.len() == 0 {
        return opener_launch(url, terminal, macos);
    }
    if !substituted {
        let ghost before = args@.map_values(|a: String| a@);
        args.push(String::from_str(url));
        proof {
            assert(args@.map_values(|a: String| a@) =~= before.push(url@));
        }
    }
    let ghost all = args@.map_values(|a: String| a@);
    let program = args.remove(0);
    proof {
        assert(args@.map_values(|a: String| a@) =~= all.drop_first());
    }
    Launch { program, args, terminal }
}

/// Resolve how to open `url`. `env_browser` is `$BROWSER` and `macos` the
/// platform, both passed in by the caller.
pub fn resolve(pref: &BrowserPref, env_browser: Option<&str>, url: &str, macos: bool) -> (r: Launch)
    ensures
        r@ == resolve_spec(
            *pref,
            match env_browser {
                Some(e) => Some(e@),
                None => None,
            },
            url@,
            macos,
        ),
{
    let ghost cmd_blank = command_blank(*pref);
    if let Some(c) = &pref.command {
        let t = trim_str(c.as_str());
        if !t.as_str().is_empty() {
            proof {
                assert(t@.len() > 0);
            }
            return from_template(t.as_str(), url, pref.terminal, macos);
        }
        proof {
            assert(t@.len() == 0);
        }
    }
    assert(cmd_blank);
    if let Some(env) = env_browser {
        let pieces = split_char(env, ':');
        let ghost pv = pieces@.map_values(|x: String| x@);
        let mut i: usize = 0;
        while i < pieces.len()
            invariant
                0 <= i <= pieces@.len(),
                pv == pieces@.map_values(|x: String| x@),
                pv == split_on(env@, ':'),
                command_blank(*pref),
                env_browser == Some(env),
                first_entry_from(pv, 0) == first_entry_from(pv, i as int),
            decreases pieces@.len() - i,
        {
            let t = trim_str(pieces[i].as_str());
            if !t.as_str().is_empty() {
                proof {
                    assert(t@.len() > 0);
                    assert(pv[i as int] == pieces@[i as int]@);
                    assert(first_entry_from(pv, i as int) == Some(t@));
                }
                return from_template(t.as_str(), url, false, macos);
            }
            proof {
                assert(t@.len() == 0);
                assert(pv[i as int] == pieces@[i as int]@);
            }
            i += 1;
        }
    }
    opener_launch(url, false, macos)
}

} // verus!
