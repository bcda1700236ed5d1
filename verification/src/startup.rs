//! The decisions made once at process start.
//!
//! From the loaded configuration and the process arguments the shell decides
//! where to navigate, whether the window starts hidden, and whether to ask
//! the OS collaborator for autostart registration. The caller carries these
//! decisions out.

use vstd::prelude::*;
use vstd::string::StrSliceExecFns;
use vstd::string::StringExecFns;
use crate::config::AppConfig;
use crate::visibility::{spec_initial_state, WindowVisibilityState};

verus! {

/// Whether some process argument is the `--minimized` marker that an
/// autostart-triggered launch passes.
pub open spec fn spec_has_marker(args: Seq<String>) -> bool {
    exists|i: int| 0 <= i < args.len() && args[i]@ == "--minimized"@
}

/// Scans the process arguments for the `--minimized` marker.
pub fn has_minimized_marker(args: &Vec<String>) -> (b: bool)
    ensures
        b == spec_has_marker(args@),
{
    let marker: String = String::from_str("--minimized");
    let mut i: usize = 0;
    while i < args.len()
        invariant
            i <= args@.len(),
            marker@ == "--minimized"@,
            forall|k: int| 0 <= k < i ==> args@[k]@ != "--minimized"@,
        decreases args@.len() - i,
    {
        if args[i].eq(&marker) {
            return true;
        }
        i = i + 1;
    }
    false
}

/// Everything the shell asks of its collaborators at startup.
pub struct StartupPlan {
    /// Where to point the browser view.
    pub url: String,
    /// Whether the window starts visible or hidden.
    pub initial_state: WindowVisibilityState,
    /// Whether to request OS autostart registration.
    pub enable_autostart: bool,
}

/// Computes the startup plan: the configured URL, the initial visibility
/// (hidden iff the preference or the marker asks for it), and whether
/// autostart registration is wanted.
pub fn plan_startup(config: &AppConfig, args: &Vec<String>) -> (p: StartupPlan)
    ensures
        p.url@ == config@.url,
        p.initial_state == spec_initial_state(config@.start_minimized, spec_has_marker(args@)),
        p.initial_state is Hidden <==> (config@.start_minimized || spec_has_marker(args@)),
        p.enable_autostart == config@.autostart,
{
    let marker = has_minimized_marker(args);
    let initial_state = if config.start_minimized || marker {
        WindowVisibilityState::Hidden
    } else {
        WindowVisibilityState::Visible
    };
    StartupPlan { url: config.url.clone(), initial_state, enable_autostart: config.autostart }
}

/// How one character of the configured URL is written inside the
/// single-quoted navigation script: a single quote is escaped, everything
/// else stands as itself.
pub open spec fn spec_js_escape_char(c: char) -> Seq<char> {
    if c == '\'' {
        seq!['\\', '\'']
    } else {
        seq![c]
    }
}

/// The configured URL as it is written inside the navigation script.
pub open spec fn spec_js_escape(s: Seq<char>) -> Seq<char>
    decreases s.len(),
{
    if s.len() == 0 {
        Seq::empty()
    } else {
        spec_js_escape_char(s[0]) + spec_js_escape(s.drop_first())
    }
}

/// The script handed to the browser view to navigate to `url`.
pub open spec fn spec_navigate_script(url: Seq<char>) -> Seq<char> {
    "window.location.replace('"@ + spec_js_escape(url) + "')"@
}

/// Escaping one more character appends that character's escape.
proof fn lemma_js_escape_snoc(s: Seq<char>, k: int)
    requires
        0 <= k < s.len(),
    ensures
        spec_js_escape(s.take(k + 1)) == spec_js_escape(s.take(k)) + spec_js_escape_char(s[k]),
    decreases k,
{
    if k == 0 {
        assert(s.take(1).drop_first() =~= s.take(0));
        assert(s.take(0) =~= Seq::<char>::empty());
        assert(s.take(1)[0] == s[0]);
        assert(spec_js_escape(s.take(0)) =~= Seq::<char>::empty());
        assert(spec_js_escape(s.take(1)) =~= spec_js_escape_char(s[0]));
        assert(spec_js_escape(s.take(0)) + spec_js_escape_char(s[0]) =~= spec_js_escape_char(
            s[0],
        ));
    } else {
        lemma_js_escape_snoc(s.drop_first(), k - 1);
        assert(s.take(k + 1).drop_first() =~= s.drop_first().take(k));
        assert(s.take(k).drop_first() =~= s.drop_first().take(k - 1));
        assert(s.take(k + 1)[0] == s[0]);
        assert(s.take(k)[0] == s[0]);
        assert(s.drop_first()[k - 1] == s[k]);
        assert(spec_js_escape_char(s[0]) + (spec_js_escape(s.drop_first().take(k - 1))
            + spec_js_escape_char(s[k])) =~= (spec_js_escape_char(s[0]) + spec_js_escape(
            s.drop_first().take(k - 1),
        )) + spec_js_escape_char(s[k]));
    }
}

/// Builds the navigation script for `url`, with single quotes escaped so the
/// URL sits intact inside the script's quotes.
pub fn navigate_script(url: &str) -> (r: String)
    ensures
        r@ == spec_navigate_script(url@),
{
    let n = url.unicode_len();
    let mut out: Vec<char> = Vec::new();
    let mut k: usize = 0;
    while k < n
        invariant
            k <= n,
            n == url@.len(),
            out@ == spec_js_escape(url@.take(k as int)),
        decreases n - k,
    {
        let c = url.get_char(k);
        let ghost before = out@;
        if c == '\'' {
            out.push('\\');
            out.push('\'');
        } else {
            out.push(c);
        }
        proof {
            lemma_js_escape_snoc(url@, k as int);
            assert(out@ =~= before + spec_js_escape_char(url@[k as int]));
        }
        k = k + 1;
    }
    proof {
        assert(url@.take(n as int) =~= url@);
    }
    let head = String::from_str("window.location.replace('");
    let mid = crate::codec::chars_to_string(&out);
    let r = head.concat(mid.as_str()).concat("')");
    proof {
        assert(r@ =~= spec_navigate_script(url@));
    }
    r
}

} // verus!
