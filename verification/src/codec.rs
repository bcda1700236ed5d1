//! The on-disk configuration format: a small JSON-shaped object.
//!
//! A document is a single JSON object. The members `url` (a string),
//! `autostart` and `start_minimized` (booleans) are the ones the
//! configuration reads, each at most once; any other member is ignored,
//! whatever JSON value it carries. Strings take the standard escapes,
//! `\uXXXX` and surrogate pairs included, and reject unescaped control
//! characters. Anything outside this shape is not the expected schema and
//! makes the whole document unparseable, which the loader answers with the
//! default configuration; an empty `url` likewise falls back to the default
//! address, so a loaded configuration always carries a non-empty one.
//! Rendering writes the three members in a fixed, pretty form that always
//! parses back to the same configuration.
//!
//! The grammar is stated by spec functions that consume a character sequence
//! and return what was read together with the unread remainder; the
//! executable parser and renderer are proved against them.

use vstd::prelude::*;
use vstd::string::StrSliceExecFns;
use crate::config::{AppConfig, ConfigView, spec_default_url, default_url};

verus! {

// ---------------------------------------------------------------------------
// The grammar, as spec functions over character sequences.
// ---------------------------------------------------------------------------

/// The whitespace accepted between tokens.
pub open spec fn is_ws(c: char) -> bool {
    c == ' ' || c == '\t' || c == '\n' || c == '\r'
}

/// The remainder of `s` after its leading whitespace.
pub open spec fn spec_skip_ws(s: Seq<char>) -> Seq<char>
    decreases s.len(),
{
    if s.len() > 0 && is_ws(s[0]) {
        spec_skip_ws(s.drop_first())
    } else {
        s
    }
}

/// The character stood for by the escape `\c` inside a string, if `c` is one
/// of the accepted escapes.
pub open spec fn spec_unescape(c: char) -> Option<char> {
    if c == '"' {
        Some('"')
    } else if c == '\\' {
        Some('\\')
    } else if c == '/' {
        Some('/')
    } else if c == 'n' {
        Some('\n')
    } else if c == 'r' {
        Some('\r')
    } else if c == 't' {
        Some('\t')
    } else if c == 'b' {
        Some('\u{0008}')
    } else if c == 'f' {
        Some('\u{000C}')
    } else {
        None
    }
}

/// A character's Unicode code point.
pub open spec fn char_code(c: char) -> int {
    c as int
}

/// The character with code point `n`; meaningful only for a valid scalar
/// code point, where exactly one such character exists.
pub open spec fn code_char(n: int) -> char {
    choose|c: char| char_code(c) == n
}

/// Every character's code point is a valid Unicode scalar value; stated as
/// a lemma so the bound is at hand for characters drawn out of sequences.
proof fn lemma_char_code_bounds(c: char)
    ensures
        0 <= char_code(c) < 0x110000,
{
}

/// Whether `n` is a Unicode scalar value: a code point that is a character,
/// so not a surrogate and not beyond the last plane.
pub open spec fn is_scalar_code(n: int) -> bool {
    (0 <= n < 0xD800) || (0xE000 <= n < 0x110000)
}

/// Whether `c` is a hexadecimal digit, either case.
pub open spec fn is_hex_digit(c: char) -> bool {
    (48 <= char_code(c) <= 57) || (97 <= char_code(c) <= 102) || (65 <= char_code(c) <= 70)
}

/// The value of a hexadecimal digit.
pub open spec fn hex_val(c: char) -> int {
    if 48 <= char_code(c) <= 57 {
        char_code(c) - 48
    } else if 97 <= char_code(c) {
        char_code(c) - 87
    } else {
        char_code(c) - 55
    }
}

/// Reads four hexadecimal digits: their value and the remainder.
#[verifier::opaque]
pub open spec fn spec_hex4(s: Seq<char>) -> Option<(int, Seq<char>)> {
    if s.len() >= 4 && is_hex_digit(s[0]) && is_hex_digit(s[1]) && is_hex_digit(s[2])
        && is_hex_digit(s[3]) {
        Some(
            (
                4096 * hex_val(s[0]) + 256 * hex_val(s[1]) + 16 * hex_val(s[2]) + hex_val(s[3]),
                s.skip(4),
            ),
        )
    } else {
        None
    }
}

/// Reads what follows `\u` in a string: four hexadecimal digits naming a
/// character, or a surrogate pair (`\uXXXX\uXXXX`) naming one beyond the
/// basic plane; a lone surrogate is an error.
#[verifier::opaque]
pub open spec fn spec_unicode_escape(s: Seq<char>) -> Option<(char, Seq<char>)> {
    match spec_hex4(s) {
        None => None,
        Some(h) => {
            if is_scalar_code(h.0) {
                Some((code_char(h.0), h.1))
            } else if 0xD800 <= h.0 < 0xDC00 {
                let r = h.1;
                if r.len() >= 2 && r[0] == '\\' && r[1] == 'u' {
                    match spec_hex4(r.skip(2)) {
                        None => None,
                        Some(h2) => {
                            if 0xDC00 <= h2.0 < 0xE000 {
                                Some(
                                    (
                                        code_char(
                                            0x10000 + (h.0 - 0xD800) * 0x400 + (h2.0 - 0xDC00),
                                        ),
                                        h2.1,
                                    ),
                                )
                            } else {
                                None
                            }
                        },
                    }
                } else {
                    None
                }
            } else {
                None
            }
        },
    }
}

/// Reads the body of a string after its opening quote: the decoded contents
/// and the remainder after the closing quote. Unescaped control characters
/// are not part of a string.
pub open spec fn spec_string_body(s: Seq<char>) -> Option<(Seq<char>, Seq<char>)>
    decreases s.len(),
{
    if s.len() == 0 {
        None
    } else if s[0] == '"' {
        Some((Seq::empty(), s.drop_first()))
    } else if s[0] == '\\' {
        if s.len() >= 2 {
            if s[1] == 'u' {
                match spec_unicode_escape(s.skip(2)) {
                    Some(u) => if u.1.len() < s.len() {
                        match spec_string_body(u.1) {
                            Some(p) => Some((seq![u.0] + p.0, p.1)),
                            None => None,
                        }
                    } else {
                        // cannot happen: the escape consumes input
                        None
                    },
                    None => None,
                }
            } else {
                match spec_unescape(s[1]) {
                    Some(c) => match spec_string_body(s.skip(2)) {
                        Some(p) => Some((seq![c] + p.0, p.1)),
                        None => None,
                    },
                    None => None,
                }
            }
        } else {
            None
        }
    } else if char_code(s[0]) >= 0x20 {
        match spec_string_body(s.drop_first()) {
            Some(p) => Some((seq![s[0]] + p.0, p.1)),
            None => None,
        }
    } else {
        None
    }
}

/// Reads a quoted string from the front of `s`.
pub open spec fn spec_parse_string(s: Seq<char>) -> Option<(Seq<char>, Seq<char>)> {
    if s.len() > 0 && s[0] == '"' {
        spec_string_body(s.drop_first())
    } else {
        None
    }
}

/// A member value as the configuration sees it: a string, a boolean, or any
/// other well-formed JSON value, which only an unknown member may carry.
pub ghost enum ScalarView {
    Text(Seq<char>),
    Flag(bool),
    Other,
}

/// Whether `c` is a decimal digit.
pub open spec fn is_digit(c: char) -> bool {
    48 <= char_code(c) <= 57
}

/// The remainder of `s` after its leading decimal digits.
#[verifier::opaque]
pub open spec fn spec_skip_digits(s: Seq<char>) -> Seq<char>
    decreases s.len(),
{
    if s.len() > 0 && is_digit(s[0]) {
        spec_skip_digits(s.drop_first())
    } else {
        s
    }
}

/// Reads a JSON number from the front of `s`: an optional sign, an integer
/// part without leading zeros, then an optional fraction and exponent.
#[verifier::opaque]
pub open spec fn spec_number(s: Seq<char>) -> Option<Seq<char>> {
    let s1 = if s.len() > 0 && s[0] == '-' {
        s.drop_first()
    } else {
        s
    };
    if s1.len() > 0 && s1[0] == '0' {
        spec_number_frac(s1.drop_first())
    } else if s1.len() > 0 && is_digit(s1[0]) {
        spec_number_frac(spec_skip_digits(s1))
    } else {
        None
    }
}

/// Reads a number's optional fraction, then its optional exponent.
#[verifier::opaque]
pub open spec fn spec_number_frac(s: Seq<char>) -> Option<Seq<char>> {
    if s.len() > 0 && s[0] == '.' {
        let d = s.drop_first();
        if d.len() > 0 && is_digit(d[0]) {
            spec_number_exp(spec_skip_digits(d))
        } else {
            None
        }
    } else {
        spec_number_exp(s)
    }
}

/// Reads a number's optional exponent.
#[verifier::opaque]
pub open spec fn spec_number_exp(s: Seq<char>) -> Option<Seq<char>> {
    if s.len() > 0 && (s[0] == 'e' || s[0] == 'E') {
        let d1 = s.drop_first();
        let d2 = if d1.len() > 0 && (d1[0] == '+' || d1[0] == '-') {
            d1.drop_first()
        } else {
            d1
        };
        if d2.len() > 0 && is_digit(d2[0]) {
            Some(spec_skip_digits(d2))
        } else {
            None
        }
    } else {
        Some(s)
    }
}

/// Reads past one well-formed JSON value of any kind: the remainder after
/// it. This is how the value of an unknown member is checked and ignored.
/// The guards on the recursive steps only restate that a value consumes
/// input, so the recursion stops.
pub open spec fn spec_skip_value(s: Seq<char>) -> Option<Seq<char>>
    decreases s.len(), 0int,
{
    if s.len() == 0 {
        None
    } else if s[0] == '"' {
        match spec_string_body(s.drop_first()) {
            Some(p) => Some(p.1),
            None => None,
        }
    } else if s.len() >= 4 && s[0] == 't' && s[1] == 'r' && s[2] == 'u' && s[3] == 'e' {
        Some(s.skip(4))
    } else if s.len() >= 5 && s[0] == 'f' && s[1] == 'a' && s[2] == 'l' && s[3] == 's' && s[4]
        == 'e' {
        Some(s.skip(5))
    } else if s.len() >= 4 && s[0] == 'n' && s[1] == 'u' && s[2] == 'l' && s[3] == 'l' {
        Some(s.skip(4))
    } else if s[0] == '-' || is_digit(s[0]) {
        spec_number(s)
    } else if s[0] == '[' {
        let r = spec_skip_ws(s.drop_first());
        if r.len() < s.len() {
            spec_skip_array(r)
        } else {
            None
        }
    } else if s[0] == '{' {
        let r = spec_skip_ws(s.drop_first());
        if r.len() < s.len() {
            spec_skip_object(r)
        } else {
            None
        }
    } else {
        None
    }
}

/// Reads past the items of an array, from the first item or the closing
/// bracket onward, up to and including the bracket.
pub open spec fn spec_skip_array(s: Seq<char>) -> Option<Seq<char>>
    decreases s.len(), 1int,
{
    if s.len() > 0 && s[0] == ']' {
        Some(s.drop_first())
    } else {
        match spec_skip_value(s) {
            None => None,
            Some(r1) => {
                let r2 = spec_skip_ws(r1);
                if r2.len() > 0 && r2[0] == ',' {
                    let r3 = spec_skip_ws(r2.drop_first());
                    if r3.len() > 0 && r3[0] != ']' && r3.len() < s.len() {
                        spec_skip_array(r3)
                    } else {
                        None
                    }
                } else if r2.len() > 0 && r2[0] == ']' {
                    Some(r2.drop_first())
                } else {
                    None
                }
            },
        }
    }
}

/// Reads past the members of a nested object, from the first key or the
/// closing brace onward, up to and including the brace.
pub open spec fn spec_skip_object(s: Seq<char>) -> Option<Seq<char>>
    decreases s.len(), 1int,
{
    if s.len() > 0 && s[0] == '}' {
        Some(s.drop_first())
    } else {
        match spec_parse_string(s) {
            None => None,
            Some(kp) => {
                let r2 = spec_skip_ws(kp.1);
                if r2.len() > 0 && r2[0] == ':' {
                    let r3 = spec_skip_ws(r2.drop_first());
                    if r3.len() < s.len() {
                        match spec_skip_value(r3) {
                            None => None,
                            Some(r4) => {
                                let r5 = spec_skip_ws(r4);
                                if r5.len() > 0 && r5[0] == ',' {
                                    let r6 = spec_skip_ws(r5.drop_first());
                                    if r6.len() > 0 && r6[0] != '}' && r6.len() < s.len() {
                                        spec_skip_object(r6)
                                    } else {
                                        None
                                    }
                                } else if r5.len() > 0 && r5[0] == '}' {
                                    Some(r5.drop_first())
                                } else {
                                    None
                                }
                            },
                        }
                    } else {
                        None
                    }
                } else {
                    None
                }
            },
        }
    }
}

/// Reads a member value from the front of `s`: a string or a boolean as
/// itself, any other well-formed JSON value as `Other`.
pub open spec fn spec_value(s: Seq<char>) -> Option<(ScalarView, Seq<char>)> {
    if s.len() > 0 && s[0] == '"' {
        match spec_string_body(s.drop_first()) {
            Some(p) => Some((ScalarView::Text(p.0), p.1)),
            None => None,
        }
    } else if s.len() >= 4 && s[0] == 't' && s[1] == 'r' && s[2] == 'u' && s[3] == 'e' {
        Some((ScalarView::Flag(true), s.skip(4)))
    } else if s.len() >= 5 && s[0] == 'f' && s[1] == 'a' && s[2] == 'l' && s[3] == 's' && s[4]
        == 'e' {
        Some((ScalarView::Flag(false), s.skip(5)))
    } else {
        match spec_skip_value(s) {
            Some(r) => Some((ScalarView::Other, r)),
            None => None,
        }
    }
}

/// The settings read so far: each field is present once its member has been
/// seen, and is defaulted at the end when it never was.
#[verifier::ext_equal]
pub ghost struct PartialView {
    pub url: Option<Seq<char>>,
    pub autostart: Option<bool>,
    pub start_minimized: Option<bool>,
}

/// No member seen yet.
pub open spec fn spec_empty_partial() -> PartialView {
    PartialView { url: None, autostart: None, start_minimized: None }
}

/// Records one member: a known key demands its documented value shape and
/// may occur only once; an unknown key changes nothing, however often it
/// occurs.
pub open spec fn spec_apply_member(acc: PartialView, key: Seq<char>, v: ScalarView) -> Option<
    PartialView,
> {
    if key == "url"@ {
        match v {
            ScalarView::Text(u) => if acc.url is None {
                Some(PartialView { url: Some(u), ..acc })
            } else {
                None
            },
            _ => None,
        }
    } else if key == "autostart"@ {
        match v {
            ScalarView::Flag(b) => if acc.autostart is None {
                Some(PartialView { autostart: Some(b), ..acc })
            } else {
                None
            },
            _ => None,
        }
    } else if key == "start_minimized"@ {
        match v {
            ScalarView::Flag(b) => if acc.start_minimized is None {
                Some(PartialView { start_minimized: Some(b), ..acc })
            } else {
                None
            },
            _ => None,
        }
    } else {
        Some(acc)
    }
}

/// Reads the members of an object from the first key onward, up to and
/// including the closing brace: the recorded settings and the remainder
/// after the brace. Each member strictly consumes input, so the recursion
/// stops; a step that consumed nothing could not be a member at all.
pub open spec fn spec_members(s: Seq<char>, acc: PartialView) -> Option<(PartialView, Seq<char>)>
    decreases s.len(),
{
    match spec_parse_string(s) {
        None => None,
        Some(kp) => {
            let r2 = spec_skip_ws(kp.1);
            if r2.len() > 0 && r2[0] == ':' {
                let r3 = spec_skip_ws(r2.drop_first());
                match spec_value(r3) {
                    None => None,
                    Some(vp) => match spec_apply_member(acc, kp.0, vp.0) {
                        None => None,
                        Some(acc2) => {
                            let r5 = spec_skip_ws(vp.1);
                            if r5.len() > 0 && r5[0] == ',' {
                                let r6 = spec_skip_ws(r5.drop_first());
                                if r6.len() < s.len() {
                                    spec_members(r6, acc2)
                                } else {
                                    None
                                }
                            } else if r5.len() > 0 && r5[0] == '}' {
                                Some((acc2, r5.drop_first()))
                            } else {
                                None
                            }
                        },
                    },
                }
            } else {
                None
            }
        },
    }
}

/// Reads a whole document: one object and nothing but whitespace around it.
pub open spec fn spec_parse_partial(s: Seq<char>) -> Option<PartialView> {
    let r0 = spec_skip_ws(s);
    if r0.len() > 0 && r0[0] == '{' {
        let r1 = spec_skip_ws(r0.drop_first());
        if r1.len() > 0 && r1[0] == '}' {
            if spec_skip_ws(r1.drop_first()).len() == 0 {
                Some(spec_empty_partial())
            } else {
                None
            }
        } else {
            match spec_members(r1, spec_empty_partial()) {
                Some(p) => if spec_skip_ws(p.1).len() == 0 {
                    Some(p.0)
                } else {
                    None
                },
                None => None,
            }
        }
    } else {
        None
    }
}

/// Fills every member the document never specified with its default; an
/// empty url is no valid address and falls back to the default one, so the
/// result always carries a non-empty url.
pub open spec fn spec_fill_defaults(p: PartialView) -> ConfigView {
    ConfigView {
        url: match p.url {
            Some(u) => if u.len() == 0 {
                spec_default_url()
            } else {
                u
            },
            None => spec_default_url(),
        },
        autostart: match p.autostart {
            Some(b) => b,
            None => true,
        },
        start_minimized: match p.start_minimized {
            Some(b) => b,
            None => true,
        },
    }
}

/// The configuration a document stands for, when it parses at all.
pub open spec fn spec_parse_config(s: Seq<char>) -> Option<ConfigView> {
    match spec_parse_partial(s) {
        Some(p) => Some(spec_fill_defaults(p)),
        None => None,
    }
}

// ---------------------------------------------------------------------------
// The rendered form.
// ---------------------------------------------------------------------------

/// The lowercase hexadecimal digit for `n`.
pub open spec fn hex_digit_char(n: int) -> char {
    if n == 0 {
        '0'
    } else if n == 1 {
        '1'
    } else if n == 2 {
        '2'
    } else if n == 3 {
        '3'
    } else if n == 4 {
        '4'
    } else if n == 5 {
        '5'
    } else if n == 6 {
        '6'
    } else if n == 7 {
        '7'
    } else if n == 8 {
        '8'
    } else if n == 9 {
        '9'
    } else if n == 10 {
        'a'
    } else if n == 11 {
        'b'
    } else if n == 12 {
        'c'
    } else if n == 13 {
        'd'
    } else if n == 14 {
        'e'
    } else {
        'f'
    }
}

/// How one character of a string value is written: quote and backslash are
/// escaped, a control character takes its short escape or `\u00XX`, and
/// everything else stands as itself.
pub open spec fn spec_escape_char(c: char) -> Seq<char> {
    if c == '"' {
        seq!['\\', '"']
    } else if c == '\\' {
        seq!['\\', '\\']
    } else if c == '\u{0008}' {
        seq!['\\', 'b']
    } else if c == '\u{000C}' {
        seq!['\\', 'f']
    } else if c == '\n' {
        seq!['\\', 'n']
    } else if c == '\r' {
        seq!['\\', 'r']
    } else if c == '\t' {
        seq!['\\', 't']
    } else if char_code(c) < 0x20 {
        seq![
            '\\',
            'u',
            '0',
            '0',
            hex_digit_char(char_code(c) / 16),
            hex_digit_char(char_code(c) % 16),
        ]
    } else {
        seq![c]
    }
}

/// How a whole string value is written, without its quotes.
pub open spec fn spec_escape(s: Seq<char>) -> Seq<char>
    decreases s.len(),
{
    if s.len() == 0 {
        Seq::empty()
    } else {
        spec_escape_char(s[0]) + spec_escape(s.drop_first())
    }
}

/// How a boolean value is written.
pub open spec fn spec_bool_chars(b: bool) -> Seq<char> {
    if b {
        "true"@
    } else {
        "false"@
    }
}

/// The canonical pretty form of a configuration: all three members, in a
/// fixed order, with two-space indentation.
pub open spec fn spec_render(v: ConfigView) -> Seq<char> {
    "{\n  \"url\": \""@ + spec_escape(v.url) + "\",\n  \"autostart\": "@ + spec_bool_chars(
        v.autostart,
    ) + ",\n  \"start_minimized\": "@ + spec_bool_chars(v.start_minimized) + "\n}"@
}

// ---------------------------------------------------------------------------
// The executable parser.
// ---------------------------------------------------------------------------

/// The suffix of `s` from position `i` on: what an index into the parser's
/// input stands for in the grammar.
pub open spec fn suffix_from(s: Seq<char>, i: int) -> Seq<char> {
    s.subrange(i, s.len() as int)
}

fn is_ws_char(c: char) -> (b: bool)
    ensures
        b == is_ws(c),
{
    c == ' ' || c == '\t' || c == '\n' || c == '\r'
}

fn unescape_char(c: char) -> (r: Option<char>)
    ensures
        r == spec_unescape(c),
{
    if c == '"' {
        Some('"')
    } else if c == '\\' {
        Some('\\')
    } else if c == '/' {
        Some('/')
    } else if c == 'n' {
        Some('\n')
    } else if c == 'r' {
        Some('\r')
    } else if c == 't' {
        Some('\t')
    } else if c == 'b' {
        Some('\u{0008}')
    } else if c == 'f' {
        Some('\u{000C}')
    } else {
        None
    }
}

/// The characters of `s`, in order.
fn str_to_chars(s: &str) -> (r: Vec<char>)
    ensures
        r@ == s@,
{
    let n = s.unicode_len();
    let mut v: Vec<char> = Vec::new();
    let mut k: usize = 0;
    while k < n
        invariant
            k <= n,
            n == s@.len(),
            v@ == s@.take(k as int),
        decreases n - k,
    {
        let c = s.get_char(k);
        v.push(c);
        proof {
            assert(v@ =~= s@.take((k + 1) as int));
        }
        k = k + 1;
    }
    proof {
        assert(s@.take(n as int) =~= s@);
    }
    v
}

/// Relies on `String::from_iter` over characters: the collected string holds
/// exactly the characters of the vector, in order.
#[verifier::external_body]
pub(crate) fn chars_to_string(v: &Vec<char>) -> (r: String)
    ensures
        r@ == v@,
{
    v.iter().collect()
}

/// Appends the characters of `s` to `out`.
fn push_str_chars(out: &mut Vec<char>, s: &str)
    ensures
        final(out)@ == old(out)@ + s@,
{
    let n = s.unicode_len();
    let mut k: usize = 0;
    while k < n
        invariant
            k <= n,
            n == s@.len(),
            out@ == old(out)@ + s@.take(k as int),
        decreases n - k,
    {
        let c = s.get_char(k);
        out.push(c);
        proof {
            assert(out@ =~= old(out)@ + s@.take((k + 1) as int));
        }
        k = k + 1;
    }
    proof {
        assert(old(out)@ + s@.take(n as int) =~= old(out)@ + s@);
    }
}

/// Whether the characters of `v` spell exactly `s`.
fn chars_eq_str(v: &Vec<char>, s: &str) -> (b: bool)
    ensures
        b == (v@ == s@),
{
    let n = s.unicode_len();
    if v.len() != n {
        return false;
    }
    let mut k: usize = 0;
    while k < n
        invariant
            k <= n,
            n == s@.len(),
            v@.len() == n,
            forall|m: int| 0 <= m < k ==> v@[m] == s@[m],
        decreases n - k,
    {
        let a = v[k];
        let b = s.get_char(k);
        if a != b {
            return false;
        }
        k = k + 1;
    }
    proof {
        assert(v@ =~= s@);
    }
    true
}

/// The position after the leading whitespace from position `i` on.
fn skip_ws_at(s: &Vec<char>, i: usize) -> (r: usize)
    requires
        i <= s@.len(),
    ensures
        i <= r <= s@.len(),
        suffix_from(s@, r as int) == spec_skip_ws(suffix_from(s@, i as int)),
    decreases s@.len() - i,
{
    let mut j: usize = i;
    while j < s.len() && is_ws_char(s[j])
        invariant
            i <= j <= s@.len(),
            spec_skip_ws(suffix_from(s@, i as int)) == spec_skip_ws(suffix_from(s@, j as int)),
        decreases s@.len() - j,
    {
        proof {
            assert(suffix_from(s@, j as int)[0] == s@[j as int]);
            assert(suffix_from(s@, j as int).drop_first() =~= suffix_from(s@, (j + 1) as int));
        }
        j = j + 1;
    }
    proof {
        if j < s@.len() {
            assert(suffix_from(s@, j as int)[0] == s@[j as int]);
        }
        assert(spec_skip_ws(suffix_from(s@, j as int)) == suffix_from(s@, j as int));
    }
    j
}

/// Reads a quoted string starting at position `i`: its decoded contents and
/// the position after the closing quote.
#[verifier::rlimit(60)]
#[verifier::spinoff_prover]
fn parse_string_at(s: &Vec<char>, i: usize) -> (r: Option<(Vec<char>, usize)>)
    requires
        i <= s@.len(),
    ensures
        match r {
            Some(p) => {
                &&& i + 2 <= p.1 <= s@.len()
                &&& spec_parse_string(suffix_from(s@, i as int)) == Some(
                    (p.0@, suffix_from(s@, p.1 as int)),
                )
            },
            None => spec_parse_string(suffix_from(s@, i as int)) is None,
        },
{
    if !(i < s.len() && s[i] == '"') {
        proof {
            if suffix_from(s@, i as int).len() > 0 {
                assert(suffix_from(s@, i as int)[0] == s@[i as int]);
            }
        }
        return None;
    }
    proof {
        assert(suffix_from(s@, i as int)[0] == '"');
        assert(suffix_from(s@, i as int).drop_first() =~= suffix_from(s@, (i + 1) as int));
    }
    let mut acc: Vec<char> = Vec::new();
    let mut j: usize = i + 1;
    while j < s.len()
        invariant
            i + 1 <= j <= s@.len(),
            i < s@.len(),
            spec_parse_string(suffix_from(s@, i as int)) == spec_string_body(
                suffix_from(s@, (i + 1) as int),
            ),
            ({
                let whole = spec_string_body(suffix_from(s@, (i + 1) as int));
                match spec_string_body(suffix_from(s@, j as int)) {
                    Some(p) => whole == Some((acc@ + p.0, p.1)),
                    None => whole is None,
                }
            }),
        decreases s@.len() - j,
    {
        let c = s[j];
        proof {
            assert(suffix_from(s@, j as int)[0] == c);
        }
        if c == '"' {
            proof {
                assert(suffix_from(s@, j as int).drop_first() =~= suffix_from(
                    s@,
                    (j + 1) as int,
                ));
                assert(acc@ + Seq::<char>::empty() =~= acc@);
            }
            return Some((acc, j + 1));
        } else if c == '\\' {
            if j + 1 == s.len() {
                proof {
                    assert(suffix_from(s@, j as int).len() == 1);
                }
                return None;
            }
            let e = s[j + 1];
            proof {
                assert(suffix_from(s@, j as int)[1] == e);
            }
            if e == 'u' {
                proof {
                    assert(suffix_from(s@, j as int).skip(2) =~= suffix_from(
                        s@,
                        (j + 2) as int,
                    ));
                }
                match parse_unicode_at(s, j + 2) {
                    Some(p) => {
                        let (w, jn) = p;
                        proof {
                            assert(suffix_from(s@, jn as int).len() < suffix_from(
                                s@,
                                j as int,
                            ).len());
                        }
                        let ghost acc0 = acc@;
                        acc.push(w);
                        proof {
                            match spec_string_body(suffix_from(s@, jn as int)) {
                                Some(p2) => {
                                    assert(acc0 + (seq![w] + p2.0) =~= acc@ + p2.0);
                                },
                                None => {},
                            }
                        }
                        j = jn;
                        continue;
                    },
                    None => {
                        return None;
                    },
                }
            }
            match unescape_char(e) {
                Some(u) => {
                    proof {
                        assert(suffix_from(s@, j as int).skip(2) =~= suffix_from(
                            s@,
                            (j + 2) as int,
                        ));
                    }
                    let ghost acc0 = acc@;
                    acc.push(u);
                    proof {
                        match spec_string_body(suffix_from(s@, (j + 2) as int)) {
                            Some(p) => {
                                assert(acc0 + (seq![u] + p.0) =~= acc@ + p.0);
                            },
                            None => {},
                        }
                    }
                    j = j + 2;
                },
                None => {
                    return None;
                },
            }
        } else {
            let n: u32 = c as u32;
            proof {
                lemma_char_code_bounds(c);
                assert(char_code(c) == n as int);
            }
            if n < 0x20 {
                return None;
            }
            proof {
                assert(suffix_from(s@, j as int).drop_first() =~= suffix_from(s@, (j + 1) as int));
            }
            let ghost acc0 = acc@;
            acc.push(c);
            proof {
                match spec_string_body(suffix_from(s@, (j + 1) as int)) {
                    Some(p) => {
                        assert(acc0 + (seq![c] + p.0) =~= acc@ + p.0);
                    },
                    None => {},
                }
            }
            j = j + 1;
        }
    }
    proof {
        assert(suffix_from(s@, j as int).len() == 0);
    }
    None
}

/// A parsed member value.
enum JsonScalar {
    Text(Vec<char>),
    Flag(bool),
    Other,
}

impl View for JsonScalar {
    type V = ScalarView;

    closed spec fn view(&self) -> ScalarView {
        match self {
            JsonScalar::Text(u) => ScalarView::Text(u@),
            JsonScalar::Flag(b) => ScalarView::Flag(*b),
            JsonScalar::Other => ScalarView::Other,
        }
    }
}

/// Relies on `char::from_u32`: the character with code point `v` when `v`
/// is a Unicode scalar value, and nothing when `v` is a surrogate or lies
/// beyond the last plane.
#[verifier::external_body]
fn char_from_code(v: u32) -> (r: Option<char>)
    ensures
        match r {
            Some(c) => char_code(c) == v as int,
            None => !is_scalar_code(v as int),
        },
        is_scalar_code(v as int) ==> r is Some,
{
    char::from_u32(v)
}

fn is_digit_char(c: char) -> (b: bool)
    ensures
        b == is_digit(c),
{
    let n: u32 = c as u32;
    48 <= n && n <= 57
}

fn hex_char_val(c: char) -> (r: Option<u32>)
    ensures
        match r {
            Some(v) => is_hex_digit(c) && v as int == hex_val(c) && v < 16,
            None => !is_hex_digit(c),
        },
{
    let n: u32 = c as u32;
    if 48 <= n && n <= 57 {
        Some(n - 48)
    } else if 97 <= n && n <= 102 {
        Some(n - 87)
    } else if 65 <= n && n <= 70 {
        Some(n - 55)
    } else {
        None
    }
}

/// Reads four hexadecimal digits starting at position `i`.
fn hex4_at(s: &Vec<char>, i: usize) -> (r: Option<(u32, usize)>)
    requires
        i <= s@.len(),
    ensures
        match r {
            Some(p) => {
                &&& p.1 == i + 4
                &&& p.1 <= s@.len()
                &&& p.0 < 0x10000
                &&& spec_hex4(suffix_from(s@, i as int)) == Some(
                    (p.0 as int, suffix_from(s@, p.1 as int)),
                )
            },
            None => spec_hex4(suffix_from(s@, i as int)) is None,
        },
{
    reveal(spec_hex4);
    let ghost suf = suffix_from(s@, i as int);
    proof {
        assert(forall|m: int| 0 <= m < suf.len() ==> suf[m] == s@[i + m]);
    }
    if s.len() - i < 4 {
        return None;
    }
    let a = hex_char_val(s[i]);
    let b = hex_char_val(s[i + 1]);
    let c = hex_char_val(s[i + 2]);
    let d = hex_char_val(s[i + 3]);
    match (a, b, c, d) {
        (Some(va), Some(vb), Some(vc), Some(vd)) => {
            let v: u32 = 4096 * va + 256 * vb + 16 * vc + vd;
            proof {
                assert(suf.skip(4) =~= suffix_from(s@, (i + 4) as int));
            }
            Some((v, i + 4))
        },
        _ => None,
    }
}

/// Reads what follows `\u` in a string, starting at position `i`.
fn parse_unicode_at(s: &Vec<char>, i: usize) -> (r: Option<(char, usize)>)
    requires
        i <= s@.len(),
    ensures
        match r {
            Some(p) => {
                &&& i + 4 <= p.1 <= s@.len()
                &&& spec_unicode_escape(suffix_from(s@, i as int)) == Some(
                    (p.0, suffix_from(s@, p.1 as int)),
                )
            },
            None => spec_unicode_escape(suffix_from(s@, i as int)) is None,
        },
{
    reveal(spec_unicode_escape);
    match hex4_at(s, i) {
        None => None,
        Some(h) => {
            let (n, j) = h;
            if n < 0xD800 || n >= 0xE000 {
                match char_from_code(n) {
                    Some(c) => {
                        proof {
                            assert(exists|x: char| char_code(x) == n as int) by {
                                assert(char_code(c) == n as int);
                            }
                            assert(code_char(n as int) == c);
                        }
                        Some((c, j))
                    },
                    None => {
                        proof {
                            assert(false);
                        }
                        None
                    },
                }
            } else if n < 0xDC00 {
                let ghost rsuf = suffix_from(s@, j as int);
                proof {
                    assert(forall|m: int| 0 <= m < rsuf.len() ==> rsuf[m] == s@[j + m]);
                }
                if s.len() - j >= 2 && s[j] == '\\' && s[j + 1] == 'u' {
                    proof {
                        assert(rsuf.skip(2) =~= suffix_from(s@, (j + 2) as int));
                    }
                    match hex4_at(s, j + 2) {
                        None => None,
                        Some(h2) => {
                            let (n2, j2) = h2;
                            if 0xDC00 <= n2 && n2 < 0xE000 {
                                let code: u32 = 0x10000 + (n - 0xD800) * 0x400 + (n2 - 0xDC00);
                                match char_from_code(code) {
                                    Some(c) => {
                                        proof {
                                            assert(exists|x: char| char_code(x) == code as int)
                                                by {
                                                assert(char_code(c) == code as int);
                                            }
                                            assert(code_char(code as int) == c);
                                        }
                                        Some((c, j2))
                                    },
                                    None => {
                                        proof {
                                            assert(false);
                                        }
                                        None
                                    },
                                }
                            } else {
                                None
                            }
                        },
                    }
                } else {
                    None
                }
            } else {
                None
            }
        },
    }
}

/// The position after the leading decimal digits from position `i` on.
fn skip_digits_at(s: &Vec<char>, i: usize) -> (r: usize)
    requires
        i <= s@.len(),
    ensures
        i <= r <= s@.len(),
        suffix_from(s@, r as int) == spec_skip_digits(suffix_from(s@, i as int)),
        i < s@.len() && is_digit(s@[i as int]) ==> r > i,
{
    reveal(spec_skip_digits);
    let mut j: usize = i;
    while j < s.len() && is_digit_char(s[j])
        invariant
            i <= j <= s@.len(),
            spec_skip_digits(suffix_from(s@, i as int)) == spec_skip_digits(
                suffix_from(s@, j as int),
            ),
        decreases s@.len() - j,
    {
        reveal(spec_skip_digits);
        proof {
            assert(suffix_from(s@, j as int)[0] == s@[j as int]);
            assert(suffix_from(s@, j as int).drop_first() =~= suffix_from(s@, (j + 1) as int));
        }
        j = j + 1;
    }
    proof {
        if j < s@.len() {
            assert(suffix_from(s@, j as int)[0] == s@[j as int]);
        }
        assert(spec_skip_digits(suffix_from(s@, j as int)) == suffix_from(s@, j as int));
    }
    j
}

/// Reads a number's optional exponent starting at position `i`.
fn number_exp_at(s: &Vec<char>, i: usize) -> (r: Option<usize>)
    requires
        i <= s@.len(),
    ensures
        match r {
            Some(j) => i <= j <= s@.len() && spec_number_exp(suffix_from(s@, i as int)) == Some(
                suffix_from(s@, j as int),
            ),
            None => spec_number_exp(suffix_from(s@, i as int)) is None,
        },
{
    reveal(spec_number_exp);
    let ghost suf = suffix_from(s@, i as int);
    proof {
        assert(forall|m: int| 0 <= m < suf.len() ==> suf[m] == s@[i + m]);
    }
    if i < s.len() && (s[i] == 'e' || s[i] == 'E') {
        proof {
            assert(suf.drop_first() =~= suffix_from(s@, (i + 1) as int));
        }
        let mut j: usize = i + 1;
        let ghost d1 = suffix_from(s@, j as int);
        proof {
            assert(forall|m: int| 0 <= m < d1.len() ==> d1[m] == s@[j + m]);
        }
        if j < s.len() && (s[j] == '+' || s[j] == '-') {
            proof {
                assert(d1.drop_first() =~= suffix_from(s@, (j + 1) as int));
            }
            j = j + 1;
        }
        let ghost d2 = suffix_from(s@, j as int);
        proof {
            assert(forall|m: int| 0 <= m < d2.len() ==> d2[m] == s@[j + m]);
        }
        if j < s.len() && is_digit_char(s[j]) {
            Some(skip_digits_at(s, j))
        } else {
            None
        }
    } else {
        Some(i)
    }
}

/// Reads a number's optional fraction, then exponent, starting at `i`.
fn number_frac_at(s: &Vec<char>, i: usize) -> (r: Option<usize>)
    requires
        i <= s@.len(),
    ensures
        match r {
            Some(j) => i <= j <= s@.len() && spec_number_frac(suffix_from(s@, i as int)) == Some(
                suffix_from(s@, j as int),
            ),
            None => spec_number_frac(suffix_from(s@, i as int)) is None,
        },
{
    reveal(spec_number_frac);
    let ghost suf = suffix_from(s@, i as int);
    proof {
        assert(forall|m: int| 0 <= m < suf.len() ==> suf[m] == s@[i + m]);
    }
    if i < s.len() && s[i] == '.' {
        proof {
            assert(suf.drop_first() =~= suffix_from(s@, (i + 1) as int));
        }
        let j = i + 1;
        let ghost d = suffix_from(s@, j as int);
        proof {
            assert(forall|m: int| 0 <= m < d.len() ==> d[m] == s@[j + m]);
        }
        if j < s.len() && is_digit_char(s[j]) {
            let k = skip_digits_at(s, j);
            number_exp_at(s, k)
        } else {
            None
        }
    } else {
        number_exp_at(s, i)
    }
}

/// Reads a JSON number starting at position `i`.
fn number_at(s: &Vec<char>, i: usize) -> (r: Option<usize>)
    requires
        i <= s@.len(),
    ensures
        match r {
            Some(j) => i < j <= s@.len() && spec_number(suffix_from(s@, i as int)) == Some(
                suffix_from(s@, j as int),
            ),
            None => spec_number(suffix_from(s@, i as int)) is None,
        },
{
    reveal(spec_number);
    let ghost suf = suffix_from(s@, i as int);
    proof {
        assert(forall|m: int| 0 <= m < suf.len() ==> suf[m] == s@[i + m]);
    }
    let mut j: usize = i;
    if j < s.len() && s[j] == '-' {
        proof {
            assert(suf.drop_first() =~= suffix_from(s@, (i + 1) as int));
        }
        j = j + 1;
    }
    let ghost s1 = suffix_from(s@, j as int);
    proof {
        assert(forall|m: int| 0 <= m < s1.len() ==> s1[m] == s@[j + m]);
    }
    if j < s.len() && s[j] == '0' {
        proof {
            assert(s1.drop_first() =~= suffix_from(s@, (j + 1) as int));
        }
        number_frac_at(s, j + 1)
    } else if j < s.len() && is_digit_char(s[j]) {
        let k = skip_digits_at(s, j);
        number_frac_at(s, k)
    } else {
        None
    }
}

/// The settings read so far.
struct PartialConfig {
    url: Option<Vec<char>>,
    autostart: Option<bool>,
    start_minimized: Option<bool>,
}

impl View for PartialConfig {
    type V = PartialView;

    closed spec fn view(&self) -> PartialView {
        PartialView {
            url: match self.url {
                Some(u) => Some(u@),
                None => None,
            },
            autostart: self.autostart,
            start_minimized: self.start_minimized,
        }
    }
}

/// Reads a scalar value starting at position `i`.
fn parse_value_at(s: &Vec<char>, i: usize) -> (r: Option<(JsonScalar, usize)>)
    requires
        i <= s@.len(),
    ensures
        match r {
            Some(p) => {
                &&& i < p.1 <= s@.len()
                &&& spec_value(suffix_from(s@, i as int)) == Some(
                    (p.0@, suffix_from(s@, p.1 as int)),
                )
            },
            None => spec_value(suffix_from(s@, i as int)) is None,
        },
{
    let ghost suf = suffix_from(s@, i as int);
    proof {
        assert(suf.len() == s@.len() - i);
        assert(forall|m: int| 0 <= m < suf.len() ==> suf[m] == s@[i + m]);
    }
    let rem = s.len() - i;
    if i < s.len() && s[i] == '"' {
        match parse_string_at(s, i) {
            Some(p) => {
                let (t, j) = p;
                proof {
                    assert(spec_value(suf) == Some(
                        (ScalarView::Text(t@), suffix_from(s@, j as int)),
                    ));
                }
                Some((JsonScalar::Text(t), j))
            },
            None => None,
        }
    } else if rem >= 4 && s[i] == 't' && s[i + 1] == 'r' && s[i + 2] == 'u' && s[i + 3]
        == 'e' {
        proof {
            assert(suf.skip(4) =~= suffix_from(s@, (i + 4) as int));
        }
        Some((JsonScalar::Flag(true), i + 4))
    } else if rem >= 5 && s[i] == 'f' && s[i + 1] == 'a' && s[i + 2] == 'l' && s[i + 3]
        == 's' && s[i + 4] == 'e' {
        proof {
            assert(suf.skip(5) =~= suffix_from(s@, (i + 5) as int));
        }
        Some((JsonScalar::Flag(false), i + 5))
    } else {
        match skip_value_at(s, i) {
            Some(j) => Some((JsonScalar::Other, j)),
            None => None,
        }
    }
}

/// Reads past one well-formed JSON value starting at position `i`.
fn skip_value_at(s: &Vec<char>, i: usize) -> (r: Option<usize>)
    requires
        i <= s@.len(),
    ensures
        match r {
            Some(j) => i < j <= s@.len() && spec_skip_value(suffix_from(s@, i as int)) == Some(
                suffix_from(s@, j as int),
            ),
            None => spec_skip_value(suffix_from(s@, i as int)) is None,
        },
    decreases s@.len() - i, 0int,
{
    let ghost suf = suffix_from(s@, i as int);
    proof {
        assert(forall|m: int| 0 <= m < suf.len() ==> suf[m] == s@[i + m]);
    }
    let rem = s.len() - i;
    if rem == 0 {
        return None;
    }
    let c = s[i];
    if c == '"' {
        proof {
            assert(suf.drop_first() =~= suffix_from(s@, (i + 1) as int));
        }
        match parse_string_at(s, i) {
            Some(p) => Some(p.1),
            None => None,
        }
    } else if rem >= 4 && c == 't' && s[i + 1] == 'r' && s[i + 2] == 'u' && s[i + 3] == 'e' {
        proof {
            assert(suf.skip(4) =~= suffix_from(s@, (i + 4) as int));
        }
        Some(i + 4)
    } else if rem >= 5 && c == 'f' && s[i + 1] == 'a' && s[i + 2] == 'l' && s[i + 3] == 's' && s[i
        + 4] == 'e' {
        proof {
            assert(suf.skip(5) =~= suffix_from(s@, (i + 5) as int));
        }
        Some(i + 5)
    } else if rem >= 4 && c == 'n' && s[i + 1] == 'u' && s[i + 2] == 'l' && s[i + 3] == 'l' {
        proof {
            assert(suf.skip(4) =~= suffix_from(s@, (i + 4) as int));
        }
        Some(i + 4)
    } else if c == '-' || is_digit_char(c) {
        number_at(s, i)
    } else if c == '[' {
        proof {
            assert(suf.drop_first() =~= suffix_from(s@, (i + 1) as int));
        }
        let j1 = skip_ws_at(s, i + 1);
        proof {
            assert(suffix_from(s@, j1 as int).len() < suf.len());
        }
        skip_array_at(s, j1)
    } else if c == '{' {
        proof {
            assert(suf.drop_first() =~= suffix_from(s@, (i + 1) as int));
        }
        let j1 = skip_ws_at(s, i + 1);
        proof {
            assert(suffix_from(s@, j1 as int).len() < suf.len());
        }
        skip_object_at(s, j1)
    } else {
        None
    }
}

/// Reads past an array's items starting at position `i`, up to and
/// including the closing bracket.
fn skip_array_at(s: &Vec<char>, i: usize) -> (r: Option<usize>)
    requires
        i <= s@.len(),
    ensures
        match r {
            Some(j) => i < j <= s@.len() && spec_skip_array(suffix_from(s@, i as int)) == Some(
                suffix_from(s@, j as int),
            ),
            None => spec_skip_array(suffix_from(s@, i as int)) is None,
        },
    decreases s@.len() - i, 1int,
{
    let ghost suf = suffix_from(s@, i as int);
    proof {
        assert(forall|m: int| 0 <= m < suf.len() ==> suf[m] == s@[i + m]);
    }
    if i < s.len() && s[i] == ']' {
        proof {
            assert(suf.drop_first() =~= suffix_from(s@, (i + 1) as int));
        }
        return Some(i + 1);
    }
    match skip_value_at(s, i) {
        None => None,
        Some(j1) => {
            let j2 = skip_ws_at(s, j1);
            let ghost r2 = suffix_from(s@, j2 as int);
            if j2 < s.len() && s[j2] == ',' {
                proof {
                    assert(r2[0] == s@[j2 as int]);
                    assert(r2.drop_first() =~= suffix_from(s@, (j2 + 1) as int));
                }
                let j3 = skip_ws_at(s, j2 + 1);
                let ghost r3 = suffix_from(s@, j3 as int);
                proof {
                    if r3.len() > 0 {
                        assert(r3[0] == s@[j3 as int]);
                    }
                    assert(r3.len() < suf.len());
                }
                if j3 < s.len() && s[j3] != ']' {
                    skip_array_at(s, j3)
                } else {
                    None
                }
            } else if j2 < s.len() && s[j2] == ']' {
                proof {
                    assert(r2[0] == s@[j2 as int]);
                    assert(r2.drop_first() =~= suffix_from(s@, (j2 + 1) as int));
                }
                Some(j2 + 1)
            } else {
                proof {
                    if r2.len() > 0 {
                        assert(r2[0] == s@[j2 as int]);
                    }
                }
                None
            }
        },
    }
}

/// Reads past a nested object's members starting at position `i`, up to and
/// including the closing brace.
fn skip_object_at(s: &Vec<char>, i: usize) -> (r: Option<usize>)
    requires
        i <= s@.len(),
    ensures
        match r {
            Some(j) => i < j <= s@.len() && spec_skip_object(suffix_from(s@, i as int)) == Some(
                suffix_from(s@, j as int),
            ),
            None => spec_skip_object(suffix_from(s@, i as int)) is None,
        },
    decreases s@.len() - i, 1int,
{
    let ghost suf = suffix_from(s@, i as int);
    proof {
        assert(forall|m: int| 0 <= m < suf.len() ==> suf[m] == s@[i + m]);
    }
    if i < s.len() && s[i] == '}' {
        proof {
            assert(suf.drop_first() =~= suffix_from(s@, (i + 1) as int));
        }
        return Some(i + 1);
    }
    match parse_string_at(s, i) {
        None => None,
        Some(kp) => {
            let j1 = kp.1;
            let j2 = skip_ws_at(s, j1);
            let ghost r2 = suffix_from(s@, j2 as int);
            if j2 < s.len() && s[j2] == ':' {
                proof {
                    assert(r2[0] == s@[j2 as int]);
                    assert(r2.drop_first() =~= suffix_from(s@, (j2 + 1) as int));
                }
                let j3 = skip_ws_at(s, j2 + 1);
                proof {
                    assert(suffix_from(s@, j3 as int).len() < suf.len());
                }
                match skip_value_at(s, j3) {
                    None => None,
                    Some(j4) => {
                        let j5 = skip_ws_at(s, j4);
                        let ghost r5 = suffix_from(s@, j5 as int);
                        if j5 < s.len() && s[j5] == ',' {
                            proof {
                                assert(r5[0] == s@[j5 as int]);
                                assert(r5.drop_first() =~= suffix_from(s@, (j5 + 1) as int));
                            }
                            let j6 = skip_ws_at(s, j5 + 1);
                            let ghost r6 = suffix_from(s@, j6 as int);
                            proof {
                                if r6.len() > 0 {
                                    assert(r6[0] == s@[j6 as int]);
                                }
                                assert(r6.len() < suf.len());
                            }
                            if j6 < s.len() && s[j6] != '}' {
                                skip_object_at(s, j6)
                            } else {
                                None
                            }
                        } else if j5 < s.len() && s[j5] == '}' {
                            proof {
                                assert(r5[0] == s@[j5 as int]);
                                assert(r5.drop_first() =~= suffix_from(s@, (j5 + 1) as int));
                            }
                            Some(j5 + 1)
                        } else {
                            proof {
                                if r5.len() > 0 {
                                    assert(r5[0] == s@[j5 as int]);
                                }
                            }
                            None
                        }
                    },
                }
            } else {
                proof {
                    if r2.len() > 0 {
                        assert(r2[0] == s@[j2 as int]);
                    }
                }
                None
            }
        },
    }
}

/// Records one member into the accumulator, as `spec_apply_member` says.
fn apply_member_exec(acc: PartialConfig, key: &Vec<char>, v: JsonScalar) -> (r: Option<
    PartialConfig,
>)
    ensures
        match r {
            Some(p) => spec_apply_member(acc@, key@, v@) == Some(p@),
            None => spec_apply_member(acc@, key@, v@) is None,
        },
{
    if chars_eq_str(key, "url") {
        match v {
            JsonScalar::Text(u) => {
                if acc.url.is_none() {
                    let p = PartialConfig { url: Some(u), ..acc };
                    proof {
                        assert(spec_apply_member(acc@, key@, v@) matches Some(q) && q =~= p@);
                    }
                    Some(p)
                } else {
                    None
                }
            },
            _ => None,
        }
    } else if chars_eq_str(key, "autostart") {
        match v {
            JsonScalar::Flag(b) => {
                if acc.autostart.is_none() {
                    let p = PartialConfig { autostart: Some(b), ..acc };
                    proof {
                        assert(spec_apply_member(acc@, key@, v@) matches Some(q) && q =~= p@);
                    }
                    Some(p)
                } else {
                    None
                }
            },
            _ => None,
        }
    } else if chars_eq_str(key, "start_minimized") {
        match v {
            JsonScalar::Flag(b) => {
                if acc.start_minimized.is_none() {
                    let p = PartialConfig { start_minimized: Some(b), ..acc };
                    proof {
                        assert(spec_apply_member(acc@, key@, v@) matches Some(q) && q =~= p@);
                    }
                    Some(p)
                } else {
                    None
                }
            },
            _ => None,
        }
    } else {
        Some(acc)
    }
}

/// Reads the members of an object from the first key at position `i` up to
/// and including the closing brace.
fn parse_members_at(s: &Vec<char>, i: usize, acc: PartialConfig) -> (r: Option<(
    PartialConfig,
    usize,
)>)
    requires
        i <= s@.len(),
    ensures
        match r {
            Some(p) => {
                &&& i < p.1 <= s@.len()
                &&& spec_members(suffix_from(s@, i as int), acc@) == Some(
                    (p.0@, suffix_from(s@, p.1 as int)),
                )
            },
            None => spec_members(suffix_from(s@, i as int), acc@) is None,
        },
    decreases s@.len() - i,
{
    let ghost s0 = suffix_from(s@, i as int);
    match parse_string_at(s, i) {
        None => None,
        Some(kp) => {
            let (key, j1) = kp;
            let j2 = skip_ws_at(s, j1);
            let ghost r2 = suffix_from(s@, j2 as int);
            if j2 < s.len() && s[j2] == ':' {
                proof {
                    assert(r2[0] == s@[j2 as int]);
                    assert(r2.drop_first() =~= suffix_from(s@, (j2 + 1) as int));
                }
                let j3 = skip_ws_at(s, j2 + 1);
                match parse_value_at(s, j3) {
                    None => None,
                    Some(vp) => {
                        let (v, j4) = vp;
                        let ghost vv = v@;
                        match apply_member_exec(acc, &key, v) {
                            None => None,
                            Some(acc2) => {
                                let j5 = skip_ws_at(s, j4);
                                let ghost r5 = suffix_from(s@, j5 as int);
                                if j5 < s.len() && s[j5] == ',' {
                                    proof {
                                        assert(r5[0] == s@[j5 as int]);
                                        assert(r5.drop_first() =~= suffix_from(
                                            s@,
                                            (j5 + 1) as int,
                                        ));
                                    }
                                    let j6 = skip_ws_at(s, j5 + 1);
                                    proof {
                                        assert(suffix_from(s@, j6 as int).len() < s0.len());
                                    }
                                    parse_members_at(s, j6, acc2)
                                } else if j5 < s.len() && s[j5] == '}' {
                                    proof {
                                        assert(r5[0] == s@[j5 as int]);
                                        assert(r5.drop_first() =~= suffix_from(
                                            s@,
                                            (j5 + 1) as int,
                                        ));
                                    }
                                    Some((acc2, j5 + 1))
                                } else {
                                    proof {
                                        if r5.len() > 0 {
                                            assert(r5[0] == s@[j5 as int]);
                                        }
                                    }
                                    None
                                }
                            },
                        }
                    },
                }
            } else {
                proof {
                    if r2.len() > 0 {
                        assert(r2[0] == s@[j2 as int]);
                    }
                }
                None
            }
        },
    }
}

/// Fills the unseen members with their defaults, as `spec_fill_defaults`
/// says.
fn fill_defaults_exec(p: PartialConfig) -> (c: AppConfig)
    ensures
        c@ == spec_fill_defaults(p@),
{
    let url: String = match p.url {
        Some(u) => if u.len() == 0 {
            default_url()
        } else {
            chars_to_string(&u)
        },
        None => default_url(),
    };
    let autostart: bool = match p.autostart {
        Some(b) => b,
        None => true,
    };
    let start_minimized: bool = match p.start_minimized {
        Some(b) => b,
        None => true,
    };
    let c = AppConfig { url, autostart, start_minimized };
    proof {
        assert(c@ =~= spec_fill_defaults(p@));
    }
    c
}

/// Reads a whole document: the configuration it stands for, with unseen
/// members defaulted, or nothing when the document is not of the expected
/// shape.
pub fn parse_config(s: &str) -> (r: Option<AppConfig>)
    ensures
        match r {
            Some(c) => spec_parse_config(s@) == Some(c@),
            None => spec_parse_config(s@) is None,
        },
{
    let cs = str_to_chars(s);
    proof {
        assert(suffix_from(cs@, 0) =~= s@);
    }
    let i0 = skip_ws_at(&cs, 0);
    let ghost r0 = suffix_from(cs@, i0 as int);
    if !(i0 < cs.len() && cs[i0] == '{') {
        proof {
            if r0.len() > 0 {
                assert(r0[0] == cs@[i0 as int]);
            }
        }
        return None;
    }
    proof {
        assert(r0[0] == cs@[i0 as int]);
        assert(r0.drop_first() =~= suffix_from(cs@, (i0 + 1) as int));
    }
    let i1 = skip_ws_at(&cs, i0 + 1);
    let ghost r1 = suffix_from(cs@, i1 as int);
    if i1 < cs.len() && cs[i1] == '}' {
        proof {
            assert(r1[0] == cs@[i1 as int]);
            assert(r1.drop_first() =~= suffix_from(cs@, (i1 + 1) as int));
        }
        let i2 = skip_ws_at(&cs, i1 + 1);
        if i2 == cs.len() {
            proof {
                assert(suffix_from(cs@, i2 as int).len() == 0);
            }
            let empty_acc = PartialConfig { url: None, autostart: None, start_minimized: None };
            proof {
                assert(empty_acc@ =~= spec_empty_partial());
            }
            return Some(fill_defaults_exec(empty_acc));
        } else {
            proof {
                assert(suffix_from(cs@, i2 as int).len() > 0);
            }
            return None;
        }
    }
    proof {
        if r1.len() > 0 {
            assert(r1[0] == cs@[i1 as int]);
        }
    }
    let empty_acc = PartialConfig { url: None, autostart: None, start_minimized: None };
    proof {
        assert(empty_acc@ =~= spec_empty_partial());
    }
    match parse_members_at(&cs, i1, empty_acc) {
        None => None,
        Some(mp) => {
            let (acc, j) = mp;
            let j2 = skip_ws_at(&cs, j);
            if j2 == cs.len() {
                proof {
                    assert(suffix_from(cs@, j2 as int).len() == 0);
                }
                Some(fill_defaults_exec(acc))
            } else {
                proof {
                    assert(suffix_from(cs@, j2 as int).len() > 0);
                }
                None
            }
        },
    }
}

// ---------------------------------------------------------------------------
// The executable renderer.
// ---------------------------------------------------------------------------

/// Escaping one more character appends that character's escape.
proof fn lemma_escape_snoc(s: Seq<char>, k: int)
    requires
        0 <= k < s.len(),
    ensures
        spec_escape(s.take(k + 1)) == spec_escape(s.take(k)) + spec_escape_char(s[k]),
    decreases k,
{
    if k == 0 {
        assert(s.take(1).drop_first() =~= s.take(0));
        assert(s.take(0) =~= Seq::<char>::empty());
        assert(s.take(1)[0] == s[0]);
        assert(spec_escape(s.take(0)) =~= Seq::<char>::empty());
        assert(spec_escape(s.take(1)) =~= spec_escape_char(s[0]));
        assert(spec_escape(s.take(0)) + spec_escape_char(s[0]) =~= spec_escape_char(s[0]));
    } else {
        lemma_escape_snoc(s.drop_first(), k - 1);
        assert(s.take(k + 1).drop_first() =~= s.drop_first().take(k));
        assert(s.take(k).drop_first() =~= s.drop_first().take(k - 1));
        assert(s.take(k + 1)[0] == s[0]);
        assert(s.take(k)[0] == s[0]);
        assert(s.drop_first()[k - 1] == s[k]);
        assert(spec_escape_char(s[0]) + (spec_escape(s.drop_first().take(k - 1))
            + spec_escape_char(s[k])) =~= (spec_escape_char(s[0]) + spec_escape(
            s.drop_first().take(k - 1),
        )) + spec_escape_char(s[k]));
    }
}

/// The lowercase hexadecimal digit for `n`.
fn hex_digit(n: u32) -> (r: char)
    requires
        n < 16,
    ensures
        r == hex_digit_char(n as int),
{
    if n == 0 {
        '0'
    } else if n == 1 {
        '1'
    } else if n == 2 {
        '2'
    } else if n == 3 {
        '3'
    } else if n == 4 {
        '4'
    } else if n == 5 {
        '5'
    } else if n == 6 {
        '6'
    } else if n == 7 {
        '7'
    } else if n == 8 {
        '8'
    } else if n == 9 {
        '9'
    } else if n == 10 {
        'a'
    } else if n == 11 {
        'b'
    } else if n == 12 {
        'c'
    } else if n == 13 {
        'd'
    } else if n == 14 {
        'e'
    } else {
        'f'
    }
}

/// Appends the escaped form of `u` to `out`.
fn push_escaped(out: &mut Vec<char>, u: &Vec<char>)
    ensures
        final(out)@ == old(out)@ + spec_escape(u@),
{
    let n = u.len();
    let mut k: usize = 0;
    while k < n
        invariant
            k <= n,
            n == u@.len(),
            out@ == old(out)@ + spec_escape(u@.take(k as int)),
        decreases n - k,
    {
        let c = u[k];
        let ghost before = out@;
        if c == '"' {
            out.push('\\');
            out.push('"');
        } else if c == '\\' {
            out.push('\\');
            out.push('\\');
        } else if c == '\u{0008}' {
            out.push('\\');
            out.push('b');
        } else if c == '\u{000C}' {
            out.push('\\');
            out.push('f');
        } else if c == '\n' {
            out.push('\\');
            out.push('n');
        } else if c == '\r' {
            out.push('\\');
            out.push('r');
        } else {
            let n: u32 = c as u32;
            proof {
                lemma_char_code_bounds(c);
                assert(char_code(c) == n as int);
                if n < 0x20 {
                    if n < 16 {
                        assert(n / 16 == 0 && char_code(c) / 16 == 0);
                        assert(n % 16 == n && char_code(c) % 16 == char_code(c));
                    } else {
                        assert(n / 16 == 1 && char_code(c) / 16 == 1);
                        assert(n % 16 == n - 16 && char_code(c) % 16 == char_code(c) - 16);
                    }
                    assert((n / 16) as int == char_code(c) / 16);
                    assert((n % 16) as int == char_code(c) % 16);
                }
            }
            if c == '\t' {
                out.push('\\');
                out.push('t');
            } else if n < 0x20 {
                out.push('\\');
                out.push('u');
                out.push('0');
                out.push('0');
                out.push(hex_digit(n / 16));
                out.push(hex_digit(n % 16));
            } else {
                out.push(c);
            }
        }
        proof {
            lemma_escape_snoc(u@, k as int);
            assert(out@ =~= before + spec_escape_char(u@[k as int]));
            assert(out@ =~= old(out)@ + spec_escape(u@.take((k + 1) as int)));
        }
        k = k + 1;
    }
    proof {
        assert(u@.take(n as int) =~= u@);
    }
}

/// Writes the canonical pretty form of a configuration, exactly
/// `spec_render` of its value.
pub fn render_config(c: &AppConfig) -> (r: String)
    ensures
        r@ == spec_render(c@),
{
    let mut out: Vec<char> = Vec::new();
    push_str_chars(&mut out, "{\n  \"url\": \"");
    let uv = str_to_chars(c.url.as_str());
    push_escaped(&mut out, &uv);
    push_str_chars(&mut out, "\",\n  \"autostart\": ");
    let ghost mid1 = out@;
    if c.autostart {
        push_str_chars(&mut out, "true");
    } else {
        push_str_chars(&mut out, "false");
    }
    proof {
        assert(out@ == mid1 + spec_bool_chars(c@.autostart));
    }
    push_str_chars(&mut out, ",\n  \"start_minimized\": ");
    let ghost mid2 = out@;
    if c.start_minimized {
        push_str_chars(&mut out, "true");
    } else {
        push_str_chars(&mut out, "false");
    }
    proof {
        assert(out@ == mid2 + spec_bool_chars(c@.start_minimized));
    }
    push_str_chars(&mut out, "\n}");
    proof {
        assert(out@ =~= spec_render(c@));
    }
    chars_to_string(&out)
}

// ---------------------------------------------------------------------------
// The round trip: a rendered configuration parses back to itself.
// ---------------------------------------------------------------------------

/// Whitespace skipping stops at a non-whitespace head or at the end.
proof fn lemma_skip_ws_stop(s: Seq<char>)
    requires
        s.len() == 0 || !is_ws(s[0]),
    ensures
        spec_skip_ws(s) == s,
{
}

/// Whitespace skipping consumes a whitespace head.
proof fn lemma_skip_ws_step(s: Seq<char>)
    requires
        s.len() > 0,
        is_ws(s[0]),
    ensures
        spec_skip_ws(s) == spec_skip_ws(s.drop_first()),
{
}

/// A string without quotes, backslashes or control characters escapes to
/// itself.
proof fn lemma_escape_plain(s: Seq<char>)
    requires
        forall|i: int|
            0 <= i < s.len() ==> s[i] != '"' && s[i] != '\\' && char_code(s[i]) >= 0x20,
    ensures
        spec_escape(s) == s,
    decreases s.len(),
{
    if s.len() == 0 {
        assert(spec_escape(s) =~= s);
    } else {
        assert(forall|i: int|
            0 <= i < s.drop_first().len() ==> s.drop_first()[i] == s[i + 1]);
        lemma_escape_plain(s.drop_first());
        assert(spec_escape_char(s[0]) =~= seq![s[0]]);
        assert(seq![s[0]] + s.drop_first() =~= s);
    }
}

/// Each value below sixteen round-trips through its hexadecimal digit.
proof fn lemma_hex_digit_char(n: int)
    requires
        0 <= n < 16,
    ensures
        is_hex_digit(hex_digit_char(n)),
        hex_val(hex_digit_char(n)) == n,
{
}

/// Reading a string body through the escaped form of `u`, its closing quote
/// and a remainder yields `u` and that remainder.
#[verifier::rlimit(100)]
#[verifier::spinoff_prover]
proof fn lemma_body_escaped(u: Seq<char>, rest: Seq<char>)
    ensures
        spec_string_body(spec_escape(u) + (seq!['"'] + rest)) == Some((u, rest)),
    decreases u.len(),
{
    let s = spec_escape(u) + (seq!['"'] + rest);
    if u.len() == 0 {
        assert(spec_escape(u) =~= Seq::<char>::empty());
        assert(s =~= seq!['"'] + rest);
        assert(s[0] == '"');
        assert(s.drop_first() =~= rest);
        assert(u =~= Seq::<char>::empty());
    } else {
        let c = u[0];
        let u2 = u.drop_first();
        lemma_body_escaped(u2, rest);
        let t = spec_escape(u2) + (seq!['"'] + rest);
        if c == '"' || c == '\\' {
            assert(spec_escape_char(c) =~= seq!['\\', c]);
            assert(s =~= seq!['\\', c] + t);
            assert(s[0] == '\\');
            assert(s.len() >= 2);
            assert(s[1] == c);
            assert(c != 'u');
            assert(spec_unescape(c) == Some(c));
            assert(s.skip(2) =~= t);
            assert(seq![c] + u2 =~= u);
        } else if c == '\u{0008}' || c == '\u{000C}' || c == '\n' || c == '\r' || c == '\t' {
            let e: char = if c == '\u{0008}' {
                'b'
            } else if c == '\u{000C}' {
                'f'
            } else if c == '\n' {
                'n'
            } else if c == '\r' {
                'r'
            } else {
                't'
            };
            assert(spec_escape_char(c) =~= seq!['\\', e]);
            assert(s =~= seq!['\\', e] + t);
            assert(s[0] == '\\');
            assert(s.len() >= 2);
            assert(s[1] == e);
            assert(e != 'u');
            assert(spec_unescape(e) == Some(c));
            assert(s.skip(2) =~= t);
            assert(seq![c] + u2 =~= u);
        } else if char_code(c) < 0x20 {
            reveal(spec_unicode_escape);
            reveal(spec_hex4);
            lemma_char_code_bounds(c);
            let code = char_code(c);
            assert(0 <= code < 0x20);
            let h1 = hex_digit_char(code / 16);
            let h0 = hex_digit_char(code % 16);
            lemma_hex_digit_char(code / 16);
            lemma_hex_digit_char(code % 16);
            assert(spec_escape_char(c) =~= seq!['\\', 'u', '0', '0', h1, h0]);
            let w = seq!['0', '0', h1, h0] + t;
            assert(s =~= seq!['\\', 'u', '0', '0', h1, h0] + t);
            assert(s[0] == '\\');
            assert(s.len() >= 2);
            assert(s[1] == 'u');
            assert(s.skip(2) =~= w);
            assert(w[0] == '0' && w[1] == '0' && w[2] == h1 && w[3] == h0);
            assert(is_hex_digit('0') && hex_val('0') == 0);
            assert(spec_hex4(w) == Some((code, w.skip(4)))) by {
                assert(4096 * hex_val(w[0]) + 256 * hex_val(w[1]) + 16 * hex_val(w[2]) + hex_val(
                    w[3],
                ) == code);
            }
            assert(w.skip(4) =~= t);
            assert(is_scalar_code(code));
            assert(exists|x: char| char_code(x) == code) by {
                assert(char_code(c) == code);
            }
            assert(code_char(code) == c);
            assert(spec_unicode_escape(w) == Some((c, t)));
            assert(t.len() < s.len());
            assert(seq![c] + u2 =~= u);
        } else {
            assert(spec_escape_char(c) =~= seq![c]);
            assert(s =~= seq![c] + t);
            assert(s[0] == c);
            assert(char_code(c) >= 0x20);
            assert(s.drop_first() =~= t);
            assert(seq![c] + u2 =~= u);
        }
    }
}

/// Reading a value through the rendered form of a boolean and a remainder
/// yields that boolean and that remainder.
proof fn lemma_value_bool(b: bool, rest: Seq<char>)
    ensures
        spec_value(spec_bool_chars(b) + rest) == Some((ScalarView::Flag(b), rest)),
{
    reveal_strlit("true");
    reveal_strlit("false");
    let s = spec_bool_chars(b) + rest;
    if b {
        assert(s[0] == 't' && s[1] == 'r' && s[2] == 'u' && s[3] == 'e');
        assert(s[0] != '"');
        assert(s.skip(4) =~= rest);
    } else {
        assert(s[0] == 'f' && s[1] == 'a' && s[2] == 'l' && s[3] == 's' && s[4] == 'e');
        assert(s[0] != '"');
        assert(s[0] != 't');
        assert(s.skip(5) =~= rest);
    }
}

/// The second and third members of a rendered document, folded: from the
/// `autostart` key onward the members yield both boolean settings and end
/// at the closing brace.
#[verifier::rlimit(100)]
#[verifier::spinoff_prover]
proof fn lemma_render_members_tail(v: ConfigView, acc1: PartialView)
    requires
        acc1 == (PartialView { url: Some(v.url), autostart: None, start_minimized: None }),
    ensures
        spec_members(
            seq!['"', 'a', 'u', 't', 'o', 's', 't', 'a', 'r', 't', '"', ':', ' '] + (
            spec_bool_chars(v.autostart) + (seq![',', '\n', ' ', ' ', '"', 's', 't', 'a', 'r', 't', '_', 'm', 'i', 'n', 'i', 'm', 'i', 'z', 'e', 'd', '"', ':', ' '] + (
            spec_bool_chars(v.start_minimized) + seq!['\n', '}']))),
            acc1,
        ) == Some(
            (
                PartialView {
                    url: Some(v.url),
                    autostart: Some(v.autostart),
                    start_minimized: Some(v.start_minimized),
                },
                Seq::<char>::empty(),
            ),
        ),
{
    reveal_strlit("url");
    reveal_strlit("autostart");
    reveal_strlit("start_minimized");
    reveal_strlit("true");
    reveal_strlit("false");
    let c1 = spec_bool_chars(v.autostart);
    let c2 = spec_bool_chars(v.start_minimized);
    let fpiece = seq!['\n', '}'];
    let t6 = c2 + fpiece;
    let t5 = seq![',', '\n', ' ', ' ', '"', 's', 't', 'a', 'r', 't', '_', 'm', 'i', 'n', 'i', 'm', 'i', 'z', 'e', 'd', '"', ':', ' '] + t6;
    let t4 = c1 + t5;
    let m4 = seq!['"', 'a', 'u', 't', 'o', 's', 't', 'a', 'r', 't', '"', ':', ' '] + t4;
    // Second member: the `autostart` key and its boolean value.
    let akey = seq!['a', 'u', 't', 'o', 's', 't', 'a', 'r', 't'];
    let a_rest = seq![':', ' '] + t4;
    lemma_escape_plain(akey);
    assert(m4.drop_first() =~= spec_escape(akey) + (seq!['"'] + a_rest));
    lemma_body_escaped(akey, a_rest);
    assert(spec_parse_string(m4) == Some((akey, a_rest)));
    assert(a_rest[0] == ':');
    lemma_skip_ws_stop(a_rest);
    let a2 = seq![' '] + t4;
    assert(a_rest.drop_first() =~= a2);
    lemma_skip_ws_step(a2);
    assert(a2.drop_first() =~= t4);
    assert(c1[0] == 't' || c1[0] == 'f');
    assert(t4[0] == c1[0]);
    assert(!is_ws(t4[0]));
    lemma_skip_ws_stop(t4);
    lemma_value_bool(v.autostart, t5);
    assert(spec_value(t4) == Some((ScalarView::Flag(v.autostart), t5)));
    assert(akey =~= "autostart"@);
    assert(akey != "url"@);
    let acc2 = PartialView {
        url: Some(v.url),
        autostart: Some(v.autostart),
        start_minimized: None,
    };
    assert(spec_apply_member(acc1, akey, ScalarView::Flag(v.autostart)) == Some(acc2));
    assert(t5[0] == ',');
    lemma_skip_ws_stop(t5);
    let n1 = seq!['\n', ' ', ' ', '"', 's', 't', 'a', 'r', 't', '_', 'm', 'i', 'n', 'i', 'm', 'i', 'z', 'e', 'd', '"', ':', ' '] + t6;
    assert(t5.drop_first() =~= n1);
    lemma_skip_ws_step(n1);
    let n2 = seq![' ', ' ', '"', 's', 't', 'a', 'r', 't', '_', 'm', 'i', 'n', 'i', 'm', 'i', 'z', 'e', 'd', '"', ':', ' '] + t6;
    assert(n1.drop_first() =~= n2);
    lemma_skip_ws_step(n2);
    let n3 = seq![' ', '"', 's', 't', 'a', 'r', 't', '_', 'm', 'i', 'n', 'i', 'm', 'i', 'z', 'e', 'd', '"', ':', ' '] + t6;
    assert(n2.drop_first() =~= n3);
    lemma_skip_ws_step(n3);
    let n4 = seq!['"', 's', 't', 'a', 'r', 't', '_', 'm', 'i', 'n', 'i', 'm', 'i', 'z', 'e', 'd', '"', ':', ' '] + t6;
    assert(n3.drop_first() =~= n4);
    assert(n4[0] == '"');
    lemma_skip_ws_stop(n4);
    assert(n4.len() < m4.len());
    // Third member: the `start_minimized` key and its boolean value.
    let skey = seq!['s', 't', 'a', 'r', 't', '_', 'm', 'i', 'n', 'i', 'm', 'i', 'z', 'e', 'd'];
    let s_rest = seq![':', ' '] + t6;
    lemma_escape_plain(skey);
    assert(n4.drop_first() =~= spec_escape(skey) + (seq!['"'] + s_rest));
    lemma_body_escaped(skey, s_rest);
    assert(spec_parse_string(n4) == Some((skey, s_rest)));
    assert(s_rest[0] == ':');
    lemma_skip_ws_stop(s_rest);
    let sb2 = seq![' '] + t6;
    assert(s_rest.drop_first() =~= sb2);
    lemma_skip_ws_step(sb2);
    assert(sb2.drop_first() =~= t6);
    assert(c2[0] == 't' || c2[0] == 'f');
    assert(t6[0] == c2[0]);
    assert(!is_ws(t6[0]));
    lemma_skip_ws_stop(t6);
    lemma_value_bool(v.start_minimized, fpiece);
    assert(spec_value(t6) == Some((ScalarView::Flag(v.start_minimized), fpiece)));
    assert(skey =~= "start_minimized"@);
    assert(skey != "url"@);
    assert(skey != "autostart"@);
    let acc3 = PartialView {
        url: Some(v.url),
        autostart: Some(v.autostart),
        start_minimized: Some(v.start_minimized),
    };
    assert(spec_apply_member(acc2, skey, ScalarView::Flag(v.start_minimized)) == Some(acc3));
    // The closing brace, after one newline.
    lemma_skip_ws_step(fpiece);
    assert(fpiece.drop_first() =~= seq!['}']);
    lemma_skip_ws_stop(seq!['}']);
    assert(spec_skip_ws(fpiece) == seq!['}']);
    assert(seq!['}'].drop_first() =~= Seq::<char>::empty());
    // Fold the three member steps back together.
    assert(spec_members(n4, acc2) == Some((acc3, Seq::<char>::empty())));
    assert(spec_members(m4, acc1) == Some((acc3, Seq::<char>::empty())));
}

/// Law: every configuration a document yields carries a non-empty url:
/// both a missing and an empty `url` member fall back to the default
/// address.
pub proof fn lemma_parsed_url_nonempty(s: Seq<char>)
    ensures
        spec_parse_config(s) matches Some(v) ==> v.url.len() > 0,
{
    reveal_strlit("https://pingvoice.io/dashboard");
    assert(spec_default_url().len() > 0);
}

/// Law: rendering a configuration and parsing the result yields that same
/// configuration, whatever its boolean settings and its (non-empty) url
/// hold.
#[verifier::rlimit(100)]
#[verifier::spinoff_prover]
pub proof fn lemma_render_parse_round_trip(v: ConfigView)
    requires
        v.url.len() > 0,
    ensures
        spec_parse_config(spec_render(v)) == Some(v),
{
    reveal_strlit("{\n  \"url\": \"");
    reveal_strlit("\",\n  \"autostart\": ");
    reveal_strlit(",\n  \"start_minimized\": ");
    reveal_strlit("\n}");
    reveal_strlit("url");
    reveal_strlit("autostart");
    reveal_strlit("start_minimized");
    reveal_strlit("true");
    reveal_strlit("false");
    let e = spec_escape(v.url);
    let c1 = spec_bool_chars(v.autostart);
    let c2 = spec_bool_chars(v.start_minimized);
    let r = spec_render(v);
    // The rendered text, right-nested around its symbolic pieces.
    let fpiece = seq!['\n', '}'];
    assert("\n}"@ =~= fpiece);
    let t6 = c2 + fpiece;
    let t5 = seq![',', '\n', ' ', ' ', '"', 's', 't', 'a', 'r', 't', '_', 'm', 'i', 'n', 'i', 'm', 'i', 'z', 'e', 'd', '"', ':', ' '] + t6;
    assert(",\n  \"start_minimized\": "@ + (c2 + "\n}"@) =~= t5);
    let t4 = c1 + t5;
    let t3 = seq!['"', ',', '\n', ' ', ' ', '"', 'a', 'u', 't', 'o', 's', 't', 'a', 'r', 't', '"', ':', ' '] + t4;
    assert("\",\n  \"autostart\": "@ + t4 =~= t3);
    let t2 = e + t3;
    let rr = seq!['{', '\n', ' ', ' ', '"', 'u', 'r', 'l', '"', ':', ' ', '"'] + t2;
    assert(r =~= rr);
    // The document head: `{` then whitespace down to the first key.
    assert(rr[0] == '{');
    lemma_skip_ws_stop(rr);
    let s1 = seq!['\n', ' ', ' ', '"', 'u', 'r', 'l', '"', ':', ' ', '"'] + t2;
    assert(rr.drop_first() =~= s1);
    lemma_skip_ws_step(s1);
    let s2 = seq![' ', ' ', '"', 'u', 'r', 'l', '"', ':', ' ', '"'] + t2;
    assert(s1.drop_first() =~= s2);
    lemma_skip_ws_step(s2);
    let s3 = seq![' ', '"', 'u', 'r', 'l', '"', ':', ' ', '"'] + t2;
    assert(s2.drop_first() =~= s3);
    lemma_skip_ws_step(s3);
    let s4 = seq!['"', 'u', 'r', 'l', '"', ':', ' ', '"'] + t2;
    assert(s3.drop_first() =~= s4);
    assert(s4[0] == '"');
    lemma_skip_ws_stop(s4);
    assert(spec_skip_ws(rr.drop_first()) == s4);
    // First member: the `url` key and its string value.
    let ukey = seq!['u', 'r', 'l'];
    let k_rest = seq![':', ' ', '"'] + t2;
    lemma_escape_plain(ukey);
    assert(s4.drop_first() =~= spec_escape(ukey) + (seq!['"'] + k_rest));
    lemma_body_escaped(ukey, k_rest);
    assert(spec_parse_string(s4) == Some((ukey, k_rest)));
    assert(k_rest[0] == ':');
    lemma_skip_ws_stop(k_rest);
    let k2 = seq![' ', '"'] + t2;
    assert(k_rest.drop_first() =~= k2);
    lemma_skip_ws_step(k2);
    let k3 = seq!['"'] + t2;
    assert(k2.drop_first() =~= k3);
    lemma_skip_ws_stop(k3);
    assert(k3[0] == '"');
    let u_rest = seq![',', '\n', ' ', ' ', '"', 'a', 'u', 't', 'o', 's', 't', 'a', 'r', 't', '"', ':', ' '] + t4;
    assert(k3.drop_first() =~= e + (seq!['"'] + u_rest));
    lemma_body_escaped(v.url, u_rest);
    assert(spec_value(k3) == Some((ScalarView::Text(v.url), u_rest)));
    assert(ukey =~= "url"@);
    let acc1 = PartialView { url: Some(v.url), autostart: None, start_minimized: None };
    assert(spec_apply_member(spec_empty_partial(), ukey, ScalarView::Text(v.url)) == Some(acc1));
    assert(u_rest[0] == ',');
    lemma_skip_ws_stop(u_rest);
    let m1 = seq!['\n', ' ', ' ', '"', 'a', 'u', 't', 'o', 's', 't', 'a', 'r', 't', '"', ':', ' '] + t4;
    assert(u_rest.drop_first() =~= m1);
    lemma_skip_ws_step(m1);
    let m2 = seq![' ', ' ', '"', 'a', 'u', 't', 'o', 's', 't', 'a', 'r', 't', '"', ':', ' '] + t4;
    assert(m1.drop_first() =~= m2);
    lemma_skip_ws_step(m2);
    let m3 = seq![' ', '"', 'a', 'u', 't', 'o', 's', 't', 'a', 'r', 't', '"', ':', ' '] + t4;
    assert(m2.drop_first() =~= m3);
    lemma_skip_ws_step(m3);
    let m4 = seq!['"', 'a', 'u', 't', 'o', 's', 't', 'a', 'r', 't', '"', ':', ' '] + t4;
    assert(m3.drop_first() =~= m4);
    assert(m4[0] == '"');
    lemma_skip_ws_stop(m4);
    assert(m4.len() < s4.len());
    // Second and third members: the two boolean settings, then the brace.
    let acc3 = PartialView {
        url: Some(v.url),
        autostart: Some(v.autostart),
        start_minimized: Some(v.start_minimized),
    };
    lemma_render_members_tail(v, acc1);
    assert(m4 =~= seq!['"', 'a', 'u', 't', 'o', 's', 't', 'a', 'r', 't', '"', ':', ' '] + (
        spec_bool_chars(v.autostart) + (seq![',', '\n', ' ', ' ', '"', 's', 't', 'a', 'r', 't', '_', 'm', 'i', 'n', 'i', 'm', 'i', 'z', 'e', 'd', '"', ':', ' '] + (
        spec_bool_chars(v.start_minimized) + seq!['\n', '}']))));
    assert(spec_members(m4, acc1) == Some((acc3, Seq::<char>::empty())));
    assert(spec_members(s4, spec_empty_partial()) == Some((acc3, Seq::<char>::empty())));
    lemma_skip_ws_stop(Seq::<char>::empty());
    assert(spec_parse_partial(rr) == Some(acc3));
    assert(spec_fill_defaults(acc3) =~= v);
    assert(spec_parse_config(r) == Some(v));
}

/// Law: a document that parses never fails to yield a full configuration:
/// each member it carries is taken as read, and each member it lacks falls
/// back to its documented default.
pub proof fn lemma_missing_fields_default(s: Seq<char>, p: PartialView)
    requires
        spec_parse_partial(s) == Some(p),
    ensures
        spec_parse_config(s) == Some(spec_fill_defaults(p)),
        p.url is None ==> spec_fill_defaults(p).url == spec_default_url(),
        p.autostart is None ==> spec_fill_defaults(p).autostart == true,
        p.start_minimized is None ==> spec_fill_defaults(p).start_minimized == true,
        p.url matches Some(u) ==> spec_fill_defaults(p).url == (if u.len() == 0 {
            spec_default_url()
        } else {
            u
        }),
        p.autostart matches Some(b) ==> spec_fill_defaults(p).autostart == b,
        p.start_minimized matches Some(b) ==> spec_fill_defaults(p).start_minimized == b,
{
}

} // verus!
