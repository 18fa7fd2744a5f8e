//! Desktop-environment shortcut registration: the shortcut table, the
//! handler choice from the session environment, and the reading and
//! writing of the configuration tool's list values. Running the
//! configuration commands and editing configuration files is outside
//! work; it hands this module the command output and takes back what
//! to write.

use vstd::prelude::*;

use crate::text::{
    char_index_of, contains_seq, find_char, is_blank, is_space_char, lemma_char_index_of,
    lemma_filter_push, str_contains, str_eq, str_is_blank, string_of_chars, subvec,
};

verus! {

/// One global shortcut to register, with the binding spelled the way
/// each desktop environment wants it.
#[derive(Debug, Clone, Copy)]
pub struct ShortcutConfig {
    pub id: &'static str,
    pub name: &'static str,
    pub command: &'static str,
    pub gnome_binding: &'static str,
    pub kde_binding: &'static str,
    pub xfce_binding: &'static str,
    pub cosmic_mods: &'static str,
    pub cosmic_key: &'static str,
}

/// What can go wrong while registering or unregistering a shortcut.
#[derive(Debug)]
pub enum ShortcutError {
    /// A file operation failed; the message describes it.
    Io(String),
    /// A configuration command ran and reported failure.
    CommandFailed { cmd: String, stderr: String },
    /// A required configuration tool is not installed.
    DependencyMissing(String),
    /// A configuration file could not be understood.
    ParseError(String),
    /// The session environment offers no way to register.
    UnsupportedEnvironment(String),
}

impl ShortcutError {
    /// A human-readable description of the error.
    pub fn message(&self) -> (r: String)
        ensures
            match self {
                ShortcutError::Io(e) => r@ == "IO Error: "@ + e@,
                ShortcutError::CommandFailed { cmd, stderr } => r@ == "Command '"@ + cmd@
                    + "' failed: "@ + stderr@,
                ShortcutError::DependencyMissing(dep) => r@ == "Missing dependency: "@ + dep@,
                ShortcutError::ParseError(s) => r@ == "Config parse error: "@ + s@,
                ShortcutError::UnsupportedEnvironment(e) => r@ == "Unsupported environment: "@
                    + e@,
            },
    {
        match self {
            ShortcutError::Io(e) => String::from_str("IO Error: ").concat(e.as_str()),
            ShortcutError::CommandFailed { cmd, stderr } => {
                let mut r = String::from_str("Command '");
                r.append(cmd.as_str());
                r.append("' failed: ");
                r.append(stderr.as_str());
                r
            },
            ShortcutError::DependencyMissing(dep) => String::from_str(
                "Missing dependency: ",
            ).concat(dep.as_str()),
            ShortcutError::ParseError(s) => String::from_str("Config parse error: ").concat(
                s.as_str(),
            ),
            ShortcutError::UnsupportedEnvironment(e) => String::from_str(
                "Unsupported environment: ",
            ).concat(e.as_str()),
        }
    }
}

/// The two shortcuts this program registers: the primary Super+V
/// binding and the Ctrl+Alt+V alternative.
pub fn default_shortcuts() -> (r: Vec<ShortcutConfig>)
    ensures
        r@.len() == 2,
        r@[0].id@ == "win11-clipboard-history"@,
        r@[0].command@ == "win11-clipboard-history"@,
        r@[0].gnome_binding@ == "<Super>v"@,
        r@[0].kde_binding@ == "Meta+V"@,
        r@[1].id@ == "win11-clipboard-history-alt"@,
        r@[1].command@ == "win11-clipboard-history"@,
        r@[1].gnome_binding@ == "<Ctrl><Alt>v"@,
        r@[1].kde_binding@ == "Ctrl+Alt+V"@,
{
    let mut r: Vec<ShortcutConfig> = Vec::new();
    r.push(
        ShortcutConfig {
            id: "win11-clipboard-history",
            name: "Clipboard History",
            command: "win11-clipboard-history",
            gnome_binding: "<Super>v",
            kde_binding: "Meta+V",
            xfce_binding: "<Super>v",
            cosmic_mods: "Super",
            cosmic_key: "v",
        },
    );
    r.push(
        ShortcutConfig {
            id: "win11-clipboard-history-alt",
            name: "Clipboard History (Alt)",
            command: "win11-clipboard-history",
            gnome_binding: "<Ctrl><Alt>v",
            kde_binding: "Ctrl+Alt+V",
            xfce_binding: "<Primary><Alt>v",
            cosmic_mods: "Ctrl, Alt",
            cosmic_key: "v",
        },
    );
    r
}

/// The configuration mechanisms a desktop session may offer.
#[derive(Debug, Clone, Copy, PartialEq, Eq, Structural)]
pub enum HandlerKind {
    Gnome,
    Cinnamon,
    Kde,
    Xfce,
    Mate,
    Cosmic,
}

/// The handler chosen for a session: decided by the desktop names in
/// the (lowercased) session description, then by which configuration
/// tools are installed, with the GNOME mechanism as the last resort.
pub open spec fn detected_handler(
    combined: Seq<char>,
    has_kwriteconfig: bool,
    has_xfconf: bool,
) -> HandlerKind {
    if contains_seq(combined, "gnome"@) || contains_seq(combined, "unity"@) || contains_seq(
        combined,
        "pantheon"@,
    ) {
        HandlerKind::Gnome
    } else if contains_seq(combined, "cinnamon"@) {
        HandlerKind::Cinnamon
    } else if contains_seq(combined, "kde"@) || contains_seq(combined, "plasma"@) {
        HandlerKind::Kde
    } else if contains_seq(combined, "xfce"@) {
        HandlerKind::Xfce
    } else if contains_seq(combined, "mate"@) {
        HandlerKind::Mate
    } else if contains_seq(combined, "cosmic"@) {
        HandlerKind::Cosmic
    } else if has_kwriteconfig {
        HandlerKind::Kde
    } else if has_xfconf {
        HandlerKind::Xfce
    } else {
        HandlerKind::Gnome
    }
}

/// Choose the handler for a session. `combined` is the lowercased
/// current and session desktop names joined with a space; the flags
/// say which configuration tools are installed.
pub fn detect_handler(combined: &str, has_kwriteconfig: bool, has_xfconf: bool) -> (r: HandlerKind)
    ensures
        r == detected_handler(combined@, has_kwriteconfig, has_xfconf),
{
    if str_contains(combined, "gnome") || str_contains(combined, "unity") || str_contains(
        combined,
        "pantheon",
    ) {
        HandlerKind::Gnome
    } else if str_contains(combined, "cinnamon") {
        HandlerKind::Cinnamon
    } else if str_contains(combined, "kde") || str_contains(combined, "plasma") {
        HandlerKind::Kde
    } else if str_contains(combined, "xfce") {
        HandlerKind::Xfce
    } else if str_contains(combined, "mate") {
        HandlerKind::Mate
    } else if str_contains(combined, "cosmic") {
        HandlerKind::Cosmic
    } else if has_kwriteconfig {
        HandlerKind::Kde
    } else if has_xfconf {
        HandlerKind::Xfce
    } else {
        HandlerKind::Gnome
    }
}

/// One entry in its list form: wrapped in single quotes.
pub open spec fn quoted_item(s: Seq<char>) -> Seq<char> {
    "'"@ + s + "'"@
}

/// The items joined for the configuration tool: quoted, separated by
/// a comma and a space.
pub open spec fn joined_items(items: Seq<Seq<char>>) -> Seq<char>
    decreases items.len(),
{
    if items.len() == 0 {
        Seq::<char>::empty()
    } else if items.len() == 1 {
        quoted_item(items[0])
    } else {
        joined_items(items.drop_last()) + ", "@ + quoted_item(items.last())
    }
}

/// A list value as the configuration tool takes it: `[]` when empty,
/// else the quoted items joined in brackets.
pub open spec fn gsettings_list_format(items: Seq<Seq<char>>) -> Seq<char> {
    if items.len() == 0 {
        "[]"@
    } else {
        "["@ + joined_items(items) + "]"@
    }
}

/// The views of a vector of strings.
pub open spec fn str_views_of(v: Seq<String>) -> Seq<Seq<char>> {
    v.map_values(|s: String| s@)
}

/// Render a list value for the configuration tool, as
/// `gsettings_list_format` lays it out.
pub fn format_gsettings_list(items: &Vec<String>) -> (r: String)
    ensures
        r@ == gsettings_list_format(str_views_of(items@)),
{
    let ghost iv = str_views_of(items@);
    let n = items.len();
    if n == 0 {
        return String::from_str("[]");
    }
    let mut out = String::from_str("[");
    let mut i: usize = 0;
    while i < n
        invariant
            n == items@.len(),
            iv == str_views_of(items@),
            1 <= n,
            0 <= i <= n,
            out@ == "["@ + joined_items(iv.take(i as int)),
        decreases n - i,
    {
        if i > 0 {
            out.append(", ");
        }
        out.append("'");
        out.append(items[i].as_str());
        out.append("'");
        proof {
            assert(iv.take(i + 1).drop_last() =~= iv.take(i as int));
            assert(iv.take(i + 1).last() == iv[i as int]);
            if i == 0 {
                assert(joined_items(iv.take(1)) == quoted_item(iv[0]));
                assert(out@ =~= "["@ + joined_items(iv.take(1)));
            } else {
                assert(out@ =~= "["@ + (joined_items(iv.take(i as int)) + ", "@ + quoted_item(
                    iv[i as int],
                )));
            }
        }
        i += 1;
    }
    out.append("]");
    proof {
        assert(iv.take(n as int) =~= iv);
        assert(out@ =~= gsettings_list_format(iv));
    }
    out
}

/// `s` without its leading run of the character `c`.
pub open spec fn strip_leading(s: Seq<char>, c: char) -> Seq<char>
    decreases s.len(),
{
    if s.len() > 0 && s[0] == c {
        strip_leading(s.drop_first(), c)
    } else {
        s
    }
}

/// `s` without its trailing run of the character `c`.
pub open spec fn strip_trailing(s: Seq<char>, c: char) -> Seq<char>
    decreases s.len(),
{
    if s.len() > 0 && s.last() == c {
        strip_trailing(s.drop_last(), c)
    } else {
        s
    }
}

/// `s` with every single and double quote removed.
pub open spec fn without_quotes(s: Seq<char>) -> Seq<char> {
    s.filter(|c: char| c != '\'' && c != '"')
}

/// `s` without leading and trailing whitespace.
pub open spec fn trimmed(s: Seq<char>) -> Seq<char>
    decreases s.len(),
{
    if s.len() > 0 && is_space_char(s[0]) {
        trimmed(s.drop_first())
    } else if s.len() > 0 && is_space_char(s.last()) {
        trimmed(s.drop_last())
    } else {
        s
    }
}

/// `s` cut at every comma, keeping empty fields.
pub open spec fn split_commas(s: Seq<char>) -> Seq<Seq<char>>
    decreases s.len(),
    via split_commas_decreases
{
    match char_index_of(s, ',') {
        Some(i) => seq![s.take(i)] + split_commas(s.skip(i + 1)),
        None => seq![s],
    }
}

#[via_fn]
proof fn split_commas_decreases(s: Seq<char>) {
    lemma_char_index_of(s, ',');
}

/// What a list value read back from the configuration tool means: the
/// empty markers mean no items; otherwise brackets and quotes are
/// dropped and the comma-separated fields are trimmed, empty fields
/// discarded.
pub open spec fn gsettings_list_parse(out: Seq<char>) -> Seq<Seq<char>> {
    if contains_seq(out, "@as []"@) || out == "[]"@ || is_blank(out) {
        Seq::<Seq<char>>::empty()
    } else {
        split_commas(
            without_quotes(strip_trailing(strip_leading(out, '['), ']')),
        ).map_values(|p: Seq<char>| trimmed(p)).filter(|p: Seq<char>| p.len() > 0)
    }
}

proof fn lemma_trimmed_at(s: Seq<char>, a: int, b: int)
    requires
        0 <= a <= b <= s.len(),
        forall|j: int| 0 <= j < a ==> is_space_char(s[j]),
        forall|j: int| b <= j < s.len() ==> is_space_char(s[j]),
        a < b ==> !is_space_char(s[a]) && !is_space_char(s[b - 1]),
        a == b ==> a == 0,
    ensures
        trimmed(s) == s.subrange(a, b),
    decreases s.len(),
{
    if s.len() == 0 {
        assert(s.subrange(0, 0) =~= s);
    } else if is_space_char(s[0]) {
        let t = s.drop_first();
        if a >= 1 {
            assert forall|j: int| 0 <= j < a - 1 implies is_space_char(t[j]) by {
                assert(t[j] == s[j + 1]);
            }
            assert forall|j: int| b - 1 <= j < t.len() implies is_space_char(t[j]) by {
                assert(t[j] == s[j + 1]);
            }
            if a < b {
                assert(t[a - 1] == s[a]);
                assert(t[b - 2] == s[b - 1]);
            }
            lemma_trimmed_at(t, a - 1, b - 1);
            assert(t.subrange(a - 1, b - 1) =~= s.subrange(a, b));
        } else {
            // a == 0, and s[0] is a space, so a == b: everything is
            // whitespace and the trim is empty.
            assert(a == b);
            assert forall|j: int| 0 <= j < t.len() implies is_space_char(t[j]) by {
                assert(t[j] == s[j + 1]);
            }
            lemma_trimmed_at(t, 0, 0);
            assert(t.subrange(0, 0) =~= s.subrange(0, 0));
        }
    } else if is_space_char(s.last()) {
        let t = s.drop_last();
        assert(a < b || a == 0);
        assert(b <= s.len() - 1);
        lemma_trimmed_at(t, a, b);
        assert(t.subrange(a, b) =~= s.subrange(a, b));
    } else {
        assert(a == 0);
        assert(b == s.len());
        assert(s.subrange(0, s.len() as int) =~= s);
    }
}

/// Drop leading and trailing whitespace, as `trimmed` describes.
fn trim_chars(v: &Vec<char>) -> (r: Vec<char>)
    ensures
        r@ == trimmed(v@),
{
    let n = v.len();
    let mut a: usize = 0;
    let mut scan = true;
    while scan
        invariant
            n == v@.len(),
            0 <= a <= n,
            forall|j: int| 0 <= j < a ==> is_space_char(v@[j]),
            !scan ==> (a == n || !is_space_char(v@[a as int])),
        decreases n - a, (if scan {
            1int
        } else {
            0int
        }),
    {
        if a < n {
            if crate::text::is_space(v[a]) {
                a += 1;
            } else {
                scan = false;
            }
        } else {
            scan = false;
        }
    }
    if a == n {
        let r: Vec<char> = Vec::new();
        proof {
            lemma_trimmed_at(v@, 0, 0);
            assert(r@ =~= v@.subrange(0, 0));
        }
        return r;
    }
    let mut b: usize = n;
    let mut scan2 = true;
    while scan2
        invariant
            n == v@.len(),
            a < n,
            !is_space_char(v@[a as int]),
            forall|j: int| 0 <= j < a ==> is_space_char(v@[j]),
            a < b <= n,
            forall|j: int| b <= j < n ==> is_space_char(v@[j]),
            !scan2 ==> !is_space_char(v@[b - 1]),
        decreases b, (if scan2 {
            1int
        } else {
            0int
        }),
    {
        if crate::text::is_space(v[b - 1]) {
            b -= 1;
        } else {
            scan2 = false;
        }
    }
    proof {
        lemma_trimmed_at(v@, a as int, b as int);
    }
    subvec(v, a, b)
}

/// Read a list value back from the configuration tool's output, as
/// `gsettings_list_parse` describes.
pub fn parse_gsettings_list(output: &str) -> (r: Vec<String>)
    ensures
        str_views_of(r@) == gsettings_list_parse(output@),
{
    if str_contains(output, "@as []") || str_eq(output, "[]") || str_is_blank(output) {
        let r: Vec<String> = Vec::new();
        proof {
            assert(str_views_of(r@) =~= Seq::<Seq<char>>::empty());
        }
        return r;
    }
    let v = crate::text::chars_of(output);
    let n = v.len();
    proof {
        assert(v@.skip(0) =~= v@);
    }
    // Drop the leading run of '[' characters.
    let mut a: usize = 0;
    let mut scan = true;
    while scan
        invariant
            n == v@.len(),
            0 <= a <= n,
            strip_leading(v@, '[') == strip_leading(v@.skip(a as int), '['),
            !scan ==> (a == n || v@[a as int] != '['),
        decreases n - a, (if scan {
            1int
        } else {
            0int
        }),
    {
        if a < n {
            if v[a] == '[' {
                proof {
                    assert(v@.skip(a as int).drop_first() =~= v@.skip(a + 1));
                }
                a += 1;
            } else {
                scan = false;
            }
        } else {
            scan = false;
        }
    }
    proof {
        assert(strip_leading(v@.skip(a as int), '[') == v@.skip(a as int));
    }
    // Drop the trailing run of ']' characters.
    let mut b: usize = n;
    let mut scan2 = true;
    while scan2
        invariant
            n == v@.len(),
            a <= b <= n,
            strip_trailing(v@.skip(a as int), ']') == strip_trailing(
                v@.subrange(a as int, b as int),
                ']',
            ),
            !scan2 ==> (b == a || v@[b - 1] != ']'),
        decreases b, (if scan2 {
            1int
        } else {
            0int
        }),
    {
        if b > a {
            if v[b - 1] == ']' {
                proof {
                    assert(v@.subrange(a as int, b as int).drop_last() =~= v@.subrange(
                        a as int,
                        b - 1,
                    ));
                }
                b -= 1;
            } else {
                scan2 = false;
            }
        } else {
            scan2 = false;
        }
    }
    proof {
        assert(strip_trailing(v@.subrange(a as int, b as int), ']') == v@.subrange(
            a as int,
            b as int,
        ));
        assert(v@.skip(a as int) =~= v@.subrange(a as int, n as int));
    }
    // Drop every quote character.
    let mut cleaned: Vec<char> = Vec::new();
    let mut i: usize = a;
    while i < b
        invariant
            n == v@.len(),
            a <= i <= b <= n,
            cleaned@ == without_quotes(v@.subrange(a as int, i as int)),
        decreases b - i,
    {
        let c = v[i];
        if c != '\'' && c != '"' {
            cleaned.push(c);
        }
        proof {
            lemma_filter_push(
                v@.subrange(a as int, i as int),
                v@[i as int],
                |c: char| c != '\'' && c != '"',
            );
            assert(v@.subrange(a as int, i + 1) =~= v@.subrange(a as int, i as int).push(
                v@[i as int],
            ));
        }
        i += 1;
    }
    let ghost core = without_quotes(v@.subrange(a as int, b as int));
    // Split on commas; keep each trimmed non-empty field.
    let mut result: Vec<String> = Vec::new();
    let ghost handled = Seq::<Seq<char>>::empty();
    let mut rest = cleaned;
    let mut more = true;
    proof {
        assert(handled + split_commas(rest@) =~= split_commas(core));
        assert(str_views_of(result@) =~= handled.map_values(|p: Seq<char>| trimmed(p)).filter(
            |p: Seq<char>| p.len() > 0,
        ));
    }
    let ghost mut done_pieces = handled;
    while more
        invariant
            done_pieces + (if more {
                split_commas(rest@)
            } else {
                Seq::<Seq<char>>::empty()
            }) == split_commas(core),
            str_views_of(result@) == done_pieces.map_values(|p: Seq<char>| trimmed(p)).filter(
                |p: Seq<char>| p.len() > 0,
            ),
        decreases rest@.len(), (if more {
            1int
        } else {
            0int
        }),
    {
        match find_char(&rest, ',') {
            Some(k) => {
                proof {
                    lemma_char_index_of(rest@, ',');
                }
                let piece = subvec(&rest, 0, k);
                assert(piece@ =~= rest@.take(k as int));
                let trimmed_piece = trim_chars(&piece);
                let ghost old_done = done_pieces;
                let ghost old_results = str_views_of(result@);
                if trimmed_piece.len() > 0 {
                    result.push(string_of_chars(&trimmed_piece));
                    proof {
                        assert(str_views_of(result@) =~= old_results.push(trimmed(piece@)));
                    }
                }
                let tail = subvec(&rest, k + 1, rest.len());
                assert(tail@ =~= rest@.skip(k + 1));
                proof {
                    done_pieces = old_done.push(rest@.take(k as int));
                    assert(split_commas(rest@) == seq![rest@.take(k as int)] + split_commas(
                        rest@.skip(k + 1),
                    ));
                    assert(old_done + (seq![rest@.take(k as int)] + split_commas(
                        rest@.skip(k + 1),
                    )) =~= done_pieces + split_commas(rest@.skip(k + 1)));
                    assert(done_pieces.map_values(|p: Seq<char>| trimmed(p)).drop_last()
                        =~= old_done.map_values(|p: Seq<char>| trimmed(p)));
                    lemma_filter_push(
                        old_done.map_values(|p: Seq<char>| trimmed(p)),
                        trimmed(rest@.take(k as int)),
                        |p: Seq<char>| p.len() > 0,
                    );
                    assert(done_pieces.map_values(|p: Seq<char>| trimmed(p)) =~= old_done
                        .map_values(|p: Seq<char>| trimmed(p)).push(
                        trimmed(rest@.take(k as int)),
                    ));
                }
                rest = tail;
            },
            None => {
                proof {
                    lemma_char_index_of(rest@, ',');
                }
                let trimmed_piece = trim_chars(&rest);
                let ghost old_done = done_pieces;
                let ghost old_results = str_views_of(result@);
                if trimmed_piece.len() > 0 {
                    result.push(string_of_chars(&trimmed_piece));
                    proof {
                        assert(str_views_of(result@) =~= old_results.push(trimmed(rest@)));
                    }
                }
                proof {
                    done_pieces = old_done.push(rest@);
                    assert(split_commas(rest@) == seq![rest@]);
                    assert(old_done + seq![rest@] =~= done_pieces);
                    assert(done_pieces + Seq::<Seq<char>>::empty() =~= done_pieces);
                    lemma_filter_push(
                        old_done.map_values(|p: Seq<char>| trimmed(p)),
                        trimmed(rest@),
                        |p: Seq<char>| p.len() > 0,
                    );
                    assert(done_pieces.map_values(|p: Seq<char>| trimmed(p)) =~= old_done
                        .map_values(|p: Seq<char>| trimmed(p)).push(trimmed(rest@)));
                }
                more = false;
            },
        }
    }
    proof {
        assert(done_pieces =~= split_commas(core));
    }
    result
}

} // verus!
