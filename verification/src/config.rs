//! Daemon policy: size bounds, retention, and ignore lists, loaded from a
//! small key/value file with `[daemon]` and `[clipboard]` sections.

use vstd::prelude::*;

verus! {

use crate::codec::{lit_at, p_lit, p_string, sp_string, trim_ws, ws_end};
use crate::text::{parse_u64_at, spec_parse_u64, str_chars, string_from_chars};

/// Daemon configuration.
pub struct Config {
    pub daemon: DaemonConfig,
    pub clipboard: ClipboardConfig,
}

/// Daemon-side policy.
pub struct DaemonConfig {
    /// Maximum number of non-pinned entries retained.
    pub max_entries: u32,
    /// Captures larger than this many bytes are dropped.
    pub max_entry_size: u64,
    /// Captures smaller than this many bytes are dropped.
    pub min_entry_size: u64,
    /// When non-zero, entries older than this many days are evicted.
    pub max_age_days: u32,
}

/// Clipboard-side policy.
pub struct ClipboardConfig {
    /// A capture whose MIME type contains one of these patterns is dropped.
    pub ignore_mime_patterns: Vec<String>,
    /// Application patterns, reserved.
    pub ignore_app_patterns: Vec<String>,
}

/// The mathematical view of a configuration.
pub struct ConfigV {
    pub max_entries: u32,
    pub max_entry_size: u64,
    pub min_entry_size: u64,
    pub max_age_days: u32,
    pub ignore_mime_patterns: Seq<Seq<char>>,
    pub ignore_app_patterns: Seq<Seq<char>>,
}

impl View for Config {
    type V = ConfigV;

    open spec fn view(&self) -> ConfigV {
        ConfigV {
            max_entries: self.daemon.max_entries,
            max_entry_size: self.daemon.max_entry_size,
            min_entry_size: self.daemon.min_entry_size,
            max_age_days: self.daemon.max_age_days,
            ignore_mime_patterns: self.clipboard.ignore_mime_patterns.deep_view(),
            ignore_app_patterns: self.clipboard.ignore_app_patterns.deep_view(),
        }
    }
}

/// The default number of retained entries.
pub fn default_max_entries() -> (n: u32)
    ensures
        n == 1000,
{
    1000
}

/// The default capture size ceiling: ten mebibytes.
pub fn default_max_entry_size() -> (n: u64)
    ensures
        n == 10485760,
{
    10485760
}

/// The default capture size floor.
pub fn default_min_entry_size() -> (n: u64)
    ensures
        n == 1,
{
    1
}

/// The view of the default configuration: the documented bounds, no age
/// limit, and one ignored MIME pattern, a password-manager hint.
pub open spec fn default_config_v() -> ConfigV {
    ConfigV {
        max_entries: 1000,
        max_entry_size: 10485760,
        min_entry_size: 1,
        max_age_days: 0,
        ignore_mime_patterns: seq!["x-kde-passwordManagerHint"@],
        ignore_app_patterns: Seq::empty(),
    }
}

impl Default for DaemonConfig {
    fn default() -> (c: DaemonConfig)
        ensures
            c.max_entries == 1000,
            c.max_entry_size == 10485760,
            c.min_entry_size == 1,
            c.max_age_days == 0,
    {
        DaemonConfig {
            max_entries: default_max_entries(),
            max_entry_size: default_max_entry_size(),
            min_entry_size: default_min_entry_size(),
            max_age_days: 0,
        }
    }
}

impl Default for ClipboardConfig {
    fn default() -> (c: ClipboardConfig)
        ensures
            c.ignore_mime_patterns.deep_view() =~= seq!["x-kde-passwordManagerHint"@],
            c.ignore_app_patterns.deep_view() =~= Seq::<Seq<char>>::empty(),
    {
        let mut pats: Vec<String> = Vec::new();
        pats.push(String::from_str("x-kde-passwordManagerHint"));
        let c = ClipboardConfig { ignore_mime_patterns: pats, ignore_app_patterns: Vec::new() };
        proof {
            assert(c.ignore_mime_patterns.deep_view() =~= seq!["x-kde-passwordManagerHint"@]);
            assert(c.ignore_app_patterns.deep_view() =~= Seq::<Seq<char>>::empty());
        }
        c
    }
}

impl Default for Config {
    fn default() -> (c: Config)
        ensures
            c@ == default_config_v(),
    {
        let c = Config { daemon: DaemonConfig::default(), clipboard: ClipboardConfig::default() };
        proof {
            assert(c@.ignore_mime_patterns =~= default_config_v().ignore_mime_patterns);
            assert(c@.ignore_app_patterns =~= default_config_v().ignore_app_patterns);
        }
        c
    }
}

// ---------------------------------------------------------------------------
// Parsing.
// ---------------------------------------------------------------------------

/// The section a line belongs to.
#[derive(PartialEq, Eq, Structural, Clone, Copy, Debug)]
pub enum Section {
    Daemon,
    Clipboard,
    Other,
}

/// The position of the first newline at or after `i`, or the end.
pub open spec fn line_end(s: Seq<char>, i: int) -> int
    decreases s.len() - i,
{
    if 0 <= i < s.len() {
        if s[i] == '\n' {
            i
        } else {
            line_end(s, i + 1)
        }
    } else {
        i
    }
}

/// The position of the first `=` at or after `i`, or the end.
pub open spec fn eq_pos(s: Seq<char>, i: int) -> int
    decreases s.len() - i,
{
    if 0 <= i < s.len() {
        if s[i] == '=' {
            i
        } else {
            eq_pos(s, i + 1)
        }
    } else {
        i
    }
}

/// Parsing an unsigned value that must take the whole text.
pub open spec fn sp_whole_u64(s: Seq<char>) -> Option<u64> {
    match spec_parse_u64(s, 0) {
        Some((v, j)) => if j == s.len() {
            Some(v)
        } else {
            None
        },
        None => None,
    }
}

/// Parsing a list of quoted strings in brackets that must take the whole
/// text: `[]`, or `["a", "b"]`.
pub open spec fn sp_str_list(s: Seq<char>) -> Option<Seq<Seq<char>>> {
    if s.len() >= 2 && s[0] == '[' && s[s.len() - 1] == ']' {
        let inner = trim_ws(s.subrange(1, s.len() - 1));
        if inner.len() == 0 {
            Some(Seq::empty())
        } else {
            sp_str_items(inner)
        }
    } else {
        None
    }
}

/// Parsing comma-separated quoted strings, whitespace around each allowed.
pub open spec fn sp_str_items(s: Seq<char>) -> Option<Seq<Seq<char>>>
    decreases s.len(),
{
    let t = ws_end(s, 0);
    match sp_string(s, t) {
        Some((x, j)) => {
            let j2 = ws_end(s, j);
            if j2 == s.len() {
                Some(seq![x])
            } else if 0 <= j2 < s.len() && s[j2] == ',' {
                match sp_str_items(s.subrange(j2 + 1, s.len() as int)) {
                    Some(xs) => Some(seq![x] + xs),
                    None => None,
                }
            } else {
                None
            }
        },
        None => None,
    }
}

/// One configuration line applied to the state: comments and blank lines
/// change nothing, a bracketed line selects a section, and `key = value`
/// within a known section sets a known key; unknown sections and keys are
/// ignored.  A malformed line or value yields `None`.
pub open spec fn config_step(cfg: ConfigV, sec: Section, line: Seq<char>) -> Option<
    (ConfigV, Section),
> {
    let l = trim_ws(line);
    if l.len() == 0 || l[0] == '#' {
        Some((cfg, sec))
    } else if l[0] == '[' {
        if l == "[daemon]"@ {
            Some((cfg, Section::Daemon))
        } else if l == "[clipboard]"@ {
            Some((cfg, Section::Clipboard))
        } else if l[l.len() - 1] == ']' {
            Some((cfg, Section::Other))
        } else {
            None
        }
    } else {
        let p = eq_pos(l, 0);
        if p >= l.len() {
            None
        } else {
            let key = trim_ws(l.subrange(0, p));
            let value = trim_ws(l.subrange(p + 1, l.len() as int));
            config_set(cfg, sec, key, value)
        }
    }
}

/// Setting one key of the configuration from its textual value.
pub open spec fn config_set(cfg: ConfigV, sec: Section, key: Seq<char>, value: Seq<char>) -> Option<
    (ConfigV, Section),
> {
    if sec == Section::Daemon && key == "max_entries"@ {
        match sp_whole_u64(value) {
            Some(v) => if v <= u32::MAX as u64 {
                Some((ConfigV { max_entries: v as u32, ..cfg }, sec))
            } else {
                None
            },
            None => None,
        }
    } else if sec == Section::Daemon && key == "max_entry_size"@ {
        match sp_whole_u64(value) {
            Some(v) => Some((ConfigV { max_entry_size: v, ..cfg }, sec)),
            None => None,
        }
    } else if sec == Section::Daemon && key == "min_entry_size"@ {
        match sp_whole_u64(value) {
            Some(v) => Some((ConfigV { min_entry_size: v, ..cfg }, sec)),
            None => None,
        }
    } else if sec == Section::Daemon && key == "max_age_days"@ {
        match sp_whole_u64(value) {
            Some(v) => if v <= u32::MAX as u64 {
                Some((ConfigV { max_age_days: v as u32, ..cfg }, sec))
            } else {
                None
            },
            None => None,
        }
    } else if sec == Section::Clipboard && key == "ignore_mime_patterns"@ {
        match sp_str_list(value) {
            Some(xs) => Some((ConfigV { ignore_mime_patterns: xs, ..cfg }, sec)),
            None => None,
        }
    } else if sec == Section::Clipboard && key == "ignore_app_patterns"@ {
        match sp_str_list(value) {
            Some(xs) => Some((ConfigV { ignore_app_patterns: xs, ..cfg }, sec)),
            None => None,
        }
    } else {
        Some((cfg, sec))
    }
}

/// The configuration a text parses to from a given state: one line at a time,
/// split at newlines.
pub open spec fn spec_parse_config_from(cfg: ConfigV, sec: Section, s: Seq<char>) -> Option<
    ConfigV,
>
    decreases s.len(),
{
    if s.len() == 0 {
        Some(cfg)
    } else {
        let p = line_end(s, 0);
        match config_step(cfg, sec, s.subrange(0, if p < s.len() {
            p
        } else {
            s.len() as int
        })) {
            Some((cfg2, sec2)) => if 0 <= p < s.len() {
                spec_parse_config_from(cfg2, sec2, s.subrange(p + 1, s.len() as int))
            } else {
                Some(cfg2)
            },
            None => None,
        }
    }
}

/// The configuration a whole text parses to, starting from the defaults.
pub open spec fn spec_parse_config(s: Seq<char>) -> Option<ConfigV> {
    spec_parse_config_from(default_config_v(), Section::Other, s)
}

// ---------------------------------------------------------------------------
// The executable parser.
// ---------------------------------------------------------------------------

/// A copy of `s[a..b]`.
fn sub_chars(s: &Vec<char>, a: usize, b: usize) -> (r: Vec<char>)
    requires
        a <= b <= s@.len(),
    ensures
        r@ == s@.subrange(a as int, b as int),
{
    let mut r: Vec<char> = Vec::new();
    let mut k: usize = a;
    while k < b
        invariant
            a <= k <= b <= s@.len(),
            r@ == s@.subrange(a as int, k as int),
        decreases b - k,
    {
        r.push(s[k]);
        assert(r@ =~= s@.subrange(a as int, k as int + 1));
        k += 1;
    }
    r
}

/// Whether the characters of `v` are exactly the literal `l`.
fn is_lit(v: &Vec<char>, l: &str) -> (b: bool)
    ensures
        b == (v@ == l@),
{
    match p_lit(v, 0, l) {
        Some(j) => {
            if j == v.len() {
                assert(v@ =~= l@) by {
                    assert(v@.subrange(0, l@.len() as int) == l@);
                }
                true
            } else {
                false
            }
        },
        None => {
            assert(v@ != l@) by {
                if v@ == l@ {
                    assert(v@.subrange(0, l@.len() as int) =~= l@);
                }
            }
            false
        },
    }
}

/// The position of the first newline, or the end.
fn find_line_end(s: &Vec<char>) -> (p: usize)
    ensures
        p == line_end(s@, 0),
        p <= s@.len(),
{
    let n = s.len();
    let mut p: usize = 0;
    while p < n && s[p] != '\n'
        invariant
            0 <= p <= n,
            n == s@.len(),
            line_end(s@, 0) == line_end(s@, p as int),
        decreases n - p,
    {
        proof {
            assert(line_end(s@, p as int) == line_end(s@, p as int + 1));
        }
        p += 1;
    }
    p
}

/// The position of the first `=`, or the end.
fn find_eq(s: &Vec<char>) -> (p: usize)
    ensures
        p == eq_pos(s@, 0),
        p <= s@.len(),
{
    let n = s.len();
    let mut p: usize = 0;
    while p < n && s[p] != '='
        invariant
            0 <= p <= n,
            n == s@.len(),
            eq_pos(s@, 0) == eq_pos(s@, p as int),
        decreases n - p,
    {
        proof {
            assert(eq_pos(s@, p as int) == eq_pos(s@, p as int + 1));
        }
        p += 1;
    }
    p
}

/// The first position at or after `i` holding no whitespace.
fn skip_ws_from(s: &Vec<char>, i: usize) -> (p: usize)
    requires
        i <= s@.len(),
    ensures
        p == ws_end(s@, i as int),
        i <= p <= s@.len(),
{
    let n = s.len();
    let mut p: usize = i;
    while p < n && crate::text::is_ws_exec(s[p])
        invariant
            i <= p <= n,
            n == s@.len(),
            ws_end(s@, i as int) == ws_end(s@, p as int),
        decreases n - p,
    {
        proof {
            assert(ws_end(s@, p as int) == ws_end(s@, p as int + 1));
        }
        p += 1;
    }
    p
}

/// Parse an unsigned value that must take the whole text.
fn p_whole_u64(v: &Vec<char>) -> (r: Option<u64>)
    ensures
        r == sp_whole_u64(v@),
{
    match parse_u64_at(v, 0) {
        Some((x, j)) => {
            if j == v.len() {
                Some(x)
            } else {
                None
            }
        },
        None => None,
    }
}

/// Parse comma-separated quoted strings, as `sp_str_items` says.
fn p_str_items(s: &Vec<char>) -> (r: Option<Vec<String>>)
    ensures
        match r {
            Some(xs) => sp_str_items(s@) == Some(xs.deep_view()),
            None => sp_str_items(s@) is None,
        },
    decreases s@.len(),
{
    let t = skip_ws_from(s, 0);
    let (x, j) = match p_string(s, t) {
        Some(v) => v,
        None => {
            return None;
        },
    };
    let sx = string_from_chars(&x);
    let j2 = skip_ws_from(s, j);
    if j2 == s.len() {
        let mut xs: Vec<String> = Vec::new();
        xs.push(sx);
        assert(xs.deep_view() =~= seq![x@]);
        Some(xs)
    } else if s[j2] == ',' {
        let tail = sub_chars(s, j2 + 1, s.len());
        match p_str_items(&tail) {
            Some(mut xs) => {
                xs.insert(0, sx);
                proof {
                    let prev = xs.deep_view().drop_first();
                    assert(sp_str_items(tail@) == Some(prev)) by {
                        assert(xs.deep_view().drop_first() =~= xs.deep_view().subrange(
                            1,
                            xs.deep_view().len() as int,
                        ));
                    }
                    assert(xs.deep_view() =~= seq![x@] + xs.deep_view().drop_first());
                }
                Some(xs)
            },
            None => None,
        }
    } else {
        None
    }
}

/// Parse a bracketed list of quoted strings, as `sp_str_list` says.
fn p_str_list(v: &Vec<char>) -> (r: Option<Vec<String>>)
    ensures
        match r {
            Some(xs) => sp_str_list(v@) == Some(xs.deep_view()),
            None => sp_str_list(v@) is None,
        },
{
    let n = v.len();
    if n < 2 {
        return None;
    }
    if !(v[0] == '[' && v[n - 1] == ']') {
        return None;
    }
    let mid = sub_chars(v, 1, n - 1);
    let inner = crate::codec::trim_chars(&mid);
    if inner.len() == 0 {
        let xs: Vec<String> = Vec::new();
        assert(xs.deep_view() =~= Seq::<Seq<char>>::empty());
        return Some(xs);
    }
    p_str_items(&inner)
}

/// Set one key of the configuration from its textual value, as `config_set`
/// says; the section is unchanged.
fn config_set_exec(cfg: &mut Config, sec: Section, key: &Vec<char>, value: &Vec<char>) -> (ok:
    bool)
    ensures
        match config_set(old(cfg)@, sec, key@, value@) {
            Some((c2, s2)) => ok && final(cfg)@ == c2 && s2 == sec,
            None => !ok,
        },
{
    if matches!(sec, Section::Daemon) && is_lit(key, "max_entries") {
        match p_whole_u64(value) {
            Some(x) => {
                if x <= 0xFFFFFFFFu64 {
                    cfg.daemon.max_entries = x as u32;
                    true
                } else {
                    false
                }
            },
            None => false,
        }
    } else if matches!(sec, Section::Daemon) && is_lit(key, "max_entry_size") {
        match p_whole_u64(value) {
            Some(x) => {
                cfg.daemon.max_entry_size = x;
                true
            },
            None => false,
        }
    } else if matches!(sec, Section::Daemon) && is_lit(key, "min_entry_size") {
        match p_whole_u64(value) {
            Some(x) => {
                cfg.daemon.min_entry_size = x;
                true
            },
            None => false,
        }
    } else if matches!(sec, Section::Daemon) && is_lit(key, "max_age_days") {
        match p_whole_u64(value) {
            Some(x) => {
                if x <= 0xFFFFFFFFu64 {
                    cfg.daemon.max_age_days = x as u32;
                    true
                } else {
                    false
                }
            },
            None => false,
        }
    } else if matches!(sec, Section::Clipboard) && is_lit(key, "ignore_mime_patterns") {
        match p_str_list(value) {
            Some(xs) => {
                cfg.clipboard.ignore_mime_patterns = xs;
                true
            },
            None => false,
        }
    } else if matches!(sec, Section::Clipboard) && is_lit(key, "ignore_app_patterns") {
        match p_str_list(value) {
            Some(xs) => {
                cfg.clipboard.ignore_app_patterns = xs;
                true
            },
            None => false,
        }
    } else {
        true
    }
}

/// Apply one configuration line, as `config_step` says.
fn config_step_exec(cfg: &mut Config, sec: Section, line: &Vec<char>) -> (r: Option<Section>)
    ensures
        match config_step(old(cfg)@, sec, line@) {
            Some((c2, s2)) => r == Some(s2) && final(cfg)@ == c2,
            None => r is None,
        },
{
    let l = crate::codec::trim_chars(line);
    let n = l.len();
    if n == 0 || l[0] == '#' {
        return Some(sec);
    }
    if l[0] == '[' {
        if is_lit(&l, "[daemon]") {
            return Some(Section::Daemon);
        } else if is_lit(&l, "[clipboard]") {
            return Some(Section::Clipboard);
        } else if l[n - 1] == ']' {
            return Some(Section::Other);
        } else {
            return None;
        }
    }
    let p = find_eq(&l);
    if p >= n {
        return None;
    }
    let rawkey = sub_chars(&l, 0, p);
    let key = crate::codec::trim_chars(&rawkey);
    let rawvalue = sub_chars(&l, p + 1, n);
    let value = crate::codec::trim_chars(&rawvalue);
    if config_set_exec(cfg, sec, &key, &value) {
        Some(sec)
    } else {
        None
    }
}

/// Parse a configuration text from a given state, as `spec_parse_config_from`
/// says.
fn parse_config_from(cfg: &mut Config, sec: Section, s: &Vec<char>) -> (ok: bool)
    ensures
        match spec_parse_config_from(old(cfg)@, sec, s@) {
            Some(c2) => ok && final(cfg)@ == c2,
            None => !ok,
        },
    decreases s@.len(),
{
    if s.len() == 0 {
        return true;
    }
    let p = find_line_end(s);
    let line = sub_chars(s, 0, p);
    let sec2 = match config_step_exec(cfg, sec, &line) {
        Some(x) => x,
        None => {
            return false;
        },
    };
    if p < s.len() {
        let rest = sub_chars(s, p + 1, s.len());
        parse_config_from(cfg, sec2, &rest)
    } else {
        true
    }
}

/// Parse a configuration text; on any malformed line the whole text is
/// rejected.
pub fn from_str(s: &str) -> (r: Result<Config, String>)
    ensures
        match r {
            Ok(c) => spec_parse_config(s@) == Some(c@),
            Err(_) => spec_parse_config(s@) is None,
        },
{
    let mut cfg = Config::default();
    let cs = str_chars(s);
    if parse_config_from(&mut cfg, Section::Other, &cs) {
        Ok(cfg)
    } else {
        Err(String::from_str("malformed configuration"))
    }
}

impl Config {
    /// Load the configuration from the config file's contents, when the file
    /// exists; else the defaults apply.
    pub fn load(contents: Option<&str>) -> (r: Result<Config, String>)
        ensures
            match contents {
                Some(s) => match r {
                    Ok(c) => spec_parse_config(s@) == Some(c@),
                    Err(_) => spec_parse_config(s@) is None,
                },
                None => r matches Ok(c) && c@ == default_config_v(),
            },
    {
        match contents {
            Some(s) => from_str(s),
            None => Ok(Config::default()),
        }
    }
}

} // verus!
