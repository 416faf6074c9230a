//! The wire codec: each record is one JSON object on a single line.
//!
//! The encoder produces the compact canonical form: no interstitial
//! whitespace, fields in a fixed order, variants tagged by a leading `"type"`
//! field.  The decoder accepts exactly that form (the form the daemon's own
//! encoder and common JSON serializers emit, modulo surrounding whitespace,
//! which the byte-level entry points trim); any other record is malformed and
//! yields no value.

use vstd::prelude::*;

verus! {

use crate::text::{
    char_from_u32,
    dec_i64,
    dec_u64,
    digit_char,
    digit_val,
    is_digit,
    lemma_parse_i64_at,
    lemma_parse_u64_at,
    parse_i64_at,
    parse_u64_at,
    spec_parse_i64,
    spec_parse_u64,
    str_chars,
};

// ---------------------------------------------------------------------------
// Literals.
// ---------------------------------------------------------------------------

/// Whether the text `l` occurs in `s` at position `i`.
pub open spec fn lit_at(s: Seq<char>, i: int, l: Seq<char>) -> bool {
    0 <= i && i + l.len() <= s.len() && s.subrange(i, i + l.len()) == l
}

/// Texts occurring at the same position and differing at some index cannot
/// both be there.
proof fn lemma_lit_at_diff(s: Seq<char>, i: int, l1: Seq<char>, l2: Seq<char>, k: int)
    requires
        lit_at(s, i, l1),
        0 <= k < l1.len(),
        k < l2.len(),
        l1[k] != l2[k],
    ensures
        !lit_at(s, i, l2),
{
    if lit_at(s, i, l2) {
        assert(s.subrange(i, i + l1.len())[k] == l1[k]);
        assert(s.subrange(i, i + l2.len())[k] == l2[k]);
    }
}

/// Match the literal `l` at position `i`, returning the position after it.
pub(crate) fn p_lit(s: &Vec<char>, i: usize, l: &str) -> (r: Option<usize>)
    requires
        i <= s@.len(),
    ensures
        match r {
            Some(j) => lit_at(s@, i as int, l@) && j == i + l@.len() && i <= j <= s@.len(),
            None => !lit_at(s@, i as int, l@),
        },
{
    let lc = str_chars(l);
    let n = lc.len();
    let sl = s.len();
    if n > sl - i {
        assert(!lit_at(s@, i as int, l@));
        return None;
    }
    let mut k: usize = 0;
    while k < n
        invariant
            0 <= k <= n,
            n == lc@.len(),
            lc@ == l@,
            i + n <= sl,
            sl == s@.len(),
            forall|m: int| 0 <= m < k ==> s@[i + m] == lc@[m],
        decreases n - k,
    {
        if s[i + k] != lc[k] {
            assert(!lit_at(s@, i as int, l@)) by {
                if lit_at(s@, i as int, l@) {
                    assert(s@.subrange(i as int, i + l@.len())[k as int] == l@[k as int]);
                }
            }
            return None;
        }
        k += 1;
    }
    assert(s@.subrange(i as int, i + l@.len()) =~= l@);
    Some(i + n)
}

/// Append the literal `l` to `out`.
pub(crate) fn push_lit(out: &mut Vec<char>, l: &str)
    ensures
        final(out)@ == old(out)@ + l@,
{
    let mut lc = str_chars(l);
    out.append(&mut lc);
}

// ---------------------------------------------------------------------------
// Booleans.
// ---------------------------------------------------------------------------

/// The text of a boolean.
pub open spec fn jbool(b: bool) -> Seq<char> {
    if b {
        "true"@
    } else {
        "false"@
    }
}

/// Parsing a boolean at position `i`.
pub open spec fn sp_bool(s: Seq<char>, i: int) -> Option<(bool, int)> {
    if lit_at(s, i, "true"@) {
        Some((true, i + "true"@.len()))
    } else if lit_at(s, i, "false"@) {
        Some((false, i + "false"@.len()))
    } else {
        None
    }
}

/// Parse a boolean at position `i`, as `sp_bool` says.
fn p_bool(s: &Vec<char>, i: usize) -> (r: Option<(bool, usize)>)
    requires
        i <= s@.len(),
    ensures
        match r {
            Some((b, j)) => sp_bool(s@, i as int) == Some((b, j as int)) && i <= j <= s@.len(),
            None => sp_bool(s@, i as int) is None,
        },
{
    match p_lit(s, i, "true") {
        Some(j) => Some((true, j)),
        None => match p_lit(s, i, "false") {
            Some(j) => Some((false, j)),
            None => None,
        },
    }
}

/// A boolean's text parses back to exactly that boolean.
proof fn lemma_bool_at(s: Seq<char>, i: int, b: bool)
    requires
        lit_at(s, i, jbool(b)),
    ensures
        sp_bool(s, i) == Some((b, i + jbool(b).len())),
{
    reveal_strlit("true");
    reveal_strlit("false");
    if !b {
        lemma_lit_at_diff(s, i, "false"@, "true"@, 0);
    }
}

// ---------------------------------------------------------------------------
// Strings, with the escapes of the JSON grammar.
// ---------------------------------------------------------------------------

/// The lowercase hex digit for a value below sixteen.
pub open spec fn hex_char(d: nat) -> char {
    if d < 10 {
        digit_char(d)
    } else {
        ((d + 87) as u8) as char
    }
}

/// Whether `c` is a hex digit.
pub open spec fn is_hex(c: char) -> bool {
    is_digit(c) || ('a' <= c && c <= 'f') || ('A' <= c && c <= 'F')
}

/// The value of a hex digit.
pub open spec fn hex_val(c: char) -> nat {
    if is_digit(c) {
        digit_val(c)
    } else if 'a' <= c && c <= 'f' {
        (c as u32 - 87) as nat
    } else {
        (c as u32 - 55) as nat
    }
}

/// The escaped form of one character inside a JSON string.
pub open spec fn esc_char(c: char) -> Seq<char> {
    if c == '"' {
        seq!['\\', '"']
    } else if c == '\\' {
        seq!['\\', '\\']
    } else if c == '\n' {
        seq!['\\', 'n']
    } else if c == '\r' {
        seq!['\\', 'r']
    } else if c == '\t' {
        seq!['\\', 't']
    } else if c == (8u8 as char) {
        seq!['\\', 'b']
    } else if c == (12u8 as char) {
        seq!['\\', 'f']
    } else if (c as u32) < 32 {
        seq!['\\', 'u', '0', '0', hex_char((c as u32 / 16) as nat), hex_char((c as u32 % 16) as nat)]
    } else {
        seq![c]
    }
}

/// The escaped form of a character sequence.
pub open spec fn esc_seq(s: Seq<char>) -> Seq<char>
    decreases s.len(),
{
    if s.len() == 0 {
        Seq::empty()
    } else {
        esc_char(s[0]) + esc_seq(s.drop_first())
    }
}

/// The text of a JSON string: the escaped characters between quotes.
pub open spec fn jstr(s: Seq<char>) -> Seq<char> {
    seq!['"'] + esc_seq(s) + seq!['"']
}

/// The character an escape letter stands for, if it is a valid single-letter
/// escape.
pub open spec fn unesc(e: char) -> Option<char> {
    if e == '"' {
        Some('"')
    } else if e == '\\' {
        Some('\\')
    } else if e == '/' {
        Some('/')
    } else if e == 'n' {
        Some('\n')
    } else if e == 'r' {
        Some('\r')
    } else if e == 't' {
        Some('\t')
    } else if e == 'b' {
        Some(8u8 as char)
    } else if e == 'f' {
        Some(12u8 as char)
    } else {
        None
    }
}

/// Prepend a character to the value of a string parse.
pub open spec fn sp_cons(c: char, r: Option<(Seq<char>, int)>) -> Option<(Seq<char>, int)> {
    match r {
        Some((t, j)) => Some((seq![c] + t, j)),
        None => None,
    }
}

/// Parsing the body of a JSON string from position `i` (after the opening
/// quote) up to and including the closing quote: the unescaped characters and
/// the position after the closing quote.
pub open spec fn sp_str_body(s: Seq<char>, i: int) -> Option<(Seq<char>, int)>
    decreases s.len() - i,
{
    if i < 0 || i >= s.len() {
        None
    } else if s[i] == '"' {
        Some((Seq::empty(), i + 1))
    } else if s[i] == '\\' {
        if i + 1 < s.len() {
            let e = s[i + 1];
            if e == 'u' {
                if i + 5 < s.len() && is_hex(s[i + 2]) && is_hex(s[i + 3]) && is_hex(s[i + 4])
                    && is_hex(s[i + 5]) {
                    let v = (hex_val(s[i + 2]) * 4096 + hex_val(s[i + 3]) * 256 + hex_val(
                        s[i + 4],
                    ) * 16 + hex_val(s[i + 5])) as u32;
                    if v < 0xD800 || v > 0xDFFF {
                        sp_cons(v as char, sp_str_body(s, i + 6))
                    } else {
                        None
                    }
                } else {
                    None
                }
            } else {
                match unesc(e) {
                    Some(c) => sp_cons(c, sp_str_body(s, i + 2)),
                    None => None,
                }
            }
        } else {
            None
        }
    } else if (s[i] as u32) >= 32 {
        sp_cons(s[i], sp_str_body(s, i + 1))
    } else {
        None
    }
}

/// Parsing a JSON string at position `i`: an opening quote, then its body.
pub open spec fn sp_string(s: Seq<char>, i: int) -> Option<(Seq<char>, int)> {
    if 0 <= i < s.len() && s[i] == '"' {
        sp_str_body(s, i + 1)
    } else {
        None
    }
}

/// A successful string-body parse lands strictly ahead, within the text.
proof fn lemma_sp_str_body_bounds(s: Seq<char>, i: int)
    requires
        sp_str_body(s, i) is Some,
    ensures
        i < sp_str_body(s, i)->Some_0.1 <= s.len(),
    decreases s.len() - i,
{
    if s[i] == '"' {
    } else if s[i] == '\\' {
        let e = s[i + 1];
        if e == 'u' {
            lemma_sp_str_body_bounds(s, i + 6);
        } else {
            lemma_sp_str_body_bounds(s, i + 2);
        }
    } else {
        lemma_sp_str_body_bounds(s, i + 1);
    }
}

/// The lowercase hex digit character for a value below sixteen.
pub(crate) fn hex_char_exec(d: u8) -> (c: char)
    requires
        d < 16,
    ensures
        c == hex_char(d as nat),
{
    if d < 10 {
        (48 + d) as char
    } else {
        (87 + d) as char
    }
}

/// Whether `c` is a hex digit.
fn is_hex_exec(c: char) -> (b: bool)
    ensures
        b == is_hex(c),
{
    (c >= '0' && c <= '9') || (c >= 'a' && c <= 'f') || (c >= 'A' && c <= 'F')
}

/// The value of a hex digit.
fn hex_val_exec(c: char) -> (d: u8)
    requires
        is_hex(c),
    ensures
        d as nat == hex_val(c),
        d < 16,
{
    let v = c as u32;
    if c >= '0' && c <= '9' {
        (v - 48) as u8
    } else if c >= 'a' && c <= 'f' {
        (v - 87) as u8
    } else {
        (v - 55) as u8
    }
}

/// Append the escaped form of one character to `out`.
fn push_esc_char(out: &mut Vec<char>, c: char)
    ensures
        final(out)@ == old(out)@ + esc_char(c),
{
    if c == '"' {
        out.push('\\');
        out.push('"');
        assert(final(out)@ =~= old(out)@ + esc_char(c));
    } else if c == '\\' {
        out.push('\\');
        out.push('\\');
        assert(final(out)@ =~= old(out)@ + esc_char(c));
    } else if c == '\n' {
        out.push('\\');
        out.push('n');
        assert(final(out)@ =~= old(out)@ + esc_char(c));
    } else if c == '\r' {
        out.push('\\');
        out.push('r');
        assert(final(out)@ =~= old(out)@ + esc_char(c));
    } else if c == '\t' {
        out.push('\\');
        out.push('t');
        assert(final(out)@ =~= old(out)@ + esc_char(c));
    } else if c == (8u8 as char) {
        out.push('\\');
        out.push('b');
        assert(final(out)@ =~= old(out)@ + esc_char(c));
    } else if c == (12u8 as char) {
        out.push('\\');
        out.push('f');
        assert(final(out)@ =~= old(out)@ + esc_char(c));
    } else if (c as u32) < 32 {
        let v = c as u32;
        out.push('\\');
        out.push('u');
        out.push('0');
        out.push('0');
        out.push(hex_char_exec((v / 16) as u8));
        out.push(hex_char_exec((v % 16) as u8));
        assert(final(out)@ =~= old(out)@ + esc_char(c));
    } else {
        out.push(c);
        assert(final(out)@ =~= old(out)@ + esc_char(c));
    }
}

/// Append the quoted, escaped form of `x` to `out`.
fn push_jstr(out: &mut Vec<char>, x: &str)
    ensures
        final(out)@ == old(out)@ + jstr(x@),
{
    let cs = str_chars(x);
    let n = cs.len();
    out.push('"');
    let ghost base = out@;
    let mut i: usize = 0;
    while i < n
        invariant
            0 <= i <= n,
            n == cs@.len(),
            cs@ == x@,
            out@ == base + esc_seq(cs@.subrange(0, i as int)),
        decreases n - i,
    {
        let ghost before = out@;
        push_esc_char(out, cs[i]);
        proof {
            lemma_esc_seq_snoc(cs@.subrange(0, i as int), cs@[i as int]);
            assert(cs@.subrange(0, i as int + 1) =~= cs@.subrange(0, i as int) + seq![
                cs@[i as int],
            ]);
            assert(out@ =~= base + esc_seq(cs@.subrange(0, i as int + 1)));
        }
        i += 1;
    }
    assert(cs@.subrange(0, n as int) =~= cs@);
    out.push('"');
    assert(final(out)@ =~= old(out)@ + jstr(x@));
}

/// Escaping distributes over appending one character.
proof fn lemma_esc_seq_snoc(s: Seq<char>, c: char)
    ensures
        esc_seq(s + seq![c]) == esc_seq(s) + esc_char(c),
    decreases s.len(),
{
    if s.len() == 0 {
        assert(s + seq![c] =~= seq![c]);
        assert((seq![c]).drop_first() =~= Seq::<char>::empty());
        assert(esc_seq(Seq::<char>::empty()) == Seq::<char>::empty());
        assert(esc_seq(seq![c]) == esc_char(c) + esc_seq(Seq::<char>::empty()));
        assert(esc_seq(s) == Seq::<char>::empty());
        assert(esc_seq(s + seq![c]) =~= esc_seq(s) + esc_char(c));
    } else {
        let t = s + seq![c];
        assert(t[0] == s[0]);
        assert(t.drop_first() =~= s.drop_first() + seq![c]);
        lemma_esc_seq_snoc(s.drop_first(), c);
        assert(esc_seq(t) == esc_char(s[0]) + (esc_seq(s.drop_first()) + esc_char(c)));
        assert(esc_char(s[0]) + (esc_seq(s.drop_first()) + esc_char(c)) =~= (esc_char(s[0])
            + esc_seq(s.drop_first())) + esc_char(c));
    }
}

/// Parse a JSON string at position `i`, as `sp_string` says.
pub(crate) fn p_string(s: &Vec<char>, i: usize) -> (r: Option<(Vec<char>, usize)>)
    requires
        i <= s@.len(),
    ensures
        match r {
            Some((v, j)) => sp_string(s@, i as int) == Some((v@, j as int)) && i < j <= s@.len(),
            None => sp_string(s@, i as int) is None,
        },
{
    let sl = s.len();
    if i >= sl || s[i] != '"' {
        return None;
    }
    let mut acc: Vec<char> = Vec::new();
    let mut k: usize = i + 1;
    loop
        invariant
            i + 1 <= k <= sl,
            sl == s@.len(),
            i < sl,
            s@[i as int] == '"',
            match sp_str_body(s@, k as int) {
                Some((t, j)) => sp_str_body(s@, i as int + 1) == Some((acc@ + t, j)),
                None => sp_str_body(s@, i as int + 1) is None,
            },
        decreases sl - k,
    {
        if k >= sl {
            return None;
        }
        let c = s[k];
        if c == '"' {
            assert(sp_str_body(s@, k as int) == Some((Seq::<char>::empty(), k + 1)));
            assert(acc@ + Seq::<char>::empty() =~= acc@);
            return Some((acc, k + 1));
        } else if c == '\\' {
            if k + 1 >= sl {
                return None;
            }
            let e = s[k + 1];
            if e == 'u' {
                if sl - k <= 5 {
                    return None;
                }
                let c2 = s[k + 2];
                let c3 = s[k + 3];
                let c4 = s[k + 4];
                let c5 = s[k + 5];
                if !(is_hex_exec(c2) && is_hex_exec(c3) && is_hex_exec(c4) && is_hex_exec(c5)) {
                    return None;
                }
                let v: u32 = hex_val_exec(c2) as u32 * 4096 + hex_val_exec(c3) as u32 * 256
                    + hex_val_exec(c4) as u32 * 16 + hex_val_exec(c5) as u32;
                if !(v < 0xD800 || v > 0xDFFF) {
                    return None;
                }
                match char_from_u32(v) {
                    Some(ch) => {
                        proof {
                            vstd::utf8::char_u32_cast(ch, v);
                            assert(ch == (v as char));
                            assert(sp_str_body(s@, k as int) == sp_cons(
                                v as char,
                                sp_str_body(s@, k as int + 6),
                            ));
                        }
                        let ghost acc0 = acc@;
                        acc.push(ch);
                        proof {
                            lemma_cons_shift(s@, i as int + 1, k as int, acc0, ch, k as int + 6);
                        }
                        k += 6;
                    },
                    None => {
                        proof {
                            assert(false);
                        }
                        return None;
                    },
                }
            } else {
                let u = if e == '"' {
                    Some('"')
                } else if e == '\\' {
                    Some('\\')
                } else if e == '/' {
                    Some('/')
                } else if e == 'n' {
                    Some('\n')
                } else if e == 'r' {
                    Some('\r')
                } else if e == 't' {
                    Some('\t')
                } else if e == 'b' {
                    Some(8u8 as char)
                } else if e == 'f' {
                    Some(12u8 as char)
                } else {
                    None
                };
                assert(u == unesc(e));
                match u {
                    Some(ch) => {
                        assert(sp_str_body(s@, k as int) == sp_cons(
                            ch,
                            sp_str_body(s@, k as int + 2),
                        ));
                        let ghost acc0 = acc@;
                        acc.push(ch);
                        proof {
                            lemma_cons_shift(s@, i as int + 1, k as int, acc0, ch, k as int + 2);
                        }
                        k += 2;
                    },
                    None => {
                        return None;
                    },
                }
            }
        } else if (c as u32) >= 32 {
            assert(sp_str_body(s@, k as int) == sp_cons(c, sp_str_body(s@, k as int + 1)));
            let ghost acc0 = acc@;
            acc.push(c);
            proof {
                lemma_cons_shift(s@, i as int + 1, k as int, acc0, c, k as int + 1);
            }
            k += 1;
        } else {
            return None;
        }
    }
}

/// One step of the string-body loop: when the body at `k` conses `c` onto the
/// body at `k2`, the accumulated prefix moves across the cons.
proof fn lemma_cons_shift(s: Seq<char>, start: int, k: int, acc0: Seq<char>, c: char, k2: int)
    requires
        sp_str_body(s, k) == sp_cons(c, sp_str_body(s, k2)),
        match sp_str_body(s, k) {
            Some((t, j)) => sp_str_body(s, start) == Some((acc0 + t, j)),
            None => sp_str_body(s, start) is None,
        },
    ensures
        match sp_str_body(s, k2) {
            Some((t, j)) => sp_str_body(s, start) == Some(((acc0 + seq![c]) + t, j)),
            None => sp_str_body(s, start) is None,
        },
{
    match sp_str_body(s, k2) {
        Some((t, j)) => {
            assert(acc0 + (seq![c] + t) =~= (acc0 + seq![c]) + t);
        },
        None => {},
    }
}

/// A string's escaped, quoted text parses back to exactly that string.
proof fn lemma_jstr_at(s: Seq<char>, i: int, x: Seq<char>)
    requires
        lit_at(s, i, jstr(x)),
    ensures
        sp_string(s, i) == Some((x, i + jstr(x).len())),
{
    assert(s[i] == '"') by {
        assert(s.subrange(i, i + jstr(x).len())[0] == jstr(x)[0]);
    }
    assert(forall|m: int| 0 <= m < jstr(x).len() ==> s[i + m] == #[trigger] jstr(x)[m]) by {
        assert(forall|m: int| 0 <= m < jstr(x).len() ==> s.subrange(i, i + jstr(x).len())[m]
            == #[trigger] jstr(x)[m]);
    }
    assert(s.subrange(i + 1, i + 1 + esc_seq(x).len()) =~= esc_seq(x)) by {
        assert(forall|m: int| 0 <= m < esc_seq(x).len() ==> jstr(x)[m + 1] == #[trigger] esc_seq(
            x,
        )[m]);
    }
    assert(s[i + 1 + esc_seq(x).len()] == '"') by {
        assert(jstr(x)[1 + esc_seq(x).len() as int] == '"');
    }
    lemma_esc_body_at(s, i + 1, x);
}

/// The escaped body of `x`, followed by a closing quote, parses back to `x`.
proof fn lemma_esc_body_at(s: Seq<char>, i: int, x: Seq<char>)
    requires
        0 <= i,
        i + esc_seq(x).len() + 1 <= s.len(),
        s.subrange(i, i + esc_seq(x).len()) == esc_seq(x),
        s[i + esc_seq(x).len()] == '"',
    ensures
        sp_str_body(s, i) == Some((x, i + esc_seq(x).len() + 1)),
    decreases x.len(),
{
    if x.len() == 0 {
        assert(esc_seq(x).len() == 0);
    } else {
        let c = x[0];
        let e = esc_char(c);
        let rest = x.drop_first();
        assert(esc_seq(x) == e + esc_seq(rest));
        assert(forall|m: int| 0 <= m < esc_seq(x).len() ==> s[i + m] == #[trigger] esc_seq(x)[m])
            by {
            assert(forall|m: int| 0 <= m < esc_seq(x).len() ==> s.subrange(
                i,
                i + esc_seq(x).len(),
            )[m] == #[trigger] esc_seq(x)[m]);
        }
        assert(forall|m: int| 0 <= m < e.len() ==> s[i + m] == #[trigger] e[m]) by {
            assert(forall|m: int| 0 <= m < e.len() ==> esc_seq(x)[m] == #[trigger] e[m]);
        }
        assert(s.subrange(i + e.len(), i + e.len() + esc_seq(rest).len()) =~= esc_seq(rest)) by {
            assert(forall|m: int| 0 <= m < esc_seq(rest).len() ==> esc_seq(x)[e.len() + m]
                == #[trigger] esc_seq(rest)[m]);
        }
        lemma_esc_body_at(s, i + e.len(), rest);
        assert(seq![c] + rest =~= x);
        if c == '"' || c == '\\' || c == '\n' || c == '\r' || c == '\t' || c == (8u8 as char) || c
            == (12u8 as char) {
            assert(s[i] == '\\');
            assert(sp_str_body(s, i) == sp_cons(c, sp_str_body(s, i + 2)));
        } else if (c as u32) < 32 {
            assert(s[i] == '\\' && s[i + 1] == 'u' && s[i + 2] == '0' && s[i + 3] == '0');
            let hi = (c as u32 / 16) as nat;
            let lo = (c as u32 % 16) as nat;
            assert(s[i + 4] == hex_char(hi) && s[i + 5] == hex_char(lo));
            lemma_hex_char_val(hi);
            lemma_hex_char_val(lo);
            assert(hex_val('0') == 0);
            let v = (hex_val(s[i + 2]) * 4096 + hex_val(s[i + 3]) * 256 + hex_val(s[i + 4]) * 16
                + hex_val(s[i + 5])) as u32;
            assert(v == c as u32);
            vstd::utf8::char_u32_cast(c, v);
            assert(sp_str_body(s, i) == sp_cons(v as char, sp_str_body(s, i + 6)));
        } else {
            assert(s[i] == c);
            assert(sp_str_body(s, i) == sp_cons(c, sp_str_body(s, i + 1)));
        }
    }
}

/// `hex_char` produces a hex digit that evaluates back to its value.
proof fn lemma_hex_char_val(d: nat)
    requires
        d < 16,
    ensures
        is_hex(hex_char(d)),
        hex_val(hex_char(d)) == d,
{
    if d < 10 {
        assert(hex_char(d) as u32 == d + 48);
    } else {
        assert(hex_char(d) as u32 == d + 87);
    }
}

// ---------------------------------------------------------------------------
// Concatenation helpers for literal positions.
// ---------------------------------------------------------------------------

/// A text is at the start of itself followed by anything.
proof fn lemma_lit_prefix(l: Seq<char>, t: Seq<char>)
    ensures
        lit_at(l + t, 0, l),
{
    assert((l + t).subrange(0, l.len() as int) =~= l);
}

/// A text is right after `a` in `a + l`.
proof fn lemma_lit_append(a: Seq<char>, l: Seq<char>)
    ensures
        lit_at(a + l, a.len() as int, l),
{
    assert((a + l).subrange(a.len() as int, a.len() + l.len() as int) =~= l);
}

/// A text keeps its position when more is appended on the right.
proof fn lemma_lit_extend(s: Seq<char>, t: Seq<char>, i: int, l: Seq<char>)
    requires
        lit_at(s, i, l),
    ensures
        lit_at(s + t, i, l),
{
    assert((s + t).subrange(i, i + l.len()) =~= l) by {
        assert forall|m: int| 0 <= m < l.len() implies (s + t)[i + m] == l[m] by {
            assert(s.subrange(i, i + l.len())[m] == l[m]);
        }
    }
}

// ---------------------------------------------------------------------------
// Requests.
// ---------------------------------------------------------------------------

use crate::protocol::{ErrorCode, ReqV, Request, RespV, Response};
use crate::text::{push_dec_i64, push_dec_u64, string_from_chars};

/// An optional unsigned field: its label and digits, or nothing.
pub open spec fn enc_opt_u32(l: Seq<char>, v: Option<u32>) -> Seq<char> {
    match v {
        Some(x) => l + dec_u64(x as nat),
        None => Seq::empty(),
    }
}

/// An optional string field: its label and quoted text, or nothing.
pub open spec fn enc_opt_str(l: Seq<char>, v: Option<Seq<char>>) -> Seq<char> {
    match v {
        Some(x) => l + jstr(x),
        None => Seq::empty(),
    }
}

/// The canonical text of a request.
pub open spec fn req_text(r: ReqV) -> Seq<char> {
    match r {
        ReqV::GetHistory { limit, offset, search } => "{\"type\":\"get_history\""@ + enc_opt_u32(
            ",\"limit\":"@,
            limit,
        ) + enc_opt_u32(",\"offset\":"@, offset) + enc_opt_str(",\"search\":"@, search) + "}"@,
        ReqV::GetContent { id } => "{\"type\":\"get_content\""@ + ",\"id\":"@ + dec_i64(id as int)
            + "}"@,
        ReqV::SetClipboard { id } => "{\"type\":\"set_clipboard\""@ + ",\"id\":"@ + dec_i64(
            id as int,
        ) + "}"@,
        ReqV::DeleteEntry { id } => "{\"type\":\"delete_entry\""@ + ",\"id\":"@ + dec_i64(id as int)
            + "}"@,
        ReqV::ClearHistory => "{\"type\":\"clear_history\""@ + "}"@,
        ReqV::SetPinned { id, pinned } => "{\"type\":\"set_pinned\""@ + ",\"id\":"@ + dec_i64(
            id as int,
        ) + ",\"pinned\":"@ + jbool(pinned) + "}"@,
        ReqV::GetStatus => "{\"type\":\"get_status\""@ + "}"@,
        ReqV::Ping => "{\"type\":\"ping\""@ + "}"@,
    }
}

/// Whether position `i` holds the closing brace that ends the record.
pub open spec fn sp_closed(s: Seq<char>, i: int) -> bool {
    0 <= i && i + 1 == s.len() && s[i] == '}'
}

/// Parsing an optional unsigned 32-bit field at position `i`.
pub open spec fn sp_opt_u32_field(s: Seq<char>, i: int, l: Seq<char>) -> Option<(Option<u32>, int)> {
    if lit_at(s, i, l) {
        match spec_parse_u64(s, i + l.len()) {
            Some((v, j)) => if v <= u32::MAX as u64 {
                Some((Some(v as u32), j))
            } else {
                None
            },
            None => None,
        }
    } else {
        Some((None, i))
    }
}

/// Parsing an optional string field at position `i`.
pub open spec fn sp_opt_str_field(s: Seq<char>, i: int, l: Seq<char>) -> Option<
    (Option<Seq<char>>, int),
> {
    if lit_at(s, i, l) {
        match sp_string(s, i + l.len()) {
            Some((x, j)) => Some((Some(x), j)),
            None => None,
        }
    } else {
        Some((None, i))
    }
}

/// Parsing the tail of a `get_history` record after its type tag.
pub open spec fn sp_gh_tail(s: Seq<char>, i: int) -> Option<ReqV> {
    match sp_opt_u32_field(s, i, ",\"limit\":"@) {
        Some((limit, i1)) => match sp_opt_u32_field(s, i1, ",\"offset\":"@) {
            Some((offset, i2)) => match sp_opt_str_field(s, i2, ",\"search\":"@) {
                Some((search, i3)) => if sp_closed(s, i3) {
                    Some(ReqV::GetHistory { limit, offset, search })
                } else {
                    None
                },
                None => None,
            },
            None => None,
        },
        None => None,
    }
}

/// Parsing a record tail of the form `,"id":<number>}`.
pub open spec fn sp_id_tail(s: Seq<char>, i: int) -> Option<i64> {
    if lit_at(s, i, ",\"id\":"@) {
        match spec_parse_i64(s, i + ",\"id\":"@.len()) {
            Some((v, j)) => if sp_closed(s, j) {
                Some(v)
            } else {
                None
            },
            None => None,
        }
    } else {
        None
    }
}

/// Parsing the tail of a `set_pinned` record after its type tag.
pub open spec fn sp_sp_tail(s: Seq<char>, i: int) -> Option<ReqV> {
    if lit_at(s, i, ",\"id\":"@) {
        match spec_parse_i64(s, i + ",\"id\":"@.len()) {
            Some((id, j)) => if lit_at(s, j, ",\"pinned\":"@) {
                match sp_bool(s, j + ",\"pinned\":"@.len()) {
                    Some((pinned, k)) => if sp_closed(s, k) {
                        Some(ReqV::SetPinned { id, pinned })
                    } else {
                        None
                    },
                    None => None,
                }
            } else {
                None
            },
            None => None,
        }
    } else {
        None
    }
}

/// Parsing a whole request record.
pub open spec fn sp_request(s: Seq<char>) -> Option<ReqV> {
    if lit_at(s, 0, "{\"type\":\"get_history\""@) {
        sp_gh_tail(s, "{\"type\":\"get_history\""@.len() as int)
    } else if lit_at(s, 0, "{\"type\":\"get_content\""@) {
        match sp_id_tail(s, "{\"type\":\"get_content\""@.len() as int) {
            Some(id) => Some(ReqV::GetContent { id }),
            None => None,
        }
    } else if lit_at(s, 0, "{\"type\":\"set_clipboard\""@) {
        match sp_id_tail(s, "{\"type\":\"set_clipboard\""@.len() as int) {
            Some(id) => Some(ReqV::SetClipboard { id }),
            None => None,
        }
    } else if lit_at(s, 0, "{\"type\":\"delete_entry\""@) {
        match sp_id_tail(s, "{\"type\":\"delete_entry\""@.len() as int) {
            Some(id) => Some(ReqV::DeleteEntry { id }),
            None => None,
        }
    } else if lit_at(s, 0, "{\"type\":\"clear_history\""@) {
        if sp_closed(s, "{\"type\":\"clear_history\""@.len() as int) {
            Some(ReqV::ClearHistory)
        } else {
            None
        }
    } else if lit_at(s, 0, "{\"type\":\"set_pinned\""@) {
        sp_sp_tail(s, "{\"type\":\"set_pinned\""@.len() as int)
    } else if lit_at(s, 0, "{\"type\":\"get_status\""@) {
        if sp_closed(s, "{\"type\":\"get_status\""@.len() as int) {
            Some(ReqV::GetStatus)
        } else {
            None
        }
    } else if lit_at(s, 0, "{\"type\":\"ping\""@) {
        if sp_closed(s, "{\"type\":\"ping\""@.len() as int) {
            Some(ReqV::Ping)
        } else {
            None
        }
    } else {
        None
    }
}

/// The canonical text of a request, as characters.
pub fn encode_request_chars(req: &Request) -> (out: Vec<char>)
    ensures
        out@ == req_text(req@),
{
    let mut out: Vec<char> = Vec::new();
    match req {
        Request::GetHistory { limit, offset, search } => {
            push_lit(&mut out, "{\"type\":\"get_history\"");
            match limit {
                Some(x) => {
                    push_lit(&mut out, ",\"limit\":");
                    push_dec_u64(&mut out, *x as u64);
                },
                None => {},
            }
            match offset {
                Some(x) => {
                    push_lit(&mut out, ",\"offset\":");
                    push_dec_u64(&mut out, *x as u64);
                },
                None => {},
            }
            match search {
                Some(x) => {
                    push_lit(&mut out, ",\"search\":");
                    push_jstr(&mut out, x.as_str());
                },
                None => {},
            }
            push_lit(&mut out, "}");
            assert(out@ =~= req_text(req@));
        },
        Request::GetContent { id } => {
            push_lit(&mut out, "{\"type\":\"get_content\"");
            push_lit(&mut out, ",\"id\":");
            push_dec_i64(&mut out, *id);
            push_lit(&mut out, "}");
            assert(out@ =~= req_text(req@));
        },
        Request::SetClipboard { id } => {
            push_lit(&mut out, "{\"type\":\"set_clipboard\"");
            push_lit(&mut out, ",\"id\":");
            push_dec_i64(&mut out, *id);
            push_lit(&mut out, "}");
            assert(out@ =~= req_text(req@));
        },
        Request::DeleteEntry { id } => {
            push_lit(&mut out, "{\"type\":\"delete_entry\"");
            push_lit(&mut out, ",\"id\":");
            push_dec_i64(&mut out, *id);
            push_lit(&mut out, "}");
            assert(out@ =~= req_text(req@));
        },
        Request::ClearHistory => {
            push_lit(&mut out, "{\"type\":\"clear_history\"");
            push_lit(&mut out, "}");
            assert(out@ =~= req_text(req@));
        },
        Request::SetPinned { id, pinned } => {
            push_lit(&mut out, "{\"type\":\"set_pinned\"");
            push_lit(&mut out, ",\"id\":");
            push_dec_i64(&mut out, *id);
            push_lit(&mut out, ",\"pinned\":");
            if *pinned {
                push_lit(&mut out, "true");
            } else {
                push_lit(&mut out, "false");
            }
            push_lit(&mut out, "}");
            assert(out@ =~= req_text(req@));
        },
        Request::GetStatus => {
            push_lit(&mut out, "{\"type\":\"get_status\"");
            push_lit(&mut out, "}");
            assert(out@ =~= req_text(req@));
        },
        Request::Ping => {
            push_lit(&mut out, "{\"type\":\"ping\"");
            push_lit(&mut out, "}");
            assert(out@ =~= req_text(req@));
        },
    }
    out
}

/// Whether position `i` holds the record's closing brace.
fn p_closed(s: &Vec<char>, i: usize) -> (b: bool)
    requires
        i <= s@.len(),
    ensures
        b == sp_closed(s@, i as int),
{
    i < s.len() && i + 1 == s.len() && s[i] == '}'
}

/// Parse an optional unsigned 32-bit field, as `sp_opt_u32_field` says.
fn p_opt_u32_field(s: &Vec<char>, i: usize, l: &str) -> (r: Option<(Option<u32>, usize)>)
    requires
        i <= s@.len(),
    ensures
        match r {
            Some((v, j)) => sp_opt_u32_field(s@, i as int, l@) == Some((v, j as int)) && i <= j
                <= s@.len(),
            None => sp_opt_u32_field(s@, i as int, l@) is None,
        },
{
    match p_lit(s, i, l) {
        Some(j) => match parse_u64_at(s, j) {
            Some((v, k)) => if v <= 0xFFFFFFFFu64 {
                Some((Some(v as u32), k))
            } else {
                None
            },
            None => None,
        },
        None => Some((None, i)),
    }
}

/// Parse an optional string field, as `sp_opt_str_field` says.
fn p_opt_str_field(s: &Vec<char>, i: usize, l: &str) -> (r: Option<(Option<String>, usize)>)
    requires
        i <= s@.len(),
    ensures
        match r {
            Some((v, j)) => i <= j <= s@.len() && sp_opt_str_field(s@, i as int, l@) == Some(
                (
                    match v {
                        Some(x) => Some(x@),
                        None => None,
                    },
                    j as int,
                ),
            ),
            None => sp_opt_str_field(s@, i as int, l@) is None,
        },
{
    match p_lit(s, i, l) {
        Some(j) => match p_string(s, j) {
            Some((x, k)) => Some((Some(string_from_chars(&x)), k)),
            None => None,
        },
        None => Some((None, i)),
    }
}

/// Parse a `,"id":<number>}` record tail, as `sp_id_tail` says.
fn p_id_tail(s: &Vec<char>, i: usize) -> (r: Option<i64>)
    requires
        i <= s@.len(),
    ensures
        match r {
            Some(id) => sp_id_tail(s@, i as int) == Some(id),
            None => sp_id_tail(s@, i as int) is None,
        },
{
    match p_lit(s, i, ",\"id\":") {
        Some(j) => match parse_i64_at(s, j) {
            Some((v, k)) => if p_closed(s, k) {
                Some(v)
            } else {
                None
            },
            None => None,
        },
        None => None,
    }
}

/// Parse a request record, as `sp_request` says.
pub fn parse_request(s: &Vec<char>) -> (r: Option<Request>)
    ensures
        match r {
            Some(req) => sp_request(s@) == Some(req@),
            None => sp_request(s@) is None,
        },
{
    if let Some(i) = p_lit(s, 0, "{\"type\":\"get_history\"") {
        match p_opt_u32_field(s, i, ",\"limit\":") {
            Some((limit, i1)) => match p_opt_u32_field(s, i1, ",\"offset\":") {
                Some((offset, i2)) => match p_opt_str_field(s, i2, ",\"search\":") {
                    Some((search, i3)) => {
                        if p_closed(s, i3) {
                            Some(Request::GetHistory { limit, offset, search })
                        } else {
                            None
                        }
                    },
                    None => None,
                },
                None => None,
            },
            None => None,
        }
    } else if let Some(i) = p_lit(s, 0, "{\"type\":\"get_content\"") {
        match p_id_tail(s, i) {
            Some(id) => Some(Request::GetContent { id }),
            None => None,
        }
    } else if let Some(i) = p_lit(s, 0, "{\"type\":\"set_clipboard\"") {
        match p_id_tail(s, i) {
            Some(id) => Some(Request::SetClipboard { id }),
            None => None,
        }
    } else if let Some(i) = p_lit(s, 0, "{\"type\":\"delete_entry\"") {
        match p_id_tail(s, i) {
            Some(id) => Some(Request::DeleteEntry { id }),
            None => None,
        }
    } else if let Some(i) = p_lit(s, 0, "{\"type\":\"clear_history\"") {
        if p_closed(s, i) {
            Some(Request::ClearHistory)
        } else {
            None
        }
    } else if let Some(i) = p_lit(s, 0, "{\"type\":\"set_pinned\"") {
        match p_lit(s, i, ",\"id\":") {
            Some(j) => match parse_i64_at(s, j) {
                Some((id, k)) => match p_lit(s, k, ",\"pinned\":") {
                    Some(m) => match p_bool(s, m) {
                        Some((pinned, e)) => {
                            if p_closed(s, e) {
                                Some(Request::SetPinned { id, pinned })
                            } else {
                                None
                            }
                        },
                        None => None,
                    },
                    None => None,
                },
                None => None,
            },
            None => None,
        }
    } else if let Some(i) = p_lit(s, 0, "{\"type\":\"get_status\"") {
        if p_closed(s, i) {
            Some(Request::GetStatus)
        } else {
            None
        }
    } else if let Some(i) = p_lit(s, 0, "{\"type\":\"ping\"") {
        if p_closed(s, i) {
            Some(Request::Ping)
        } else {
            None
        }
    } else {
        None
    }
}

// ---------------------------------------------------------------------------
// Responses.
// ---------------------------------------------------------------------------

use crate::types::{ContentType, EntryV, HistoryEntry};

/// The text of a content type.
pub open spec fn ctype_text(t: ContentType) -> Seq<char> {
    match t {
        ContentType::Text => "\"text\""@,
        ContentType::Image => "\"image\""@,
    }
}

/// Parsing a content type at position `i`.
pub open spec fn sp_ctype(s: Seq<char>, i: int) -> Option<(ContentType, int)> {
    if lit_at(s, i, "\"text\""@) {
        Some((ContentType::Text, i + "\"text\""@.len()))
    } else if lit_at(s, i, "\"image\""@) {
        Some((ContentType::Image, i + "\"image\""@.len()))
    } else {
        None
    }
}

/// The text of an error code.
pub open spec fn code_text(c: ErrorCode) -> Seq<char> {
    match c {
        ErrorCode::NotFound => "\"not_found\""@,
        ErrorCode::DatabaseError => "\"database_error\""@,
        ErrorCode::ClipboardError => "\"clipboard_error\""@,
        ErrorCode::InvalidRequest => "\"invalid_request\""@,
        ErrorCode::InternalError => "\"internal_error\""@,
    }
}

/// Parsing an error code at position `i`.
pub open spec fn sp_code(s: Seq<char>, i: int) -> Option<(ErrorCode, int)> {
    if lit_at(s, i, "\"not_found\""@) {
        Some((ErrorCode::NotFound, i + "\"not_found\""@.len()))
    } else if lit_at(s, i, "\"database_error\""@) {
        Some((ErrorCode::DatabaseError, i + "\"database_error\""@.len()))
    } else if lit_at(s, i, "\"clipboard_error\""@) {
        Some((ErrorCode::ClipboardError, i + "\"clipboard_error\""@.len()))
    } else if lit_at(s, i, "\"invalid_request\""@) {
        Some((ErrorCode::InvalidRequest, i + "\"invalid_request\""@.len()))
    } else if lit_at(s, i, "\"internal_error\""@) {
        Some((ErrorCode::InternalError, i + "\"internal_error\""@.len()))
    } else {
        None
    }
}

/// The canonical text of one history entry.
pub open spec fn entry_text(e: EntryV) -> Seq<char> {
    "{\"id\":"@ + dec_i64(e.id as int) + ",\"content_type\":"@ + ctype_text(e.content_type)
        + ",\"mime_type\":"@ + jstr(e.mime_type) + ",\"preview\":"@ + jstr(e.preview)
        + ",\"byte_size\":"@ + dec_u64(e.byte_size as nat) + ",\"created_at\":"@ + dec_i64(
        e.created_at as int,
    ) + ",\"pinned\":"@ + jbool(e.pinned) + enc_opt_str(",\"thumbnail\":"@, e.thumbnail) + "}"@
}

/// Parsing one history entry at position `i`.
pub open spec fn sp_entry(s: Seq<char>, i: int) -> Option<(EntryV, int)> {
    if lit_at(s, i, "{\"id\":"@) {
        match spec_parse_i64(s, i + "{\"id\":"@.len()) {
            Some((id, j1)) => if lit_at(s, j1, ",\"content_type\":"@) {
                match sp_ctype(s, j1 + ",\"content_type\":"@.len()) {
                    Some((ct, j2)) => if lit_at(s, j2, ",\"mime_type\":"@) {
                        match sp_string(s, j2 + ",\"mime_type\":"@.len()) {
                            Some((mt, j3)) => if lit_at(s, j3, ",\"preview\":"@) {
                                match sp_string(s, j3 + ",\"preview\":"@.len()) {
                                    Some((pv, j4)) => if lit_at(s, j4, ",\"byte_size\":"@) {
                                        match spec_parse_u64(s, j4 + ",\"byte_size\":"@.len()) {
                                            Some((bs, j5)) => if lit_at(s, j5, ",\"created_at\":"@) {
                                                match spec_parse_i64(
                                                    s,
                                                    j5 + ",\"created_at\":"@.len(),
                                                ) {
                                                    Some((ca, j6)) => if lit_at(
                                                        s,
                                                        j6,
                                                        ",\"pinned\":"@,
                                                    ) {
                                                        match sp_bool(
                                                            s,
                                                            j6 + ",\"pinned\":"@.len(),
                                                        ) {
                                                            Some((pn, j7)) => match sp_opt_str_field(
                                                                s,
                                                                j7,
                                                                ",\"thumbnail\":"@,
                                                            ) {
                                                                Some((th, j8)) => if j8 < s.len()
                                                                    && s[j8] == '}' {
                                                                    Some(
                                                                        (
                                                                            EntryV {
                                                                                id,
                                                                                content_type: ct,
                                                                                mime_type: mt,
                                                                                preview: pv,
                                                                                byte_size: bs,
                                                                                created_at: ca,
                                                                                pinned: pn,
                                                                                thumbnail: th,
                                                                            },
                                                                            j8 + 1,
                                                                        ),
                                                                    )
                                                                } else {
                                                                    None
                                                                },
                                                                None => None,
                                                            },
                                                            None => None,
                                                        }
                                                    } else {
                                                        None
                                                    },
                                                    None => None,
                                                }
                                            } else {
                                                None
                                            },
                                            None => None,
                                        }
                                    } else {
                                        None
                                    },
                                    None => None,
                                }
                            } else {
                                None
                            },
                            None => None,
                        }
                    } else {
                        None
                    },
                    None => None,
                }
            } else {
                None
            },
            None => None,
        }
    } else {
        None
    }
}

/// The canonical text of the items of a non-empty entry list, commas between
/// them.
pub open spec fn entries_items_text(es: Seq<EntryV>) -> Seq<char>
    decreases es.len(),
{
    if es.len() <= 1 {
        entry_text(es[0])
    } else {
        entry_text(es[0]) + seq![','] + entries_items_text(es.drop_first())
    }
}

/// The canonical text of an entry list.
pub open spec fn entries_text(es: Seq<EntryV>) -> Seq<char> {
    if es.len() == 0 {
        "[]"@
    } else {
        seq!['['] + entries_items_text(es) + seq![']']
    }
}

/// Parsing the items of an entry list at position `i` (after the opening
/// bracket), up to and including the closing bracket.
pub open spec fn sp_entries_items(s: Seq<char>, i: int) -> Option<(Seq<EntryV>, int)>
    decreases s.len() - i,
{
    match sp_entry(s, i) {
        Some((e, j)) => if i < j <= s.len() {
            if j < s.len() && s[j] == ',' {
                match sp_entries_items(s, j + 1) {
                    Some((es, k)) => Some((seq![e] + es, k)),
                    None => None,
                }
            } else if j < s.len() && s[j] == ']' {
                Some((seq![e], j + 1))
            } else {
                None
            }
        } else {
            None
        },
        None => None,
    }
}

/// Parsing an entry list at position `i`.
pub open spec fn sp_entries(s: Seq<char>, i: int) -> Option<(Seq<EntryV>, int)> {
    if 0 <= i < s.len() && s[i] == '[' {
        if i + 1 < s.len() && s[i + 1] == ']' {
            Some((Seq::empty(), i + 2))
        } else {
            sp_entries_items(s, i + 1)
        }
    } else {
        None
    }
}

/// The canonical text of a response.
pub open spec fn resp_text(r: RespV) -> Seq<char> {
    match r {
        RespV::History { entries, total_count } => "{\"type\":\"history\""@ + ",\"entries\":"@
            + entries_text(entries) + ",\"total_count\":"@ + dec_u64(total_count as nat) + "}"@,
        RespV::Content { id, mime_type, data } => "{\"type\":\"content\""@ + ",\"id\":"@ + dec_i64(
            id as int,
        ) + ",\"mime_type\":"@ + jstr(mime_type) + ",\"data\":"@ + jstr(data) + "}"@,
        RespV::Okay => "{\"type\":\"ok\""@ + "}"@,
        RespV::Error { code, message } => "{\"type\":\"error\""@ + ",\"code\":"@ + code_text(code)
            + ",\"message\":"@ + jstr(message) + "}"@,
        RespV::Status { version, entry_count, database_size_bytes } => "{\"type\":\"status\""@
            + ",\"version\":"@ + jstr(version) + ",\"entry_count\":"@ + dec_u64(entry_count as nat)
            + ",\"database_size_bytes\":"@ + dec_u64(database_size_bytes as nat) + "}"@,
        RespV::Pong => "{\"type\":\"pong\""@ + "}"@,
    }
}

/// Parsing the tail of a `history` record after its type tag.
pub open spec fn sp_history_tail(s: Seq<char>, i: int) -> Option<RespV> {
    if lit_at(s, i, ",\"entries\":"@) {
        match sp_entries(s, i + ",\"entries\":"@.len()) {
            Some((es, j)) => if lit_at(s, j, ",\"total_count\":"@) {
                match spec_parse_u64(s, j + ",\"total_count\":"@.len()) {
                    Some((tc, k)) => if sp_closed(s, k) {
                        Some(RespV::History { entries: es, total_count: tc })
                    } else {
                        None
                    },
                    None => None,
                }
            } else {
                None
            },
            None => None,
        }
    } else {
        None
    }
}

/// Parsing the tail of a `content` record after its type tag.
pub open spec fn sp_content_tail(s: Seq<char>, i: int) -> Option<RespV> {
    if lit_at(s, i, ",\"id\":"@) {
        match spec_parse_i64(s, i + ",\"id\":"@.len()) {
            Some((id, j1)) => if lit_at(s, j1, ",\"mime_type\":"@) {
                match sp_string(s, j1 + ",\"mime_type\":"@.len()) {
                    Some((mt, j2)) => if lit_at(s, j2, ",\"data\":"@) {
                        match sp_string(s, j2 + ",\"data\":"@.len()) {
                            Some((da, j3)) => if sp_closed(s, j3) {
                                Some(RespV::Content { id, mime_type: mt, data: da })
                            } else {
                                None
                            },
                            None => None,
                        }
                    } else {
                        None
                    },
                    None => None,
                }
            } else {
                None
            },
            None => None,
        }
    } else {
        None
    }
}

/// Parsing the tail of an `error` record after its type tag.
pub open spec fn sp_error_tail(s: Seq<char>, i: int) -> Option<RespV> {
    if lit_at(s, i, ",\"code\":"@) {
        match sp_code(s, i + ",\"code\":"@.len()) {
            Some((code, j1)) => if lit_at(s, j1, ",\"message\":"@) {
                match sp_string(s, j1 + ",\"message\":"@.len()) {
                    Some((msg, j2)) => if sp_closed(s, j2) {
                        Some(RespV::Error { code, message: msg })
                    } else {
                        None
                    },
                    None => None,
                }
            } else {
                None
            },
            None => None,
        }
    } else {
        None
    }
}

/// Parsing the tail of a `status` record after its type tag.
pub open spec fn sp_status_tail(s: Seq<char>, i: int) -> Option<RespV> {
    if lit_at(s, i, ",\"version\":"@) {
        match sp_string(s, i + ",\"version\":"@.len()) {
            Some((ver, j1)) => if lit_at(s, j1, ",\"entry_count\":"@) {
                match spec_parse_u64(s, j1 + ",\"entry_count\":"@.len()) {
                    Some((ec, j2)) => if lit_at(s, j2, ",\"database_size_bytes\":"@) {
                        match spec_parse_u64(s, j2 + ",\"database_size_bytes\":"@.len()) {
                            Some((db, j3)) => if sp_closed(s, j3) {
                                Some(
                                    RespV::Status {
                                        version: ver,
                                        entry_count: ec,
                                        database_size_bytes: db,
                                    },
                                )
                            } else {
                                None
                            },
                            None => None,
                        }
                    } else {
                        None
                    },
                    None => None,
                }
            } else {
                None
            },
            None => None,
        }
    } else {
        None
    }
}

/// Parsing a whole response record.
pub open spec fn sp_response(s: Seq<char>) -> Option<RespV> {
    if lit_at(s, 0, "{\"type\":\"history\""@) {
        sp_history_tail(s, "{\"type\":\"history\""@.len() as int)
    } else if lit_at(s, 0, "{\"type\":\"content\""@) {
        sp_content_tail(s, "{\"type\":\"content\""@.len() as int)
    } else if lit_at(s, 0, "{\"type\":\"ok\""@) {
        if sp_closed(s, "{\"type\":\"ok\""@.len() as int) {
            Some(RespV::Okay)
        } else {
            None
        }
    } else if lit_at(s, 0, "{\"type\":\"error\""@) {
        sp_error_tail(s, "{\"type\":\"error\""@.len() as int)
    } else if lit_at(s, 0, "{\"type\":\"status\""@) {
        sp_status_tail(s, "{\"type\":\"status\""@.len() as int)
    } else if lit_at(s, 0, "{\"type\":\"pong\""@) {
        if sp_closed(s, "{\"type\":\"pong\""@.len() as int) {
            Some(RespV::Pong)
        } else {
            None
        }
    } else {
        None
    }
}

/// The canonical text of one entry, as characters.
#[verifier::rlimit(100)]
fn push_entry(out: &mut Vec<char>, e: &HistoryEntry)
    ensures
        final(out)@ == old(out)@ + entry_text(e@),
{
    push_lit(out, "{\"id\":");
    push_dec_i64(out, e.id);
    push_lit(out, ",\"content_type\":");
    match e.content_type {
        ContentType::Text => push_lit(out, "\"text\""),
        ContentType::Image => push_lit(out, "\"image\""),
    }
    push_lit(out, ",\"mime_type\":");
    push_jstr(out, e.mime_type.as_str());
    push_lit(out, ",\"preview\":");
    push_jstr(out, e.preview.as_str());
    push_lit(out, ",\"byte_size\":");
    push_dec_u64(out, e.byte_size);
    push_lit(out, ",\"created_at\":");
    push_dec_i64(out, e.created_at);
    push_lit(out, ",\"pinned\":");
    if e.pinned {
        push_lit(out, "true");
    } else {
        push_lit(out, "false");
    }
    match &e.thumbnail {
        Some(t) => {
            push_lit(out, ",\"thumbnail\":");
            push_jstr(out, t.as_str());
        },
        None => {},
    }
    push_lit(out, "}");
    assert(final(out)@ =~= old(out)@ + entry_text(e@));
}

/// The canonical text of an entry list, as characters.
fn push_entries(out: &mut Vec<char>, es: &Vec<HistoryEntry>)
    ensures
        final(out)@ == old(out)@ + entries_text(es.deep_view()),
{
    let n = es.len();
    if n == 0 {
        push_lit(out, "[]");
        assert(entries_text(es.deep_view()) == "[]"@);
        return ;
    }
    out.push('[');
    let ghost base = out@;
    assert(es.deep_view().subrange(0, n as int) =~= es.deep_view());
    let mut i: usize = 0;
    while i < n
        invariant
            0 <= i < n,
            n == es@.len(),
            n == es.deep_view().len(),
            base == old(out)@ + seq!['['],
            out@ + entries_items_text(es.deep_view().subrange(i as int, n as int)) == base
                + entries_items_text(es.deep_view()),
        decreases n - i,
    {
        push_entry(out, &es[i]);
        if i + 1 < n {
            out.push(',');
            proof {
                let tail = es.deep_view().subrange(i as int, n as int);
                let tail2 = es.deep_view().subrange(i + 1, n as int);
                assert(tail.len() > 1);
                assert(tail[0] == es.deep_view()[i as int]);
                assert(tail.drop_first() =~= tail2);
                assert(entries_items_text(tail) == entry_text(es.deep_view()[i as int]) + seq![
                    ',',
                ] + entries_items_text(tail2));
                assert(out@ + entries_items_text(tail2) =~= base + entries_items_text(
                    es.deep_view(),
                ));
            }
        } else {
            proof {
                let deep = es.deep_view();
                let tail = deep.subrange(i as int, n as int);
                assert(tail.len() == 1);
                assert(tail[0] == deep[i as int]);
                assert(entries_items_text(tail) == entry_text(deep[i as int]));
                assert(out@ =~= base + entries_items_text(deep));
            }
            out.push(']');
            proof {
                let deep = es.deep_view();
                assert(entries_text(deep) == seq!['['] + entries_items_text(deep) + seq![']']);
                assert(final(out)@ =~= old(out)@ + entries_text(deep));
            }
            return ;
        }
        i += 1;
    }
}

/// The canonical text of a response, as characters.
pub fn encode_response_chars(resp: &Response) -> (out: Vec<char>)
    ensures
        out@ == resp_text(resp@),
{
    let mut out: Vec<char> = Vec::new();
    match resp {
        Response::History { entries, total_count } => {
            push_lit(&mut out, "{\"type\":\"history\"");
            push_lit(&mut out, ",\"entries\":");
            push_entries(&mut out, entries);
            push_lit(&mut out, ",\"total_count\":");
            push_dec_u64(&mut out, *total_count);
            push_lit(&mut out, "}");
            assert(out@ =~= resp_text(resp@));
        },
        Response::Content { id, mime_type, data } => {
            push_lit(&mut out, "{\"type\":\"content\"");
            push_lit(&mut out, ",\"id\":");
            push_dec_i64(&mut out, *id);
            push_lit(&mut out, ",\"mime_type\":");
            push_jstr(&mut out, mime_type.as_str());
            push_lit(&mut out, ",\"data\":");
            push_jstr(&mut out, data.as_str());
            push_lit(&mut out, "}");
            assert(out@ =~= resp_text(resp@));
        },
        Response::Okay => {
            push_lit(&mut out, "{\"type\":\"ok\"");
            push_lit(&mut out, "}");
            assert(out@ =~= resp_text(resp@));
        },
        Response::Error { code, message } => {
            push_lit(&mut out, "{\"type\":\"error\"");
            push_lit(&mut out, ",\"code\":");
            match code {
                ErrorCode::NotFound => push_lit(&mut out, "\"not_found\""),
                ErrorCode::DatabaseError => push_lit(&mut out, "\"database_error\""),
                ErrorCode::ClipboardError => push_lit(&mut out, "\"clipboard_error\""),
                ErrorCode::InvalidRequest => push_lit(&mut out, "\"invalid_request\""),
                ErrorCode::InternalError => push_lit(&mut out, "\"internal_error\""),
            }
            push_lit(&mut out, ",\"message\":");
            push_jstr(&mut out, message.as_str());
            push_lit(&mut out, "}");
            assert(out@ =~= resp_text(resp@));
        },
        Response::Status { version, entry_count, database_size_bytes } => {
            push_lit(&mut out, "{\"type\":\"status\"");
            push_lit(&mut out, ",\"version\":");
            push_jstr(&mut out, version.as_str());
            push_lit(&mut out, ",\"entry_count\":");
            push_dec_u64(&mut out, *entry_count);
            push_lit(&mut out, ",\"database_size_bytes\":");
            push_dec_u64(&mut out, *database_size_bytes);
            push_lit(&mut out, "}");
            assert(out@ =~= resp_text(resp@));
        },
        Response::Pong => {
            push_lit(&mut out, "{\"type\":\"pong\"");
            push_lit(&mut out, "}");
            assert(out@ =~= resp_text(resp@));
        },
    }
    out
}

/// Parse a content type, as `sp_ctype` says.
fn p_ctype(s: &Vec<char>, i: usize) -> (r: Option<(ContentType, usize)>)
    requires
        i <= s@.len(),
    ensures
        match r {
            Some((t, j)) => sp_ctype(s@, i as int) == Some((t, j as int)) && i <= j <= s@.len(),
            None => sp_ctype(s@, i as int) is None,
        },
{
    match p_lit(s, i, "\"text\"") {
        Some(j) => Some((ContentType::Text, j)),
        None => match p_lit(s, i, "\"image\"") {
            Some(j) => Some((ContentType::Image, j)),
            None => None,
        },
    }
}

/// Parse an error code, as `sp_code` says.
fn p_code(s: &Vec<char>, i: usize) -> (r: Option<(ErrorCode, usize)>)
    requires
        i <= s@.len(),
    ensures
        match r {
            Some((c, j)) => sp_code(s@, i as int) == Some((c, j as int)) && i <= j <= s@.len(),
            None => sp_code(s@, i as int) is None,
        },
{
    match p_lit(s, i, "\"not_found\"") {
        Some(j) => Some((ErrorCode::NotFound, j)),
        None => match p_lit(s, i, "\"database_error\"") {
            Some(j) => Some((ErrorCode::DatabaseError, j)),
            None => match p_lit(s, i, "\"clipboard_error\"") {
                Some(j) => Some((ErrorCode::ClipboardError, j)),
                None => match p_lit(s, i, "\"invalid_request\"") {
                    Some(j) => Some((ErrorCode::InvalidRequest, j)),
                    None => match p_lit(s, i, "\"internal_error\"") {
                        Some(j) => Some((ErrorCode::InternalError, j)),
                        None => None,
                    },
                },
            },
        },
    }
}

/// Parse one history entry, as `sp_entry` says.
fn p_entry(s: &Vec<char>, i: usize) -> (r: Option<(HistoryEntry, usize)>)
    requires
        i <= s@.len(),
    ensures
        match r {
            Some((e, j)) => sp_entry(s@, i as int) == Some((e@, j as int)) && i < j <= s@.len(),
            None => sp_entry(s@, i as int) is None,
        },
{
    let i0 = match p_lit(s, i, "{\"id\":") {
        Some(j) => j,
        None => {
            return None;
        },
    };
    let (id, j1) = match parse_i64_at(s, i0) {
        Some(v) => v,
        None => {
            return None;
        },
    };
    let i1 = match p_lit(s, j1, ",\"content_type\":") {
        Some(j) => j,
        None => {
            return None;
        },
    };
    let (ct, j2) = match p_ctype(s, i1) {
        Some(v) => v,
        None => {
            return None;
        },
    };
    let i2 = match p_lit(s, j2, ",\"mime_type\":") {
        Some(j) => j,
        None => {
            return None;
        },
    };
    let (mt, j3) = match p_string(s, i2) {
        Some(v) => v,
        None => {
            return None;
        },
    };
    let i3 = match p_lit(s, j3, ",\"preview\":") {
        Some(j) => j,
        None => {
            return None;
        },
    };
    let (pv, j4) = match p_string(s, i3) {
        Some(v) => v,
        None => {
            return None;
        },
    };
    let i4 = match p_lit(s, j4, ",\"byte_size\":") {
        Some(j) => j,
        None => {
            return None;
        },
    };
    let (bs, j5) = match parse_u64_at(s, i4) {
        Some(v) => v,
        None => {
            return None;
        },
    };
    let i5 = match p_lit(s, j5, ",\"created_at\":") {
        Some(j) => j,
        None => {
            return None;
        },
    };
    let (ca, j6) = match parse_i64_at(s, i5) {
        Some(v) => v,
        None => {
            return None;
        },
    };
    let i6 = match p_lit(s, j6, ",\"pinned\":") {
        Some(j) => j,
        None => {
            return None;
        },
    };
    let (pn, j7) = match p_bool(s, i6) {
        Some(v) => v,
        None => {
            return None;
        },
    };
    let (th, j8) = match p_opt_str_field(s, j7, ",\"thumbnail\":") {
        Some(v) => v,
        None => {
            return None;
        },
    };
    if j8 < s.len() && s[j8] == '}' {
        let e = HistoryEntry {
            id,
            content_type: ct,
            mime_type: string_from_chars(&mt),
            preview: string_from_chars(&pv),
            byte_size: bs,
            created_at: ca,
            pinned: pn,
            thumbnail: match th {
                Some(t) => Some(t),
                None => None,
            },
        };
        Some((e, j8 + 1))
    } else {
        None
    }
}

/// Parse an entry list, as `sp_entries` says.
fn p_entries(s: &Vec<char>, i: usize) -> (r: Option<(Vec<HistoryEntry>, usize)>)
    requires
        i <= s@.len(),
    ensures
        match r {
            Some((v, j)) => sp_entries(s@, i as int) == Some((v.deep_view(), j as int)) && i < j
                <= s@.len(),
            None => sp_entries(s@, i as int) is None,
        },
{
    let sl = s.len();
    if i >= sl || s[i] != '[' {
        return None;
    }
    if i + 1 < sl && s[i + 1] == ']' {
        let empty: Vec<HistoryEntry> = Vec::new();
        assert(empty.deep_view() =~= Seq::<EntryV>::empty());
        return Some((empty, i + 2));
    }
    let mut acc: Vec<HistoryEntry> = Vec::new();
    let mut k: usize = i + 1;
    loop
        invariant
            i + 1 <= k <= sl,
            sl == s@.len(),
            i < sl,
            s@[i as int] == '[',
            !(i + 1 < sl && s@[i + 1] == ']'),
            match sp_entries_items(s@, k as int) {
                Some((tail, j)) => sp_entries_items(s@, i as int + 1) == Some(
                    (acc.deep_view() + tail, j),
                ),
                None => sp_entries_items(s@, i as int + 1) is None,
            },
        decreases sl - k,
    {
        let (e, j) = match p_entry(s, k) {
            Some(v) => v,
            None => {
                return None;
            },
        };
        let ghost acc0 = acc.deep_view();
        let ghost ev = e@;
        acc.push(e);
        assert(acc.deep_view() =~= acc0 + seq![ev]);
        if j < sl && s[j] == ',' {
            proof {
                if sp_entries_items(s@, j + 1) is Some {
                    let (tail2, j2) = sp_entries_items(s@, j + 1)->Some_0;
                    assert(sp_entries_items(s@, k as int) == Some((seq![ev] + tail2, j2)));
                    assert(acc0 + (seq![ev] + tail2) =~= (acc0 + seq![ev]) + tail2);
                } else {
                    assert(sp_entries_items(s@, k as int) is None);
                }
            }
            k = j + 1;
        } else if j < sl && s[j] == ']' {
            assert(sp_entries_items(s@, k as int) == Some((seq![ev], j + 1)));
            assert(acc0 + seq![ev] =~= acc.deep_view());
            return Some((acc, j + 1));
        } else {
            assert(sp_entries_items(s@, k as int) is None);
            return None;
        }
    }
}

/// Parse a response record, as `sp_response` says.
pub fn parse_response(s: &Vec<char>) -> (r: Option<Response>)
    ensures
        match r {
            Some(resp) => sp_response(s@) == Some(resp@),
            None => sp_response(s@) is None,
        },
{
    if let Some(i) = p_lit(s, 0, "{\"type\":\"history\"") {
        let i0 = match p_lit(s, i, ",\"entries\":") {
            Some(j) => j,
            None => {
                return None;
            },
        };
        let (es, j) = match p_entries(s, i0) {
            Some(v) => v,
            None => {
                return None;
            },
        };
        let i1 = match p_lit(s, j, ",\"total_count\":") {
            Some(j2) => j2,
            None => {
                return None;
            },
        };
        let (tc, k) = match parse_u64_at(s, i1) {
            Some(v) => v,
            None => {
                return None;
            },
        };
        if p_closed(s, k) {
            Some(Response::History { entries: es, total_count: tc })
        } else {
            None
        }
    } else if let Some(i) = p_lit(s, 0, "{\"type\":\"content\"") {
        let i0 = match p_lit(s, i, ",\"id\":") {
            Some(j) => j,
            None => {
                return None;
            },
        };
        let (id, j1) = match parse_i64_at(s, i0) {
            Some(v) => v,
            None => {
                return None;
            },
        };
        let i1 = match p_lit(s, j1, ",\"mime_type\":") {
            Some(j) => j,
            None => {
                return None;
            },
        };
        let (mt, j2) = match p_string(s, i1) {
            Some(v) => v,
            None => {
                return None;
            },
        };
        let i2 = match p_lit(s, j2, ",\"data\":") {
            Some(j) => j,
            None => {
                return None;
            },
        };
        let (da, j3) = match p_string(s, i2) {
            Some(v) => v,
            None => {
                return None;
            },
        };
        if p_closed(s, j3) {
            Some(
                Response::Content {
                    id,
                    mime_type: string_from_chars(&mt),
                    data: string_from_chars(&da),
                },
            )
        } else {
            None
        }
    } else if let Some(i) = p_lit(s, 0, "{\"type\":\"ok\"") {
        if p_closed(s, i) {
            Some(Response::Okay)
        } else {
            None
        }
    } else if let Some(i) = p_lit(s, 0, "{\"type\":\"error\"") {
        let i0 = match p_lit(s, i, ",\"code\":") {
            Some(j) => j,
            None => {
                return None;
            },
        };
        let (code, j1) = match p_code(s, i0) {
            Some(v) => v,
            None => {
                return None;
            },
        };
        let i1 = match p_lit(s, j1, ",\"message\":") {
            Some(j) => j,
            None => {
                return None;
            },
        };
        let (msg, j2) = match p_string(s, i1) {
            Some(v) => v,
            None => {
                return None;
            },
        };
        if p_closed(s, j2) {
            Some(Response::Error { code, message: string_from_chars(&msg) })
        } else {
            None
        }
    } else if let Some(i) = p_lit(s, 0, "{\"type\":\"status\"") {
        let i0 = match p_lit(s, i, ",\"version\":") {
            Some(j) => j,
            None => {
                return None;
            },
        };
        let (ver, j1) = match p_string(s, i0) {
            Some(v) => v,
            None => {
                return None;
            },
        };
        let i1 = match p_lit(s, j1, ",\"entry_count\":") {
            Some(j) => j,
            None => {
                return None;
            },
        };
        let (ec, j2) = match parse_u64_at(s, i1) {
            Some(v) => v,
            None => {
                return None;
            },
        };
        let i2 = match p_lit(s, j2, ",\"database_size_bytes\":") {
            Some(j) => j,
            None => {
                return None;
            },
        };
        let (db, j3) = match parse_u64_at(s, i2) {
            Some(v) => v,
            None => {
                return None;
            },
        };
        if p_closed(s, j3) {
            Some(
                Response::Status {
                    version: string_from_chars(&ver),
                    entry_count: ec,
                    database_size_bytes: db,
                },
            )
        } else {
            None
        }
    } else if let Some(i) = p_lit(s, 0, "{\"type\":\"pong\"") {
        if p_closed(s, i) {
            Some(Response::Pong)
        } else {
            None
        }
    } else {
        None
    }
}

// ---------------------------------------------------------------------------
// Round trip for requests.
// ---------------------------------------------------------------------------

/// A text at a position splits into its two parts, each at its own position.
proof fn lemma_lit_at_split(s: Seq<char>, i: int, a: Seq<char>, b: Seq<char>)
    requires
        lit_at(s, i, a + b),
    ensures
        lit_at(s, i, a),
        lit_at(s, i + a.len(), b),
{
    assert(s.subrange(i, i + a.len()) =~= a) by {
        assert forall|m: int| 0 <= m < a.len() implies s[i + m] == a[m] by {
            assert(s.subrange(i, i + (a + b).len())[m] == (a + b)[m]);
        }
    }
    assert(s.subrange(i + a.len(), i + a.len() + b.len()) =~= b) by {
        assert forall|m: int| 0 <= m < b.len() implies s[i + a.len() + m] == b[m] by {
            assert(s.subrange(i, i + (a + b).len())[a.len() + m] == (a + b)[a.len() + m]);
        }
    }
}

/// A character of a text read off its position.
proof fn lemma_char_of_lit(s: Seq<char>, i: int, l: Seq<char>, k: int)
    requires
        lit_at(s, i, l),
        0 <= k < l.len(),
    ensures
        s[i + k] == l[k],
{
    assert(s.subrange(i, i + l.len())[k] == l[k]);
}

/// A record tail `,"id":<id>}` parses back to exactly `id`.
proof fn lemma_id_tail_rt(t: Seq<char>, id: i64)
    ensures
        sp_id_tail(t + ",\"id\":"@ + dec_i64(id as int) + "}"@, t.len() as int) == Some(id),
{
    reveal_strlit(",\"id\":");
    reveal_strlit("}");
    let lid = ",\"id\":"@;
    let d = dec_i64(id as int);
    let s = t + lid + d + "}"@;
    let i = t.len() as int;
    let x = i + lid.len() + d.len();
    lemma_lit_append(t, lid);
    lemma_lit_extend(t + lid, d, i, lid);
    lemma_lit_extend(t + lid + d, "}"@, i, lid);
    lemma_lit_append(t + lid, d);
    lemma_lit_extend(t + lid + d, "}"@, i + lid.len(), d);
    lemma_lit_append(t + lid + d, "}"@);
    assert(lit_at(s, i, lid));
    assert(lit_at(s, i + lid.len(), d));
    assert(lit_at(s, x, "}"@));
    lemma_char_of_lit(s, x, "}"@, 0);
    assert(s[x] == '}');
    assert(!is_digit('}'));
    assert(s.len() == x + 1);
    lemma_parse_i64_at(s, i + lid.len(), id);
    assert(sp_closed(s, x));
}

/// The canonical text of every request parses back to exactly that request.
#[verifier::rlimit(100)]
pub proof fn lemma_request_round_trip(v: ReqV)
    ensures
        sp_request(req_text(v)) == Some(v),
{
    reveal_strlit("{\"type\":\"get_history\"");
    reveal_strlit("{\"type\":\"get_content\"");
    reveal_strlit("{\"type\":\"set_clipboard\"");
    reveal_strlit("{\"type\":\"delete_entry\"");
    reveal_strlit("{\"type\":\"clear_history\"");
    reveal_strlit("{\"type\":\"set_pinned\"");
    reveal_strlit("{\"type\":\"get_status\"");
    reveal_strlit("{\"type\":\"ping\"");
    reveal_strlit("}");
    let tgh = "{\"type\":\"get_history\""@;
    let tgc = "{\"type\":\"get_content\""@;
    let tsc = "{\"type\":\"set_clipboard\""@;
    let tde = "{\"type\":\"delete_entry\""@;
    let tch = "{\"type\":\"clear_history\""@;
    let tsp = "{\"type\":\"set_pinned\""@;
    let tgs = "{\"type\":\"get_status\""@;
    let tp = "{\"type\":\"ping\""@;
    let s = req_text(v);
    match v {
        ReqV::GetHistory { limit, offset, search } => {
            lemma_lit_prefix(tgh, s.subrange(tgh.len() as int, s.len() as int));
            assert(s =~= tgh + s.subrange(tgh.len() as int, s.len() as int));
            assert(lit_at(s, 0, tgh));
            lemma_gh_tail_rt(limit, offset, search);
        },
        ReqV::GetContent { id } => {
            let tail = ",\"id\":"@ + dec_i64(id as int) + "}"@;
            assert(s =~= tgc + tail);
            lemma_lit_prefix(tgc, tail);
            lemma_lit_at_diff(s, 0, tgc, tgh, 13);
            lemma_id_tail_rt(tgc, id);
        },
        ReqV::SetClipboard { id } => {
            let tail = ",\"id\":"@ + dec_i64(id as int) + "}"@;
            assert(s =~= tsc + tail);
            lemma_lit_prefix(tsc, tail);
            lemma_lit_at_diff(s, 0, tsc, tgh, 9);
            lemma_lit_at_diff(s, 0, tsc, tgc, 9);
            lemma_id_tail_rt(tsc, id);
        },
        ReqV::DeleteEntry { id } => {
            let tail = ",\"id\":"@ + dec_i64(id as int) + "}"@;
            assert(s =~= tde + tail);
            lemma_lit_prefix(tde, tail);
            lemma_lit_at_diff(s, 0, tde, tgh, 9);
            lemma_lit_at_diff(s, 0, tde, tgc, 9);
            lemma_lit_at_diff(s, 0, tde, tsc, 9);
            lemma_id_tail_rt(tde, id);
        },
        ReqV::ClearHistory => {
            assert(s =~= tch + "}"@);
            lemma_lit_prefix(tch, "}"@);
            lemma_lit_at_diff(s, 0, tch, tgh, 9);
            lemma_lit_at_diff(s, 0, tch, tgc, 9);
            lemma_lit_at_diff(s, 0, tch, tsc, 9);
            lemma_lit_at_diff(s, 0, tch, tde, 9);
            lemma_lit_append(tch, "}"@);
            lemma_char_of_lit(s, tch.len() as int, "}"@, 0);
            assert(sp_closed(s, tch.len() as int));
        },
        ReqV::SetPinned { id, pinned } => {
            let tail = ",\"id\":"@ + dec_i64(id as int) + ",\"pinned\":"@ + jbool(pinned) + "}"@;
            assert(s =~= tsp + tail);
            lemma_lit_prefix(tsp, tail);
            lemma_lit_at_diff(s, 0, tsp, tgh, 9);
            lemma_lit_at_diff(s, 0, tsp, tgc, 9);
            lemma_lit_at_diff(s, 0, tsp, tsc, 13);
            lemma_lit_at_diff(s, 0, tsp, tde, 9);
            lemma_lit_at_diff(s, 0, tsp, tch, 9);
            lemma_sp_tail_rt(id, pinned);
        },
        ReqV::GetStatus => {
            assert(s =~= tgs + "}"@);
            lemma_lit_prefix(tgs, "}"@);
            lemma_lit_at_diff(s, 0, tgs, tgh, 13);
            lemma_lit_at_diff(s, 0, tgs, tgc, 13);
            lemma_lit_at_diff(s, 0, tgs, tsc, 9);
            lemma_lit_at_diff(s, 0, tgs, tde, 9);
            lemma_lit_at_diff(s, 0, tgs, tch, 9);
            lemma_lit_at_diff(s, 0, tgs, tsp, 9);
            lemma_lit_append(tgs, "}"@);
            lemma_char_of_lit(s, tgs.len() as int, "}"@, 0);
            assert(sp_closed(s, tgs.len() as int));
        },
        ReqV::Ping => {
            assert(s =~= tp + "}"@);
            lemma_lit_prefix(tp, "}"@);
            lemma_lit_at_diff(s, 0, tp, tgh, 9);
            lemma_lit_at_diff(s, 0, tp, tgc, 9);
            lemma_lit_at_diff(s, 0, tp, tsc, 9);
            lemma_lit_at_diff(s, 0, tp, tde, 9);
            lemma_lit_at_diff(s, 0, tp, tch, 9);
            lemma_lit_at_diff(s, 0, tp, tsp, 9);
            lemma_lit_at_diff(s, 0, tp, tgs, 9);
            lemma_lit_append(tp, "}"@);
            lemma_char_of_lit(s, tp.len() as int, "}"@, 0);
            assert(sp_closed(s, tp.len() as int));
        },
    }
}

/// The tail of a canonical `set_pinned` record parses back to its fields.
proof fn lemma_sp_tail_rt(id: i64, pinned: bool)
    ensures
        sp_sp_tail(
            req_text(ReqV::SetPinned { id, pinned }),
            "{\"type\":\"set_pinned\""@.len() as int,
        ) == Some(ReqV::SetPinned { id, pinned }),
{
    reveal_strlit("{\"type\":\"set_pinned\"");
    reveal_strlit(",\"id\":");
    reveal_strlit(",\"pinned\":");
    reveal_strlit("}");
    let t = "{\"type\":\"set_pinned\""@;
    let lid = ",\"id\":"@;
    let d = dec_i64(id as int);
    let lp = ",\"pinned\":"@;
    let b = jbool(pinned);
    let s = req_text(ReqV::SetPinned { id, pinned });
    assert(s == t + lid + d + lp + b + "}"@);
    let i = t.len() as int;
    let jd = i + lid.len() + d.len();
    let kb = jd + lp.len() + b.len();
    lemma_lit_append(t, lid);
    lemma_lit_extend(t + lid, d, i, lid);
    lemma_lit_extend(t + lid + d, lp, i, lid);
    lemma_lit_extend(t + lid + d + lp, b, i, lid);
    lemma_lit_extend(t + lid + d + lp + b, "}"@, i, lid);
    assert(lit_at(s, i, lid));
    lemma_lit_append(t + lid, d);
    lemma_lit_extend(t + lid + d, lp, i + lid.len(), d);
    lemma_lit_extend(t + lid + d + lp, b, i + lid.len(), d);
    lemma_lit_extend(t + lid + d + lp + b, "}"@, i + lid.len(), d);
    assert(lit_at(s, i + lid.len(), d));
    lemma_lit_append(t + lid + d, lp);
    lemma_lit_extend(t + lid + d + lp, b, jd, lp);
    lemma_lit_extend(t + lid + d + lp + b, "}"@, jd, lp);
    assert(lit_at(s, jd, lp));
    lemma_lit_append(t + lid + d + lp, b);
    lemma_lit_extend(t + lid + d + lp + b, "}"@, jd + lp.len(), b);
    assert(lit_at(s, jd + lp.len(), b));
    lemma_lit_append(t + lid + d + lp + b, "}"@);
    assert(lit_at(s, kb, "}"@));
    lemma_char_of_lit(s, jd, lp, 0);
    assert(s[jd] == ',');
    assert(!is_digit(','));
    lemma_parse_i64_at(s, i + lid.len(), id);
    lemma_bool_at(s, jd + lp.len(), pinned);
    lemma_char_of_lit(s, kb, "}"@, 0);
    assert(s[kb] == '}');
    assert(s.len() == kb + 1);
    assert(sp_closed(s, kb));
}

/// The tail of a canonical `get_history` record parses back to its fields.
#[verifier::rlimit(100)]
proof fn lemma_gh_tail_rt(limit: Option<u32>, offset: Option<u32>, search: Option<Seq<char>>)
    ensures
        sp_gh_tail(
            req_text(ReqV::GetHistory { limit, offset, search }),
            "{\"type\":\"get_history\""@.len() as int,
        ) == Some(ReqV::GetHistory { limit, offset, search }),
{
    reveal_strlit("{\"type\":\"get_history\"");
    reveal_strlit(",\"limit\":");
    reveal_strlit(",\"offset\":");
    reveal_strlit(",\"search\":");
    reveal_strlit("}");
    let t = "{\"type\":\"get_history\""@;
    let ll = ",\"limit\":"@;
    let lo = ",\"offset\":"@;
    let ls = ",\"search\":"@;
    let e1 = enc_opt_u32(ll, limit);
    let e2 = enc_opt_u32(lo, offset);
    let e3 = enc_opt_str(ls, search);
    let s = req_text(ReqV::GetHistory { limit, offset, search });
    assert(s == t + e1 + e2 + e3 + "}"@);
    let i0 = t.len() as int;
    let i1 = i0 + e1.len();
    let i2 = i1 + e2.len();
    let i3 = i2 + e3.len();
    assert(s.len() == i3 + 1);
    // The closing brace.
    lemma_lit_append(t + e1 + e2 + e3, "}"@);
    assert(lit_at(s, i3, "}"@));
    lemma_char_of_lit(s, i3, "}"@, 0);
    assert(s[i3] == '}');
    assert(sp_closed(s, i3));
    // The search field region.
    match search {
        Some(x) => {
            assert(e3 == ls + jstr(x));
            assert(t + e1 + e2 + e3 =~= ((t + e1 + e2) + ls) + jstr(x));
            lemma_lit_append(t + e1 + e2, ls);
            lemma_lit_extend((t + e1 + e2) + ls, jstr(x), i2, ls);
            lemma_lit_extend(t + e1 + e2 + e3, "}"@, i2, ls);
            assert(lit_at(s, i2, ls));
            lemma_lit_append((t + e1 + e2) + ls, jstr(x));
            lemma_lit_extend(t + e1 + e2 + e3, "}"@, i2 + ls.len(), jstr(x));
            assert(lit_at(s, i2 + ls.len(), jstr(x)));
            lemma_jstr_at(s, i2 + ls.len(), x);
            assert(sp_opt_str_field(s, i2, ls) == Some((Some(x), i3)));
        },
        None => {
            assert(e3.len() == 0);
            assert(i3 == i2);
            lemma_lit_at_diff(s, i2, "}"@, ls, 0);
            assert(sp_opt_str_field(s, i2, ls) == Some((None::<Seq<char>>, i2)));
        },
    }
    // The offset field region.
    match offset {
        Some(y) => {
            let dy = dec_u64(y as nat);
            assert(e2 == lo + dy);
            assert(t + e1 + e2 =~= ((t + e1) + lo) + dy);
            lemma_lit_append(t + e1, lo);
            lemma_lit_extend((t + e1) + lo, dy, i1, lo);
            lemma_lit_extend(t + e1 + e2, e3, i1, lo);
            lemma_lit_extend(t + e1 + e2 + e3, "}"@, i1, lo);
            assert(lit_at(s, i1, lo));
            lemma_lit_append((t + e1) + lo, dy);
            lemma_lit_extend(t + e1 + e2, e3, i1 + lo.len(), dy);
            lemma_lit_extend(t + e1 + e2 + e3, "}"@, i1 + lo.len(), dy);
            assert(lit_at(s, i1 + lo.len(), dy));
            // The character after the digits is a comma or the closing brace.
            match search {
                Some(_) => {
                    lemma_char_of_lit(s, i2, ls, 0);
                    assert(s[i2] == ',');
                },
                None => {
                    assert(s[i2] == '}');
                },
            }
            assert(!is_digit(s[i2]));
            lemma_parse_u64_at(s, i1 + lo.len(), y as u64);
            assert(sp_opt_u32_field(s, i1, lo) == Some((Some(y), i2)));
        },
        None => {
            assert(e2.len() == 0);
            assert(i2 == i1);
            match search {
                Some(_) => {
                    lemma_lit_at_diff(s, i1, ls, lo, 2);
                },
                None => {
                    lemma_lit_at_diff(s, i1, "}"@, lo, 0);
                },
            }
            assert(sp_opt_u32_field(s, i1, lo) == Some((None::<u32>, i1)));
        },
    }
    // The limit field region.
    match limit {
        Some(x) => {
            let dx = dec_u64(x as nat);
            assert(e1 == ll + dx);
            assert(t + e1 =~= (t + ll) + dx);
            lemma_lit_append(t, ll);
            lemma_lit_extend(t + ll, dx, i0, ll);
            lemma_lit_extend(t + e1, e2, i0, ll);
            lemma_lit_extend(t + e1 + e2, e3, i0, ll);
            lemma_lit_extend(t + e1 + e2 + e3, "}"@, i0, ll);
            assert(lit_at(s, i0, ll));
            lemma_lit_append(t + ll, dx);
            lemma_lit_extend(t + e1, e2, i0 + ll.len(), dx);
            lemma_lit_extend(t + e1 + e2, e3, i0 + ll.len(), dx);
            lemma_lit_extend(t + e1 + e2 + e3, "}"@, i0 + ll.len(), dx);
            assert(lit_at(s, i0 + ll.len(), dx));
            match offset {
                Some(_) => {
                    lemma_char_of_lit(s, i1, lo, 0);
                    assert(s[i1] == ',');
                },
                None => {
                    match search {
                        Some(_) => {
                            lemma_char_of_lit(s, i2, ls, 0);
                            assert(s[i1] == ',');
                        },
                        None => {
                            assert(s[i1] == '}');
                        },
                    }
                },
            }
            assert(!is_digit(s[i1]));
            lemma_parse_u64_at(s, i0 + ll.len(), x as u64);
            assert(sp_opt_u32_field(s, i0, ll) == Some((Some(x), i1)));
        },
        None => {
            assert(e1.len() == 0);
            assert(i1 == i0);
            match offset {
                Some(_) => {
                    lemma_lit_at_diff(s, i0, lo, ll, 2);
                },
                None => {
                    match search {
                        Some(_) => {
                            lemma_lit_at_diff(s, i0, ls, ll, 2);
                        },
                        None => {
                            lemma_lit_at_diff(s, i0, "}"@, ll, 0);
                        },
                    }
                },
            }
            assert(sp_opt_u32_field(s, i0, ll) == Some((None::<u32>, i0)));
        },
    }
}

// ---------------------------------------------------------------------------
// Round trip for responses.
// ---------------------------------------------------------------------------

/// A content type's text parses back to exactly that content type.
proof fn lemma_ctype_at(s: Seq<char>, i: int, t: ContentType)
    requires
        lit_at(s, i, ctype_text(t)),
    ensures
        sp_ctype(s, i) == Some((t, i + ctype_text(t).len())),
{
    reveal_strlit("\"text\"");
    reveal_strlit("\"image\"");
    if t is Image {
        lemma_lit_at_diff(s, i, "\"image\""@, "\"text\""@, 1);
    }
}

/// An error code's text parses back to exactly that code.
proof fn lemma_code_at(s: Seq<char>, i: int, c: ErrorCode)
    requires
        lit_at(s, i, code_text(c)),
    ensures
        sp_code(s, i) == Some((c, i + code_text(c).len())),
{
    reveal_strlit("\"not_found\"");
    reveal_strlit("\"database_error\"");
    reveal_strlit("\"clipboard_error\"");
    reveal_strlit("\"invalid_request\"");
    reveal_strlit("\"internal_error\"");
    match c {
        ErrorCode::NotFound => {},
        ErrorCode::DatabaseError => {
            lemma_lit_at_diff(s, i, code_text(c), "\"not_found\""@, 1);
        },
        ErrorCode::ClipboardError => {
            lemma_lit_at_diff(s, i, code_text(c), "\"not_found\""@, 1);
            lemma_lit_at_diff(s, i, code_text(c), "\"database_error\""@, 1);
        },
        ErrorCode::InvalidRequest => {
            lemma_lit_at_diff(s, i, code_text(c), "\"not_found\""@, 1);
            lemma_lit_at_diff(s, i, code_text(c), "\"database_error\""@, 1);
            lemma_lit_at_diff(s, i, code_text(c), "\"clipboard_error\""@, 1);
        },
        ErrorCode::InternalError => {
            lemma_lit_at_diff(s, i, code_text(c), "\"not_found\""@, 1);
            lemma_lit_at_diff(s, i, code_text(c), "\"database_error\""@, 1);
            lemma_lit_at_diff(s, i, code_text(c), "\"clipboard_error\""@, 1);
            lemma_lit_at_diff(s, i, code_text(c), "\"invalid_request\""@, 3);
        },
    }
}

/// An entry's text parses back to exactly that entry.
#[verifier::rlimit(100)]
proof fn lemma_entry_at(s: Seq<char>, i: int, e: EntryV)
    requires
        lit_at(s, i, entry_text(e)),
    ensures
        sp_entry(s, i) == Some((e, i + entry_text(e).len())),
{
    reveal_strlit("{\"id\":");
    reveal_strlit(",\"content_type\":");
    reveal_strlit(",\"mime_type\":");
    reveal_strlit(",\"preview\":");
    reveal_strlit(",\"byte_size\":");
    reveal_strlit(",\"created_at\":");
    reveal_strlit(",\"pinned\":");
    reveal_strlit(",\"thumbnail\":");
    reveal_strlit("}");
    let p1 = "{\"id\":"@;
    let d1 = dec_i64(e.id as int);
    let p2 = ",\"content_type\":"@;
    let ct = ctype_text(e.content_type);
    let p3 = ",\"mime_type\":"@;
    let m = jstr(e.mime_type);
    let p4 = ",\"preview\":"@;
    let pv = jstr(e.preview);
    let p5 = ",\"byte_size\":"@;
    let d2 = dec_u64(e.byte_size as nat);
    let p6 = ",\"created_at\":"@;
    let d3 = dec_i64(e.created_at as int);
    let p7 = ",\"pinned\":"@;
    let b = jbool(e.pinned);
    let e8 = enc_opt_str(",\"thumbnail\":"@, e.thumbnail);
    let x14 = p1 + d1 + p2 + ct + p3 + m + p4 + pv + p5 + d2 + p6 + d3 + p7 + b;
    let x15 = x14 + e8;
    assert(entry_text(e) == x15 + "}"@);
    lemma_lit_at_split(s, i, x15, "}"@);
    lemma_lit_at_split(s, i, x14, e8);
    lemma_lit_at_split(s, i, p1 + d1 + p2 + ct + p3 + m + p4 + pv + p5 + d2 + p6 + d3 + p7, b);
    lemma_lit_at_split(s, i, p1 + d1 + p2 + ct + p3 + m + p4 + pv + p5 + d2 + p6 + d3, p7);
    lemma_lit_at_split(s, i, p1 + d1 + p2 + ct + p3 + m + p4 + pv + p5 + d2 + p6, d3);
    lemma_lit_at_split(s, i, p1 + d1 + p2 + ct + p3 + m + p4 + pv + p5 + d2, p6);
    lemma_lit_at_split(s, i, p1 + d1 + p2 + ct + p3 + m + p4 + pv + p5, d2);
    lemma_lit_at_split(s, i, p1 + d1 + p2 + ct + p3 + m + p4 + pv, p5);
    lemma_lit_at_split(s, i, p1 + d1 + p2 + ct + p3 + m + p4, pv);
    lemma_lit_at_split(s, i, p1 + d1 + p2 + ct + p3 + m, p4);
    lemma_lit_at_split(s, i, p1 + d1 + p2 + ct + p3, m);
    lemma_lit_at_split(s, i, p1 + d1 + p2 + ct, p3);
    lemma_lit_at_split(s, i, p1 + d1 + p2, ct);
    lemma_lit_at_split(s, i, p1 + d1, p2);
    lemma_lit_at_split(s, i, p1, d1);
    let q1 = i + p1.len();
    let j1 = q1 + d1.len();
    let q2 = j1 + p2.len();
    let j2 = q2 + ct.len();
    let q3 = j2 + p3.len();
    let j3 = q3 + m.len();
    let q4 = j3 + p4.len();
    let j4 = q4 + pv.len();
    let q5 = j4 + p5.len();
    let j5 = q5 + d2.len();
    let q6 = j5 + p6.len();
    let j6 = q6 + d3.len();
    let q7 = j6 + p7.len();
    let j7 = q7 + b.len();
    let j8 = j7 + e8.len();
    lemma_char_of_lit(s, j1, p2, 0);
    assert(s[j1] == ',' && !is_digit(','));
    lemma_parse_i64_at(s, q1, e.id);
    lemma_ctype_at(s, q2, e.content_type);
    lemma_jstr_at(s, q3, e.mime_type);
    lemma_jstr_at(s, q4, e.preview);
    lemma_char_of_lit(s, j5, p6, 0);
    assert(s[j5] == ',');
    lemma_parse_u64_at(s, q5, e.byte_size);
    lemma_char_of_lit(s, j6, p7, 0);
    assert(s[j6] == ',');
    lemma_parse_i64_at(s, q6, e.created_at);
    lemma_bool_at(s, q7, e.pinned);
    lemma_char_of_lit(s, j8, "}"@, 0);
    assert(s[j8] == '}');
    match e.thumbnail {
        Some(th) => {
            assert(e8 == ",\"thumbnail\":"@ + jstr(th));
            lemma_lit_at_split(s, j7, ",\"thumbnail\":"@, jstr(th));
            lemma_jstr_at(s, j7 + ",\"thumbnail\":"@.len(), th);
            assert(sp_opt_str_field(s, j7, ",\"thumbnail\":"@) == Some((Some(th), j8)));
        },
        None => {
            assert(e8.len() == 0);
            assert(j8 == j7);
            lemma_lit_at_diff(s, j7, "}"@, ",\"thumbnail\":"@, 0);
            assert(sp_opt_str_field(s, j7, ",\"thumbnail\":"@) == Some(
                (None::<Seq<char>>, j7),
            ));
        },
    }
    assert(sp_entry(s, i) == Some(
        (
            EntryV {
                id: e.id,
                content_type: e.content_type,
                mime_type: e.mime_type,
                preview: e.preview,
                byte_size: e.byte_size,
                created_at: e.created_at,
                pinned: e.pinned,
                thumbnail: e.thumbnail,
            },
            j8 + 1,
        ),
    ));
}

/// The items of a non-empty entry list, followed by the closing bracket,
/// parse back to exactly those entries.
#[verifier::rlimit(100)]
proof fn lemma_entries_items_rt(s: Seq<char>, i: int, es: Seq<EntryV>)
    requires
        es.len() >= 1,
        lit_at(s, i, entries_items_text(es) + seq![']']),
    ensures
        sp_entries_items(s, i) == Some((es, i + entries_items_text(es).len() + 1)),
    decreases es.len(),
{
    reveal_strlit("{\"id\":");
    if es.len() == 1 {
        assert(entries_items_text(es) == entry_text(es[0]));
        lemma_lit_at_split(s, i, entry_text(es[0]), seq![']']);
        lemma_entry_at(s, i, es[0]);
        let j = i + entry_text(es[0]).len();
        lemma_char_of_lit(s, j, seq![']'], 0);
        assert(s[j] == ']');
        assert(entry_text(es[0]).len() >= 1) by {
            assert(entry_text(es[0])[0] == "{\"id\":"@[0]) by {
                assert(("{\"id\":"@ + dec_i64(es[0].id as int))[0] == "{\"id\":"@[0]);
            }
        }
        assert(seq![es[0]] =~= es);
    } else {
        let head = es[0];
        let rest = es.drop_first();
        assert(entries_items_text(es) == entry_text(head) + seq![','] + entries_items_text(rest));
        assert(entries_items_text(es) + seq![']'] =~= (entry_text(head) + seq![',']) + (
        entries_items_text(rest) + seq![']']));
        lemma_lit_at_split(
            s,
            i,
            entry_text(head) + seq![','],
            entries_items_text(rest) + seq![']'],
        );
        lemma_lit_at_split(s, i, entry_text(head), seq![',']);
        lemma_entry_at(s, i, head);
        let j = i + entry_text(head).len();
        lemma_char_of_lit(s, j, seq![','], 0);
        assert(s[j] == ',');
        assert(entry_text(head).len() >= 1) by {
            assert(entry_text(head)[0] == "{\"id\":"@[0]) by {
                assert(("{\"id\":"@ + dec_i64(head.id as int))[0] == "{\"id\":"@[0]);
            }
        }
        lemma_entries_items_rt(s, j + 1, rest);
        assert(seq![head] + rest =~= es);
    }
}

/// An entry list's text parses back to exactly that list.
proof fn lemma_entries_rt(s: Seq<char>, i: int, es: Seq<EntryV>)
    requires
        lit_at(s, i, entries_text(es)),
    ensures
        sp_entries(s, i) == Some((es, i + entries_text(es).len())),
{
    reveal_strlit("[]");
    reveal_strlit("{\"id\":");
    if es.len() == 0 {
        lemma_char_of_lit(s, i, "[]"@, 0);
        lemma_char_of_lit(s, i, "[]"@, 1);
        assert(s[i] == '[' && s[i + 1] == ']');
        assert(sp_entries(s, i) == Some((Seq::<EntryV>::empty(), i + 2)));
        assert(Seq::<EntryV>::empty() =~= es);
    } else {
        assert(entries_text(es) == seq!['['] + entries_items_text(es) + seq![']']);
        assert(entries_text(es) =~= seq!['['] + (entries_items_text(es) + seq![']']));
        lemma_lit_at_split(s, i, seq!['['], entries_items_text(es) + seq![']']);
        lemma_char_of_lit(s, i, seq!['['], 0);
        assert(s[i] == '[');
        lemma_entries_items_rt(s, i + 1, es);
        assert(s[i + 1] == '{') by {
            lemma_char_of_lit(s, i + 1, entries_items_text(es) + seq![']'], 0);
            assert(entries_items_text(es)[0] == entry_text(es[0])[0]);
            assert(entry_text(es[0])[0] == "{\"id\":"@[0]) by {
                assert(("{\"id\":"@ + dec_i64(es[0].id as int))[0] == "{\"id\":"@[0]);
            }
        }
    }
}

/// The tail of a canonical `history` record parses back to its fields.
#[verifier::rlimit(100)]
proof fn lemma_history_tail_rt(entries: Seq<EntryV>, total_count: u64)
    ensures
        sp_history_tail(
            resp_text(RespV::History { entries, total_count }),
            "{\"type\":\"history\""@.len() as int,
        ) == Some(RespV::History { entries, total_count }),
{
    reveal_strlit("{\"type\":\"history\"");
    reveal_strlit(",\"entries\":");
    reveal_strlit(",\"total_count\":");
    reveal_strlit("}");
    let th = "{\"type\":\"history\""@;
    let s = resp_text(RespV::History { entries, total_count });
    let l1 = ",\"entries\":"@;
    let l2 = ",\"total_count\":"@;
    let et = entries_text(entries);
    let d = dec_u64(total_count as nat);
    assert(s == th + l1 + et + l2 + d + "}"@);
    let x = th + l1 + et + l2 + d;
    assert(s =~= x + "}"@);
    assert(s.subrange(0, s.len() as int) =~= s);
    lemma_lit_at_split(s, 0, x, "}"@);
    lemma_lit_at_split(s, 0, th + l1 + et + l2, d);
    lemma_lit_at_split(s, 0, th + l1 + et, l2);
    lemma_lit_at_split(s, 0, th + l1, et);
    lemma_lit_at_split(s, 0, th, l1);
    let i0 = th.len() as int;
    let i1 = i0 + l1.len();
    let j1 = i1 + et.len();
    let i2 = j1 + l2.len();
    let j2 = i2 + d.len();
    lemma_entries_rt(s, i1, entries);
    lemma_char_of_lit(s, j2, "}"@, 0);
    assert(s[j2] == '}');
    lemma_parse_u64_at(s, i2, total_count);
    assert(sp_closed(s, j2));
}

/// The tail of a canonical `content` record parses back to its fields.
#[verifier::rlimit(100)]
proof fn lemma_content_tail_rt(id: i64, mime_type: Seq<char>, data: Seq<char>)
    ensures
        sp_content_tail(
            resp_text(RespV::Content { id, mime_type, data }),
            "{\"type\":\"content\""@.len() as int,
        ) == Some(RespV::Content { id, mime_type, data }),
{
    reveal_strlit("{\"type\":\"content\"");
    reveal_strlit(",\"id\":");
    reveal_strlit(",\"mime_type\":");
    reveal_strlit(",\"data\":");
    reveal_strlit("}");
    let tc = "{\"type\":\"content\""@;
    let s = resp_text(RespV::Content { id, mime_type, data });
    let l1 = ",\"id\":"@;
    let l2 = ",\"mime_type\":"@;
    let l3 = ",\"data\":"@;
    let d = dec_i64(id as int);
    assert(s == tc + l1 + d + l2 + jstr(mime_type) + l3 + jstr(data) + "}"@);
    let x6 = tc + l1 + d + l2 + jstr(mime_type) + l3;
    assert(s =~= (x6 + jstr(data)) + "}"@);
    assert(s.subrange(0, s.len() as int) =~= s);
    lemma_lit_at_split(s, 0, x6 + jstr(data), "}"@);
    lemma_lit_at_split(s, 0, x6, jstr(data));
    lemma_lit_at_split(s, 0, tc + l1 + d + l2 + jstr(mime_type), l3);
    lemma_lit_at_split(s, 0, tc + l1 + d + l2, jstr(mime_type));
    lemma_lit_at_split(s, 0, tc + l1 + d, l2);
    lemma_lit_at_split(s, 0, tc + l1, d);
    lemma_lit_at_split(s, 0, tc, l1);
    let i0 = tc.len() as int;
    let i1 = i0 + l1.len();
    let j1 = i1 + d.len();
    let i2 = j1 + l2.len();
    let j2 = i2 + jstr(mime_type).len();
    let i3 = j2 + l3.len();
    let j3 = i3 + jstr(data).len();
    lemma_char_of_lit(s, j1, l2, 0);
    assert(s[j1] == ',');
    lemma_parse_i64_at(s, i1, id);
    lemma_jstr_at(s, i2, mime_type);
    lemma_jstr_at(s, i3, data);
    lemma_char_of_lit(s, j3, "}"@, 0);
    assert(s[j3] == '}');
    assert(sp_closed(s, j3));
}

/// The tail of a canonical `error` record parses back to its fields.
#[verifier::rlimit(100)]
proof fn lemma_error_tail_rt(code: ErrorCode, message: Seq<char>)
    ensures
        sp_error_tail(
            resp_text(RespV::Error { code, message }),
            "{\"type\":\"error\""@.len() as int,
        ) == Some(RespV::Error { code, message }),
{
    reveal_strlit("{\"type\":\"error\"");
    reveal_strlit(",\"code\":");
    reveal_strlit(",\"message\":");
    reveal_strlit("}");
    let te = "{\"type\":\"error\""@;
    let s = resp_text(RespV::Error { code, message });
    let l1 = ",\"code\":"@;
    let l2 = ",\"message\":"@;
    let cd = code_text(code);
    assert(s == te + l1 + cd + l2 + jstr(message) + "}"@);
    let x4 = te + l1 + cd + l2;
    assert(s =~= (x4 + jstr(message)) + "}"@);
    assert(s.subrange(0, s.len() as int) =~= s);
    lemma_lit_at_split(s, 0, x4 + jstr(message), "}"@);
    lemma_lit_at_split(s, 0, x4, jstr(message));
    lemma_lit_at_split(s, 0, te + l1 + cd, l2);
    lemma_lit_at_split(s, 0, te + l1, cd);
    lemma_lit_at_split(s, 0, te, l1);
    let i1 = te.len() as int + l1.len();
    let j1 = i1 + cd.len();
    let i2 = j1 + l2.len();
    let j2 = i2 + jstr(message).len();
    lemma_code_at(s, i1, code);
    lemma_jstr_at(s, i2, message);
    lemma_char_of_lit(s, j2, "}"@, 0);
    assert(s[j2] == '}');
    assert(sp_closed(s, j2));
}

/// The tail of a canonical `status` record parses back to its fields.
#[verifier::rlimit(100)]
proof fn lemma_status_tail_rt(version: Seq<char>, entry_count: u64, database_size_bytes: u64)
    ensures
        sp_status_tail(
            resp_text(RespV::Status { version, entry_count, database_size_bytes }),
            "{\"type\":\"status\""@.len() as int,
        ) == Some(RespV::Status { version, entry_count, database_size_bytes }),
{
    reveal_strlit("{\"type\":\"status\"");
    reveal_strlit(",\"version\":");
    reveal_strlit(",\"entry_count\":");
    reveal_strlit(",\"database_size_bytes\":");
    reveal_strlit("}");
    let ts = "{\"type\":\"status\""@;
    let s = resp_text(RespV::Status { version, entry_count, database_size_bytes });
    let l1 = ",\"version\":"@;
    let l2 = ",\"entry_count\":"@;
    let l3 = ",\"database_size_bytes\":"@;
    let d2 = dec_u64(entry_count as nat);
    let d3 = dec_u64(database_size_bytes as nat);
    assert(s == ts + l1 + jstr(version) + l2 + d2 + l3 + d3 + "}"@);
    let x6 = ts + l1 + jstr(version) + l2 + d2 + l3;
    assert(s =~= (x6 + d3) + "}"@);
    assert(s.subrange(0, s.len() as int) =~= s);
    lemma_lit_at_split(s, 0, x6 + d3, "}"@);
    lemma_lit_at_split(s, 0, x6, d3);
    lemma_lit_at_split(s, 0, ts + l1 + jstr(version) + l2 + d2, l3);
    lemma_lit_at_split(s, 0, ts + l1 + jstr(version) + l2, d2);
    lemma_lit_at_split(s, 0, ts + l1 + jstr(version), l2);
    lemma_lit_at_split(s, 0, ts + l1, jstr(version));
    lemma_lit_at_split(s, 0, ts, l1);
    let i1 = ts.len() as int + l1.len();
    let j1 = i1 + jstr(version).len();
    let i2 = j1 + l2.len();
    let j2 = i2 + d2.len();
    let i3 = j2 + l3.len();
    let j3 = i3 + d3.len();
    lemma_jstr_at(s, i1, version);
    lemma_char_of_lit(s, j2, l3, 0);
    assert(s[j2] == ',');
    lemma_parse_u64_at(s, i2, entry_count);
    lemma_char_of_lit(s, j3, "}"@, 0);
    assert(s[j3] == '}');
    lemma_parse_u64_at(s, i3, database_size_bytes);
    assert(sp_closed(s, j3));
}

/// The canonical text of every response parses back to exactly that response.
#[verifier::rlimit(100)]
pub proof fn lemma_response_round_trip(v: RespV)
    ensures
        sp_response(resp_text(v)) == Some(v),
{
    reveal_strlit("{\"type\":\"history\"");
    reveal_strlit("{\"type\":\"content\"");
    reveal_strlit("{\"type\":\"ok\"");
    reveal_strlit("{\"type\":\"error\"");
    reveal_strlit("{\"type\":\"status\"");
    reveal_strlit("{\"type\":\"pong\"");
    reveal_strlit("}");
    let th = "{\"type\":\"history\""@;
    let tc = "{\"type\":\"content\""@;
    let tok = "{\"type\":\"ok\""@;
    let te = "{\"type\":\"error\""@;
    let ts = "{\"type\":\"status\""@;
    let tpo = "{\"type\":\"pong\""@;
    let s = resp_text(v);
    match v {
        RespV::History { entries, total_count } => {
            lemma_lit_prefix(th, s.subrange(th.len() as int, s.len() as int));
            assert(s =~= th + s.subrange(th.len() as int, s.len() as int));
            assert(lit_at(s, 0, th));
            lemma_history_tail_rt(entries, total_count);
        },
        RespV::Content { id, mime_type, data } => {
            lemma_lit_prefix(tc, s.subrange(tc.len() as int, s.len() as int));
            assert(s =~= tc + s.subrange(tc.len() as int, s.len() as int));
            assert(lit_at(s, 0, tc));
            lemma_lit_at_diff(s, 0, tc, th, 10);
            lemma_content_tail_rt(id, mime_type, data);
        },
        RespV::Okay => {
            assert(s =~= tok + "}"@);
            lemma_lit_prefix(tok, "}"@);
            lemma_lit_at_diff(s, 0, tok, th, 9);
            lemma_lit_at_diff(s, 0, tok, tc, 9);
            lemma_lit_append(tok, "}"@);
            lemma_char_of_lit(s, tok.len() as int, "}"@, 0);
            assert(sp_closed(s, tok.len() as int));
        },
        RespV::Error { code, message } => {
            lemma_lit_prefix(te, s.subrange(te.len() as int, s.len() as int));
            assert(s =~= te + s.subrange(te.len() as int, s.len() as int));
            assert(lit_at(s, 0, te));
            lemma_lit_at_diff(s, 0, te, th, 9);
            lemma_lit_at_diff(s, 0, te, tc, 9);
            lemma_lit_at_diff(s, 0, te, tok, 9);
            lemma_error_tail_rt(code, message);
        },
        RespV::Status { version, entry_count, database_size_bytes } => {
            lemma_lit_prefix(ts, s.subrange(ts.len() as int, s.len() as int));
            assert(s =~= ts + s.subrange(ts.len() as int, s.len() as int));
            assert(lit_at(s, 0, ts));
            lemma_lit_at_diff(s, 0, ts, th, 9);
            lemma_lit_at_diff(s, 0, ts, tc, 9);
            lemma_lit_at_diff(s, 0, ts, tok, 9);
            lemma_lit_at_diff(s, 0, ts, te, 9);
            lemma_status_tail_rt(version, entry_count, database_size_bytes);
        },
        RespV::Pong => {
            assert(s =~= tpo + "}"@);
            lemma_lit_prefix(tpo, "}"@);
            lemma_lit_at_diff(s, 0, tpo, th, 9);
            lemma_lit_at_diff(s, 0, tpo, tc, 9);
            lemma_lit_at_diff(s, 0, tpo, tok, 9);
            lemma_lit_at_diff(s, 0, tpo, te, 9);
            lemma_lit_at_diff(s, 0, tpo, ts, 9);
            lemma_lit_append(tpo, "}"@);
            lemma_char_of_lit(s, tpo.len() as int, "}"@, 0);
            assert(sp_closed(s, tpo.len() as int));
        },
    }
}

// ---------------------------------------------------------------------------
// Whitespace trimming around records.
// ---------------------------------------------------------------------------

use crate::text::{is_ws, is_ws_exec, string_from_chars as chars_to_string, string_from_utf8};
use vstd::utf8::{decode_utf8, encode_utf8, valid_utf8};

/// The first position at or after `i` holding no whitespace.
pub open spec fn ws_end(s: Seq<char>, i: int) -> int
    decreases s.len() - i,
{
    if 0 <= i < s.len() && is_ws(s[i]) {
        ws_end(s, i + 1)
    } else {
        i
    }
}

/// The position after the last non-whitespace character before `i`.
pub open spec fn ws_start_back(s: Seq<char>, i: int) -> int
    decreases i,
{
    if 0 < i <= s.len() && is_ws(s[i - 1]) {
        ws_start_back(s, i - 1)
    } else {
        i
    }
}

/// The text without leading and trailing whitespace.
pub open spec fn trim_ws(s: Seq<char>) -> Seq<char> {
    let a = ws_end(s, 0);
    let b = ws_start_back(s, s.len() as int);
    if a <= b {
        s.subrange(a, b)
    } else {
        Seq::empty()
    }
}

/// A text that neither starts nor ends with whitespace trims to itself.
proof fn lemma_trim_no_ws(s: Seq<char>)
    requires
        s.len() > 0,
        !is_ws(s[0]),
        !is_ws(s[s.len() - 1]),
    ensures
        trim_ws(s) == s,
{
    assert(ws_end(s, 0) == 0);
    assert(ws_start_back(s, s.len() as int) == s.len() as int);
    assert(s.subrange(0, s.len() as int) =~= s);
}

/// Copy `s` without its leading and trailing whitespace.
pub(crate) fn trim_chars(s: &Vec<char>) -> (r: Vec<char>)
    ensures
        r@ == trim_ws(s@),
{
    let n = s.len();
    let mut a: usize = 0;
    while a < n && is_ws_exec(s[a])
        invariant
            0 <= a <= n,
            n == s@.len(),
            ws_end(s@, 0) == ws_end(s@, a as int),
        decreases n - a,
    {
        proof {
            assert(ws_end(s@, a as int) == ws_end(s@, a as int + 1));
        }
        a += 1;
    }
    assert(a == ws_end(s@, 0));
    let mut b: usize = n;
    while b > 0 && is_ws_exec(s[b - 1])
        invariant
            0 <= b <= n,
            n == s@.len(),
            ws_start_back(s@, n as int) == ws_start_back(s@, b as int),
        decreases b,
    {
        proof {
            assert(ws_start_back(s@, b as int) == ws_start_back(s@, b as int - 1));
        }
        b -= 1;
    }
    assert(b == ws_start_back(s@, n as int));
    let mut out: Vec<char> = Vec::new();
    if a > b {
        assert(out@ =~= trim_ws(s@));
        return out;
    }
    let mut k: usize = a;
    while k < b
        invariant
            a <= k <= b <= n,
            n == s@.len(),
            out@ == s@.subrange(a as int, k as int),
        decreases b - k,
    {
        out.push(s[k]);
        assert(out@ =~= s@.subrange(a as int, k as int + 1));
        k += 1;
    }
    assert(out@ =~= trim_ws(s@));
    out
}

// ---------------------------------------------------------------------------
// The byte level: UTF-8 encoded records, one per line.
// ---------------------------------------------------------------------------

/// The bytes of an encoded request record, newline included.
pub open spec fn spec_encode_request(r: ReqV) -> Seq<u8> {
    encode_utf8(req_text(r)) + seq![10u8]
}

/// The bytes of an encoded response record, newline included.
pub open spec fn spec_encode_response(r: RespV) -> Seq<u8> {
    encode_utf8(resp_text(r)) + seq![10u8]
}

/// What decoding a request record (without its newline) yields: the bytes must
/// be valid UTF-8 and, after trimming surrounding whitespace, a canonical
/// request record.
pub open spec fn spec_decode_request(b: Seq<u8>) -> Option<ReqV> {
    if valid_utf8(b) {
        sp_request(trim_ws(decode_utf8(b)))
    } else {
        None
    }
}

/// What decoding a response record (without its newline) yields.
pub open spec fn spec_decode_response(b: Seq<u8>) -> Option<RespV> {
    if valid_utf8(b) {
        sp_response(trim_ws(decode_utf8(b)))
    } else {
        None
    }
}

/// Encode a request to JSON bytes with a newline delimiter.
pub fn encode_request(request: &Request) -> (out: Vec<u8>)
    ensures
        out@ == spec_encode_request(request@),
{
    let chars = encode_request_chars(request);
    let s = chars_to_string(&chars);
    let mut out = s.as_str().as_bytes_vec();
    out.push(10u8);
    assert(out@ =~= spec_encode_request(request@));
    out
}

/// Encode a response to JSON bytes with a newline delimiter.
pub fn encode_response(response: &Response) -> (out: Vec<u8>)
    ensures
        out@ == spec_encode_response(response@),
{
    let chars = encode_response_chars(response);
    let s = chars_to_string(&chars);
    let mut out = s.as_str().as_bytes_vec();
    out.push(10u8);
    assert(out@ =~= spec_encode_response(response@));
    out
}

/// Decode a request from the JSON bytes of one record.
pub fn decode_request(data: &[u8]) -> (r: Option<Request>)
    ensures
        match r {
            Some(req) => spec_decode_request(data@) == Some(req@),
            None => spec_decode_request(data@) is None,
        },
{
    match string_from_utf8(data) {
        Some(s) => {
            let cs = crate::text::str_chars(s.as_str());
            let t = trim_chars(&cs);
            parse_request(&t)
        },
        None => None,
    }
}

/// Decode a response from the JSON bytes of one record.
pub fn decode_response(data: &[u8]) -> (r: Option<Response>)
    ensures
        match r {
            Some(resp) => spec_decode_response(data@) == Some(resp@),
            None => spec_decode_response(data@) is None,
        },
{
    match string_from_utf8(data) {
        Some(s) => {
            let cs = crate::text::str_chars(s.as_str());
            let t = trim_chars(&cs);
            parse_response(&t)
        },
        None => None,
    }
}

/// Every request record starts with an opening brace and ends with the
/// closing one.
proof fn lemma_req_text_shape(r: ReqV)
    ensures
        req_text(r).len() > 0,
        req_text(r)[0] == '{',
        req_text(r)[req_text(r).len() - 1] == '}',
{
    reveal_strlit("{\"type\":\"get_history\"");
    reveal_strlit("{\"type\":\"get_content\"");
    reveal_strlit("{\"type\":\"set_clipboard\"");
    reveal_strlit("{\"type\":\"delete_entry\"");
    reveal_strlit("{\"type\":\"clear_history\"");
    reveal_strlit("{\"type\":\"set_pinned\"");
    reveal_strlit("{\"type\":\"get_status\"");
    reveal_strlit("{\"type\":\"ping\"");
    reveal_strlit("}");
    let s = req_text(r);
    assert(s[s.len() - 1] == '}') by {
        assert(s.len() > 0);
        assert("}"@.len() == 1);
    }
}

/// Every response record starts with an opening brace and ends with the
/// closing one.
proof fn lemma_resp_text_shape(r: RespV)
    ensures
        resp_text(r).len() > 0,
        resp_text(r)[0] == '{',
        resp_text(r)[resp_text(r).len() - 1] == '}',
{
    reveal_strlit("{\"type\":\"history\"");
    reveal_strlit("{\"type\":\"content\"");
    reveal_strlit("{\"type\":\"ok\"");
    reveal_strlit("{\"type\":\"error\"");
    reveal_strlit("{\"type\":\"status\"");
    reveal_strlit("{\"type\":\"pong\"");
    reveal_strlit("}");
    let s = resp_text(r);
    assert(s[s.len() - 1] == '}') by {
        assert(s.len() > 0);
        assert("}"@.len() == 1);
    }
}

/// Encoding any request and decoding the bytes yields back exactly that
/// request.
pub proof fn lemma_request_bytes_round_trip(r: ReqV)
    ensures
        spec_decode_request(encode_utf8(req_text(r))) == Some(r),
{
    broadcast use vstd::utf8::encode_utf8_valid_utf8, vstd::utf8::encode_utf8_decode_utf8;

    lemma_req_text_shape(r);
    lemma_trim_no_ws(req_text(r));
    lemma_request_round_trip(r);
}

/// Encoding any response and decoding the bytes yields back exactly that
/// response.
pub proof fn lemma_response_bytes_round_trip(r: RespV)
    ensures
        spec_decode_response(encode_utf8(resp_text(r))) == Some(r),
{
    broadcast use vstd::utf8::encode_utf8_valid_utf8, vstd::utf8::encode_utf8_decode_utf8;

    lemma_resp_text_shape(r);
    lemma_trim_no_ws(resp_text(r));
    lemma_response_round_trip(r);
}

// ---------------------------------------------------------------------------
// Framing: a reader accumulates bytes up to the first newline.
// ---------------------------------------------------------------------------

/// The position of the first newline byte at or after `i`, or the end.
pub open spec fn nl_pos(b: Seq<u8>, i: int) -> int
    decreases b.len() - i,
{
    if 0 <= i < b.len() {
        if b[i] == 10 {
            i
        } else {
            nl_pos(b, i + 1)
        }
    } else {
        i
    }
}

/// Splitting a buffer at its first newline: the record before it and the
/// bytes after it, or nothing when no full record has arrived yet.
pub open spec fn spec_split_frame(b: Seq<u8>) -> Option<(Seq<u8>, Seq<u8>)> {
    let p = nl_pos(b, 0);
    if p < b.len() {
        Some((b.subrange(0, p), b.subrange(p + 1, b.len() as int)))
    } else {
        None
    }
}

/// Split the buffer at its first newline into the first record and the rest.
pub fn split_frame(buf: &Vec<u8>) -> (r: Option<(Vec<u8>, Vec<u8>)>)
    ensures
        match r {
            Some((rec, rest)) => spec_split_frame(buf@) == Some((rec@, rest@)),
            None => spec_split_frame(buf@) is None,
        },
{
    let n = buf.len();
    let mut p: usize = 0;
    while p < n && buf[p] != 10
        invariant
            0 <= p <= n,
            n == buf@.len(),
            nl_pos(buf@, 0) == nl_pos(buf@, p as int),
        decreases n - p,
    {
        proof {
            assert(nl_pos(buf@, p as int) == nl_pos(buf@, p as int + 1));
        }
        p += 1;
    }
    assert(p == nl_pos(buf@, 0));
    if p == n {
        return None;
    }
    let mut rec: Vec<u8> = Vec::new();
    let mut k: usize = 0;
    while k < p
        invariant
            0 <= k <= p < n,
            n == buf@.len(),
            rec@ == buf@.subrange(0, k as int),
        decreases p - k,
    {
        rec.push(buf[k]);
        assert(rec@ =~= buf@.subrange(0, k as int + 1));
        k += 1;
    }
    let mut rest: Vec<u8> = Vec::new();
    let mut m: usize = p + 1;
    while m < n
        invariant
            p + 1 <= m <= n,
            n == buf@.len(),
            rest@ == buf@.subrange(p as int + 1, m as int),
        decreases n - m,
    {
        rest.push(buf[m]);
        assert(rest@ =~= buf@.subrange(p as int + 1, m as int + 1));
        m += 1;
    }
    assert(rest@ =~= buf@.subrange(p as int + 1, n as int));
    Some((rec, rest))
}

// ---------------------------------------------------------------------------
// Framing soundness: an encoded record holds no newline, so the newline the
// encoder appends delimits exactly it.
// ---------------------------------------------------------------------------

/// Whether a text holds no newline character.
pub open spec fn no_nl(s: Seq<char>) -> bool {
    forall|i: int| 0 <= i < s.len() ==> s[i] != '\n'
}

/// Newline-freedom joins over concatenation.
proof fn lemma_no_nl_concat(a: Seq<char>, b: Seq<char>)
    requires
        no_nl(a),
        no_nl(b),
    ensures
        no_nl(a + b),
{
    assert forall|i: int| 0 <= i < (a + b).len() implies (a + b)[i] != '\n' by {
        if i < a.len() {
            assert(a[i] != '\n');
        } else {
            assert(b[i - a.len()] != '\n');
        }
    }
}

/// Decimal digits hold no newline.
proof fn lemma_no_nl_dec_u64(n: u64)
    ensures
        no_nl(dec_u64(n as nat)),
{
    crate::text::lemma_dec_u64(n as nat);
    assert forall|i: int| 0 <= i < dec_u64(n as nat).len() implies dec_u64(n as nat)[i]
        != '\n' by {
        assert(is_digit(dec_u64(n as nat)[i]));
    }
}

/// A signed decimal holds no newline.
proof fn lemma_no_nl_dec_i64(v: i64)
    ensures
        no_nl(dec_i64(v as int)),
{
    if v < 0 {
        let mag = ((-(v as int)) as u64);
        lemma_no_nl_dec_u64(mag);
        lemma_no_nl_concat(seq!['-'], dec_u64(mag as nat));
        assert(dec_i64(v as int) == seq!['-'] + dec_u64(mag as nat));
    } else {
        lemma_no_nl_dec_u64(v as u64);
    }
}

/// A boolean's text holds no newline.
proof fn lemma_no_nl_jbool(b: bool)
    ensures
        no_nl(jbool(b)),
{
    reveal_strlit("true");
    reveal_strlit("false");
}

/// An escaped string, quotes included, holds no newline: a raw newline is
/// escaped, and every other control character is spelled out in hex.
proof fn lemma_no_nl_jstr(x: Seq<char>)
    ensures
        no_nl(jstr(x)),
{
    lemma_no_nl_esc(x);
    lemma_no_nl_concat(seq!['"'], esc_seq(x));
    lemma_no_nl_concat(seq!['"'] + esc_seq(x), seq!['"']);
    assert(jstr(x) == (seq!['"'] + esc_seq(x)) + seq!['"']);
}

/// The escaped body of a string holds no newline.
proof fn lemma_no_nl_esc(x: Seq<char>)
    ensures
        no_nl(esc_seq(x)),
    decreases x.len(),
{
    if x.len() > 0 {
        lemma_no_nl_esc(x.drop_first());
        let c = x[0];
        assert(no_nl(esc_char(c))) by {
            if c == '"' || c == '\\' || c == '\n' || c == '\r' || c == '\t' || c == (8u8 as char)
                || c == (12u8 as char) {
            } else if (c as u32) < 32 {
                lemma_hex_char_not_nl((c as u32 / 16) as nat);
                lemma_hex_char_not_nl((c as u32 % 16) as nat);
            } else {
                assert(esc_char(c) == seq![c]);
            }
        }
        lemma_no_nl_concat(esc_char(c), esc_seq(x.drop_first()));
    }
}

/// A hex digit is never a newline.
proof fn lemma_hex_char_not_nl(d: nat)
    requires
        d < 16,
    ensures
        hex_char(d) != '\n',
{
    if d < 10 {
        assert(hex_char(d) as u32 == d + 48);
    } else {
        assert(hex_char(d) as u32 == d + 87);
    }
}

/// The canonical text of a request holds no newline.
proof fn lemma_no_nl_req_text(r: ReqV)
    ensures
        no_nl(req_text(r)),
{
    reveal_strlit("{\"type\":\"get_history\"");
    reveal_strlit("{\"type\":\"get_content\"");
    reveal_strlit("{\"type\":\"set_clipboard\"");
    reveal_strlit("{\"type\":\"delete_entry\"");
    reveal_strlit("{\"type\":\"clear_history\"");
    reveal_strlit("{\"type\":\"set_pinned\"");
    reveal_strlit("{\"type\":\"get_status\"");
    reveal_strlit("{\"type\":\"ping\"");
    reveal_strlit(",\"limit\":");
    reveal_strlit(",\"offset\":");
    reveal_strlit(",\"search\":");
    reveal_strlit(",\"id\":");
    reveal_strlit(",\"pinned\":");
    reveal_strlit("}");
    match r {
        ReqV::GetHistory { limit, offset, search } => {
            assert(no_nl(enc_opt_u32(",\"limit\":"@, limit))) by {
                if let Some(x) = limit {
                    lemma_no_nl_dec_u64(x as u64);
                    lemma_no_nl_concat(",\"limit\":"@, dec_u64(x as nat));
                }
            }
            assert(no_nl(enc_opt_u32(",\"offset\":"@, offset))) by {
                if let Some(x) = offset {
                    lemma_no_nl_dec_u64(x as u64);
                    lemma_no_nl_concat(",\"offset\":"@, dec_u64(x as nat));
                }
            }
            assert(no_nl(enc_opt_str(",\"search\":"@, search))) by {
                if let Some(x) = search {
                    lemma_no_nl_jstr(x);
                    lemma_no_nl_concat(",\"search\":"@, jstr(x));
                }
            }
            lemma_no_nl_concat("{\"type\":\"get_history\""@, enc_opt_u32(",\"limit\":"@, limit));
            lemma_no_nl_concat(
                "{\"type\":\"get_history\""@ + enc_opt_u32(",\"limit\":"@, limit),
                enc_opt_u32(",\"offset\":"@, offset),
            );
            lemma_no_nl_concat(
                "{\"type\":\"get_history\""@ + enc_opt_u32(",\"limit\":"@, limit) + enc_opt_u32(
                    ",\"offset\":"@,
                    offset,
                ),
                enc_opt_str(",\"search\":"@, search),
            );
            lemma_no_nl_concat(
                "{\"type\":\"get_history\""@ + enc_opt_u32(",\"limit\":"@, limit) + enc_opt_u32(
                    ",\"offset\":"@,
                    offset,
                ) + enc_opt_str(",\"search\":"@, search),
                "}"@,
            );
        },
        ReqV::GetContent { id } => {
            lemma_no_nl_id_tail("{\"type\":\"get_content\""@, id);
        },
        ReqV::SetClipboard { id } => {
            lemma_no_nl_id_tail("{\"type\":\"set_clipboard\""@, id);
        },
        ReqV::DeleteEntry { id } => {
            lemma_no_nl_id_tail("{\"type\":\"delete_entry\""@, id);
        },
        ReqV::ClearHistory => {
            lemma_no_nl_concat("{\"type\":\"clear_history\""@, "}"@);
        },
        ReqV::SetPinned { id, pinned } => {
            lemma_no_nl_dec_i64(id);
            lemma_no_nl_jbool(pinned);
            lemma_no_nl_concat("{\"type\":\"set_pinned\""@, ",\"id\":"@);
            lemma_no_nl_concat("{\"type\":\"set_pinned\""@ + ",\"id\":"@, dec_i64(id as int));
            lemma_no_nl_concat(
                "{\"type\":\"set_pinned\""@ + ",\"id\":"@ + dec_i64(id as int),
                ",\"pinned\":"@,
            );
            lemma_no_nl_concat(
                "{\"type\":\"set_pinned\""@ + ",\"id\":"@ + dec_i64(id as int) + ",\"pinned\":"@,
                jbool(pinned),
            );
            lemma_no_nl_concat(
                "{\"type\":\"set_pinned\""@ + ",\"id\":"@ + dec_i64(id as int) + ",\"pinned\":"@
                    + jbool(pinned),
                "}"@,
            );
        },
        ReqV::GetStatus => {
            lemma_no_nl_concat("{\"type\":\"get_status\""@, "}"@);
        },
        ReqV::Ping => {
            lemma_no_nl_concat("{\"type\":\"ping\""@, "}"@);
        },
    }
}

/// A record of the shape tag + `,"id":<id>}` holds no newline when the tag
/// holds none.
proof fn lemma_no_nl_id_tail(tag: Seq<char>, id: i64)
    requires
        no_nl(tag),
    ensures
        no_nl(tag + ",\"id\":"@ + dec_i64(id as int) + "}"@),
{
    reveal_strlit(",\"id\":");
    reveal_strlit("}");
    lemma_no_nl_dec_i64(id);
    lemma_no_nl_concat(tag, ",\"id\":"@);
    lemma_no_nl_concat(tag + ",\"id\":"@, dec_i64(id as int));
    lemma_no_nl_concat(tag + ",\"id\":"@ + dec_i64(id as int), "}"@);
}

/// The canonical text of one entry holds no newline.
proof fn lemma_no_nl_entry(e: EntryV)
    ensures
        no_nl(entry_text(e)),
{
    reveal_strlit("{\"id\":");
    reveal_strlit(",\"content_type\":");
    reveal_strlit("\"text\"");
    reveal_strlit("\"image\"");
    reveal_strlit(",\"mime_type\":");
    reveal_strlit(",\"preview\":");
    reveal_strlit(",\"byte_size\":");
    reveal_strlit(",\"created_at\":");
    reveal_strlit(",\"pinned\":");
    reveal_strlit(",\"thumbnail\":");
    reveal_strlit("}");
    lemma_no_nl_dec_i64(e.id);
    lemma_no_nl_dec_u64(e.byte_size);
    lemma_no_nl_dec_i64(e.created_at);
    lemma_no_nl_jstr(e.mime_type);
    lemma_no_nl_jstr(e.preview);
    lemma_no_nl_jbool(e.pinned);
    assert(no_nl(ctype_text(e.content_type)));
    assert(no_nl(enc_opt_str(",\"thumbnail\":"@, e.thumbnail))) by {
        if let Some(t) = e.thumbnail {
            lemma_no_nl_jstr(t);
            lemma_no_nl_concat(",\"thumbnail\":"@, jstr(t));
        }
    }
    let x1 = "{\"id\":"@;
    let x2 = x1 + dec_i64(e.id as int);
    let x3 = x2 + ",\"content_type\":"@;
    let x4 = x3 + ctype_text(e.content_type);
    let x5 = x4 + ",\"mime_type\":"@;
    let x6 = x5 + jstr(e.mime_type);
    let x7 = x6 + ",\"preview\":"@;
    let x8 = x7 + jstr(e.preview);
    let x9 = x8 + ",\"byte_size\":"@;
    let x10 = x9 + dec_u64(e.byte_size as nat);
    let x11 = x10 + ",\"created_at\":"@;
    let x12 = x11 + dec_i64(e.created_at as int);
    let x13 = x12 + ",\"pinned\":"@;
    let x14 = x13 + jbool(e.pinned);
    let x15 = x14 + enc_opt_str(",\"thumbnail\":"@, e.thumbnail);
    lemma_no_nl_concat(x1, dec_i64(e.id as int));
    lemma_no_nl_concat(x2, ",\"content_type\":"@);
    lemma_no_nl_concat(x3, ctype_text(e.content_type));
    lemma_no_nl_concat(x4, ",\"mime_type\":"@);
    lemma_no_nl_concat(x5, jstr(e.mime_type));
    lemma_no_nl_concat(x6, ",\"preview\":"@);
    lemma_no_nl_concat(x7, jstr(e.preview));
    lemma_no_nl_concat(x8, ",\"byte_size\":"@);
    lemma_no_nl_concat(x9, dec_u64(e.byte_size as nat));
    lemma_no_nl_concat(x10, ",\"created_at\":"@);
    lemma_no_nl_concat(x11, dec_i64(e.created_at as int));
    lemma_no_nl_concat(x12, ",\"pinned\":"@);
    lemma_no_nl_concat(x13, jbool(e.pinned));
    lemma_no_nl_concat(x14, enc_opt_str(",\"thumbnail\":"@, e.thumbnail));
    lemma_no_nl_concat(x15, "}"@);
}

/// The canonical text of an entry list holds no newline.
proof fn lemma_no_nl_entries(es: Seq<EntryV>)
    ensures
        no_nl(entries_text(es)),
{
    reveal_strlit("[]");
    if es.len() > 0 {
        lemma_no_nl_entries_items(es);
        lemma_no_nl_concat(seq!['['], entries_items_text(es));
        lemma_no_nl_concat(seq!['['] + entries_items_text(es), seq![']']);
        assert(entries_text(es) == (seq!['['] + entries_items_text(es)) + seq![']']);
    }
}

/// The items of a non-empty entry list hold no newline.
proof fn lemma_no_nl_entries_items(es: Seq<EntryV>)
    requires
        es.len() >= 1,
    ensures
        no_nl(entries_items_text(es)),
    decreases es.len(),
{
    lemma_no_nl_entry(es[0]);
    if es.len() > 1 {
        lemma_no_nl_entries_items(es.drop_first());
        lemma_no_nl_concat(entry_text(es[0]), seq![',']);
        lemma_no_nl_concat(
            entry_text(es[0]) + seq![','],
            entries_items_text(es.drop_first()),
        );
        assert(entries_items_text(es) == (entry_text(es[0]) + seq![',']) + entries_items_text(
            es.drop_first(),
        ));
    }
}

/// The canonical text of a response holds no newline.
proof fn lemma_no_nl_resp_text(r: RespV)
    ensures
        no_nl(resp_text(r)),
{
    reveal_strlit("{\"type\":\"history\"");
    reveal_strlit("{\"type\":\"content\"");
    reveal_strlit("{\"type\":\"ok\"");
    reveal_strlit("{\"type\":\"error\"");
    reveal_strlit("{\"type\":\"status\"");
    reveal_strlit("{\"type\":\"pong\"");
    reveal_strlit(",\"entries\":");
    reveal_strlit(",\"total_count\":");
    reveal_strlit(",\"id\":");
    reveal_strlit(",\"mime_type\":");
    reveal_strlit(",\"data\":");
    reveal_strlit(",\"code\":");
    reveal_strlit(",\"message\":");
    reveal_strlit(",\"version\":");
    reveal_strlit(",\"entry_count\":");
    reveal_strlit(",\"database_size_bytes\":");
    reveal_strlit("\"not_found\"");
    reveal_strlit("\"database_error\"");
    reveal_strlit("\"clipboard_error\"");
    reveal_strlit("\"invalid_request\"");
    reveal_strlit("\"internal_error\"");
    reveal_strlit("}");
    match r {
        RespV::History { entries, total_count } => {
            lemma_no_nl_entries(entries);
            lemma_no_nl_dec_u64(total_count);
            let x1 = "{\"type\":\"history\""@;
            let x2 = x1 + ",\"entries\":"@;
            let x3 = x2 + entries_text(entries);
            let x4 = x3 + ",\"total_count\":"@;
            let x5 = x4 + dec_u64(total_count as nat);
            lemma_no_nl_concat(x1, ",\"entries\":"@);
            lemma_no_nl_concat(x2, entries_text(entries));
            lemma_no_nl_concat(x3, ",\"total_count\":"@);
            lemma_no_nl_concat(x4, dec_u64(total_count as nat));
            lemma_no_nl_concat(x5, "}"@);
        },
        RespV::Content { id, mime_type, data } => {
            lemma_no_nl_dec_i64(id);
            lemma_no_nl_jstr(mime_type);
            lemma_no_nl_jstr(data);
            let x1 = "{\"type\":\"content\""@;
            let x2 = x1 + ",\"id\":"@;
            let x3 = x2 + dec_i64(id as int);
            let x4 = x3 + ",\"mime_type\":"@;
            let x5 = x4 + jstr(mime_type);
            let x6 = x5 + ",\"data\":"@;
            let x7 = x6 + jstr(data);
            lemma_no_nl_concat(x1, ",\"id\":"@);
            lemma_no_nl_concat(x2, dec_i64(id as int));
            lemma_no_nl_concat(x3, ",\"mime_type\":"@);
            lemma_no_nl_concat(x4, jstr(mime_type));
            lemma_no_nl_concat(x5, ",\"data\":"@);
            lemma_no_nl_concat(x6, jstr(data));
            lemma_no_nl_concat(x7, "}"@);
        },
        RespV::Okay => {
            lemma_no_nl_concat("{\"type\":\"ok\""@, "}"@);
        },
        RespV::Error { code, message } => {
            lemma_no_nl_jstr(message);
            assert(no_nl(code_text(code)));
            let x1 = "{\"type\":\"error\""@;
            let x2 = x1 + ",\"code\":"@;
            let x3 = x2 + code_text(code);
            let x4 = x3 + ",\"message\":"@;
            let x5 = x4 + jstr(message);
            lemma_no_nl_concat(x1, ",\"code\":"@);
            lemma_no_nl_concat(x2, code_text(code));
            lemma_no_nl_concat(x3, ",\"message\":"@);
            lemma_no_nl_concat(x4, jstr(message));
            lemma_no_nl_concat(x5, "}"@);
        },
        RespV::Status { version, entry_count, database_size_bytes } => {
            lemma_no_nl_jstr(version);
            lemma_no_nl_dec_u64(entry_count);
            lemma_no_nl_dec_u64(database_size_bytes);
            let x1 = "{\"type\":\"status\""@;
            let x2 = x1 + ",\"version\":"@;
            let x3 = x2 + jstr(version);
            let x4 = x3 + ",\"entry_count\":"@;
            let x5 = x4 + dec_u64(entry_count as nat);
            let x6 = x5 + ",\"database_size_bytes\":"@;
            let x7 = x6 + dec_u64(database_size_bytes as nat);
            lemma_no_nl_concat(x1, ",\"version\":"@);
            lemma_no_nl_concat(x2, jstr(version));
            lemma_no_nl_concat(x3, ",\"entry_count\":"@);
            lemma_no_nl_concat(x4, dec_u64(entry_count as nat));
            lemma_no_nl_concat(x5, ",\"database_size_bytes\":"@);
            lemma_no_nl_concat(x6, dec_u64(database_size_bytes as nat));
            lemma_no_nl_concat(x7, "}"@);
        },
        RespV::Pong => {
            lemma_no_nl_concat("{\"type\":\"pong\""@, "}"@);
        },
    }
}

/// The UTF-8 encoding of one scalar that is not a newline holds no newline
/// byte: an ASCII scalar is its own byte, and every byte of a longer encoding
/// has its high bit set.
proof fn lemma_encode_scalar_no_nl(v: u32)
    requires
        vstd::utf8::is_scalar(v),
        v != 10,
    ensures
        forall|i: int|
            0 <= i < vstd::utf8::encode_scalar(v).len() ==> #[trigger] vstd::utf8::encode_scalar(
                v,
            )[i] != 10,
{
    if vstd::utf8::has_width_1_encoding(v) {
        assert((v & 0x7F) == v) by (bit_vector)
            requires
                v <= 0x7F,
        ;
    } else {
        assert(vstd::utf8::last_continuation_byte(v) >= 0x80 && vstd::utf8::second_last_continuation_byte(
            v,
        ) >= 0x80 && vstd::utf8::third_last_continuation_byte(v) >= 0x80
            && vstd::utf8::leading_byte_width_2(v) >= 0xC0 && vstd::utf8::leading_byte_width_3(v)
            >= 0xE0 && vstd::utf8::leading_byte_width_4(v) >= 0xF0) by (bit_vector);
    }
}

/// The UTF-8 encoding of a newline-free text holds no newline byte.
proof fn lemma_encode_utf8_no_nl(s: Seq<char>)
    requires
        no_nl(s),
    ensures
        forall|i: int|
            0 <= i < encode_utf8(s).len() ==> #[trigger] encode_utf8(s)[i] != 10,
    decreases s.len(),
{
    if s.len() > 0 {
        let c = s[0];
        vstd::utf8::char_is_scalar(c);
        assert(c as u32 != 10) by {
            assert(s[0] != '\n');
            vstd::utf8::char_u32_cast(c, c as u32);
            if c as u32 == 10 {
                assert((10u32 as char) == '\n');
            }
        }
        lemma_encode_scalar_no_nl(c as u32);
        assert(no_nl(s.drop_first())) by {
            assert(forall|i: int| 0 <= i < s.drop_first().len() ==> s.drop_first()[i] == s[i + 1]);
        }
        lemma_encode_utf8_no_nl(s.drop_first());
        let a = vstd::utf8::encode_scalar(c as u32);
        let b = encode_utf8(s.drop_first());
        assert(encode_utf8(s) == a + b);
        assert forall|i: int| 0 <= i < (a + b).len() implies (a + b)[i] != 10 by {
            if i < a.len() {
                assert(a[i] != 10);
            } else {
                assert(b[i - a.len()] != 10);
            }
        }
    }
}

/// The newline scan stops exactly at `j` when no newline sits before it.
proof fn lemma_nl_pos_exact(b: Seq<u8>, i: int, j: int)
    requires
        0 <= i <= j < b.len(),
        forall|k: int| i <= k < j ==> #[trigger] b[k] != 10,
        b[j] == 10,
    ensures
        nl_pos(b, i) == j,
    decreases j - i,
{
    if i < j {
        lemma_nl_pos_exact(b, i + 1, j);
    }
}

/// Splitting a stream that begins with a freshly encoded request record
/// yields exactly that record and the rest: the record itself holds no
/// newline, so the one the encoder appended delimits it.
pub proof fn lemma_request_frame(r: ReqV, rest: Seq<u8>)
    ensures
        spec_split_frame(spec_encode_request(r) + rest) == Some(
            (encode_utf8(req_text(r)), rest),
        ),
{
    lemma_no_nl_req_text(r);
    lemma_encode_utf8_no_nl(req_text(r));
    lemma_frame_common(encode_utf8(req_text(r)), rest);
    assert(spec_encode_request(r) + rest =~= encode_utf8(req_text(r)) + seq![10u8] + rest);
}

/// Splitting a stream that begins with a freshly encoded response record
/// yields exactly that record and the rest.
pub proof fn lemma_response_frame(r: RespV, rest: Seq<u8>)
    ensures
        spec_split_frame(spec_encode_response(r) + rest) == Some(
            (encode_utf8(resp_text(r)), rest),
        ),
{
    lemma_no_nl_resp_text(r);
    lemma_encode_utf8_no_nl(resp_text(r));
    lemma_frame_common(encode_utf8(resp_text(r)), rest);
    assert(spec_encode_response(r) + rest =~= encode_utf8(resp_text(r)) + seq![10u8] + rest);
}

/// One full wire round trip for requests: an encoded record written to a
/// stream frames back off before whatever follows it, and its bytes decode to
/// exactly the request sent.
pub proof fn lemma_wire_round_trip_request(r: ReqV, rest: Seq<u8>)
    ensures
        ({
            let f = spec_split_frame(spec_encode_request(r) + rest);
            f matches Some((rec, rem)) && rem == rest && spec_decode_request(rec) == Some(r)
        }),
{
    lemma_request_frame(r, rest);
    lemma_request_bytes_round_trip(r);
}

/// One full wire round trip for responses.
pub proof fn lemma_wire_round_trip_response(r: RespV, rest: Seq<u8>)
    ensures
        ({
            let f = spec_split_frame(spec_encode_response(r) + rest);
            f matches Some((rec, rem)) && rem == rest && spec_decode_response(rec) == Some(r)
        }),
{
    lemma_response_frame(r, rest);
    lemma_response_bytes_round_trip(r);
}

/// The common step: a newline-free record followed by a newline and more
/// bytes splits back into the record and the rest.
proof fn lemma_frame_common(record: Seq<u8>, rest: Seq<u8>)
    requires
        forall|i: int| 0 <= i < record.len() ==> #[trigger] record[i] != 10,
    ensures
        spec_split_frame(record + seq![10u8] + rest) == Some((record, rest)),
{
    let s = record + seq![10u8] + rest;
    assert(s[record.len() as int] == 10);
    assert(forall|k: int| 0 <= k < record.len() ==> #[trigger] s[k] == record[k]);
    lemma_nl_pos_exact(s, 0, record.len() as int);
    assert(s.subrange(0, record.len() as int) =~= record);
    assert(s.subrange(record.len() as int + 1, s.len() as int) =~= rest);
}

} // verus!
