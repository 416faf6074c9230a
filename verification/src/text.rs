//! Character and string utilities: decimal printing and parsing, ASCII case
//! folding, substring search, and whitespace collapsing.

use vstd::prelude::*;

verus! {

use vstd::std_specs::iter::IteratorSpec;

// ---------------------------------------------------------------------------
// Conversions between `String` and `Vec<char>`.
// ---------------------------------------------------------------------------

/// The characters of a string slice, as a vector.
pub fn str_chars(s: &str) -> (v: Vec<char>)
    ensures
        v@ == s@,
{
    broadcast use vstd::string::next_postcondition, vstd::string::axiom_spec_iter;

    let mut it = s.chars();
    let mut v: Vec<char> = Vec::new();
    loop
        invariant
            it.obeys_prophetic_iter_laws(),
            it.decrease() is Some,
            v@ + it.remaining() == s@,
        decreases it.decrease()->0,
    {
        match it.next() {
            Some(c) => {
                v.push(c);
            },
            None => {
                return v;
            },
        }
    }
}

/// Relies on `String: FromIterator<char>`: collecting characters yields the
/// string of exactly those characters.
#[verifier::external_body]
pub fn string_from_chars(v: &Vec<char>) -> (s: String)
    ensures
        s@ == v@,
{
    v.iter().collect()
}

/// Relies on `String::from_utf8`: it succeeds exactly on valid UTF-8, and the
/// resulting string holds the decoded characters of the bytes.
#[verifier::external_body]
pub fn string_from_utf8(v: &[u8]) -> (r: Option<String>)
    ensures
        match r {
            Some(s) => vstd::utf8::valid_utf8(v@) && s@ == vstd::utf8::decode_utf8(v@),
            None => !vstd::utf8::valid_utf8(v@),
        },
{
    String::from_utf8(v.to_vec()).ok()
}

/// Relies on `char::from_u32`: it returns `Some` exactly on Unicode scalar
/// values, and the returned character has the given code point.
#[verifier::external_body]
pub fn char_from_u32(v: u32) -> (r: Option<char>)
    ensures
        match r {
            Some(c) => c as u32 == v,
            None => !(v < 0xD800 || (0xE000 <= v && v <= 0x10FFFF)),
        },
{
    char::from_u32(v)
}

// ---------------------------------------------------------------------------
// Decimal digits.
// ---------------------------------------------------------------------------

/// Whether `c` is a decimal digit.
pub open spec fn is_digit(c: char) -> bool {
    '0' <= c && c <= '9'
}

/// The numeric value of a decimal digit.
pub open spec fn digit_val(c: char) -> nat {
    (c as u32 - 48) as nat
}

/// The decimal digit character for a value below ten.
pub open spec fn digit_char(d: nat) -> char {
    ((d + 48) as u8) as char
}

/// The decimal representation of `n`, most significant digit first.
pub open spec fn dec_u64(n: nat) -> Seq<char>
    decreases n,
{
    if n < 10 {
        seq![digit_char(n)]
    } else {
        dec_u64(n / 10) + seq![digit_char(n % 10)]
    }
}

/// The decimal representation of a signed value: a minus sign for negative
/// values, then the digits of the magnitude.
pub open spec fn dec_i64(v: int) -> Seq<char> {
    if v < 0 {
        seq!['-'] + dec_u64((-v) as nat)
    } else {
        dec_u64(v as nat)
    }
}

/// The value of a digit string, most significant digit first.
pub open spec fn dec_val(d: Seq<char>) -> nat
    decreases d.len(),
{
    if d.len() == 0 {
        0
    } else {
        dec_val(d.drop_last()) * 10 + digit_val(d.last())
    }
}

/// Ten to the power `k`.
pub open spec fn p10(k: nat) -> nat
    decreases k,
{
    if k == 0 {
        1
    } else {
        10 * p10((k - 1) as nat)
    }
}

/// Every character of `dec_u64(n)` is a digit, the first is `'0'` only for
/// zero itself, and the digit string evaluates back to `n`.
pub proof fn lemma_dec_u64(n: nat)
    ensures
        dec_u64(n).len() >= 1,
        forall|i: int| 0 <= i < dec_u64(n).len() ==> is_digit(#[trigger] dec_u64(n)[i]),
        dec_u64(n)[0] == '0' ==> n == 0 && dec_u64(n).len() == 1,
        dec_val(dec_u64(n)) == n,
    decreases n,
{
    if n < 10 {
        assert(dec_u64(n) =~= seq![digit_char(n)]);
        assert(dec_u64(n).drop_last() =~= Seq::<char>::empty());
        assert(digit_char(n) as u32 == n + 48);
        assert(digit_val(digit_char(n)) == n);
        assert(dec_val(Seq::<char>::empty()) == 0);
        assert(dec_u64(n).last() == digit_char(n));
        assert(dec_val(dec_u64(n)) == dec_val(Seq::<char>::empty()) * 10 + digit_val(
            digit_char(n),
        ));
    } else {
        lemma_dec_u64(n / 10);
        let front = dec_u64(n / 10);
        let whole = dec_u64(n);
        assert(whole =~= front + seq![digit_char(n % 10)]);
        assert(whole.drop_last() =~= front);
        assert(whole.last() == digit_char(n % 10));
        assert(dec_val(whole) == dec_val(front) * 10 + digit_val(digit_char(n % 10)));
        assert(digit_char(n % 10) as u32 == n % 10 + 48);
        assert(digit_val(digit_char(n % 10)) == n % 10);
        assert(dec_val(whole) == (n / 10) * 10 + n % 10);
        assert((n / 10) * 10 + n % 10 == n) by (nonlinear_arith);
    }
}

/// A digit string without a leading zero is at least `p10` of one less than
/// its length.
pub proof fn lemma_dec_val_lower(d: Seq<char>)
    requires
        d.len() >= 1,
        forall|i: int| 0 <= i < d.len() ==> is_digit(#[trigger] d[i]),
        d[0] != '0',
    ensures
        dec_val(d) >= p10((d.len() - 1) as nat),
    decreases d.len(),
{
    if d.len() == 1 {
        assert(d.drop_last() =~= Seq::<char>::empty());
        assert(dec_val(Seq::<char>::empty()) == 0);
        assert(digit_val(d.last()) >= 1);
    } else {
        let front = d.drop_last();
        lemma_dec_val_lower(front);
        let k = (front.len() - 1) as nat;
        assert(dec_val(front) * 10 >= p10(k) * 10) by (nonlinear_arith)
            requires
                dec_val(front) >= p10(k),
        ;
    }
}

/// Appends the decimal representation of `n` to `out`.
pub fn push_dec_u64(out: &mut Vec<char>, n: u64)
    ensures
        final(out)@ == old(out)@ + dec_u64(n as nat),
    decreases n,
{
    if n < 10 {
        out.push((48 + n as u8) as char);
        assert(dec_u64(n as nat) =~= seq![digit_char(n as nat)]);
        assert(final(out)@ =~= old(out)@ + dec_u64(n as nat));
    } else {
        push_dec_u64(out, n / 10);
        out.push((48 + (n % 10) as u8) as char);
        assert(final(out)@ =~= old(out)@ + dec_u64(n as nat));
    }
}

/// Appends the decimal representation of the signed value `v` to `out`.
pub fn push_dec_i64(out: &mut Vec<char>, v: i64)
    ensures
        final(out)@ == old(out)@ + dec_i64(v as int),
{
    if v < 0 {
        out.push('-');
        let mag: u64 = if v == i64::MIN {
            9223372036854775808u64
        } else {
            (-v) as u64
        };
        assert(mag as nat == (-(v as int)) as nat);
        push_dec_u64(out, mag);
        assert(final(out)@ =~= old(out)@ + dec_i64(v as int));
    } else {
        push_dec_u64(out, v as u64);
    }
}

// ---------------------------------------------------------------------------
// Decimal parsing.
// ---------------------------------------------------------------------------

/// The first position at or after `i` that does not hold a digit.
pub open spec fn digits_end(s: Seq<char>, i: int) -> int
    decreases s.len() - i,
{
    if 0 <= i < s.len() && is_digit(s[i]) {
        digits_end(s, i + 1)
    } else {
        i
    }
}

/// `digits_end` stays between its start and the length of the string, and
/// everything it skipped is a digit.
pub proof fn lemma_digits_end(s: Seq<char>, i: int)
    requires
        0 <= i <= s.len(),
    ensures
        i <= digits_end(s, i) <= s.len(),
        forall|j: int| i <= j < digits_end(s, i) ==> is_digit(#[trigger] s[j]),
        digits_end(s, i) < s.len() ==> !is_digit(s[digits_end(s, i)]),
    decreases s.len() - i,
{
    if i < s.len() && is_digit(s[i]) {
        lemma_digits_end(s, i + 1);
    }
}

/// Parsing a number out of `s` at position `i`: the digit run starting there,
/// rejected when empty, when it has a superfluous leading zero, or when its
/// value exceeds `u64`; otherwise its value and the position after it.
pub open spec fn spec_parse_u64(s: Seq<char>, i: int) -> Option<(u64, int)> {
    let j = digits_end(s, i);
    if j == i {
        None
    } else if s[i] == '0' && j > i + 1 {
        None
    } else if dec_val(s.subrange(i, j)) > u64::MAX {
        None
    } else {
        Some((dec_val(s.subrange(i, j)) as u64, j))
    }
}

/// The value of the digit run `s[i..j]`, or `None` when it exceeds `u64`.
fn dec_value(s: &Vec<char>, i: usize, j: usize) -> (r: Option<u64>)
    requires
        0 <= i <= j <= s@.len(),
        forall|k: int| i <= k < j ==> is_digit(#[trigger] s@[k]),
    ensures
        match r {
            Some(v) => v as nat == dec_val(s@.subrange(i as int, j as int)),
            None => dec_val(s@.subrange(i as int, j as int)) > u64::MAX,
        },
    decreases j - i,
{
    if j == i {
        assert(s@.subrange(i as int, i as int) =~= Seq::<char>::empty());
        Some(0)
    } else {
        let ghost d = s@.subrange(i as int, j as int);
        assert(d.drop_last() =~= s@.subrange(i as int, j as int - 1));
        match dec_value(s, i, j - 1) {
            None => {
                assert(dec_val(d) >= dec_val(d.drop_last()) * 10) by (nonlinear_arith)
                    requires
                        dec_val(d) == dec_val(d.drop_last()) * 10 + digit_val(d.last()),
                ;
                assert(dec_val(d.drop_last()) * 10 > u64::MAX) by (nonlinear_arith)
                    requires
                        dec_val(d.drop_last()) > u64::MAX,
                ;
                None
            },
            Some(front) => {
                let c = s[j - 1];
                assert(c == d.last());
                let dv: u64 = (c as u32 - 48) as u64;
                assert(dv as nat == digit_val(c));
                match front.checked_mul(10) {
                    None => {
                        assert(front as nat * 10 > u64::MAX);
                        None
                    },
                    Some(m) => match m.checked_add(dv) {
                        None => None,
                        Some(v) => Some(v),
                    },
                }
            },
        }
    }
}

/// Parse an unsigned decimal number at position `i`, as `spec_parse_u64` says.
pub fn parse_u64_at(s: &Vec<char>, i: usize) -> (r: Option<(u64, usize)>)
    requires
        0 <= i <= s@.len(),
    ensures
        match r {
            Some((v, j)) => spec_parse_u64(s@, i as int) == Some((v, j as int)) && i < j <= s@.len(),
            None => spec_parse_u64(s@, i as int) is None,
        },
{
    proof {
        lemma_digits_end(s@, i as int);
    }
    let ghost je = digits_end(s@, i as int);
    let mut j: usize = i;
    while j < s.len() && s[j] >= '0' && s[j] <= '9'
        invariant
            i <= j <= s@.len(),
            j <= je <= s@.len(),
            forall|k: int| i <= k < j ==> is_digit(#[trigger] s@[k]),
            digits_end(s@, j as int) == je,
        decreases s@.len() - j,
    {
        proof {
            assert(digits_end(s@, j as int) == digits_end(s@, j as int + 1));
            lemma_digits_end(s@, j as int + 1);
        }
        j += 1;
    }
    assert(j == je);
    if j == i {
        return None;
    }
    if s[i] == '0' && j > i + 1 {
        return None;
    }
    if j - i > 20 {
        // Twenty-one or more digits without a leading zero always exceed the
        // range; cutting here also bounds the value recursion below.
        proof {
            let d = s@.subrange(i as int, j as int);
            assert(d[0] == s@[i as int]);
            lemma_dec_val_lower(d);
            lemma_p10_mono(20, (d.len() - 1) as nat);
            assert(p10(20) > u64::MAX) by {
                reveal_with_fuel(p10, 21);
            }
        }
        return None;
    }
    match dec_value(s, i, j) {
        None => None,
        Some(v) => Some((v, j)),
    }
}

/// Ten to a higher power is no smaller.
proof fn lemma_p10_mono(a: nat, b: nat)
    requires
        a <= b,
    ensures
        p10(a) <= p10(b),
    decreases b,
{
    if a < b {
        lemma_p10_mono(a, (b - 1) as nat);
    }
}

/// Parsing a signed number: an optional minus sign, then digits.  A minus sign
/// demands a positive magnitude that fits in `i64`.
pub open spec fn spec_parse_i64(s: Seq<char>, i: int) -> Option<(i64, int)> {
    if 0 <= i < s.len() && s[i] == '-' {
        match spec_parse_u64(s, i + 1) {
            Some((mag, j)) => if 1 <= mag <= 0x8000000000000000u64 {
                Some(((-(mag as int)) as i64, j))
            } else {
                None
            },
            None => None,
        }
    } else {
        match spec_parse_u64(s, i) {
            Some((mag, j)) => if mag <= i64::MAX as u64 {
                Some((mag as i64, j))
            } else {
                None
            },
            None => None,
        }
    }
}

/// Parse a signed decimal number at position `i`, as `spec_parse_i64` says.
pub fn parse_i64_at(s: &Vec<char>, i: usize) -> (r: Option<(i64, usize)>)
    requires
        0 <= i <= s@.len(),
    ensures
        match r {
            Some((v, j)) => spec_parse_i64(s@, i as int) == Some((v, j as int)) && i < j <= s@.len(),
            None => spec_parse_i64(s@, i as int) is None,
        },
{
    if i < s.len() && s[i] == '-' {
        match parse_u64_at(s, i + 1) {
            Some((mag, j)) => {
                if 1 <= mag && mag <= 0x8000000000000000u64 {
                    let v: i64 = if mag == 0x8000000000000000u64 {
                        i64::MIN
                    } else {
                        -(mag as i64)
                    };
                    Some((v, j))
                } else {
                    None
                }
            },
            None => None,
        }
    } else {
        match parse_u64_at(s, i) {
            Some((mag, j)) => {
                if mag <= 0x7FFFFFFFFFFFFFFFu64 {
                    Some((mag as i64, j))
                } else {
                    None
                }
            },
            None => None,
        }
    }
}

/// When everything in `s[i..j)` is a digit and `j` is the end of `s` or holds
/// no digit, the digit scan from `i` stops exactly at `j`.
pub proof fn lemma_digits_end_exact(s: Seq<char>, i: int, j: int)
    requires
        0 <= i <= j <= s.len(),
        forall|k: int| i <= k < j ==> is_digit(#[trigger] s[k]),
        j == s.len() || !is_digit(s[j]),
    ensures
        digits_end(s, i) == j,
    decreases j - i,
{
    if i < j {
        lemma_digits_end_exact(s, i + 1, j);
    }
}

/// Parsing at a position where the decimal representation of `n` sits, with no
/// digit directly after it, recovers exactly `n`.
pub proof fn lemma_parse_u64_at(s: Seq<char>, i: int, n: u64)
    requires
        0 <= i,
        i + dec_u64(n as nat).len() <= s.len(),
        s.subrange(i, i + dec_u64(n as nat).len()) == dec_u64(n as nat),
        i + dec_u64(n as nat).len() == s.len() || !is_digit(s[i + dec_u64(n as nat).len()]),
    ensures
        spec_parse_u64(s, i) == Some((n, i + dec_u64(n as nat).len())),
{
    let d = dec_u64(n as nat);
    let j = i + d.len();
    lemma_dec_u64(n as nat);
    assert(forall|k: int| i <= k < j ==> s[k] == d[k - i]);
    lemma_digits_end_exact(s, i, j);
    assert(s[i] == d[0]);
    if s[i] == '0' {
        assert(n == 0 && d.len() == 1);
    }
}

/// Parsing at a position where the decimal representation of the signed value
/// `v` sits, with no digit directly after it, recovers exactly `v`.
pub proof fn lemma_parse_i64_at(s: Seq<char>, i: int, v: i64)
    requires
        0 <= i,
        i + dec_i64(v as int).len() <= s.len(),
        s.subrange(i, i + dec_i64(v as int).len()) == dec_i64(v as int),
        i + dec_i64(v as int).len() == s.len() || !is_digit(s[i + dec_i64(v as int).len()]),
    ensures
        spec_parse_i64(s, i) == Some((v, i + dec_i64(v as int).len())),
{
    let t = dec_i64(v as int);
    if v < 0 {
        let mag = (-(v as int)) as nat;
        let d = dec_u64(mag);
        assert(t =~= seq!['-'] + d);
        assert(s[i] == '-') by {
            assert(s.subrange(i, i + t.len() as int)[0] == t[0]);
            assert(t[0] == '-');
        }
        assert(s.subrange(i + 1, i + 1 + d.len()) =~= d) by {
            assert forall|k: int| 0 <= k < d.len() implies s[i + 1 + k] == d[k] by {
                assert(s.subrange(i, i + t.len() as int)[k + 1] == t[k + 1]);
            }
        }
        lemma_parse_u64_at(s, i + 1, mag as u64);
        lemma_dec_u64(mag);
        assert(mag >= 1) by {
            assert(v as int <= -1);
        }
    } else {
        assert(t =~= dec_u64(v as nat));
        lemma_parse_u64_at(s, i, v as u64);
        assert(s[i] == dec_u64(v as nat)[0]);
        lemma_dec_u64(v as nat);
        assert(s[i] != '-') by {
            assert(is_digit(dec_u64(v as nat)[0]));
        }
    }
}

// ---------------------------------------------------------------------------
// Case folding and substring search.
// ---------------------------------------------------------------------------

/// ASCII lowercase folding of one character.
pub open spec fn lower_char(c: char) -> char {
    if 'A' <= c && c <= 'Z' {
        ((c as u32 + 32) as u8) as char
    } else {
        c
    }
}

/// ASCII lowercase folding of a character sequence.
pub open spec fn lower_seq(s: Seq<char>) -> Seq<char> {
    s.map_values(|c: char| lower_char(c))
}

/// Whether the folded `needle` occurs in the folded `hay` at position `i`.
pub open spec fn matches_ci_at(hay: Seq<char>, needle: Seq<char>, i: int) -> bool {
    0 <= i && i + needle.len() <= hay.len() && lower_seq(hay.subrange(i, i + needle.len()))
        == lower_seq(needle)
}

/// Case-insensitive (ASCII) substring containment.
pub open spec fn contains_ci(hay: Seq<char>, needle: Seq<char>) -> bool {
    exists|i: int| matches_ci_at(hay, needle, i)
}

/// Fold one character to ASCII lowercase.
pub fn lower_char_exec(c: char) -> (r: char)
    ensures
        r == lower_char(c),
{
    if c >= 'A' && c <= 'Z' {
        ((c as u32) as u8 + 32) as char
    } else {
        c
    }
}

/// Whether the folded needle occurs at position `i` of the folded hay.
fn matches_at(hay: &Vec<char>, needle: &Vec<char>, i: usize) -> (b: bool)
    requires
        i + needle@.len() <= hay@.len(),
    ensures
        b == matches_ci_at(hay@, needle@, i as int),
{
    let n = needle.len();
    let hl = hay.len();
    let mut k: usize = 0;
    while k < n
        invariant
            0 <= k <= n,
            n == needle@.len(),
            hl == hay@.len(),
            i + n <= hl,
            forall|m: int| 0 <= m < k ==> lower_char(#[trigger] hay@[i + m]) == lower_char(
                needle@[m],
            ),
        decreases n - k,
    {
        if lower_char_exec(hay[i + k]) != lower_char_exec(needle[k]) {
            assert(lower_seq(hay@.subrange(i as int, i + n)) != lower_seq(needle@)) by {
                assert(lower_seq(hay@.subrange(i as int, i + n))[k as int] == lower_char(
                    hay@[i + k],
                ));
                assert(lower_seq(needle@)[k as int] == lower_char(needle@[k as int]));
            }
            return false;
        }
        k += 1;
    }
    assert(lower_seq(hay@.subrange(i as int, i + n)) =~= lower_seq(needle@)) by {
        assert forall|m: int| 0 <= m < n implies lower_seq(hay@.subrange(i as int, i + n))[m]
            == lower_seq(needle@)[m] by {
            assert(lower_char(hay@[i + m]) == lower_char(needle@[m]));
        }
    }
    true
}

/// Case-insensitive (ASCII) substring search.
pub fn contains_ci_exec(hay: &Vec<char>, needle: &Vec<char>) -> (b: bool)
    ensures
        b == contains_ci(hay@, needle@),
{
    if needle.len() > hay.len() {
        assert(forall|i: int| !matches_ci_at(hay@, needle@, i));
        return false;
    }
    if needle.len() == 0 {
        assert(hay@.subrange(0, 0) =~= Seq::<char>::empty());
        assert(lower_seq(hay@.subrange(0, 0)) =~= lower_seq(needle@));
        assert(matches_ci_at(hay@, needle@, 0));
        return true;
    }
    let hl = hay.len();
    let last = hl - needle.len();
    let mut i: usize = 0;
    while i <= last
        invariant
            0 <= i <= last + 1,
            last < hl,
            hl == hay@.len(),
            last == hay@.len() - needle@.len(),
            needle@.len() >= 1,
            forall|m: int| 0 <= m < i ==> !matches_ci_at(hay@, needle@, m),
        decreases last + 1 - i,
    {
        if matches_at(hay, needle, i) {
            return true;
        }
        i += 1;
    }
    assert(forall|m: int| !matches_ci_at(hay@, needle@, m));
    false
}

/// Whether `needle` occurs in `hay` at position `i`.
pub open spec fn matches_at_pos(hay: Seq<char>, needle: Seq<char>, i: int) -> bool {
    0 <= i && i + needle.len() <= hay.len() && hay.subrange(i, i + needle.len()) == needle
}

/// Substring containment.
pub open spec fn contains_seq(hay: Seq<char>, needle: Seq<char>) -> bool {
    exists|i: int| matches_at_pos(hay, needle, i)
}

/// Whether the needle occurs at position `i` of the hay.
fn matches_exact_at(hay: &Vec<char>, needle: &Vec<char>, i: usize) -> (b: bool)
    requires
        i + needle@.len() <= hay@.len(),
    ensures
        b == matches_at_pos(hay@, needle@, i as int),
{
    let n = needle.len();
    let hl = hay.len();
    let mut k: usize = 0;
    while k < n
        invariant
            0 <= k <= n,
            n == needle@.len(),
            hl == hay@.len(),
            i + n <= hl,
            forall|m: int| 0 <= m < k ==> hay@[i + m] == needle@[m],
        decreases n - k,
    {
        if hay[i + k] != needle[k] {
            assert(!matches_at_pos(hay@, needle@, i as int)) by {
                if matches_at_pos(hay@, needle@, i as int) {
                    assert(hay@.subrange(i as int, i + n)[k as int] == needle@[k as int]);
                }
            }
            return false;
        }
        k += 1;
    }
    assert(hay@.subrange(i as int, i + n) =~= needle@);
    true
}

/// Substring search.
pub fn contains_seq_exec(hay: &Vec<char>, needle: &Vec<char>) -> (b: bool)
    ensures
        b == contains_seq(hay@, needle@),
{
    if needle.len() > hay.len() {
        assert(forall|i: int| !matches_at_pos(hay@, needle@, i));
        return false;
    }
    if needle.len() == 0 {
        assert(hay@.subrange(0, 0) =~= needle@);
        assert(matches_at_pos(hay@, needle@, 0));
        return true;
    }
    let hl = hay.len();
    let last = hl - needle.len();
    let mut i: usize = 0;
    while i <= last
        invariant
            0 <= i <= last + 1,
            last < hl,
            hl == hay@.len(),
            last == hay@.len() - needle@.len(),
            needle@.len() >= 1,
            forall|m: int| 0 <= m < i ==> !matches_at_pos(hay@, needle@, m),
        decreases last + 1 - i,
    {
        if matches_exact_at(hay, needle, i) {
            return true;
        }
        i += 1;
    }
    assert(forall|m: int| !matches_at_pos(hay@, needle@, m));
    false
}

// ---------------------------------------------------------------------------
// Whitespace collapsing for previews.
// ---------------------------------------------------------------------------

/// Whether `c` is an ASCII whitespace character (space, tab, newline, vertical
/// tab, form feed, or carriage return).
pub open spec fn is_ws(c: char) -> bool {
    c == ' ' || c == '\t' || c == '\n' || c == 0x0B as char || c == 0x0C as char || c == '\r'
}

/// The suffix of the collapsed form of `s` from position `i`: runs of
/// whitespace become single separating spaces, with none kept at either end.
/// `started` records whether a word was already emitted, `pending` whether a
/// separator is owed before the next word.
pub open spec fn collapse_from(s: Seq<char>, i: int, started: bool, pending: bool) -> Seq<char>
    decreases s.len() - i,
{
    if i < 0 || i >= s.len() {
        Seq::empty()
    } else if is_ws(s[i]) {
        collapse_from(s, i + 1, started, started)
    } else {
        (if pending {
            seq![' ']
        } else {
            Seq::empty()
        }) + seq![s[i]] + collapse_from(s, i + 1, true, false)
    }
}

/// Whitespace runs collapsed to single spaces, trimmed at both ends.
pub open spec fn collapse_ws(s: Seq<char>) -> Seq<char> {
    collapse_from(s, 0, false, false)
}

/// Whether `c` is ASCII whitespace.
pub fn is_ws_exec(c: char) -> (b: bool)
    ensures
        b == is_ws(c),
{
    c == ' ' || c == '\t' || c == '\n' || c == (0x0Bu8 as char) || c == (0x0Cu8 as char) || c
        == '\r'
}

/// Collapse whitespace runs in the first `cap` characters of `s` to single
/// spaces, trimming both ends.
pub fn collapse_ws_prefix(s: &Vec<char>, cap: usize) -> (out: Vec<char>)
    ensures
        out@ == collapse_ws(if s@.len() <= cap {
            s@
        } else {
            s@.subrange(0, cap as int)
        }),
{
    let n = if s.len() <= cap {
        s.len()
    } else {
        cap
    };
    let ghost t = if s@.len() <= cap {
        s@
    } else {
        s@.subrange(0, cap as int)
    };
    assert(t.len() == n);
    assert(forall|k: int| 0 <= k < n ==> t[k] == s@[k]);
    let mut out: Vec<char> = Vec::new();
    let mut started = false;
    let mut pending = false;
    let mut i: usize = 0;
    while i < n
        invariant
            0 <= i <= n,
            n <= s@.len(),
            t.len() == n,
            forall|k: int| 0 <= k < n ==> t[k] == s@[k],
            collapse_ws(t) == out@ + collapse_from(t, i as int, started, pending),
            pending ==> started,
        decreases n - i,
    {
        let c = s[i];
        assert(c == t[i as int]);
        if is_ws_exec(c) {
            pending = started;
        } else {
            if pending {
                out.push(' ');
            }
            out.push(c);
            started = true;
            pending = false;
        }
        i += 1;
    }
    assert(collapse_from(t, n as int, started, pending) =~= Seq::<char>::empty());
    assert(out@ =~= out@ + Seq::<char>::empty());
    out
}

} // verus!
