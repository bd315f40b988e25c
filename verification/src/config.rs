//! The configuration file: its key=value text format, parsing,
//! serialization, the default contents, and the loading decision.

use vstd::prelude::*;
use vstd::string::StrSliceExecFns;
use vstd::string::StringExecFns;
use crate::hotkeys::str_eq;

verus! {

// ---------------------------------------------------------------
// Characters and decimal numbers
// ---------------------------------------------------------------

/// Horizontal whitespace that keys and values are trimmed of.
pub open spec fn is_space(c: char) -> bool {
    c == ' ' || c == '\t' || c == '\r'
}

/// A decimal digit.
pub open spec fn is_digit(c: char) -> bool {
    '0' <= c && c <= '9'
}

/// The numeric value of a decimal digit.
pub open spec fn digit_val(c: char) -> int
    recommends
        is_digit(c),
{
    (c as int) - ('0' as int)
}

/// The digit character for a value in 0..=9.
pub open spec fn digit_char(d: int) -> char
    recommends
        0 <= d <= 9,
{
    if d == 0 {
        '0'
    } else if d == 1 {
        '1'
    } else if d == 2 {
        '2'
    } else if d == 3 {
        '3'
    } else if d == 4 {
        '4'
    } else if d == 5 {
        '5'
    } else if d == 6 {
        '6'
    } else if d == 7 {
        '7'
    } else if d == 8 {
        '8'
    } else {
        '9'
    }
}

/// The value of a digit string, most significant digit first.
pub open spec fn dec_val(s: Seq<char>) -> int
    decreases s.len(),
{
    if s.len() == 0 {
        0
    } else {
        dec_val(s.drop_last()) * 10 + digit_val(s.last())
    }
}

/// Every character is a decimal digit.
pub open spec fn all_digits(s: Seq<char>) -> bool {
    forall|i: int| 0 <= i < s.len() ==> is_digit(#[trigger] s[i])
}

/// The decimal rendering of a non-negative number, without leading
/// zeros (a lone zero for 0).
pub open spec fn dec_seq(n: nat) -> Seq<char>
    decreases n,
{
    if n < 10 {
        seq![digit_char(n as int)]
    } else {
        dec_seq(n / 10) + seq![digit_char((n % 10) as int)]
    }
}

/// What a value token must be to name a `u32`: one or more digits
/// whose value fits.
pub open spec fn spec_parse_u32(s: Seq<char>) -> Option<u32> {
    if s.len() > 0 && all_digits(s) && dec_val(s) <= u32::MAX {
        Some(dec_val(s) as u32)
    } else {
        None
    }
}

proof fn lemma_all_digits_prefix(s: Seq<char>, i: int)
    requires
        all_digits(s),
        0 <= i <= s.len(),
    ensures
        all_digits(s.take(i)),
{
    assert forall|j: int| 0 <= j < s.take(i).len() implies is_digit(#[trigger] s.take(i)[j]) by {
        assert(s.take(i)[j] == s[j]);
    }
}

proof fn lemma_dec_val_nonneg(s: Seq<char>)
    requires
        all_digits(s),
    ensures
        dec_val(s) >= 0,
    decreases s.len(),
{
    if s.len() > 0 {
        lemma_all_digits_prefix(s, s.len() - 1);
        assert(s.drop_last() == s.take(s.len() - 1));
        lemma_dec_val_nonneg(s.drop_last());
        assert(is_digit(s.last()));
    }
}

/// A digit string's value only grows as digits are appended.
proof fn lemma_dec_val_prefix_le(s: Seq<char>, i: int)
    requires
        all_digits(s),
        0 <= i <= s.len(),
    ensures
        dec_val(s.take(i)) <= dec_val(s),
    decreases s.len() - i,
{
    if i < s.len() {
        assert(s.take(i + 1).drop_last() =~= s.take(i));
        assert(s.take(i + 1).last() == s[i]);
        lemma_all_digits_prefix(s, i);
        lemma_dec_val_nonneg(s.take(i));
        assert(is_digit(s[i]));
        assert(dec_val(s.take(i + 1)) == dec_val(s.take(i)) * 10 + digit_val(s[i]));
        lemma_dec_val_prefix_le(s, i + 1);
    } else {
        assert(s.take(i) =~= s);
    }
}

/// Whether a character is a decimal digit.
fn is_digit_exec(c: char) -> (r: bool)
    ensures
        r == is_digit(c),
{
    '0' <= c && c <= '9'
}

/// Parses a value token as a `u32`: all digits, at least one, value
/// in range; `None` otherwise.
pub fn parse_u32(s: &str) -> (r: Option<u32>)
    ensures
        r == spec_parse_u32(s@),
{
    let len = s.unicode_len();
    if len == 0 {
        return None;
    }
    let mut acc: u32 = 0;
    let mut i: usize = 0;
    while i < len
        invariant
            0 <= i <= len,
            len == s@.len(),
            all_digits(s@.take(i as int)),
            acc == dec_val(s@.take(i as int)),
        decreases len - i,
    {
        let c = s.get_char(i);
        if !is_digit_exec(c) {
            assert(!is_digit(s@[i as int]));
            return None;
        }
        let d: u32 = (c as u32) - 48;
        proof {
            assert(d == digit_val(s@[i as int]));
            assert(s@.take(i as int + 1).drop_last() =~= s@.take(i as int));
            assert(s@.take(i as int + 1).last() == s@[i as int]);
            assert(dec_val(s@.take(i as int + 1)) == acc * 10 + d);
        }
        if acc > u32::MAX / 10 || (acc == u32::MAX / 10 && d > u32::MAX % 10) {
            proof {
                assert(acc * 10 + d > u32::MAX);
                if all_digits(s@) {
                    lemma_dec_val_prefix_le(s@, i as int + 1);
                }
            }
            return None;
        }
        assert(acc * 10 + d <= u32::MAX);
        acc = acc * 10 + d;
        i = i + 1;
    }
    proof {
        assert(s@.take(len as int) =~= s@);
    }
    Some(acc)
}

/// Renders a number in decimal, most significant digit first.
pub fn u32_to_dec(n: u32) -> (r: String)
    ensures
        r@ == dec_seq(n as nat),
    decreases n,
{
    if n < 10 {
        digit_str(n).to_owned()
    } else {
        let mut r = u32_to_dec(n / 10);
        r.append(digit_str(n % 10));
        proof {
            assert((n as nat) / 10 == (n / 10) as nat);
            assert((n as nat) % 10 == (n % 10) as nat);
        }
        r
    }
}

/// The one-character string for a digit value.
fn digit_str(d: u32) -> (r: &'static str)
    requires
        d <= 9,
    ensures
        r@ == seq![digit_char(d as int)],
{
    proof {
        reveal_strlit("0");
        reveal_strlit("1");
        reveal_strlit("2");
        reveal_strlit("3");
        reveal_strlit("4");
        reveal_strlit("5");
        reveal_strlit("6");
        reveal_strlit("7");
        reveal_strlit("8");
        reveal_strlit("9");
    }
    let r: &'static str = match d {
        0 => "0",
        1 => "1",
        2 => "2",
        3 => "3",
        4 => "4",
        5 => "5",
        6 => "6",
        7 => "7",
        8 => "8",
        _ => "9",
    };
    proof {
        assert(r@ =~= seq![digit_char(d as int)]);
    }
    r
}

// ---------------------------------------------------------------
// Scanning and trimming
// ---------------------------------------------------------------

/// The index of the first occurrence of `c` in `s`, or `s.len()` if
/// there is none.
pub open spec fn first_index_of(s: Seq<char>, c: char) -> nat
    decreases s.len(),
{
    if s.len() == 0 {
        0
    } else if s[0] == c {
        0
    } else {
        (1 + first_index_of(s.drop_first(), c)) as nat
    }
}

proof fn lemma_first_index_of_is(s: Seq<char>, c: char, i: int)
    requires
        0 <= i <= s.len(),
        forall|j: int| 0 <= j < i ==> s[j] != c,
        i < s.len() ==> s[i] == c,
    ensures
        first_index_of(s, c) == i,
    decreases s.len(),
{
    if s.len() == 0 {
    } else if s[0] == c {
        assert(i == 0) by {
            if i > 0 {
                assert(s[0] != c);
            }
        }
    } else {
        assert(i >= 1);
        let t = s.drop_first();
        assert forall|j: int| 0 <= j < i - 1 implies t[j] != c by {
            assert(t[j] == s[j + 1]);
        }
        assert(i - 1 < t.len() ==> t[i - 1] == c);
        lemma_first_index_of_is(t, c, i - 1);
    }
}

/// How many leading whitespace characters `s` has.
pub open spec fn leading_spaces(s: Seq<char>) -> nat
    decreases s.len(),
{
    if s.len() > 0 && is_space(s[0]) {
        (1 + leading_spaces(s.drop_first())) as nat
    } else {
        0
    }
}

proof fn lemma_leading_spaces_is(s: Seq<char>, i: int)
    requires
        0 <= i <= s.len(),
        forall|j: int| 0 <= j < i ==> is_space(#[trigger] s[j]),
        i < s.len() ==> !is_space(s[i]),
    ensures
        leading_spaces(s) == i,
    decreases s.len(),
{
    if s.len() > 0 && is_space(s[0]) {
        assert(i >= 1) by {
            if i == 0 {
                assert(!is_space(s[0]));
            }
        }
        let t = s.drop_first();
        assert forall|j: int| 0 <= j < i - 1 implies is_space(#[trigger] t[j]) by {
            assert(t[j] == s[j + 1]);
        }
        assert(i - 1 < t.len() ==> !is_space(t[i - 1]));
        lemma_leading_spaces_is(t, i - 1);
    } else {
        assert(i == 0) by {
            if i > 0 {
                assert(is_space(s[0]));
            }
        }
    }
}

/// The length `s` keeps once trailing whitespace is dropped.
pub open spec fn trimmed_end_len(s: Seq<char>) -> nat
    decreases s.len(),
{
    if s.len() > 0 && is_space(s[s.len() - 1]) {
        trimmed_end_len(s.drop_last())
    } else {
        s.len()
    }
}

proof fn lemma_trimmed_end_len_is(s: Seq<char>, b: int)
    requires
        0 <= b <= s.len(),
        forall|j: int| s.len() - b <= j < s.len() ==> is_space(#[trigger] s[j]),
        b < s.len() ==> !is_space(s[s.len() - b - 1]),
    ensures
        trimmed_end_len(s) == s.len() - b,
    decreases s.len(),
{
    if s.len() > 0 && is_space(s[s.len() - 1]) {
        assert(b >= 1) by {
            if b == 0 {
                assert(!is_space(s[s.len() - 1]));
            }
        }
        let t = s.drop_last();
        assert forall|j: int| t.len() - (b - 1) <= j < t.len() implies is_space(#[trigger] t[j]) by {
            assert(t[j] == s[j]);
        }
        assert(b - 1 < t.len() ==> !is_space(t[t.len() - (b - 1) - 1])) by {
            if b - 1 < t.len() {
                assert(t[t.len() - (b - 1) - 1] == s[s.len() - b - 1]);
            }
        }
        lemma_trimmed_end_len_is(t, b - 1);
    } else {
        assert(b == 0) by {
            if b > 0 {
                assert(is_space(s[s.len() - 1]));
            }
        }
    }
}

/// `s` without leading whitespace.
pub open spec fn trim_start(s: Seq<char>) -> Seq<char> {
    s.skip(leading_spaces(s) as int)
}

/// `s` without trailing whitespace.
pub open spec fn trim_end(s: Seq<char>) -> Seq<char> {
    s.take(trimmed_end_len(s) as int)
}

/// `s` without leading and trailing whitespace.
pub open spec fn trim(s: Seq<char>) -> Seq<char> {
    trim_end(trim_start(s))
}

/// Whether a character is trimmable whitespace.
fn is_space_exec(c: char) -> (r: bool)
    ensures
        r == is_space(c),
{
    c == ' ' || c == '\t' || c == '\r'
}

/// Drops leading whitespace.
fn trim_start_exec(s: &str) -> (r: &str)
    ensures
        r@ == trim_start(s@),
{
    let len = s.unicode_len();
    let mut a: usize = 0;
    while a < len && is_space_exec(s.get_char(a))
        invariant
            0 <= a <= len,
            len == s@.len(),
            forall|j: int| 0 <= j < a ==> is_space(#[trigger] s@[j]),
        decreases len - a,
    {
        a = a + 1;
    }
    proof {
        lemma_leading_spaces_is(s@, a as int);
    }
    s.substring_char(a, len)
}

/// Drops trailing whitespace.
fn trim_end_exec(s: &str) -> (r: &str)
    ensures
        r@ == trim_end(s@),
{
    let len = s.unicode_len();
    let mut b: usize = 0;
    while b < len && is_space_exec(s.get_char(len - b - 1))
        invariant
            0 <= b <= len,
            len == s@.len(),
            forall|j: int| len - b <= j < len ==> is_space(#[trigger] s@[j]),
        decreases len - b,
    {
        b = b + 1;
    }
    proof {
        lemma_trimmed_end_len_is(s@, b as int);
    }
    s.substring_char(0, len - b)
}

/// Drops leading and trailing whitespace.
fn trim_exec(s: &str) -> (r: &str)
    ensures
        r@ == trim(s@),
{
    trim_end_exec(trim_start_exec(s))
}

// ---------------------------------------------------------------
// Value tokens
// ---------------------------------------------------------------

/// How one character is written inside a quoted string: a double
/// quote, a backslash and a newline take a backslash escape, every
/// other character stands for itself.
pub open spec fn escape_char(c: char) -> Seq<char> {
    if c == '"' {
        seq!['\\', '"']
    } else if c == '\\' {
        seq!['\\', '\\']
    } else if c == '\n' {
        seq!['\\', 'n']
    } else {
        seq![c]
    }
}

/// A string's characters written for a quoted value, each escaped as
/// needed.
pub open spec fn escape_text(s: Seq<char>) -> Seq<char>
    decreases s.len(),
{
    if s.len() == 0 {
        Seq::empty()
    } else {
        escape_text(s.drop_last()) + escape_char(s.last())
    }
}

/// Scans quoted content in `v` from index `i` (just past the opening
/// quote) to the closing quote: a backslash must introduce one of the
/// three escapes, any other character stands for itself. Returns the
/// decoded content and the index just past the closing quote, or
/// `None` for an unterminated or ill-escaped value.
pub open spec fn scan_text(v: Seq<char>, i: int) -> Option<(Seq<char>, int)>
    recommends
        0 <= i,
    decreases v.len() - i,
{
    if i < 0 || i >= v.len() {
        None
    } else if v[i] == '"' {
        Some((Seq::empty(), i + 1))
    } else if v[i] == '\\' {
        if i + 1 >= v.len() {
            None
        } else {
            let e = v[i + 1];
            if e == '"' || e == '\\' || e == 'n' {
                let c = if e == 'n' {
                    '\n'
                } else {
                    e
                };
                match scan_text(v, i + 2) {
                    Some(p) => Some((seq![c] + p.0, p.1)),
                    None => None,
                }
            } else {
                None
            }
        }
    } else {
        match scan_text(v, i + 1) {
            Some(p) => Some((seq![v[i]] + p.0, p.1)),
            None => None,
        }
    }
}

/// What a value token must be to name a string: an opening quote,
/// well-escaped content up to a closing quote, and then at most
/// whitespace or a `#` comment; its decoded contents otherwise.
pub open spec fn spec_parse_text(v: Seq<char>) -> Option<Seq<char>> {
    if v.len() >= 1 && v[0] == '"' {
        match scan_text(v, 1) {
            Some(p) => {
                let tail = trim_start(v.skip(p.1));
                if tail.len() == 0 || tail[0] == '#' {
                    Some(p.0)
                } else {
                    None
                }
            },
            None => None,
        }
    } else {
        None
    }
}

/// Parses a value token as a quoted string, returning its decoded
/// contents.
pub fn parse_text(s: &str) -> (r: Option<String>)
    ensures
        (r is Some) == (spec_parse_text(s@) is Some),
        (r matches Some(t) ==> Some(t@) == spec_parse_text(s@)),
{
    let len = s.unicode_len();
    if len == 0 || s.get_char(0) != '"' {
        return None;
    }
    let mut acc = String::new();
    let mut i: usize = 1;
    proof {
        if scan_text(s@, 1) is Some {
            let p = scan_text(s@, 1)->Some_0;
            assert(Seq::<char>::empty() + p.0 =~= p.0);
        }
    }
    loop
        invariant
            1 <= i <= len,
            len == s@.len(),
            s@[0] == '"',
            scan_text(s@, 1) == (match scan_text(s@, i as int) {
                Some(p) => Some((acc@ + p.0, p.1)),
                None => None::<(Seq<char>, int)>,
            }),
        decreases len - i,
    {
        if i >= len {
            return None;
        }
        let c = s.get_char(i);
        if c == '"' {
            proof {
                assert(acc@ + Seq::<char>::empty() =~= acc@);
            }
            let j = i + 1;
            let tail = trim_start_exec(s.substring_char(j, len));
            proof {
                assert(s@.subrange(j as int, len as int) =~= s@.skip(j as int));
            }
            let tlen = tail.unicode_len();
            if tlen == 0 || tail.get_char(0) == '#' {
                return Some(acc);
            } else {
                return None;
            }
        } else if c == '\\' {
            if i + 1 >= len {
                return None;
            }
            let e = s.get_char(i + 1);
            if e == '"' || e == '\\' || e == 'n' {
                let ghost acc0 = acc@;
                let ghost decoded: char = if e == 'n' {
                    '\n'
                } else {
                    e
                };
                if e == 'n' {
                    acc.append("\n");
                } else if e == '"' {
                    acc.append("\"");
                } else {
                    acc.append("\\");
                }
                proof {
                    reveal_strlit("\n");
                    reveal_strlit("\"");
                    reveal_strlit("\\");
                    assert(acc@ =~= acc0 + seq![decoded]);
                    if scan_text(s@, i as int + 2) is Some {
                        let p = scan_text(s@, i as int + 2)->Some_0;
                        assert(acc@ + p.0 =~= acc0 + (seq![decoded] + p.0));
                    }
                }
                i = i + 2;
            } else {
                return None;
            }
        } else {
            let ghost acc0 = acc@;
            let piece = s.substring_char(i, i + 1);
            acc.append(piece);
            proof {
                assert(piece@ =~= seq![s@[i as int]]);
                assert(acc@ =~= acc0 + seq![s@[i as int]]);
                if scan_text(s@, i as int + 1) is Some {
                    let p = scan_text(s@, i as int + 1)->Some_0;
                    assert(acc@ + p.0 =~= acc0 + (seq![s@[i as int]] + p.0));
                }
            }
            i = i + 1;
        }
    }
}

/// The value token with any trailing `#` comment dropped: everything
/// before the first `#`, trailing whitespace trimmed.
pub open spec fn strip_inline_comment(v: Seq<char>) -> Seq<char> {
    trim_end(v.take(first_index_of(v, '#') as int))
}

/// Drops a trailing `#` comment from an unquoted value token.
fn strip_inline_comment_exec<'a>(v: &'a str) -> (r: &'a str)
    ensures
        r@ == strip_inline_comment(v@),
{
    let len = v.unicode_len();
    let mut h: usize = 0;
    while h < len && v.get_char(h) != '#'
        invariant
            0 <= h <= len,
            len == v@.len(),
            forall|j: int| 0 <= j < h ==> v@[j] != '#',
        decreases len - h,
    {
        h = h + 1;
    }
    proof {
        lemma_first_index_of_is(v@, '#', h as int);
    }
    trim_end_exec(v.substring_char(0, h))
}

// ---------------------------------------------------------------
// The configuration record
// ---------------------------------------------------------------

/// The six configuration fields.
pub struct Config {
    pub megahealth_warning_threshold: u32,
    pub megahealth_critical_threshold: u32,
    pub red_armor_warning_threshold: u32,
    pub red_armor_critical_threshold: u32,
    pub megahealth_hotkey: String,
    pub red_armor_hotkey: String,
}

/// The mathematical image of a `Config`.
pub struct ConfigV {
    pub megahealth_warning_threshold: u32,
    pub megahealth_critical_threshold: u32,
    pub red_armor_warning_threshold: u32,
    pub red_armor_critical_threshold: u32,
    pub megahealth_hotkey: Seq<char>,
    pub red_armor_hotkey: Seq<char>,
}

impl View for Config {
    type V = ConfigV;

    open spec fn view(&self) -> ConfigV {
        ConfigV {
            megahealth_warning_threshold: self.megahealth_warning_threshold,
            megahealth_critical_threshold: self.megahealth_critical_threshold,
            red_armor_warning_threshold: self.red_armor_warning_threshold,
            red_armor_critical_threshold: self.red_armor_critical_threshold,
            megahealth_hotkey: self.megahealth_hotkey@,
            red_armor_hotkey: self.red_armor_hotkey@,
        }
    }
}

// ---------------------------------------------------------------
// Lines
// ---------------------------------------------------------------

/// What one line of the file contributes: nothing, a key/value pair,
/// or a malformed line.
pub enum LineShape {
    Blank,
    Malformed,
    Pair(Seq<char>, Seq<char>),
}

/// A line, trimmed, is blank (empty or a `#` comment), malformed (no
/// `=`), or the pair of its key (before the first `=`, trailing
/// whitespace dropped) and value (after it, leading whitespace
/// dropped).
pub open spec fn classify_line(line: Seq<char>) -> LineShape {
    let t = trim(line);
    if t.len() == 0 || t[0] == '#' {
        LineShape::Blank
    } else {
        let i = first_index_of(t, '=');
        if i >= t.len() {
            LineShape::Malformed
        } else {
            LineShape::Pair(trim_end(t.take(i as int)), trim_start(t.skip(i as int + 1)))
        }
    }
}

/// The text split at every newline; the terminator-less remainder is
/// the last line, so text ending in a newline ends with an empty line.
pub open spec fn split_lines(s: Seq<char>) -> Seq<Seq<char>>
    decreases s.len(),
{
    let i = first_index_of(s, '\n');
    if i >= s.len() {
        seq![s]
    } else {
        seq![s.take(i as int)] + split_lines(s.skip(i as int + 1))
    }
}

// ---------------------------------------------------------------
// Accumulating the six fields
// ---------------------------------------------------------------

/// The fields seen so far while reading the file.
pub struct PartialConfig {
    pub megahealth_warning_threshold: Option<u32>,
    pub megahealth_critical_threshold: Option<u32>,
    pub red_armor_warning_threshold: Option<u32>,
    pub red_armor_critical_threshold: Option<u32>,
    pub megahealth_hotkey: Option<String>,
    pub red_armor_hotkey: Option<String>,
}

/// The mathematical image of a `PartialConfig`.
pub struct PartialConfigV {
    pub megahealth_warning_threshold: Option<u32>,
    pub megahealth_critical_threshold: Option<u32>,
    pub red_armor_warning_threshold: Option<u32>,
    pub red_armor_critical_threshold: Option<u32>,
    pub megahealth_hotkey: Option<Seq<char>>,
    pub red_armor_hotkey: Option<Seq<char>>,
}

impl View for PartialConfig {
    type V = PartialConfigV;

    open spec fn view(&self) -> PartialConfigV {
        PartialConfigV {
            megahealth_warning_threshold: self.megahealth_warning_threshold,
            megahealth_critical_threshold: self.megahealth_critical_threshold,
            red_armor_warning_threshold: self.red_armor_warning_threshold,
            red_armor_critical_threshold: self.red_armor_critical_threshold,
            megahealth_hotkey: (match self.megahealth_hotkey {
                Some(ref s) => Some(s@),
                None => None,
            }),
            red_armor_hotkey: (match self.red_armor_hotkey {
                Some(ref s) => Some(s@),
                None => None,
            }),
        }
    }
}

/// No field seen yet.
pub open spec fn empty_partial() -> PartialConfigV {
    PartialConfigV {
        megahealth_warning_threshold: None,
        megahealth_critical_threshold: None,
        red_armor_warning_threshold: None,
        red_armor_critical_threshold: None,
        megahealth_hotkey: None,
        red_armor_hotkey: None,
    }
}

/// What a key/value pair does to the fields seen so far: a known key
/// takes its parsed value — rejecting a value of the wrong shape and
/// a key seen twice — and an unknown key is ignored.
pub open spec fn apply_pair(p: PartialConfigV, key: Seq<char>, value: Seq<char>) -> Option<
    PartialConfigV,
> {
    if key == "megahealth_warning_threshold"@ {
        (match spec_parse_u32(strip_inline_comment(value)) {
            Some(n) => if p.megahealth_warning_threshold is Some {
                None
            } else {
                Some(PartialConfigV { megahealth_warning_threshold: Some(n), ..p })
            },
            None => None,
        })
    } else if key == "megahealth_critical_threshold"@ {
        (match spec_parse_u32(strip_inline_comment(value)) {
            Some(n) => if p.megahealth_critical_threshold is Some {
                None
            } else {
                Some(PartialConfigV { megahealth_critical_threshold: Some(n), ..p })
            },
            None => None,
        })
    } else if key == "red_armor_warning_threshold"@ {
        (match spec_parse_u32(strip_inline_comment(value)) {
            Some(n) => if p.red_armor_warning_threshold is Some {
                None
            } else {
                Some(PartialConfigV { red_armor_warning_threshold: Some(n), ..p })
            },
            None => None,
        })
    } else if key == "red_armor_critical_threshold"@ {
        (match spec_parse_u32(strip_inline_comment(value)) {
            Some(n) => if p.red_armor_critical_threshold is Some {
                None
            } else {
                Some(PartialConfigV { red_armor_critical_threshold: Some(n), ..p })
            },
            None => None,
        })
    } else if key == "megahealth_hotkey"@ {
        (match spec_parse_text(value) {
            Some(t) => if p.megahealth_hotkey is Some {
                None
            } else {
                Some(PartialConfigV { megahealth_hotkey: Some(t), ..p })
            },
            None => None,
        })
    } else if key == "red_armor_hotkey"@ {
        (match spec_parse_text(value) {
            Some(t) => if p.red_armor_hotkey is Some {
                None
            } else {
                Some(PartialConfigV { red_armor_hotkey: Some(t), ..p })
            },
            None => None,
        })
    } else {
        Some(p)
    }
}

/// What one line does to the fields seen so far.
pub open spec fn apply_line(p: PartialConfigV, line: Seq<char>) -> Option<PartialConfigV> {
    match classify_line(line) {
        LineShape::Blank => Some(p),
        LineShape::Malformed => None,
        LineShape::Pair(key, value) => apply_pair(p, key, value),
    }
}

/// The lines applied in order, failing at the first bad one.
pub open spec fn apply_lines(p: PartialConfigV, lines: Seq<Seq<char>>) -> Option<PartialConfigV>
    decreases lines.len(),
{
    if lines.len() == 0 {
        Some(p)
    } else {
        match apply_line(p, lines[0]) {
            None => None,
            Some(p2) => apply_lines(p2, lines.drop_first()),
        }
    }
}

/// What the whole text parses to: every line applied in order, and
/// every one of the six fields present exactly once.
pub open spec fn spec_parse_config(s: Seq<char>) -> Option<ConfigV> {
    match apply_lines(empty_partial(), split_lines(s)) {
        None => None,
        Some(p) => (match (
            p.megahealth_warning_threshold,
            p.megahealth_critical_threshold,
            p.red_armor_warning_threshold,
            p.red_armor_critical_threshold,
            p.megahealth_hotkey,
            p.red_armor_hotkey,
        ) {
            (Some(mw), Some(mc), Some(rw), Some(rc), Some(mh), Some(rh)) => Some(
                ConfigV {
                    megahealth_warning_threshold: mw,
                    megahealth_critical_threshold: mc,
                    red_armor_warning_threshold: rw,
                    red_armor_critical_threshold: rc,
                    megahealth_hotkey: mh,
                    red_armor_hotkey: rh,
                },
            ),
            _ => None,
        }),
    }
}

/// Applies one key/value pair to the fields seen so far, with a
/// descriptive error for a bad value or a repeated key.
fn apply_pair_exec(p: PartialConfig, key: &str, value: &str) -> (r: Result<PartialConfig, String>)
    ensures
        (r is Ok) == (apply_pair(p@, key@, value@) is Some),
        (r matches Ok(p2) ==> Some(p2@) == apply_pair(p@, key@, value@)),
{
    if str_eq(key, "megahealth_warning_threshold") {
        match parse_u32(strip_inline_comment_exec(value)) {
            Some(n) => {
                if p.megahealth_warning_threshold.is_some() {
                    Err("duplicate key: megahealth_warning_threshold".to_owned())
                } else {
                    Ok(PartialConfig { megahealth_warning_threshold: Some(n), ..p })
                }
            },
            None => Err("megahealth_warning_threshold is not an unsigned integer".to_owned()),
        }
    } else if str_eq(key, "megahealth_critical_threshold") {
        match parse_u32(strip_inline_comment_exec(value)) {
            Some(n) => {
                if p.megahealth_critical_threshold.is_some() {
                    Err("duplicate key: megahealth_critical_threshold".to_owned())
                } else {
                    Ok(PartialConfig { megahealth_critical_threshold: Some(n), ..p })
                }
            },
            None => Err("megahealth_critical_threshold is not an unsigned integer".to_owned()),
        }
    } else if str_eq(key, "red_armor_warning_threshold") {
        match parse_u32(strip_inline_comment_exec(value)) {
            Some(n) => {
                if p.red_armor_warning_threshold.is_some() {
                    Err("duplicate key: red_armor_warning_threshold".to_owned())
                } else {
                    Ok(PartialConfig { red_armor_warning_threshold: Some(n), ..p })
                }
            },
            None => Err("red_armor_warning_threshold is not an unsigned integer".to_owned()),
        }
    } else if str_eq(key, "red_armor_critical_threshold") {
        match parse_u32(strip_inline_comment_exec(value)) {
            Some(n) => {
                if p.red_armor_critical_threshold.is_some() {
                    Err("duplicate key: red_armor_critical_threshold".to_owned())
                } else {
                    Ok(PartialConfig { red_armor_critical_threshold: Some(n), ..p })
                }
            },
            None => Err("red_armor_critical_threshold is not an unsigned integer".to_owned()),
        }
    } else if str_eq(key, "megahealth_hotkey") {
        match parse_text(value) {
            Some(t) => {
                if p.megahealth_hotkey.is_some() {
                    Err("duplicate key: megahealth_hotkey".to_owned())
                } else {
                    Ok(PartialConfig { megahealth_hotkey: Some(t), ..p })
                }
            },
            None => Err("megahealth_hotkey is not a quoted string".to_owned()),
        }
    } else if str_eq(key, "red_armor_hotkey") {
        match parse_text(value) {
            Some(t) => {
                if p.red_armor_hotkey.is_some() {
                    Err("duplicate key: red_armor_hotkey".to_owned())
                } else {
                    Ok(PartialConfig { red_armor_hotkey: Some(t), ..p })
                }
            },
            None => Err("red_armor_hotkey is not a quoted string".to_owned()),
        }
    } else {
        Ok(p)
    }
}

/// Applies one line of the file to the fields seen so far.
fn apply_line_exec(p: PartialConfig, line: &str) -> (r: Result<PartialConfig, String>)
    ensures
        (r is Ok) == (apply_line(p@, line@) is Some),
        (r matches Ok(p2) ==> Some(p2@) == apply_line(p@, line@)),
{
    let t = trim_exec(line);
    let tlen = t.unicode_len();
    if tlen == 0 {
        return Ok(p);
    }
    if t.get_char(0) == '#' {
        return Ok(p);
    }
    let mut i: usize = 0;
    while i < tlen && t.get_char(i) != '='
        invariant
            0 <= i <= tlen,
            tlen == t@.len(),
            forall|j: int| 0 <= j < i ==> t@[j] != '=',
        decreases tlen - i,
    {
        i = i + 1;
    }
    proof {
        lemma_first_index_of_is(t@, '=', i as int);
    }
    if i == tlen {
        return Err("config line has no '='".to_owned());
    }
    let key = trim_end_exec(t.substring_char(0, i));
    let value = trim_start_exec(t.substring_char(i + 1, tlen));
    apply_pair_exec(p, key, value)
}

/// Applies every line of the text in order, failing at the first bad
/// one.
fn parse_lines_exec(text: &str, p: PartialConfig) -> (r: Result<PartialConfig, String>)
    ensures
        (r is Ok) == (apply_lines(p@, split_lines(text@)) is Some),
        (r matches Ok(p2) ==> Some(p2@) == apply_lines(p@, split_lines(text@))),
    decreases text@.len(),
{
    let len = text.unicode_len();
    let mut i: usize = 0;
    while i < len && text.get_char(i) != '\n'
        invariant
            0 <= i <= len,
            len == text@.len(),
            forall|j: int| 0 <= j < i ==> text@[j] != '\n',
        decreases len - i,
    {
        i = i + 1;
    }
    proof {
        lemma_first_index_of_is(text@, '\n', i as int);
    }
    if i == len {
        let r = apply_line_exec(p, text);
        proof {
            let lines = split_lines(text@);
            assert(lines == seq![text@]);
            assert(lines[0] == text@);
            if r is Ok {
                let p2 = apply_line(p@, text@)->Some_0;
                assert(apply_lines(p2, lines.drop_first()) == Some(p2)) by {
                    assert(lines.drop_first().len() == 0);
                }
            }
        }
        r
    } else {
        let line = text.substring_char(0, i);
        let rest = text.substring_char(i + 1, len);
        proof {
            let lines = split_lines(text@);
            assert(lines == seq![text@.take(i as int)] + split_lines(text@.skip(i as int + 1)));
            assert(lines[0] == line@);
            assert(lines.drop_first() =~= split_lines(rest@));
        }
        match apply_line_exec(p, line) {
            Err(e) => Err(e),
            Ok(p2) => {
                proof {
                    assert(apply_line(p@, line@) == Some(p2@));
                }
                parse_lines_exec(rest, p2)
            },
        }
    }
}

/// Parses the whole configuration text: every line is blank, a
/// comment, or a well-formed key/value pair, with an optional `#`
/// comment after the value; each of the six fields appears exactly
/// once with a value of its shape — bare digits for thresholds, a
/// quoted, escapable string for hotkeys; unknown keys are ignored.
/// Returns the parsed configuration, or a descriptive error on the
/// first offence.
pub fn parse_config(text: &str) -> (r: Result<Config, String>)
    ensures
        (r is Ok) == (spec_parse_config(text@) is Some),
        (r matches Ok(c) ==> Some(c@) == spec_parse_config(text@)),
{
    let p0 = PartialConfig {
        megahealth_warning_threshold: None,
        megahealth_critical_threshold: None,
        red_armor_warning_threshold: None,
        red_armor_critical_threshold: None,
        megahealth_hotkey: None,
        red_armor_hotkey: None,
    };
    proof {
        assert(p0@ == empty_partial());
    }
    match parse_lines_exec(text, p0) {
        Err(e) => Err(e),
        Ok(p) => {
            match (
                p.megahealth_warning_threshold,
                p.megahealth_critical_threshold,
                p.red_armor_warning_threshold,
                p.red_armor_critical_threshold,
                p.megahealth_hotkey,
                p.red_armor_hotkey,
            ) {
                (Some(mw), Some(mc), Some(rw), Some(rc), Some(mh), Some(rh)) => Ok(
                    Config {
                        megahealth_warning_threshold: mw,
                        megahealth_critical_threshold: mc,
                        red_armor_warning_threshold: rw,
                        red_armor_critical_threshold: rc,
                        megahealth_hotkey: mh,
                        red_armor_hotkey: rh,
                    },
                ),
                _ => Err("a required configuration key is missing".to_owned()),
            }
        },
    }
}

// ---------------------------------------------------------------
// Serialization, default, loading
// ---------------------------------------------------------------

/// One written line for an integer field: `key = value`.
pub open spec fn int_line(key: Seq<char>, n: u32) -> Seq<char> {
    key + seq![' ', '=', ' '] + dec_seq(n as nat)
}

/// One written line for a string field: `key = "value"`, the value
/// escaped.
pub open spec fn text_line(key: Seq<char>, s: Seq<char>) -> Seq<char> {
    key + seq![' ', '=', ' ', '"'] + escape_text(s) + seq!['"']
}

/// The written lines of a configuration, in field order.
pub open spec fn config_lines(c: ConfigV) -> Seq<Seq<char>> {
    seq![
        int_line("megahealth_warning_threshold"@, c.megahealth_warning_threshold),
        int_line("megahealth_critical_threshold"@, c.megahealth_critical_threshold),
        int_line("red_armor_warning_threshold"@, c.red_armor_warning_threshold),
        int_line("red_armor_critical_threshold"@, c.red_armor_critical_threshold),
        text_line("megahealth_hotkey"@, c.megahealth_hotkey),
        text_line("red_armor_hotkey"@, c.red_armor_hotkey),
    ]
}

/// Lines joined with a newline after each one.
pub open spec fn join_lines(lines: Seq<Seq<char>>) -> Seq<char>
    decreases lines.len(),
{
    if lines.len() == 0 {
        Seq::empty()
    } else {
        lines[0] + seq!['\n'] + join_lines(lines.drop_first())
    }
}

/// The file text for a configuration: one `key = value` line per
/// field, integers bare, hotkey names double-quoted with escaping,
/// each line newline-terminated.
pub open spec fn spec_serialize_config(c: ConfigV) -> Seq<char> {
    join_lines(config_lines(c))
}

/// Renders a configuration as file text.
#[verifier::rlimit(100)]
pub fn serialize_config(c: &Config) -> (r: String)
    ensures
        r@ == spec_serialize_config(c@),
{
    proof {
        reveal_strlit(" = ");
        reveal_strlit(" = \"");
        reveal_strlit("\"\n");
        reveal_strlit("\n");
    }
    let mut r = String::new();
    r.append("megahealth_warning_threshold");
    r.append(" = ");
    let d = u32_to_dec(c.megahealth_warning_threshold);
    r.append(d.as_str());
    r.append("\n");
    r.append("megahealth_critical_threshold");
    r.append(" = ");
    let d = u32_to_dec(c.megahealth_critical_threshold);
    r.append(d.as_str());
    r.append("\n");
    r.append("red_armor_warning_threshold");
    r.append(" = ");
    let d = u32_to_dec(c.red_armor_warning_threshold);
    r.append(d.as_str());
    r.append("\n");
    r.append("red_armor_critical_threshold");
    r.append(" = ");
    let d = u32_to_dec(c.red_armor_critical_threshold);
    r.append(d.as_str());
    r.append("\n");
    r.append("megahealth_hotkey");
    r.append(" = \"");
    let e = escape_text_exec(c.megahealth_hotkey.as_str());
    r.append(e.as_str());
    r.append("\"\n");
    r.append("red_armor_hotkey");
    r.append(" = \"");
    let e = escape_text_exec(c.red_armor_hotkey.as_str());
    r.append(e.as_str());
    r.append("\"\n");
    proof {
        let ls = config_lines(c@);
        assert forall|k: int| 0 <= k < 6 implies #[trigger] ls.skip(k).drop_first() =~= ls.skip(
            k + 1,
        ) by {}
        assert(ls.skip(6).len() == 0);
        assert(join_lines(ls.skip(6)) == Seq::<char>::empty());
        assert(join_lines(ls.skip(5)) == ls[5] + seq!['\n'] + join_lines(ls.skip(6)));
        assert(join_lines(ls.skip(4)) == ls[4] + seq!['\n'] + join_lines(ls.skip(5)));
        assert(join_lines(ls.skip(3)) == ls[3] + seq!['\n'] + join_lines(ls.skip(4)));
        assert(join_lines(ls.skip(2)) == ls[2] + seq!['\n'] + join_lines(ls.skip(3)));
        assert(join_lines(ls.skip(1)) == ls[1] + seq!['\n'] + join_lines(ls.skip(2)));
        assert(ls.skip(0) =~= ls);
        assert(join_lines(ls) == ls[0] + seq!['\n'] + join_lines(ls.skip(1)));
        assert(r@ =~= spec_serialize_config(c@));
    }
    r
}

/// Writes a string's characters with the quoted-value escapes.
fn escape_text_exec(s: &str) -> (r: String)
    ensures
        r@ == escape_text(s@),
{
    let len = s.unicode_len();
    let mut r = String::new();
    let mut i: usize = 0;
    while i < len
        invariant
            0 <= i <= len,
            len == s@.len(),
            r@ == escape_text(s@.take(i as int)),
        decreases len - i,
    {
        let ghost r0 = r@;
        let c = s.get_char(i);
        if c == '"' {
            r.append("\\\"");
            proof {
                reveal_strlit("\\\"");
                assert(("\\\"")@ =~= escape_char(c));
            }
        } else if c == '\\' {
            r.append("\\\\");
            proof {
                reveal_strlit("\\\\");
                assert(("\\\\")@ =~= escape_char(c));
            }
        } else if c == '\n' {
            r.append("\\n");
            proof {
                reveal_strlit("\\n");
                assert(("\\n")@ =~= escape_char(c));
            }
        } else {
            let piece = s.substring_char(i, i + 1);
            r.append(piece);
            proof {
                assert(piece@ =~= escape_char(c));
            }
        }
        proof {
            assert(s@.take(i as int + 1).drop_last() =~= s@.take(i as int));
            assert(s@.take(i as int + 1).last() == s@[i as int]);
            assert(r@ =~= escape_text(s@.take(i as int + 1)));
        }
        i = i + 1;
    }
    proof {
        assert(s@.take(len as int) =~= s@);
    }
    r
}

/// The default synthesized on first run: warning 10 s and critical
/// 5 s for both pickups, hotkeys named Key1 and Key2.
pub open spec fn spec_default_config() -> ConfigV {
    ConfigV {
        megahealth_warning_threshold: 10,
        megahealth_critical_threshold: 5,
        red_armor_warning_threshold: 10,
        red_armor_critical_threshold: 5,
        megahealth_hotkey: "Key1"@,
        red_armor_hotkey: "Key2"@,
    }
}

/// Builds the default configuration.
pub fn default_config() -> (c: Config)
    ensures
        c@ == spec_default_config(),
{
    Config {
        megahealth_warning_threshold: 10,
        megahealth_critical_threshold: 5,
        red_armor_warning_threshold: 10,
        red_armor_critical_threshold: 5,
        megahealth_hotkey: "Key1".to_owned(),
        red_armor_hotkey: "Key2".to_owned(),
    }
}

/// The outcome of loading: an existing file's configuration; the
/// default together with the file text to persist, where no file
/// could be read; or a parse error, in which case nothing may be
/// written.
pub enum LoadOutcome {
    Loaded(Config),
    WroteDefault(Config, String),
    Failed(String),
}

/// The loading decision over the config file's text (`None` where the
/// file is absent or unreadable). A readable file is parsed: its
/// configuration on success, a failure — and no file text to write —
/// otherwise. A missing file yields the default configuration and the
/// exact text to persist.
pub fn load_config(content: Option<&str>) -> (r: LoadOutcome)
    ensures
        (match content {
            Some(text) => (match spec_parse_config(text@) {
                Some(c) => r matches LoadOutcome::Loaded(cc) && cc@ == c,
                None => r is Failed,
            }),
            None => (r matches LoadOutcome::WroteDefault(c, t) && c@ == spec_default_config() && t@
                == spec_serialize_config(spec_default_config())),
        }),
{
    match content {
        Some(text) => (match parse_config(text) {
            Ok(c) => LoadOutcome::Loaded(c),
            Err(e) => LoadOutcome::Failed(e),
        }),
        None => {
            let c = default_config();
            let t = serialize_config(&c);
            LoadOutcome::WroteDefault(c, t)
        },
    }
}

// ---------------------------------------------------------------
// Serialization inverts parsing
// ---------------------------------------------------------------

/// No raw newline: such text stays on one written line.
spec fn no_newline(s: Seq<char>) -> bool {
    forall|j: int| 0 <= j < s.len() ==> #[trigger] s[j] != '\n'
}

proof fn lemma_no_newline_concat(a: Seq<char>, b: Seq<char>)
    requires
        no_newline(a),
        no_newline(b),
    ensures
        no_newline(a + b),
{
    assert forall|j: int| 0 <= j < (a + b).len() implies #[trigger] (a + b)[j] != '\n' by {
        if j < a.len() {
            assert((a + b)[j] == a[j]);
        } else {
            assert((a + b)[j] == b[j - a.len()]);
        }
    }
}

proof fn lemma_split_lines_concat(a: Seq<char>, b: Seq<char>)
    requires
        no_newline(a),
    ensures
        split_lines(a + seq!['\n'] + b) == seq![a] + split_lines(b),
{
    let s = a + seq!['\n'] + b;
    assert forall|j: int| 0 <= j < a.len() implies s[j] != '\n' by {
        assert(s[j] == a[j]);
    }
    assert(s[a.len() as int] == '\n');
    lemma_first_index_of_is(s, '\n', a.len() as int);
    assert(s.take(a.len() as int) =~= a);
    assert(s.skip(a.len() as int + 1) =~= b);
    assert(split_lines(s) == seq![a] + split_lines(b));
}

proof fn lemma_split_join(ls: Seq<Seq<char>>)
    requires
        forall|k: int| 0 <= k < ls.len() ==> no_newline(#[trigger] ls[k]),
    ensures
        split_lines(join_lines(ls)) == ls + seq![Seq::<char>::empty()],
    decreases ls.len(),
{
    if ls.len() == 0 {
        assert(join_lines(ls) == Seq::<char>::empty());
        assert(split_lines(Seq::<char>::empty()) == seq![Seq::<char>::empty()]);
        assert(seq![Seq::<char>::empty()] =~= ls + seq![Seq::<char>::empty()]);
    } else {
        let rest = ls.drop_first();
        assert forall|k: int| 0 <= k < rest.len() implies no_newline(#[trigger] rest[k]) by {
            assert(rest[k] == ls[k + 1]);
        }
        lemma_split_join(rest);
        lemma_split_lines_concat(ls[0], join_lines(rest));
        assert(split_lines(join_lines(ls)) == seq![ls[0]] + (rest + seq![Seq::<char>::empty()]));
        assert(seq![ls[0]] + (rest + seq![Seq::<char>::empty()]) =~= ls + seq![
            Seq::<char>::empty(),
        ]);
    }
}

proof fn lemma_dec_seq_digits(n: nat)
    ensures
        dec_seq(n).len() >= 1,
        all_digits(dec_seq(n)),
        dec_val(dec_seq(n)) == n,
    decreases n,
{
    if n < 10 {
        let s = dec_seq(n);
        assert(s.drop_last() =~= Seq::<char>::empty());
        assert(dec_val(s) == dec_val(s.drop_last()) * 10 + digit_val(s.last()));
        assert(digit_val(digit_char(n as int)) == n);
    } else {
        lemma_dec_seq_digits(n / 10);
        let a = dec_seq(n / 10);
        let s = dec_seq(n);
        assert(s.drop_last() =~= a);
        assert(s.last() == digit_char((n % 10) as int));
        assert(digit_val(digit_char((n % 10) as int)) == n % 10);
        assert forall|j: int| 0 <= j < s.len() implies is_digit(#[trigger] s[j]) by {
            if j < a.len() {
                assert(s[j] == a[j]);
            } else {
                assert(s[j] == s.last());
            }
        }
        assert(dec_val(s) == dec_val(a) * 10 + (n % 10));
        vstd::arithmetic::div_mod::lemma_fundamental_div_mod(n as int, 10);
    }
}

proof fn lemma_escape_no_newline(s: Seq<char>)
    ensures
        no_newline(escape_text(s)),
    decreases s.len(),
{
    if s.len() > 0 {
        lemma_escape_no_newline(s.drop_last());
        assert(no_newline(escape_char(s.last())));
        lemma_no_newline_concat(escape_text(s.drop_last()), escape_char(s.last()));
    }
}

proof fn lemma_escape_front(s: Seq<char>)
    requires
        s.len() > 0,
    ensures
        escape_text(s) == escape_char(s[0]) + escape_text(s.drop_first()),
    decreases s.len(),
{
    if s.len() == 1 {
        assert(s.drop_last() =~= Seq::<char>::empty());
        assert(s.drop_first() =~= Seq::<char>::empty());
        assert(Seq::<char>::empty() + escape_char(s.last()) =~= escape_char(s[0])
            + Seq::<char>::empty());
    } else {
        let a = s.drop_last();
        lemma_escape_front(a);
        let d = s.drop_first();
        assert(d.drop_last() =~= a.drop_first());
        assert(d.last() == s.last());
        assert(a[0] == s[0]);
        assert(escape_text(d) == escape_text(a.drop_first()) + escape_char(s.last()));
        assert((escape_char(s[0]) + escape_text(a.drop_first())) + escape_char(s.last())
            =~= escape_char(s[0]) + (escape_text(a.drop_first()) + escape_char(s.last())));
    }
}

proof fn lemma_scan_escape(v: Seq<char>, i: int, s: Seq<char>)
    requires
        0 <= i <= v.len(),
        v.skip(i) == escape_text(s) + seq!['"'],
    ensures
        scan_text(v, i) == Some((s, v.len() as int)),
    decreases s.len(),
{
    let tail = v.skip(i);
    assert(tail.len() == v.len() - i);
    if s.len() == 0 {
        assert(escape_text(s) == Seq::<char>::empty());
        assert(tail =~= seq!['"']);
        assert(v[i] == tail[0]);
        assert(i + 1 == v.len());
        assert(s =~= Seq::<char>::empty());
        assert(scan_text(v, i) == Some((s, v.len() as int)));
    } else {
        lemma_escape_front(s);
        let ec = escape_char(s[0]);
        let rest = escape_text(s.drop_first());
        assert(tail =~= ec + (rest + seq!['"']));
        let k = ec.len() as int;
        assert(v[i] == tail[0]);
        assert(tail[0] == ec[0]);
        assert(v.skip(i + k) =~= tail.skip(k));
        assert(tail.skip(k) =~= rest + seq!['"']);
        if s[0] == '"' || s[0] == '\\' || s[0] == '\n' {
            assert(k == 2);
            assert(v[i] == '\\');
            assert(v[i + 1] == tail[1]);
            assert(i + 2 <= v.len());
            lemma_scan_escape(v, i + 2, s.drop_first());
            assert(scan_text(v, i) == Some((seq![s[0]] + s.drop_first(), v.len() as int)));
            assert(seq![s[0]] + s.drop_first() =~= s);
        } else {
            assert(ec == seq![s[0]]);
            assert(v[i] == s[0]);
            assert(i + 1 <= v.len());
            lemma_scan_escape(v, i + 1, s.drop_first());
            assert(scan_text(v, i) == Some((seq![s[0]] + s.drop_first(), v.len() as int)));
            assert(seq![s[0]] + s.drop_first() =~= s);
        }
    }
}

proof fn lemma_trim_identity(s: Seq<char>)
    requires
        s.len() > 0,
        !is_space(s[0]),
        !is_space(s[s.len() - 1]),
    ensures
        trim(s) == s,
{
    lemma_leading_spaces_is(s, 0);
    assert(s.skip(0) =~= s);
    assert(trim_start(s) == s);
    lemma_trimmed_end_len_is(s, 0);
    assert(s.take(s.len() as int) =~= s);
    assert(trim_end(s) == s);
}

proof fn lemma_classify_keyed(key: Seq<char>, value: Seq<char>)
    requires
        key.len() > 0,
        !is_space(key[0]),
        !is_space(key[key.len() - 1]),
        key[0] != '#',
        forall|j: int| 0 <= j < key.len() ==> #[trigger] key[j] != '=',
        value.len() > 0,
        !is_space(value[0]),
        !is_space(value[value.len() - 1]),
    ensures
        classify_line(key + seq![' ', '=', ' '] + value) == LineShape::Pair(key, value),
{
    let line = key + seq![' ', '=', ' '] + value;
    let kl = key.len() as int;
    assert(line[0] == key[0]);
    assert(line[line.len() - 1] == value[value.len() - 1]);
    lemma_trim_identity(line);
    assert forall|j: int| 0 <= j < kl + 1 implies line[j] != '=' by {
        if j < kl {
            assert(line[j] == key[j]);
        } else {
            assert(line[j] == ' ');
        }
    }
    assert(line[kl + 1] == '=');
    lemma_first_index_of_is(line, '=', kl + 1);
    assert(line.take(kl + 1) =~= key + seq![' ']);
    let kt = key + seq![' '];
    assert(kt[kt.len() - 1] == ' ');
    lemma_trimmed_end_len_is(kt, 1);
    assert(kt.take(key.len() as int) =~= key);
    assert(trim_end(kt) == key);
    assert(line.skip(kl + 2) =~= seq![' '] + value);
    let vt = seq![' '] + value;
    assert(vt[0] == ' ');
    assert(vt[1] == value[0]);
    lemma_leading_spaces_is(vt, 1);
    assert(vt.skip(1) =~= value);
    assert(trim_start(vt) == value);
    assert(classify_line(line) == LineShape::Pair(key, value));
}

proof fn lemma_int_value(n: u32)
    ensures
        spec_parse_u32(strip_inline_comment(dec_seq(n as nat))) == Some(n),
        dec_seq(n as nat).len() > 0,
        !is_space(dec_seq(n as nat)[0]),
        !is_space(dec_seq(n as nat)[dec_seq(n as nat).len() - 1]),
        no_newline(dec_seq(n as nat)),
{
    lemma_dec_seq_digits(n as nat);
    let v = dec_seq(n as nat);
    assert(is_digit(v[0]));
    assert(is_digit(v[v.len() - 1]));
    assert forall|j: int| 0 <= j < v.len() implies #[trigger] v[j] != '\n' && v[j] != '#' by {
        assert(is_digit(v[j]));
    }
    lemma_first_index_of_is(v, '#', v.len() as int);
    assert(v.take(v.len() as int) =~= v);
    lemma_trimmed_end_len_is(v, 0);
    assert(strip_inline_comment(v) == v);
    assert(spec_parse_u32(v) == Some(n));
}

proof fn lemma_text_value(s: Seq<char>)
    ensures
        spec_parse_text(seq!['"'] + escape_text(s) + seq!['"']) == Some(s),
        (seq!['"'] + escape_text(s) + seq!['"']).len() > 0,
        !is_space((seq!['"'] + escape_text(s) + seq!['"'])[0]),
        !is_space((seq!['"'] + escape_text(s) + seq!['"'])[(seq!['"'] + escape_text(s)
            + seq!['"']).len() - 1]),
        no_newline(seq!['"'] + escape_text(s) + seq!['"']),
{
    let v = seq!['"'] + escape_text(s) + seq!['"'];
    assert(v[0] == '"');
    assert(v[v.len() - 1] == '"');
    lemma_escape_no_newline(s);
    assert(no_newline(seq!['"']));
    lemma_no_newline_concat(seq!['"'], escape_text(s));
    lemma_no_newline_concat(seq!['"'] + escape_text(s), seq!['"']);
    assert(v.skip(1) =~= escape_text(s) + seq!['"']);
    lemma_scan_escape(v, 1, s);
    assert(v.skip(v.len() as int) =~= Seq::<char>::empty());
    assert(leading_spaces(Seq::<char>::empty()) == 0);
    assert(Seq::<char>::empty().skip(0) =~= Seq::<char>::empty());
    assert(trim_start(v.skip(v.len() as int)) == Seq::<char>::empty());
    assert(spec_parse_text(v) == Some(s));
}

/// The loader inverts the writer: the text serialized for any
/// configuration parses back to exactly that configuration.
#[verifier::rlimit(100)]
pub proof fn lemma_serialize_then_parse(c: ConfigV)
    ensures
        spec_parse_config(spec_serialize_config(c)) == Some(c),
{
    reveal_strlit("megahealth_warning_threshold");
    reveal_strlit("megahealth_critical_threshold");
    reveal_strlit("red_armor_warning_threshold");
    reveal_strlit("red_armor_critical_threshold");
    reveal_strlit("megahealth_hotkey");
    reveal_strlit("red_armor_hotkey");
    let k1 = "megahealth_warning_threshold"@;
    let k2 = "megahealth_critical_threshold"@;
    let k3 = "red_armor_warning_threshold"@;
    let k4 = "red_armor_critical_threshold"@;
    let k5 = "megahealth_hotkey"@;
    let k6 = "red_armor_hotkey"@;
    assert(k1.len() == 28 && k1[0] == 'm' && k1[27] == 'd');
    assert(k2.len() == 29 && k2[0] == 'm' && k2[28] == 'd');
    assert(k3.len() == 27 && k3[0] == 'r' && k3[26] == 'd');
    assert(k4.len() == 28 && k4[0] == 'r' && k4[27] == 'd');
    assert(k5.len() == 17 && k5[0] == 'm' && k5[16] == 'y');
    assert(k6.len() == 16 && k6[0] == 'r' && k6[15] == 'y');
    assert(forall|j: int| 0 <= j < 28 ==> #[trigger] k1[j] != '=' && k1[j] != '\n');
    assert(forall|j: int| 0 <= j < 29 ==> #[trigger] k2[j] != '=' && k2[j] != '\n');
    assert(forall|j: int| 0 <= j < 27 ==> #[trigger] k3[j] != '=' && k3[j] != '\n');
    assert(forall|j: int| 0 <= j < 28 ==> #[trigger] k4[j] != '=' && k4[j] != '\n');
    assert(forall|j: int| 0 <= j < 17 ==> #[trigger] k5[j] != '=' && k5[j] != '\n');
    assert(forall|j: int| 0 <= j < 16 ==> #[trigger] k6[j] != '=' && k6[j] != '\n');
    assert(k4 != k1);
    let n1 = c.megahealth_warning_threshold;
    let n2 = c.megahealth_critical_threshold;
    let n3 = c.red_armor_warning_threshold;
    let n4 = c.red_armor_critical_threshold;
    let s5 = c.megahealth_hotkey;
    let s6 = c.red_armor_hotkey;
    let v1 = dec_seq(n1 as nat);
    let v2 = dec_seq(n2 as nat);
    let v3 = dec_seq(n3 as nat);
    let v4 = dec_seq(n4 as nat);
    let v5 = seq!['"'] + escape_text(s5) + seq!['"'];
    let v6 = seq!['"'] + escape_text(s6) + seq!['"'];
    lemma_int_value(n1);
    lemma_int_value(n2);
    lemma_int_value(n3);
    lemma_int_value(n4);
    lemma_text_value(s5);
    lemma_text_value(s6);
    lemma_classify_keyed(k1, v1);
    lemma_classify_keyed(k2, v2);
    lemma_classify_keyed(k3, v3);
    lemma_classify_keyed(k4, v4);
    lemma_classify_keyed(k5, v5);
    lemma_classify_keyed(k6, v6);
    let l1 = int_line(k1, n1);
    let l2 = int_line(k2, n2);
    let l3 = int_line(k3, n3);
    let l4 = int_line(k4, n4);
    let l5 = text_line(k5, s5);
    let l6 = text_line(k6, s6);
    assert(l5 == k5 + seq![' ', '=', ' '] + v5) by {
        assert(k5 + seq![' ', '=', ' ', '"'] + escape_text(s5) + seq!['"'] =~= k5 + seq![
            ' ',
            '=',
            ' ',
        ] + v5);
    }
    assert(l6 == k6 + seq![' ', '=', ' '] + v6) by {
        assert(k6 + seq![' ', '=', ' ', '"'] + escape_text(s6) + seq!['"'] =~= k6 + seq![
            ' ',
            '=',
            ' ',
        ] + v6);
    }
    // every line stays one line
    assert(no_newline(seq![' ', '=', ' ']));
    lemma_no_newline_concat(k1, seq![' ', '=', ' ']);
    lemma_no_newline_concat(k1 + seq![' ', '=', ' '], v1);
    lemma_no_newline_concat(k2, seq![' ', '=', ' ']);
    lemma_no_newline_concat(k2 + seq![' ', '=', ' '], v2);
    lemma_no_newline_concat(k3, seq![' ', '=', ' ']);
    lemma_no_newline_concat(k3 + seq![' ', '=', ' '], v3);
    lemma_no_newline_concat(k4, seq![' ', '=', ' ']);
    lemma_no_newline_concat(k4 + seq![' ', '=', ' '], v4);
    lemma_no_newline_concat(k5, seq![' ', '=', ' ']);
    lemma_no_newline_concat(k5 + seq![' ', '=', ' '], v5);
    lemma_no_newline_concat(k6, seq![' ', '=', ' ']);
    lemma_no_newline_concat(k6 + seq![' ', '=', ' '], v6);
    let ls = config_lines(c);
    assert(ls.len() == 6);
    assert(ls[0] == l1 && ls[1] == l2 && ls[2] == l3 && ls[3] == l4 && ls[4] == l5 && ls[5] == l6);
    assert forall|k: int| 0 <= k < ls.len() implies no_newline(#[trigger] ls[k]) by {
        if k == 0 {
            assert(ls[k] == l1);
        } else if k == 1 {
            assert(ls[k] == l2);
        } else if k == 2 {
            assert(ls[k] == l3);
        } else if k == 3 {
            assert(ls[k] == l4);
        } else if k == 4 {
            assert(ls[k] == l5);
        } else {
            assert(ls[k] == l6);
        }
    }
    lemma_split_join(ls);
    let lines = ls + seq![Seq::<char>::empty()];
    assert(split_lines(spec_serialize_config(c)) == lines);
    // the fold over the seven lines
    let p0 = empty_partial();
    let p1 = PartialConfigV { megahealth_warning_threshold: Some(n1), ..p0 };
    let p2 = PartialConfigV { megahealth_critical_threshold: Some(n2), ..p1 };
    let p3 = PartialConfigV { red_armor_warning_threshold: Some(n3), ..p2 };
    let p4 = PartialConfigV { red_armor_critical_threshold: Some(n4), ..p3 };
    let p5 = PartialConfigV { megahealth_hotkey: Some(s5), ..p4 };
    let p6 = PartialConfigV { red_armor_hotkey: Some(s6), ..p5 };
    let r1 = lines.drop_first();
    let r2 = r1.drop_first();
    let r3 = r2.drop_first();
    let r4 = r3.drop_first();
    let r5 = r4.drop_first();
    let r6 = r5.drop_first();
    let r7 = r6.drop_first();
    assert(lines[0] == l1 && r1[0] == l2 && r2[0] == l3 && r3[0] == l4 && r4[0] == l5 && r5[0]
        == l6 && r6[0] == Seq::<char>::empty());
    assert(r7.len() == 0);
    assert(apply_line(p0, l1) == Some(p1));
    assert(apply_lines(p0, lines) == apply_lines(p1, r1));
    assert(apply_line(p1, l2) == Some(p2));
    assert(apply_lines(p1, r1) == apply_lines(p2, r2));
    assert(apply_line(p2, l3) == Some(p3));
    assert(apply_lines(p2, r2) == apply_lines(p3, r3));
    assert(apply_line(p3, l4) == Some(p4));
    assert(apply_lines(p3, r3) == apply_lines(p4, r4));
    assert(apply_line(p4, l5) == Some(p5));
    assert(apply_lines(p4, r4) == apply_lines(p5, r5));
    assert(apply_line(p5, l6) == Some(p6));
    assert(apply_lines(p5, r5) == apply_lines(p6, r6));
    // the trailing empty line contributes nothing
    assert(leading_spaces(Seq::<char>::empty()) == 0);
    assert(Seq::<char>::empty().skip(0) =~= Seq::<char>::empty());
    assert(trim_start(Seq::<char>::empty()) == Seq::<char>::empty());
    assert(trimmed_end_len(Seq::<char>::empty()) == 0);
    assert(Seq::<char>::empty().take(0) =~= Seq::<char>::empty());
    assert(trim(Seq::<char>::empty()) == Seq::<char>::empty());
    assert(classify_line(Seq::<char>::empty()) == LineShape::Blank);
    assert(apply_line(p6, Seq::<char>::empty()) == Some(p6));
    assert(apply_lines(p6, r6) == apply_lines(p6, r7));
    assert(apply_lines(p6, r7) == Some(p6));
    assert(apply_lines(p0, lines) == Some(p6));
    assert(spec_parse_config(spec_serialize_config(c)) == Some(
        ConfigV {
            megahealth_warning_threshold: n1,
            megahealth_critical_threshold: n2,
            red_armor_warning_threshold: n3,
            red_armor_critical_threshold: n4,
            megahealth_hotkey: s5,
            red_armor_hotkey: s6,
        },
    ));
    assert(ConfigV {
        megahealth_warning_threshold: n1,
        megahealth_critical_threshold: n2,
        red_armor_warning_threshold: n3,
        red_armor_critical_threshold: n4,
        megahealth_hotkey: s5,
        red_armor_hotkey: s6,
    } == c);
}

} // verus!
