//! Character-level ground work for the codec: the escaping convention, the
//! unescaped-delimiter scan, line splitting, and decimal rendering/parsing.
//!
//! The escaping convention is fixed to "escape the delimiter": every literal
//! comma gets a backslash in front of it, and nothing else is escaped.

use vstd::prelude::*;
use vstd::string::*;

verus! {

// ---------------------------------------------------------------------------
// Escaping
// ---------------------------------------------------------------------------

/// How a single character is rendered by the escaper.
pub open spec fn spec_escape_char(c: char) -> Seq<char> {
    if c == ',' {
        seq!['\\', ',']
    } else {
        seq![c]
    }
}

/// Every comma prefixed with a backslash; all other characters kept.
pub open spec fn spec_escape(s: Seq<char>) -> Seq<char>
    decreases s.len(),
{
    if s.len() == 0 {
        Seq::<char>::empty()
    } else {
        spec_escape_char(s[0]) + spec_escape(s.skip(1))
    }
}

/// The left-to-right inverse of [`spec_escape`]: each backslash-comma pair
/// collapses to a comma.
pub open spec fn spec_unescape(s: Seq<char>) -> Seq<char>
    decreases s.len(),
{
    if s.len() == 0 {
        Seq::<char>::empty()
    } else if s.len() >= 2 && s[0] == '\\' && s[1] == ',' {
        seq![','] + spec_unescape(s.skip(2))
    } else {
        seq![s[0]] + spec_unescape(s.skip(1))
    }
}

// ---------------------------------------------------------------------------
// Scanning
// ---------------------------------------------------------------------------

/// Position `k` of `s` holds `ch` and is not preceded by a backslash.
pub open spec fn spec_unescaped_at(s: Seq<char>, ch: char, k: int) -> bool {
    0 <= k < s.len() && s[k] == ch && (k == 0 || s[k - 1] != '\\')
}

/// The first position at or after `i` where `ch` occurs unescaped.
pub open spec fn spec_find_unescaped(s: Seq<char>, ch: char, i: int) -> Option<int>
    decreases s.len() - i,
{
    if i < 0 || i >= s.len() {
        None
    } else if s[i] == ch && (i == 0 || s[i - 1] != '\\') {
        Some(i)
    } else {
        spec_find_unescaped(s, ch, i + 1)
    }
}

/// The first position at or after `i` where `ch` occurs.
pub open spec fn spec_find_char(s: Seq<char>, ch: char, i: int) -> Option<int>
    decreases s.len() - i,
{
    if i < 0 || i >= s.len() {
        None
    } else if s[i] == ch {
        Some(i)
    } else {
        spec_find_char(s, ch, i + 1)
    }
}

/// `s` split on newlines.  The result always has one more element than the
/// number of newlines; an input without newlines yields itself as the one
/// line.
pub open spec fn spec_lines(s: Seq<char>) -> Seq<Seq<char>>
    decreases s.len(),
{
    match spec_find_char(s, '\n', 0) {
        None => seq![s],
        Some(i) => {
            proof {
                lemma_find_char_props(s, '\n', 0);
            }
            seq![s.subrange(0, i)] + spec_lines(s.skip(i + 1))
        },
    }
}

// ---------------------------------------------------------------------------
// Decimal digits
// ---------------------------------------------------------------------------

/// The digit character for `d` (meaningful for `0 <= d <= 9`).
pub open spec fn spec_digit_char(d: int) -> char {
    if d == 0 {
        '0'
    } else if d == 1 {
        '1'
    } else if d == 2 {
        '2'
    } else if d == 3 {
        '3'
    } else if d == 4 {
        '4'
    } else if d == 5 {
        '5'
    } else if d == 6 {
        '6'
    } else if d == 7 {
        '7'
    } else if d == 8 {
        '8'
    } else {
        '9'
    }
}

/// The value of a digit character, or `-1` for any other character.
pub open spec fn spec_char_digit(c: char) -> int {
    if c == '0' {
        0
    } else if c == '1' {
        1
    } else if c == '2' {
        2
    } else if c == '3' {
        3
    } else if c == '4' {
        4
    } else if c == '5' {
        5
    } else if c == '6' {
        6
    } else if c == '7' {
        7
    } else if c == '8' {
        8
    } else if c == '9' {
        9
    } else {
        -1
    }
}

pub open spec fn spec_is_digit(c: char) -> bool {
    spec_char_digit(c) >= 0
}

/// The decimal rendering of a non-negative integer, most significant digit
/// first ("0" for zero).
pub open spec fn spec_nat_chars(n: int) -> Seq<char>
    decreases n,
{
    if n < 10 {
        seq![spec_digit_char(n)]
    } else {
        spec_nat_chars(n / 10) + seq![spec_digit_char(n % 10)]
    }
}

/// The decimal rendering of a 32-bit integer, with a minus sign when
/// negative.
pub open spec fn spec_i32_chars(i: int) -> Seq<char> {
    if i < 0 {
        seq!['-'] + spec_nat_chars(-i)
    } else {
        spec_nat_chars(i)
    }
}

/// The value of a non-empty all-digit string, `None` otherwise.  The value is
/// unbounded; range checks are the caller's.
pub open spec fn spec_parse_nat(s: Seq<char>) -> Option<int>
    decreases s.len(),
{
    if s.len() == 0 {
        None
    } else if s.len() == 1 {
        if spec_is_digit(s[0]) {
            Some(spec_char_digit(s[0]))
        } else {
            None
        }
    } else {
        match spec_parse_nat(s.drop_last()) {
            Some(v) => if spec_is_digit(s.last()) {
                Some(v * 10 + spec_char_digit(s.last()))
            } else {
                None
            },
            None => None,
        }
    }
}

/// The 32-bit integer denoted by `s`: an optional minus sign followed by at
/// least one digit, rejecting values outside the `i32` range.
pub open spec fn spec_parse_i32(s: Seq<char>) -> Option<i32> {
    if s.len() > 0 && s[0] == '-' {
        match spec_parse_nat(s.skip(1)) {
            Some(v) => if -v >= i32::MIN {
                Some((-v) as i32)
            } else {
                None
            },
            None => None,
        }
    } else {
        match spec_parse_nat(s) {
            Some(v) => if v <= i32::MAX {
                Some(v as i32)
            } else {
                None
            },
            None => None,
        }
    }
}

// ---------------------------------------------------------------------------
// Lemmas: scanning
// ---------------------------------------------------------------------------

/// What a successful or failed unescaped-scan means, position by position.
pub proof fn lemma_find_unescaped_props(s: Seq<char>, ch: char, i: int)
    requires
        0 <= i <= s.len(),
    ensures
        match spec_find_unescaped(s, ch, i) {
            Some(j) => i <= j < s.len() && spec_unescaped_at(s, ch, j) && (forall|k: int|
                i <= k < j ==> !spec_unescaped_at(s, ch, k)),
            None => forall|k: int| i <= k < s.len() ==> !spec_unescaped_at(s, ch, k),
        },
    decreases s.len() - i,
{
    if i < s.len() {
        if !(s[i] == ch && (i == 0 || s[i - 1] != '\\')) {
            lemma_find_unescaped_props(s, ch, i + 1);
        }
    }
}

/// The scan finds exactly the first unescaped occurrence.
pub proof fn lemma_find_unescaped_hit(s: Seq<char>, ch: char, i: int, j: int)
    requires
        0 <= i <= j,
        spec_unescaped_at(s, ch, j),
        forall|k: int| i <= k < j ==> !spec_unescaped_at(s, ch, k),
    ensures
        spec_find_unescaped(s, ch, i) == Some(j),
    decreases j - i,
{
    if i < j {
        assert(!spec_unescaped_at(s, ch, i));
        lemma_find_unescaped_hit(s, ch, i + 1, j);
    }
}

/// A scan over a string without any unescaped occurrence fails.
pub proof fn lemma_find_unescaped_none(s: Seq<char>, ch: char, i: int)
    requires
        0 <= i,
        forall|k: int| !spec_unescaped_at(s, ch, k),
    ensures
        spec_find_unescaped(s, ch, i) == None::<int>,
    decreases s.len() - i,
{
    if i < s.len() {
        assert(!spec_unescaped_at(s, ch, i));
        lemma_find_unescaped_none(s, ch, i + 1);
    }
}

/// What a character scan means, position by position.
pub proof fn lemma_find_char_props(s: Seq<char>, ch: char, i: int)
    requires
        0 <= i <= s.len(),
    ensures
        match spec_find_char(s, ch, i) {
            Some(j) => i <= j < s.len() && s[j] == ch && (forall|k: int| i <= k < j ==> s[k] != ch),
            None => forall|k: int| i <= k < s.len() ==> s[k] != ch,
        },
    decreases s.len() - i,
{
    if i < s.len() {
        if s[i] != ch {
            lemma_find_char_props(s, ch, i + 1);
        }
    }
}

/// The character scan finds exactly the first occurrence.
pub proof fn lemma_find_char_hit(s: Seq<char>, ch: char, i: int, j: int)
    requires
        0 <= i <= j < s.len(),
        s[j] == ch,
        forall|k: int| i <= k < j ==> s[k] != ch,
    ensures
        spec_find_char(s, ch, i) == Some(j),
    decreases j - i,
{
    if i < j {
        lemma_find_char_hit(s, ch, i + 1, j);
    }
}

// ---------------------------------------------------------------------------
// Lemmas: escaping
// ---------------------------------------------------------------------------

/// Escaping a concatenation escapes the pieces.
pub proof fn lemma_escape_app(a: Seq<char>, b: Seq<char>)
    ensures
        spec_escape(a + b) == spec_escape(a) + spec_escape(b),
    decreases a.len(),
{
    if a.len() == 0 {
        assert(a + b =~= b);
        assert(spec_escape(a) + spec_escape(b) =~= spec_escape(b));
    } else {
        lemma_escape_app(a.skip(1), b);
        assert((a + b).skip(1) =~= a.skip(1) + b);
        assert(spec_escape_char(a[0]) + (spec_escape(a.skip(1)) + spec_escape(b)) =~= (
        spec_escape_char(a[0]) + spec_escape(a.skip(1))) + spec_escape(b));
    }
}

/// In escaped text no comma stands first and every comma has a backslash
/// right before it; escaping never shrinks the text.
pub proof fn lemma_escape_comma_guard(s: Seq<char>)
    ensures
        spec_escape(s).len() >= s.len(),
        s.len() > 0 ==> spec_escape(s).len() > 0 && spec_escape(s)[0] != ',' && spec_escape(s)[0]
            == (if s[0] == ',' {
            '\\'
        } else {
            s[0]
        }),
        forall|k: int|
            0 < k < spec_escape(s).len() && #[trigger] spec_escape(s)[k] == ',' ==> spec_escape(
                s,
            )[k - 1] == '\\',
    decreases s.len(),
{
    if s.len() > 0 {
        lemma_escape_comma_guard(s.skip(1));
        let pre = spec_escape_char(s[0]);
        let tail = spec_escape(s.skip(1));
        let e = spec_escape(s);
        assert(e == pre + tail);
        assert forall|k: int| 0 < k < e.len() && #[trigger] e[k] == ',' implies e[k - 1] == '\\' by {
            if k >= pre.len() {
                let j = k - pre.len();
                assert(tail[j] == ',');
                if j == 0 {
                    assert(s.skip(1).len() > 0);
                    assert(false);
                } else {
                    assert(tail[j - 1] == '\\');
                }
            }
        }
    }
}

/// A character other than the comma and the backslash that does not occur in
/// the text does not occur in its escaped form either.
pub proof fn lemma_escape_absent(s: Seq<char>, c: char)
    requires
        c != ',',
        c != '\\',
        forall|i: int| 0 <= i < s.len() ==> s[i] != c,
    ensures
        forall|i: int| 0 <= i < spec_escape(s).len() ==> spec_escape(s)[i] != c,
    decreases s.len(),
{
    if s.len() > 0 {
        assert(s[0] != c);
        assert(forall|i: int| 0 <= i < s.skip(1).len() ==> s.skip(1)[i] != c);
        lemma_escape_absent(s.skip(1), c);
        let pre = spec_escape_char(s[0]);
        let tail = spec_escape(s.skip(1));
        let e = spec_escape(s);
        assert(e == pre + tail);
        assert forall|i: int| 0 <= i < e.len() implies e[i] != c by {
            if i >= pre.len() {
                assert(e[i] == tail[i - pre.len()]);
            }
        }
    }
}

/// The last character of escaped text: a comma (when the text ends with one)
/// or the text's own last character.
pub proof fn lemma_escape_last(s: Seq<char>)
    requires
        s.len() > 0,
    ensures
        spec_escape(s).len() > 0,
        spec_escape(s).last() == ',' || spec_escape(s).last() == s.last(),
    decreases s.len(),
{
    lemma_escape_comma_guard(s);
    if s.len() == 1 {
        assert(s.skip(1) =~= Seq::<char>::empty());
        assert(spec_escape(Seq::<char>::empty()) == Seq::<char>::empty());
        assert(spec_escape(s) =~= spec_escape_char(s[0]));
    } else {
        lemma_escape_last(s.skip(1));
        let pre = spec_escape_char(s[0]);
        let tail = spec_escape(s.skip(1));
        assert(spec_escape(s) == pre + tail);
        assert(spec_escape(s).last() == tail.last());
        assert(s.skip(1).last() == s.last());
    }
}

/// Unescaping inverts escaping on every text.
pub proof fn lemma_unescape_escape(s: Seq<char>)
    ensures
        spec_unescape(spec_escape(s)) == s,
    decreases s.len(),
{
    if s.len() > 0 {
        let rest = s.skip(1);
        lemma_unescape_escape(rest);
        let e = spec_escape(s);
        if s[0] == ',' {
            assert(e == seq!['\\', ','] + spec_escape(rest));
            assert(e.skip(2) =~= spec_escape(rest));
            assert(seq![','] + rest =~= s);
        } else {
            lemma_escape_comma_guard(rest);
            assert(e == seq![s[0]] + spec_escape(rest));
            assert(e.skip(1) =~= spec_escape(rest));
            if e.len() >= 2 && e[0] == '\\' && e[1] == ',' {
                assert(spec_escape(rest)[0] == ',');
                assert(false);
            }
            assert(seq![s[0]] + rest =~= s);
        }
    }
}

// ---------------------------------------------------------------------------
// Lemmas: decimal digits
// ---------------------------------------------------------------------------

/// The decimal rendering of a non-negative integer is a non-empty string of
/// digits.
pub proof fn lemma_nat_chars_digits(n: int)
    requires
        n >= 0,
    ensures
        spec_nat_chars(n).len() >= 1,
        forall|i: int|
            0 <= i < spec_nat_chars(n).len() ==> spec_is_digit(#[trigger] spec_nat_chars(n)[i]),
    decreases n,
{
    if n < 10 {
    } else {
        lemma_nat_chars_digits(n / 10);
        let a = spec_nat_chars(n / 10);
        let e = spec_nat_chars(n);
        assert(e == a + seq![spec_digit_char(n % 10)]);
        assert forall|i: int| 0 <= i < e.len() implies spec_is_digit(e[i]) by {
            if i < a.len() {
                assert(e[i] == a[i]);
            } else {
                assert(e[i] == spec_digit_char(n % 10));
            }
        }
    }
}

/// Parsing inverts decimal rendering for non-negative integers.
pub proof fn lemma_parse_nat_chars(n: int)
    requires
        n >= 0,
    ensures
        spec_parse_nat(spec_nat_chars(n)) == Some(n),
    decreases n,
{
    if n < 10 {
    } else {
        lemma_parse_nat_chars(n / 10);
        lemma_nat_chars_digits(n / 10);
        let a = spec_nat_chars(n / 10);
        let s = spec_nat_chars(n);
        assert(s == a + seq![spec_digit_char(n % 10)]);
        assert(s.drop_last() =~= a);
        assert(s.last() == spec_digit_char(n % 10));
        assert(s.len() >= 2);
        assert(spec_parse_nat(s) == Some((n / 10) * 10 + (n % 10)));
        assert((n / 10) * 10 + (n % 10) == n) by (nonlinear_arith);
    }
}

/// Parsing inverts decimal rendering for every 32-bit integer.
pub proof fn lemma_parse_i32_chars(v: int)
    requires
        i32::MIN <= v <= i32::MAX,
    ensures
        spec_parse_i32(spec_i32_chars(v)) == Some(v as i32),
{
    if v < 0 {
        lemma_parse_nat_chars(-v);
        lemma_nat_chars_digits(-v);
        let s = spec_i32_chars(v);
        assert(s == seq!['-'] + spec_nat_chars(-v));
        assert(s[0] == '-');
        assert(s.skip(1) =~= spec_nat_chars(-v));
    } else {
        lemma_parse_nat_chars(v);
        lemma_nat_chars_digits(v);
        let s = spec_i32_chars(v);
        assert(spec_is_digit(s[0]));
        assert(s[0] != '-');
    }
}

/// Digits and the minus sign: the characters a rendered integer can hold are
/// never a newline, a quote, a comma or a backslash.
pub proof fn lemma_i32_chars_plain(v: int)
    ensures
        forall|i: int|
            0 <= i < spec_i32_chars(v).len() ==> #[trigger] spec_i32_chars(v)[i] != '\n'
                && spec_i32_chars(v)[i] != '"' && spec_i32_chars(v)[i] != ','
                && spec_i32_chars(v)[i] != '\\',
{
    let s = spec_i32_chars(v);
    if v < 0 {
        lemma_nat_chars_digits(-v);
        assert(s == seq!['-'] + spec_nat_chars(-v));
        assert forall|i: int|
            0 <= i < s.len() implies #[trigger] s[i] != '\n' && s[i] != '"' && s[i] != ',' && s[i]
            != '\\' by {
            if i > 0 {
                assert(s[i] == spec_nat_chars(-v)[i - 1]);
                assert(spec_is_digit(s[i]));
            }
        }
    } else {
        lemma_nat_chars_digits(v);
        assert forall|i: int|
            0 <= i < s.len() implies #[trigger] s[i] != '\n' && s[i] != '"' && s[i] != ',' && s[i]
            != '\\' by {
            assert(spec_is_digit(s[i]));
        }
    }
}

/// A scan over a string without the character fails.
pub proof fn lemma_find_char_none(s: Seq<char>, ch: char, i: int)
    requires
        0 <= i,
        forall|k: int| 0 <= k < s.len() ==> s[k] != ch,
    ensures
        spec_find_char(s, ch, i) == None::<int>,
    decreases s.len() - i,
{
    if i < s.len() {
        lemma_find_char_none(s, ch, i + 1);
    }
}

// ---------------------------------------------------------------------------
// Executable helpers
// ---------------------------------------------------------------------------

/// Relies on `String::push`: appends the given character to the end of the
/// string.
#[verifier::external_body]
pub(crate) fn push_char(s: &mut String, c: char)
    ensures
        final(s)@ == old(s)@.push(c),
{
    s.push(c);
}

/// The characters of a string slice, in order.
pub(crate) fn chars_of(s: &str) -> (r: Vec<char>)
    ensures
        r@ == s@,
{
    let n = s.unicode_len();
    let mut r: Vec<char> = Vec::new();
    let mut i: usize = 0;
    while i < n
        invariant
            i <= n,
            n == s@.len(),
            r@ == s@.subrange(0, i as int),
        decreases n - i,
    {
        let c = s.get_char(i);
        r.push(c);
        proof {
            assert(s@.subrange(0, i + 1 as int) =~= s@.subrange(0, i as int).push(s@[i as int]));
        }
        i = i + 1;
    }
    proof {
        assert(r@ =~= s@);
    }
    r
}

/// A string holding exactly the given characters.
pub(crate) fn string_of(v: &Vec<char>) -> (r: String)
    ensures
        r@ == v@,
{
    let mut r = String::new();
    let mut i: usize = 0;
    while i < v.len()
        invariant
            i <= v@.len(),
            r@ == v@.subrange(0, i as int),
        decreases v@.len() - i,
    {
        push_char(&mut r, v[i]);
        proof {
            assert(v@.subrange(0, i + 1 as int) =~= v@.subrange(0, i as int).push(v@[i as int]));
        }
        i = i + 1;
    }
    proof {
        assert(r@ =~= v@);
    }
    r
}

/// The characters of `s` from `a` (inclusive) to `b` (exclusive).
pub(crate) fn vec_range(s: &Vec<char>, a: usize, b: usize) -> (r: Vec<char>)
    requires
        a <= b <= s@.len(),
    ensures
        r@ == s@.subrange(a as int, b as int),
{
    let mut r: Vec<char> = Vec::new();
    let mut i: usize = a;
    while i < b
        invariant
            a <= i <= b <= s@.len(),
            r@ == s@.subrange(a as int, i as int),
        decreases b - i,
    {
        r.push(s[i]);
        proof {
            assert(s@.subrange(a as int, i + 1 as int) =~= s@.subrange(a as int, i as int).push(
                s@[i as int],
            ));
        }
        i = i + 1;
    }
    r
}

/// The characters of `s` from `n` on.
pub(crate) fn skip_n(s: &Vec<char>, n: usize) -> (r: Vec<char>)
    requires
        n <= s@.len(),
    ensures
        r@ == s@.skip(n as int),
{
    let r = vec_range(s, n, s.len());
    proof {
        assert(s@.subrange(n as int, s@.len() as int) =~= s@.skip(n as int));
    }
    r
}

/// The first unescaped occurrence of `ch` in `s` at or after `from`.
pub(crate) fn find_unescaped(s: &Vec<char>, ch: char, from: usize) -> (r: Option<usize>)
    requires
        from <= s@.len(),
    ensures
        match (r, spec_find_unescaped(s@, ch, from as int)) {
            (Some(j), Some(k)) => j == k && from <= j < s@.len(),
            (None, None) => true,
            _ => false,
        },
{
    let mut i: usize = from;
    while i < s.len()
        invariant
            from <= i <= s@.len(),
            spec_find_unescaped(s@, ch, from as int) == spec_find_unescaped(s@, ch, i as int),
        decreases s@.len() - i,
    {
        if s[i] == ch && (i == 0 || s[i - 1] != '\\') {
            return Some(i);
        }
        i = i + 1;
    }
    None
}

/// The first occurrence of `ch` in `s` at or after `from`.
pub(crate) fn find_char(s: &Vec<char>, ch: char, from: usize) -> (r: Option<usize>)
    requires
        from <= s@.len(),
    ensures
        match (r, spec_find_char(s@, ch, from as int)) {
            (Some(j), Some(k)) => j == k && from <= j < s@.len(),
            (None, None) => true,
            _ => false,
        },
{
    let mut i: usize = from;
    while i < s.len()
        invariant
            from <= i <= s@.len(),
            spec_find_char(s@, ch, from as int) == spec_find_char(s@, ch, i as int),
        decreases s@.len() - i,
    {
        if s[i] == ch {
            return Some(i);
        }
        i = i + 1;
    }
    None
}

/// `s` split on newlines, as [`spec_lines`] describes.
pub(crate) fn split_lines(s: &Vec<char>) -> (r: Vec<Vec<char>>)
    ensures
        r@.map_values(|l: Vec<char>| l@) == spec_lines(s@),
{
    let mut r: Vec<Vec<char>> = Vec::new();
    let mut pos: usize = 0;
    proof {
        assert(s@.skip(0) =~= s@);
        assert(r@.map_values(|l: Vec<char>| l@) + spec_lines(s@) =~= spec_lines(s@));
    }
    loop
        invariant_except_break
            pos <= s@.len(),
            spec_lines(s@) == r@.map_values(|l: Vec<char>| l@) + spec_lines(s@.skip(pos as int)),
        ensures
            r@.map_values(|l: Vec<char>| l@) == spec_lines(s@),
        decreases s@.len() - pos,
    {
        let next = find_char(s, '\n', pos);
        proof {
            lemma_lines_step(s@, pos as int);
        }
        match next {
            None => {
                let line = vec_range(s, pos, s.len());
                r.push(line);
                proof {
                    assert(s@.subrange(pos as int, s@.len() as int) =~= s@.skip(pos as int));
                    assert(r@.map_values(|l: Vec<char>| l@) =~= r@.drop_last().map_values(
                        |l: Vec<char>| l@,
                    ).push(s@.skip(pos as int)));
                    assert(r@.map_values(|l: Vec<char>| l@) =~= spec_lines(s@));
                }
                break ;
            },
            Some(j) => {
                assert(j < s.len());
                let line = vec_range(s, pos, j);
                r.push(line);
                proof {
                    assert(r@.map_values(|l: Vec<char>| l@) =~= r@.drop_last().map_values(
                        |l: Vec<char>| l@,
                    ).push(s@.subrange(pos as int, j as int)));
                }
                pos = j + 1;
            },
        }
    }
    r
}

/// One step of [`spec_lines`] on a suffix: the next newline ends the next
/// line.
proof fn lemma_lines_step(s: Seq<char>, pos: int)
    requires
        0 <= pos <= s.len(),
    ensures
        match spec_find_char(s, '\n', pos) {
            None => spec_lines(s.skip(pos)) == seq![s.skip(pos)],
            Some(j) => spec_lines(s.skip(pos)) == seq![s.subrange(pos, j)] + spec_lines(
                s.skip(j + 1),
            ),
        },
{
    let suf = s.skip(pos);
    lemma_find_char_props(s, '\n', pos);
    match spec_find_char(s, '\n', pos) {
        None => {
            assert(forall|k: int| 0 <= k < suf.len() ==> #[trigger] suf[k] != '\n') by {
                assert(forall|k: int|
                    0 <= k < suf.len() ==> #[trigger] suf[k] == s[pos + k] && s[pos + k] != '\n');
            }
            lemma_find_char_none(suf, '\n', 0);
        },
        Some(j) => {
            assert(suf[j - pos] == '\n');
            assert(forall|k: int| 0 <= k < j - pos ==> #[trigger] suf[k] != '\n') by {
                assert(forall|k: int|
                    0 <= k < j - pos ==> #[trigger] suf[k] == s[pos + k] && s[pos + k] != '\n');
            }
            lemma_find_char_hit(suf, '\n', 0, j - pos);
            assert(spec_lines(suf) == seq![suf.subrange(0, j - pos)] + spec_lines(
                suf.skip(j - pos + 1),
            ));
            assert(suf.subrange(0, j - pos) =~= s.subrange(pos, j));
            assert(suf.skip(j - pos + 1) =~= s.skip(j + 1));
        },
    }
}

/// A split has at least one line.
pub proof fn lemma_lines_len(s: Seq<char>)
    ensures
        spec_lines(s).len() >= 1,
{
}

/// The unescaped form of `s`.
pub(crate) fn unescape_chars(s: &Vec<char>) -> (r: Vec<char>)
    ensures
        r@ == spec_unescape(s@),
{
    let mut r: Vec<char> = Vec::new();
    let mut i: usize = 0;
    proof {
        assert(s@.skip(0) =~= s@);
        assert(r@ + spec_unescape(s@) =~= spec_unescape(s@));
    }
    while i < s.len()
        invariant
            i <= s@.len(),
            spec_unescape(s@) == r@ + spec_unescape(s@.skip(i as int)),
        decreases s@.len() - i,
    {
        let suf = Ghost(s@.skip(i as int));
        if s[i] == '\\' && i + 1 < s.len() && s[i + 1] == ',' {
            r.push(',');
            proof {
                assert(suf@[0] == '\\' && suf@[1] == ',');
                assert(suf@.skip(2) =~= s@.skip(i + 2 as int));
                assert(r@ + spec_unescape(s@.skip(i + 2 as int)) =~= r@.drop_last() + (seq![
                    ',',
                ] + spec_unescape(suf@.skip(2))));
            }
            i = i + 2;
        } else {
            r.push(s[i]);
            proof {
                assert(suf@[0] == s@[i as int]);
                if suf@.len() >= 2 && suf@[0] == '\\' && suf@[1] == ',' {
                    assert(s@[i + 1 as int] == ',');
                    assert(false);
                }
                assert(suf@.skip(1) =~= s@.skip(i + 1 as int));
                assert(r@ + spec_unescape(s@.skip(i + 1 as int)) =~= r@.drop_last() + (seq![
                    s@[i as int],
                ] + spec_unescape(suf@.skip(1))));
            }
            i = i + 1;
        }
    }
    proof {
        assert(s@.skip(s@.len() as int) =~= Seq::<char>::empty());
        assert(r@ =~= spec_unescape(s@));
    }
    r
}

/// Appends the escaped form of `s` to `out`.
pub(crate) fn append_escaped(out: &mut String, s: &str)
    ensures
        final(out)@ == old(out)@ + spec_escape(s@),
{
    let n = s.unicode_len();
    let mut i: usize = 0;
    while i < n
        invariant
            i <= n,
            n == s@.len(),
            out@ == old(out)@ + spec_escape(s@.subrange(0, i as int)),
        decreases n - i,
    {
        let c = s.get_char(i);
        if c == ',' {
            push_char(out, '\\');
            push_char(out, ',');
        } else {
            push_char(out, c);
        }
        proof {
            let pre = s@.subrange(0, i as int);
            assert(s@.subrange(0, i + 1 as int) =~= pre + seq![s@[i as int]]);
            lemma_escape_app(pre, seq![s@[i as int]]);
            assert(seq![s@[i as int]].skip(1) =~= Seq::<char>::empty());
            assert(spec_escape(Seq::<char>::empty()) == Seq::<char>::empty());
            assert(spec_escape(seq![s@[i as int]]) =~= spec_escape_char(s@[i as int]));
            assert(out@ =~= old(out)@ + spec_escape(s@.subrange(0, i + 1 as int)));
        }
        i = i + 1;
    }
    proof {
        assert(s@.subrange(0, s@.len() as int) =~= s@);
    }
}

/// The digit character for `d`.
pub(crate) fn digit_char(d: u32) -> (c: char)
    requires
        d < 10,
    ensures
        c == spec_digit_char(d as int),
{
    if d == 0 {
        '0'
    } else if d == 1 {
        '1'
    } else if d == 2 {
        '2'
    } else if d == 3 {
        '3'
    } else if d == 4 {
        '4'
    } else if d == 5 {
        '5'
    } else if d == 6 {
        '6'
    } else if d == 7 {
        '7'
    } else if d == 8 {
        '8'
    } else {
        '9'
    }
}

/// Appends the decimal rendering of `n` to `out`.
pub(crate) fn push_nat_chars(out: &mut String, n: u32)
    ensures
        final(out)@ == old(out)@ + spec_nat_chars(n as int),
    decreases n,
{
    if n >= 10 {
        push_nat_chars(out, n / 10);
    }
    push_char(out, digit_char(n % 10));
    proof {
        if n >= 10 {
            assert(old(out)@ + spec_nat_chars(n as int) =~= (old(out)@ + spec_nat_chars(
                n as int / 10,
            )).push(spec_digit_char(n as int % 10)));
        } else {
            assert(old(out)@ + spec_nat_chars(n as int) =~= old(out)@.push(spec_digit_char(
                n as int,
            )));
        }
    }
}

/// Appends the decimal rendering of `i` to `out`, minus sign included.
pub(crate) fn push_i32_chars(out: &mut String, i: i32)
    ensures
        final(out)@ == old(out)@ + spec_i32_chars(i as int),
{
    if i < 0 {
        push_char(out, '-');
        let mag: u32 = (-(i as i64)) as u32;
        assert(mag as int == -(i as int));
        push_nat_chars(out, mag);
        proof {
            assert(old(out)@ + spec_i32_chars(i as int) =~= (old(out)@.push('-')) + spec_nat_chars(
                mag as int,
            ));
        }
    } else {
        push_nat_chars(out, i as u32);
    }
}

/// The 32-bit integer denoted by `s`, as [`spec_parse_i32`] describes.
pub(crate) fn parse_i32_chars(s: &Vec<char>) -> (r: Option<i32>)
    ensures
        r == spec_parse_i32(s@),
{
    let neg: bool = s.len() > 0 && s[0] == '-';
    let start: usize = if neg {
        1
    } else {
        0
    };
    let ghost digits = if neg {
        s@.skip(1)
    } else {
        s@
    };
    if s.len() == start {
        proof {
            assert(digits.len() == 0);
            assert(spec_parse_nat(digits) == None::<int>);
        }
        return None;
    }
    // Accumulate the magnitude; `over` records that the value has left the
    // 32-bit range for good.
    let mut acc: u64 = 0;
    let mut over: bool = false;
    let mut i: usize = start;
    while i < s.len()
        invariant
            start <= i <= s@.len(),
            start + digits.len() == s@.len(),
            neg == (s@.len() > 0 && s@[0] == '-'),
            neg ==> start == 1 && digits =~= s@.skip(1),
            !neg ==> start == 0 && digits =~= s@,
            i > start ==> {
                let p = spec_parse_nat(digits.subrange(0, i - start));
                p is Some && (if over {
                    p->0 > 0x8000_0000
                } else {
                    p->0 == acc as int && acc <= 0x8000_0000
                })
            },
            i == start ==> acc == 0 && !over,
        decreases s@.len() - i,
    {
        let c = s[i];
        let dv: u32 = if c == '0' {
            0
        } else if c == '1' {
            1
        } else if c == '2' {
            2
        } else if c == '3' {
            3
        } else if c == '4' {
            4
        } else if c == '5' {
            5
        } else if c == '6' {
            6
        } else if c == '7' {
            7
        } else if c == '8' {
            8
        } else if c == '9' {
            9
        } else {
            proof {
                assert(digits[i - start] == s@[i as int]);
                assert(!spec_is_digit(c));
                lemma_parse_nat_not_digit(digits, i - start);
                assert(spec_parse_nat(digits) == None::<int>);
            }
            return None;
        };
        proof {
            assert(digits[i - start] == c);
            assert(spec_char_digit(c) == dv as int);
            lemma_parse_nat_extend(digits, i - start);
        }
        if over {
            proof {
                let p0 = spec_parse_nat(digits.subrange(0, i - start));
                let p1 = spec_parse_nat(digits.subrange(0, i + 1 - start));
                assert(p1->0 == p0->0 * 10 + dv as int);
                assert(p0->0 * 10 >= p0->0) by (nonlinear_arith)
                    requires
                        p0->0 > 0,
                ;
            }
        } else {
            let next: u64 = acc * 10 + (dv as u64);
            if next > 0x8000_0000 {
                over = true;
            } else {
                acc = next;
            }
        }
        i = i + 1;
    }
    proof {
        assert(digits.subrange(0, digits.len() as int) =~= digits);
    }
    if over {
        return None;
    }
    if neg {
        if acc == 0x8000_0000 {
            Some(i32::MIN)
        } else {
            Some(-(acc as i32))
        }
    } else {
        if acc > 0x7FFF_FFFF {
            None
        } else {
            Some(acc as i32)
        }
    }
}

/// Extending an all-digit prefix by one digit multiplies its value by ten and
/// adds the digit.
proof fn lemma_parse_nat_extend(digits: Seq<char>, k: int)
    requires
        0 <= k < digits.len(),
        spec_is_digit(digits[k]),
    ensures
        k == 0 ==> spec_parse_nat(digits.subrange(0, 1)) == Some(spec_char_digit(digits[0])),
        k > 0 ==> spec_parse_nat(digits.subrange(0, k + 1)) == (match spec_parse_nat(
            digits.subrange(0, k),
        ) {
            Some(v) => Some(v * 10 + spec_char_digit(digits[k])),
            None => None::<int>,
        }),
{
    let cur = digits.subrange(0, k + 1);
    assert(cur.last() == digits[k]);
    if k == 0 {
        assert(cur.len() == 1);
    } else {
        assert(cur.drop_last() =~= digits.subrange(0, k));
    }
}

/// A non-digit anywhere makes the whole string unparsable.
proof fn lemma_parse_nat_not_digit(digits: Seq<char>, k: int)
    requires
        0 <= k < digits.len(),
        !spec_is_digit(digits[k]),
    ensures
        spec_parse_nat(digits) == None::<int>,
    decreases digits.len(),
{
    if digits.len() > 1 {
        if k == digits.len() - 1 {
            assert(digits.last() == digits[k]);
        } else {
            lemma_parse_nat_not_digit(digits.drop_last(), k);
        }
    }
}

} // verus!
