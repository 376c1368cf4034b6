//! Character-level helpers shared by the rest of the library: whitespace,
//! ASCII case, decimal numbers and joining lines.
use vstd::prelude::*;

verus! {

broadcast use vstd::string::group_string_axioms;

// ---------------------------------------------------------------------------
// Characters of a string
// ---------------------------------------------------------------------------

/// The characters of `s`, in order.
pub fn chars_of(s: &str) -> (v: Vec<char>)
    ensures
        v@ == s@,
{
    let mut v: Vec<char> = Vec::new();
    for c in it: s.chars()
        invariant
            v@ == it.seq().take(it.index()),
    {
        v.push(c);
    }
    v
}

/// `String::push`: appends one character.
#[verifier::external_body]
pub(crate) fn push_char(s: &mut String, c: char)
    ensures
        final(s)@ == old(s)@.push(c),
{
    s.push(c);
}

/// A new string holding `v[lo..hi]`.
pub fn string_from_chars(v: &Vec<char>, lo: usize, hi: usize) -> (r: String)
    requires
        lo <= hi <= v@.len(),
    ensures
        r@ == v@.subrange(lo as int, hi as int),
{
    let mut r = String::new();
    let mut i = lo;
    while i < hi
        invariant
            lo <= i <= hi <= v@.len(),
            r@ == v@.subrange(lo as int, i as int),
        decreases hi - i,
    {
        push_char(&mut r, v[i]);
        proof {
            assert(v@.subrange(lo as int, i + 1) =~= v@.subrange(lo as int, i as int).push(v@[i as int]));
        }
        i = i + 1;
    }
    r
}

/// Equality of two strings, character by character.
pub fn same_text(a: &str, b: &str) -> (r: bool)
    ensures
        r == (a@ == b@),
{
    let va = chars_of(a);
    let vb = chars_of(b);
    if va.len() != vb.len() {
        return false;
    }
    let mut i: usize = 0;
    while i < va.len()
        invariant
            va@ == a@,
            vb@ == b@,
            va@.len() == vb@.len(),
            i <= va@.len(),
            forall|j: int| 0 <= j < i ==> va@[j] == vb@[j],
        decreases va@.len() - i,
    {
        if va[i] != vb[i] {
            return false;
        }
        i = i + 1;
    }
    assert(va@ =~= vb@);
    true
}

// ---------------------------------------------------------------------------
// Whitespace
// ---------------------------------------------------------------------------

/// The Unicode `White_Space` property, which is what `char::is_whitespace`
/// tests: TAB..CR, SPACE, NEL, NBSP, OGHAM SPACE MARK, EN QUAD..HAIR SPACE,
/// LINE and PARAGRAPH SEPARATOR, NARROW NBSP, MEDIUM MATHEMATICAL SPACE and
/// IDEOGRAPHIC SPACE.
pub open spec fn is_white_space(c: char) -> bool {
    let u = c as u32;
    ||| 0x09 <= u <= 0x0d
    ||| u == 0x20
    ||| u == 0x85
    ||| u == 0xa0
    ||| u == 0x1680
    ||| 0x2000 <= u <= 0x200a
    ||| u == 0x2028
    ||| u == 0x2029
    ||| u == 0x202f
    ||| u == 0x205f
    ||| u == 0x3000
}

/// Whether `c` is whitespace.
pub fn is_whitespace_char(c: char) -> (r: bool)
    ensures
        r == is_white_space(c),
{
    let u = c as u32;
    (0x09 <= u && u <= 0x0d) || u == 0x20 || u == 0x85 || u == 0xa0 || u == 0x1680 || (0x2000
        <= u && u <= 0x200a) || u == 0x2028 || u == 0x2029 || u == 0x202f || u == 0x205f || u
        == 0x3000
}

/// Every character of `s` is whitespace (so trimming it leaves nothing).
pub open spec fn all_white(s: Seq<char>) -> bool {
    forall|i: int| 0 <= i < s.len() ==> is_white_space(#[trigger] s[i])
}

/// Whether `s` is empty once whitespace is trimmed from both ends.
pub fn is_blank(s: &str) -> (r: bool)
    ensures
        r == all_white(s@),
{
    let v = chars_of(s);
    let mut i: usize = 0;
    while i < v.len()
        invariant
            v@ == s@,
            i <= v@.len(),
            forall|j: int| 0 <= j < i ==> is_white_space(#[trigger] v@[j]),
        decreases v@.len() - i,
    {
        if !is_whitespace_char(v[i]) {
            return false;
        }
        i = i + 1;
    }
    true
}

/// Every character of `s` is a plain space: what SQL's `trim(x) = ''` tests.
pub open spec fn only_spaces(s: Seq<char>) -> bool {
    forall|i: int| 0 <= i < s.len() ==> #[trigger] s[i] == ' '
}

/// Whether `s` consists of plain spaces only.
pub fn is_only_spaces(s: &str) -> (r: bool)
    ensures
        r == only_spaces(s@),
{
    let v = chars_of(s);
    let mut i: usize = 0;
    while i < v.len()
        invariant
            v@ == s@,
            i <= v@.len(),
            forall|j: int| 0 <= j < i ==> #[trigger] v@[j] == ' ',
        decreases v@.len() - i,
    {
        if v[i] != ' ' {
            return false;
        }
        i = i + 1;
    }
    true
}

// ---------------------------------------------------------------------------
// Stripping both ends
// ---------------------------------------------------------------------------

/// How many characters at the start of `s` satisfy `p`.
pub open spec fn leading(s: Seq<char>, p: spec_fn(char) -> bool) -> nat
    decreases s.len(),
{
    if s.len() > 0 && p(s[0]) {
        1 + leading(s.drop_first(), p)
    } else {
        0
    }
}

/// How many characters at the end of `s` satisfy `p`.
pub open spec fn trailing(s: Seq<char>, p: spec_fn(char) -> bool) -> nat
    decreases s.len(),
{
    if s.len() > 0 && p(s.last()) {
        1 + trailing(s.drop_last(), p)
    } else {
        0
    }
}

/// `s` without the characters satisfying `p` at either end.
pub open spec fn strip(s: Seq<char>, p: spec_fn(char) -> bool) -> Seq<char> {
    if leading(s, p) == s.len() {
        seq![]
    } else {
        s.subrange(leading(s, p) as int, s.len() - trailing(s, p))
    }
}

/// `str::trim`: `s` without whitespace at either end.
pub open spec fn trim(s: Seq<char>) -> Seq<char> {
    strip(s, |c: char| is_white_space(c))
}

/// `leading` counts exactly the run of `p` characters at the start.
pub proof fn lemma_leading_stops(s: Seq<char>, p: spec_fn(char) -> bool)
    ensures
        leading(s, p) <= s.len(),
        forall|j: int| 0 <= j < leading(s, p) ==> p(#[trigger] s[j]),
        leading(s, p) < s.len() ==> !p(s[leading(s, p) as int]),
    decreases s.len(),
{
    if s.len() > 0 && p(s[0]) {
        lemma_leading_stops(s.drop_first(), p);
        assert forall|j: int| 0 <= j < leading(s, p) implies p(#[trigger] s[j]) by {
            if j > 0 {
                assert(s[j] == s.drop_first()[j - 1]);
            }
        }
        if leading(s, p) < s.len() {
            assert(s[leading(s, p) as int] == s.drop_first()[leading(s.drop_first(), p) as int]);
        }
    }
}

/// `trailing` counts exactly the run of `p` characters at the end.
pub proof fn lemma_trailing_stops(s: Seq<char>, p: spec_fn(char) -> bool)
    ensures
        trailing(s, p) <= s.len(),
        forall|j: int| s.len() - trailing(s, p) <= j < s.len() ==> p(#[trigger] s[j]),
        trailing(s, p) < s.len() ==> !p(s[s.len() - 1 - trailing(s, p)]),
    decreases s.len(),
{
    if s.len() > 0 && p(s.last()) {
        lemma_trailing_stops(s.drop_last(), p);
        assert forall|j: int| s.len() - trailing(s, p) <= j < s.len() implies p(#[trigger] s[j]) by {
            if j < s.len() - 1 {
                assert(s[j] == s.drop_last()[j]);
            }
        }
        if trailing(s, p) < s.len() {
            assert(s[s.len() - 1 - trailing(s, p)] == s.drop_last()[s.drop_last().len() - 1 - trailing(s.drop_last(), p)]);
        }
    }
}

proof fn lemma_leading(s: Seq<char>, p: spec_fn(char) -> bool, k: int)
    requires
        0 <= k <= s.len(),
        forall|j: int| 0 <= j < k ==> p(#[trigger] s[j]),
        k == s.len() || !p(s[k]),
    ensures
        leading(s, p) == k,
    decreases k,
{
    if k > 0 {
        assert forall|j: int| 0 <= j < k - 1 implies p(#[trigger] s.drop_first()[j]) by {
            assert(s.drop_first()[j] == s[j + 1]);
        }
        if k - 1 < s.drop_first().len() {
            assert(s.drop_first()[k - 1] == s[k]);
        }
        lemma_leading(s.drop_first(), p, k - 1);
    }
}

proof fn lemma_trailing(s: Seq<char>, p: spec_fn(char) -> bool, h: int)
    requires
        0 <= h <= s.len(),
        forall|j: int| h <= j < s.len() ==> p(#[trigger] s[j]),
        h == 0 || !p(s[h - 1]),
    ensures
        trailing(s, p) == s.len() - h,
    decreases s.len() - h,
{
    if h < s.len() {
        assert forall|j: int| h <= j < s.drop_last().len() implies p(#[trigger] s.drop_last()[j]) by {
            assert(s.drop_last()[j] == s[j]);
        }
        if h > 0 {
            assert(s.drop_last()[h - 1] == s[h - 1]);
        }
        lemma_trailing(s.drop_last(), p, h);
    }
}

/// The bounds `strip` keeps: `v[lo..hi]`, found by walking in from both ends.
proof fn lemma_strip_bounds(s: Seq<char>, p: spec_fn(char) -> bool, lo: int, hi: int)
    requires
        0 <= lo <= hi <= s.len(),
        forall|j: int| 0 <= j < lo ==> p(#[trigger] s[j]),
        lo == s.len() || !p(s[lo]),
        forall|j: int| hi <= j < s.len() ==> p(#[trigger] s[j]),
        lo < s.len() ==> hi > lo && !p(s[hi - 1]),
        lo == s.len() ==> hi == lo,
    ensures
        strip(s, p) == s.subrange(lo, hi),
{
    lemma_leading(s, p, lo);
    if lo < s.len() {
        lemma_trailing(s, p, hi);
    } else {
        assert(s.subrange(lo, hi) =~= seq![]);
    }
}

/// `s.trim()`.
pub fn trim_text(s: &str) -> (r: String)
    ensures
        r@ == trim(s@),
{
    let v = chars_of(s);
    let n = v.len();
    let mut lo: usize = 0;
    while lo < n && is_whitespace_char(v[lo])
        invariant
            n == v@.len(),
            lo <= n,
            forall|j: int| 0 <= j < lo ==> is_white_space(#[trigger] v@[j]),
        decreases n - lo,
    {
        lo = lo + 1;
    }
    let mut hi: usize = n;
    while hi > lo && is_whitespace_char(v[hi - 1])
        invariant
            n == v@.len(),
            lo <= hi <= n,
            forall|j: int| hi <= j < n ==> is_white_space(#[trigger] v@[j]),
        decreases hi - lo,
    {
        hi = hi - 1;
    }
    proof {
        let p = |c: char| is_white_space(c);
        assert forall|j: int| 0 <= j < lo implies p(#[trigger] v@[j]) by {}
        assert forall|j: int| hi <= j < n implies p(#[trigger] v@[j]) by {}
        lemma_strip_bounds(v@, p, lo as int, hi as int);
    }
    string_from_chars(&v, lo, hi)
}

/// `s.trim_matches(['.', ' '])`: `v` without dots and spaces at either end.
pub open spec fn dot_or_space(c: char) -> bool {
    c == '.' || c == ' '
}

pub fn strip_dots_and_spaces(v: &Vec<char>) -> (r: String)
    ensures
        r@ == strip(v@, |c: char| dot_or_space(c)),
{
    let n = v.len();
    let mut lo: usize = 0;
    while lo < n && (v[lo] == '.' || v[lo] == ' ')
        invariant
            n == v@.len(),
            lo <= n,
            forall|j: int| 0 <= j < lo ==> dot_or_space(#[trigger] v@[j]),
        decreases n - lo,
    {
        lo = lo + 1;
    }
    let mut hi: usize = n;
    while hi > lo && (v[hi - 1] == '.' || v[hi - 1] == ' ')
        invariant
            n == v@.len(),
            lo <= hi <= n,
            forall|j: int| hi <= j < n ==> dot_or_space(#[trigger] v@[j]),
        decreases hi - lo,
    {
        hi = hi - 1;
    }
    proof {
        let p = |c: char| dot_or_space(c);
        assert forall|j: int| 0 <= j < lo implies p(#[trigger] v@[j]) by {}
        assert forall|j: int| hi <= j < n implies p(#[trigger] v@[j]) by {}
        lemma_strip_bounds(v@, p, lo as int, hi as int);
    }
    string_from_chars(v, lo, hi)
}

// ---------------------------------------------------------------------------
// ASCII case
// ---------------------------------------------------------------------------

/// `char::to_ascii_lowercase`: `A..=Z` become `a..=z`, everything else stays.
pub open spec fn ascii_lower(c: char) -> char {
    if 'A' <= c <= 'Z' {
        ((c as u32) + 32) as char
    } else {
        c
    }
}

/// `str::to_ascii_lowercase`.
pub open spec fn ascii_lowercase(s: Seq<char>) -> Seq<char> {
    s.map_values(|c: char| ascii_lower(c))
}

/// Lower-case the ASCII letters of `s[lo..hi]`.
pub fn lowercase_ascii_range(v: &Vec<char>, lo: usize, hi: usize) -> (r: String)
    requires
        lo <= hi <= v@.len(),
    ensures
        r@ == ascii_lowercase(v@.subrange(lo as int, hi as int)),
{
    let mut r = String::new();
    let mut i = lo;
    while i < hi
        invariant
            lo <= i <= hi <= v@.len(),
            r@ =~= ascii_lowercase(v@.subrange(lo as int, i as int)),
        decreases hi - i,
    {
        let c = v[i];
        let l = if 'A' <= c && c <= 'Z' {
            char_from_ascii_upper(c)
        } else {
            c
        };
        push_char(&mut r, l);
        i = i + 1;
        assert(r@ =~= ascii_lowercase(v@.subrange(lo as int, i as int)));
    }
    r
}

fn char_from_ascii_upper(c: char) -> (r: char)
    requires
        'A' <= c <= 'Z',
    ensures
        r == ascii_lower(c),
{
    let b = (c as u32 + 32) as u8;
    b as char
}

// ---------------------------------------------------------------------------
// Decimal numbers
// ---------------------------------------------------------------------------

/// The ASCII digit for `d` (`0..=9`).
pub open spec fn digit_char(d: nat) -> char {
    if d == 0 { '0' }
    else if d == 1 { '1' }
    else if d == 2 { '2' }
    else if d == 3 { '3' }
    else if d == 4 { '4' }
    else if d == 5 { '5' }
    else if d == 6 { '6' }
    else if d == 7 { '7' }
    else if d == 8 { '8' }
    else { '9' }
}

/// The decimal digits of `n`, without leading zeros.
pub open spec fn decimal_nat(n: nat) -> Seq<char>
    decreases n,
{
    if n < 10 {
        seq![digit_char(n)]
    } else {
        decimal_nat(n / 10) + seq![digit_char(n % 10)]
    }
}

/// How `Display` writes an integer: an optional `-` and its digits.
pub open spec fn decimal(n: int) -> Seq<char> {
    if n < 0 {
        seq!['-'] + decimal_nat((-n) as nat)
    } else {
        decimal_nat(n as nat)
    }
}

fn digit_of(d: u64) -> (c: char)
    requires
        d < 10,
    ensures
        c == digit_char(d as nat),
{
    if d == 0 { '0' }
    else if d == 1 { '1' }
    else if d == 2 { '2' }
    else if d == 3 { '3' }
    else if d == 4 { '4' }
    else if d == 5 { '5' }
    else if d == 6 { '6' }
    else if d == 7 { '7' }
    else if d == 8 { '8' }
    else { '9' }
}

fn push_decimal(out: &mut String, n: u64)
    ensures
        final(out)@ == old(out)@ + decimal_nat(n as nat),
    decreases n,
{
    if n >= 10 {
        push_decimal(out, n / 10);
    }
    push_char(out, digit_of(n % 10));
    assert(final(out)@ =~= old(out)@ + decimal_nat(n as nat));
}

/// Append the decimal form of `n` to `out`.
pub fn append_decimal(out: &mut String, n: i64)
    ensures
        final(out)@ == old(out)@ + decimal(n as int),
{
    if n < 0 {
        push_char(out, '-');
        let mag: u64 = (-(n as i128)) as u64;
        push_decimal(out, mag);
        assert(final(out)@ =~= old(out)@ + decimal(n as int));
    } else {
        push_decimal(out, n as u64);
    }
}

/// The decimal form of `n`, as `n.to_string()` writes it.
pub fn decimal_string(n: i64) -> (r: String)
    ensures
        r@ == decimal(n as int),
{
    let mut r = String::new();
    append_decimal(&mut r, n);
    assert(r@ =~= decimal(n as int));
    r
}

/// An ASCII digit.
pub open spec fn is_digit(c: char) -> bool {
    '0' <= c <= '9'
}

/// The value of an ASCII digit.
pub open spec fn digit_value(c: char) -> int {
    (c as u32) - ('0' as u32)
}

/// The value of a run of ASCII digits, read in base ten.
pub open spec fn digits_value(d: Seq<char>) -> int
    decreases d.len(),
{
    if d.len() == 0 {
        0
    } else {
        digits_value(d.drop_last()) * 10 + digit_value(d.last())
    }
}

pub open spec fn all_digits(d: Seq<char>) -> bool {
    forall|i: int| 0 <= i < d.len() ==> is_digit(#[trigger] d[i])
}

/// `str::parse::<i64>`: an optional `+` or `-`, then one or more ASCII
/// digits, whose value must fit in an `i64`. Anything else is refused.
pub open spec fn spec_parse_i64(s: Seq<char>) -> Option<int> {
    let signed = s.len() > 0 && (s[0] == '-' || s[0] == '+');
    let negative = s.len() > 0 && s[0] == '-';
    let body = if signed {
        s.drop_first()
    } else {
        s
    };
    if body.len() == 0 || !all_digits(body) {
        None
    } else {
        let v = if negative {
            -digits_value(body)
        } else {
            digits_value(body)
        };
        if i64::MIN <= v <= i64::MAX {
            Some(v)
        } else {
            None
        }
    }
}

proof fn lemma_decimal_nat_reads_back(n: nat)
    ensures
        decimal_nat(n).len() > 0,
        all_digits(decimal_nat(n)),
        digits_value(decimal_nat(n)) == n,
        decimal_nat(n)[0] != '-' && decimal_nat(n)[0] != '+',
    decreases n,
{
    if n < 10 {
        assert(digit_value(digit_char(n)) == n);
        let d = decimal_nat(n);
        assert(d.drop_last() =~= Seq::<char>::empty());
        assert(digits_value(Seq::<char>::empty()) == 0);
        assert(digits_value(d) == digits_value(d.drop_last()) * 10 + digit_value(d.last()));
    } else {
        lemma_decimal_nat_reads_back(n / 10);
        let d = decimal_nat(n);
        let hi = decimal_nat(n / 10);
        assert(d.drop_last() =~= hi);
        assert(d.last() == digit_char(n % 10));
        assert(digit_value(digit_char(n % 10)) == n % 10);
        assert(digits_value(d) == digits_value(d.drop_last()) * 10 + digit_value(d.last()));
        assert(n == (n / 10) * 10 + n % 10);
        assert forall|i: int| 0 <= i < d.len() implies is_digit(#[trigger] d[i]) by {
            if i < hi.len() {
                assert(d[i] == hi[i]);
            }
        }
        assert(d[0] == hi[0]);
    }
}

/// Writing an integer in decimal and reading it back gives the integer:
/// `parse::<i64>` undoes `to_string` on every `i64`.
pub proof fn law_decimal_reads_back(n: i64)
    ensures
        spec_parse_i64(decimal(n as int)) == Some(n as int),
{
    if n < 0 {
        let m = (-(n as int)) as nat;
        lemma_decimal_nat_reads_back(m);
        let s = decimal(n as int);
        assert(s.drop_first() =~= decimal_nat(m));
        assert(s[0] == '-');
    } else {
        lemma_decimal_nat_reads_back(n as nat);
    }
}

proof fn lemma_digits_value_nonneg(d: Seq<char>)
    requires
        all_digits(d),
    ensures
        0 <= digits_value(d),
    decreases d.len(),
{
    if d.len() > 0 {
        assert(is_digit(d[d.len() - 1]));
        lemma_digits_value_nonneg(d.drop_last());
    }
}

proof fn lemma_digits_value_grows(d: Seq<char>, k: int)
    requires
        0 <= k <= d.len(),
        all_digits(d),
    ensures
        digits_value(d.take(k)) <= digits_value(d),
        0 <= digits_value(d.take(k)),
    decreases d.len() - k,
{
    lemma_digits_value_nonneg(d.take(k));
    if k < d.len() {
        lemma_digits_value_grows(d, k + 1);
        assert(d.take(k + 1).drop_last() =~= d.take(k));
        assert(is_digit(d[k]));
        assert(digits_value(d.take(k + 1)) == digits_value(d.take(k)) * 10 + digit_value(d[k]));
    } else {
        assert(d.take(k) =~= d);
    }
}

/// `s.parse::<i64>().ok()`.
pub fn parse_i64(s: &str) -> (r: Option<i64>)
    ensures
        match spec_parse_i64(s@) {
            Some(v) => r == Some(v as i64),
            None => r is None,
        },
{
    let v = chars_of(s);
    let n = v.len();
    let mut start: usize = 0;
    let mut negative = false;
    if n > 0 && (v[0] == '-' || v[0] == '+') {
        negative = v[0] == '-';
        start = 1;
    }
    let ghost body = if start == 1 { v@.drop_first() } else { v@ };
    if start == n {
        return None;
    }
    let mut acc: i128 = 0;
    let mut i = start;
    while i < n
        invariant
            v@ == s@,
            n == v@.len(),
            start <= i <= n,
            start == 0 || start == 1,
            body == v@.subrange(start as int, n as int),
            body == (if s@.len() > 0 && (s@[0] == '-' || s@[0] == '+') {
                s@.drop_first()
            } else {
                s@
            }),
            negative == (s@.len() > 0 && s@[0] == '-'),
            all_digits(body.take(i - start)),
            acc == digits_value(body.take(i - start)),
            0 <= acc <= 9223372036854775808,
        decreases n - i,
    {
        let c = v[i];
        proof {
            assert(body.take(i - start + 1).drop_last() =~= body.take(i - start));
            assert(body.take(i - start + 1).last() == c);
        }
        assert(body[i - start] == c);
        if !('0' <= c && c <= '9') {
            assert(!is_digit(body[i - start]));
            assert(!all_digits(body));
            return None;
        }
        let d = (c as u32 - '0' as u32) as i128;
        acc = acc * 10 + d;
        assert(acc == digits_value(body.take(i - start + 1)));
        if acc > 9223372036854775808 {
            proof {
                assert(all_digits(body.take(i - start + 1)));
                if all_digits(body) {
                    lemma_digits_value_grows(body, i - start + 1);
                }
            }
            return None;
        }
        i = i + 1;
    }
    assert(body.take(n - start) =~= body);
    if negative {
        Some((-acc) as i64)
    } else if acc <= 9223372036854775807 {
        Some(acc as i64)
    } else {
        None
    }
}

// ---------------------------------------------------------------------------
// Joining
// ---------------------------------------------------------------------------

/// `parts.join(sep)`.
pub open spec fn join_with(parts: Seq<Seq<char>>, sep: Seq<char>) -> Seq<char>
    decreases parts.len(),
{
    if parts.len() == 0 {
        seq![]
    } else if parts.len() == 1 {
        parts[0]
    } else {
        join_with(parts.drop_last(), sep) + sep + parts.last()
    }
}

/// Joining one more part adds the separator and the part.
pub proof fn lemma_join_push(parts: Seq<Seq<char>>, sep: Seq<char>, p: Seq<char>)
    ensures
        join_with(parts.push(p), sep) == if parts.len() == 0 {
            p
        } else {
            join_with(parts, sep) + sep + p
        },
{
    assert(parts.push(p).drop_last() =~= parts);
}


/// Joining after extending the last part extends the joined text.
pub proof fn lemma_join_extend_last(parts: Seq<Seq<char>>, sep: Seq<char>, c: char)
    requires
        parts.len() > 0,
    ensures
        join_with(parts.drop_last().push(parts.last().push(c)), sep) == join_with(parts, sep).push(
            c,
        ),
{
    let q = parts.drop_last().push(parts.last().push(c));
    assert(q.drop_last() =~= parts.drop_last());
    if parts.len() == 1 {
        assert(join_with(q, sep) =~= join_with(parts, sep).push(c));
    } else {
        assert(join_with(q, sep) =~= join_with(parts, sep).push(c));
    }
}

// ---------------------------------------------------------------------------
// Words
// ---------------------------------------------------------------------------

/// The words of `s`: its maximal runs of non-whitespace characters, in order
/// (what `str::split_whitespace` yields).
pub open spec fn words(s: Seq<char>) -> Seq<Seq<char>>
    decreases s.len(),
{
    if s.len() == 0 {
        seq![]
    } else {
        let prev = words(s.drop_last());
        let c = s.last();
        if is_white_space(c) {
            prev
        } else if s.len() >= 2 && !is_white_space(s[s.len() - 2]) {
            prev.drop_last().push(prev.last().push(c))
        } else {
            prev.push(seq![c])
        }
    }
}

proof fn lemma_words_nonempty(s: Seq<char>)
    requires
        s.len() > 0,
        !is_white_space(s.last()),
    ensures
        words(s).len() > 0,
{
}

/// The words of a text are its maximal runs of non-whitespace: each is
/// non-empty and holds no whitespace; a text of whitespace only has none; a
/// text with no whitespace at all is one word, itself.
pub proof fn law_words_are_runs_without_whitespace(s: Seq<char>)
    ensures
        forall|k: int| 0 <= k < words(s).len() ==> (#[trigger] words(s)[k]).len() > 0,
        forall|k: int, j: int|
            0 <= k < words(s).len() && 0 <= j < words(s)[k].len() ==> !is_white_space(
                #[trigger] words(s)[k][j],
            ),
        all_white(s) ==> words(s).len() == 0,
        s.len() > 0 && (forall|i: int| 0 <= i < s.len() ==> !is_white_space(#[trigger] s[i])) ==> words(s)
            == seq![s],
    decreases s.len(),
{
    if s.len() > 0 {
        let d = s.drop_last();
        law_words_are_runs_without_whitespace(d);
        let c = s.last();
        let prev = words(d);
        assert(d.len() == s.len() - 1);
        if all_white(s) {
            assert(all_white(d)) by {
                assert forall|i: int| 0 <= i < d.len() implies is_white_space(#[trigger] d[i]) by {
                    assert(d[i] == s[i]);
                }
            }
            assert(is_white_space(s[s.len() - 1]));
        }
        if s.len() > 0 && (forall|i: int| 0 <= i < s.len() ==> !is_white_space(#[trigger] s[i])) {
            assert(!is_white_space(s[s.len() - 1]));
            if d.len() > 0 {
                assert forall|i: int| 0 <= i < d.len() implies !is_white_space(#[trigger] d[i]) by {
                    assert(d[i] == s[i]);
                }
                assert(!is_white_space(s[s.len() - 2]));
                assert(prev == seq![d]);
                assert(words(s) =~= seq![d.push(c)]);
                assert(d.push(c) =~= s);
            } else {
                assert(words(d) =~= Seq::<Seq<char>>::empty());
                assert(seq![c] =~= s);
            }
        }
        if !is_white_space(c) && s.len() >= 2 && !is_white_space(s[s.len() - 2]) {
            lemma_words_nonempty(d);
            assert(d.last() == s[s.len() - 2]);
            let w = words(s);
            assert forall|k: int| 0 <= k < w.len() && 0 <= (#[trigger] w[k]).len() implies w[k].len() > 0 && forall|j: int|
                0 <= j < w[k].len() ==> !is_white_space(#[trigger] w[k][j]) by {
                if k < prev.len() - 1 {
                    assert(w[k] == prev[k]);
                } else {
                    assert(w[k] == prev.last().push(c));
                    assert(prev.last() == prev[prev.len() - 1]);
                    assert forall|j: int| 0 <= j < w[k].len() implies !is_white_space(#[trigger] w[k][j]) by {
                        if j < prev.last().len() {
                            assert(w[k][j] == prev[prev.len() - 1][j]);
                        }
                    }
                }
            }
        } else if !is_white_space(c) {
            let w = words(s);
            assert forall|k: int| 0 <= k < w.len() && 0 <= (#[trigger] w[k]).len() implies w[k].len() > 0 && forall|j: int|
                0 <= j < w[k].len() ==> !is_white_space(#[trigger] w[k][j]) by {
                if k < prev.len() {
                    assert(w[k] == prev[k]);
                } else {
                    assert(w[k] == seq![c]);
                }
            }
        }
    }
}

/// `s.split_whitespace().collect::<Vec<_>>().join(" ")`: the words of `s`
/// separated by single spaces.
pub open spec fn squash_whitespace(s: Seq<char>) -> Seq<char> {
    join_with(words(s), " "@)
}

/// The words of `s`, separated by single spaces.
pub fn squash_spaces(s: &str) -> (r: String)
    ensures
        r@ == squash_whitespace(s@),
{
    let v = chars_of(s);
    let mut flat = String::new();
    let mut has_word = false;
    let mut prev_white = true;
    let mut i: usize = 0;
    while i < v.len()
        invariant
            v@ == s@,
            i <= v@.len(),
            flat@ == join_with(words(v@.take(i as int)), " "@),
            has_word == (words(v@.take(i as int)).len() > 0),
            prev_white == (i == 0 || is_white_space(v@[i - 1])),
        decreases v@.len() - i,
    {
        let c = v[i];
        let ghost before = v@.take(i as int);
        let ghost after = v@.take(i + 1);
        proof {
            assert(after.drop_last() =~= before);
            assert(after.last() == c);
            if i > 0 {
                assert(after[after.len() - 2] == v@[i - 1]);
            }
        }
        if is_whitespace_char(c) {
            prev_white = true;
        } else if !prev_white {
            proof {
                lemma_words_nonempty(before);
                lemma_join_extend_last(words(before), " "@, c);
            }
            push_char(&mut flat, c);
        } else {
            proof {
                lemma_join_push(words(before), " "@, seq![c]);
                reveal_strlit(" ");
                assert(words(after) == words(before).push(seq![c]));
            }
            if has_word {
                push_char(&mut flat, ' ');
            }
            push_char(&mut flat, c);
            has_word = true;
            prev_white = false;
            assert(flat@ =~= join_with(words(after), " "@));
        }
        i = i + 1;
    }
    assert(v@.take(v@.len() as int) =~= v@);
    flat
}

} // verus!
