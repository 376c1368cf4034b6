//! Accepting an uploaded document: checking it, naming it on disk and
//! fingerprinting its bytes.
use vstd::prelude::*;
use crate::ingest::{extension, format_of, known_format, unknown_format_message};
use crate::text::{chars_of, dot_or_space, push_char, strip, strip_dots_and_spaces};

verus! {

broadcast use vstd::string::group_string_axioms;

// ---------------------------------------------------------------------------
// File names
// ---------------------------------------------------------------------------

/// What `char::is_alphanumeric` answers for `c` (the Unicode `Alphabetic`
/// property, or a numeric general category).
pub uninterp spec fn is_alphanumeric(c: char) -> bool;

/// An ASCII letter or digit.
pub open spec fn ascii_letter_or_digit(c: char) -> bool {
    let u = c as u32;
    (0x30 <= u <= 0x39) || (0x41 <= u <= 0x5a) || (0x61 <= u <= 0x7a)
}

/// Whether `c` is alphanumeric: among ASCII characters exactly the letters
/// and digits, elsewhere as Unicode classifies it.
pub open spec fn alphanumeric(c: char) -> bool {
    if (c as u32) < 0x80 {
        ascii_letter_or_digit(c)
    } else {
        is_alphanumeric(c)
    }
}

/// `char::is_alphanumeric`: `Alphabetic` or a numeric general category.
/// Among ASCII characters those are exactly the letters and the digits;
/// for other characters the answer is left to the name `is_alphanumeric`.
#[verifier::external_body]
fn char_is_alphanumeric(c: char) -> (r: bool)
    ensures
        r == is_alphanumeric(c),
        (c as u32) < 0x80 ==> (r <==> ascii_letter_or_digit(c)),
{
    c.is_alphanumeric()
}

/// A character kept in a stored file name; anything else becomes `_`.
pub open spec fn name_char(c: char) -> bool {
    alphanumeric(c) || c == '.' || c == '_' || c == '-' || c == ' '
}

pub open spec fn sanitized_char(c: char) -> char {
    if name_char(c) {
        c
    } else {
        '_'
    }
}

/// A recognisable file name that cannot escape the directory it is stored
/// in: every other character replaced by `_`, then dots and spaces trimmed
/// from both ends.
pub open spec fn sanitized(filename: Seq<char>) -> Seq<char> {
    strip(filename.map_values(|c: char| sanitized_char(c)), |c: char| dot_or_space(c))
}

/// Keep a recognisable filename without letting it escape the documents
/// directory.
pub fn sanitize(filename: &str) -> (r: String)
    ensures
        r@ == sanitized(filename@),
{
    let v = chars_of(filename);
    let mut mapped: Vec<char> = Vec::new();
    let mut i: usize = 0;
    while i < v.len()
        invariant
            v@ == filename@,
            i <= v@.len(),
            mapped@ == v@.take(i as int).map_values(|c: char| sanitized_char(c)),
        decreases v@.len() - i,
    {
        let c = v[i];
        let keep = char_is_alphanumeric(c) || c == '.' || c == '_' || c == '-' || c == ' ';
        mapped.push(if keep { c } else { '_' });
        i = i + 1;
        assert(mapped@ =~= v@.take(i as int).map_values(|c: char| sanitized_char(c)));
    }
    assert(v@.take(v@.len() as int) =~= v@);
    strip_dots_and_spaces(&mapped)
}

/// A sanitized name stays in the directory it is stored in: every character
/// is one a name may hold (so no `/` or `\`), it neither starts nor ends
/// with a dot or a space (so it is never `.` or `..`), it is no longer than
/// the name it was made from, and it keeps that name's letters and digits,
/// in order.
pub proof fn law_sanitized_names_stay_in_place(filename: Seq<char>)
    ensures
        forall|i: int| 0 <= i < sanitized(filename).len() ==> name_char(#[trigger] sanitized(filename)[i]),
        forall|i: int|
            0 <= i < sanitized(filename).len() ==> #[trigger] sanitized(filename)[i] != '/'
                && sanitized(filename)[i] != '\\',
        sanitized(filename).len() > 0 ==> !dot_or_space(sanitized(filename)[0]) && !dot_or_space(
            sanitized(filename).last(),
        ),
        sanitized(filename).len() <= filename.len(),
        sanitized(filename).filter(|c: char| alphanumeric(c)) == filename.filter(
            |c: char| alphanumeric(c),
        ),
{
    let m = filename.map_values(|c: char| sanitized_char(c));
    let p = |c: char| dot_or_space(c);
    let a = |c: char| alphanumeric(c);
    lemma_strip_edges(m, p);
    lemma_sanitizing_keeps_alphanumerics(filename);
    crate::text::lemma_leading_stops(m, p);
    crate::text::lemma_trailing_stops(m, p);
    assert forall|i: int| 0 <= i < m.len() implies name_char(#[trigger] m[i]) by {}
    if crate::text::leading(m, p) < m.len() {
        let lo = crate::text::leading(m, p) as int;
        let hi = m.len() - crate::text::trailing(m, p);
        assert forall|i: int| 0 <= i < sanitized(filename).len() implies name_char(#[trigger] sanitized(filename)[i]) by {
            assert(sanitized(filename)[i] == m[lo + i]);
        }
        lemma_no_alphanumerics(m.subrange(0, lo));
        lemma_no_alphanumerics(m.subrange(hi, m.len() as int));
        assert(m =~= m.subrange(0, lo) + m.subrange(lo, hi) + m.subrange(hi, m.len() as int));
        Seq::filter_distributes_over_add(m.subrange(0, lo) + m.subrange(lo, hi), m.subrange(hi, m.len() as int), a);
        Seq::filter_distributes_over_add(m.subrange(0, lo), m.subrange(lo, hi), a);
    } else {
        lemma_no_alphanumerics(m);
        assert(sanitized(filename) =~= Seq::<char>::empty());
        reveal(Seq::filter);
    }
}

/// Dots and spaces are not alphanumeric, so a run of them filters to nothing.
proof fn lemma_no_alphanumerics(s: Seq<char>)
    requires
        forall|i: int| 0 <= i < s.len() ==> dot_or_space(#[trigger] s[i]),
    ensures
        s.filter(|c: char| alphanumeric(c)) =~= Seq::<char>::empty(),
    decreases s.len(),
{
    reveal(Seq::filter);
    if s.len() > 0 {
        assert forall|i: int| 0 <= i < s.drop_last().len() implies dot_or_space(#[trigger] s.drop_last()[i]) by {
            assert(s.drop_last()[i] == s[i]);
        }
        lemma_no_alphanumerics(s.drop_last());
        assert(dot_or_space(s[s.len() - 1]));
    }
}

/// Replacing the characters a name may not hold leaves its letters and
/// digits as they were.
proof fn lemma_sanitizing_keeps_alphanumerics(f: Seq<char>)
    ensures
        f.map_values(|c: char| sanitized_char(c)).filter(|c: char| alphanumeric(c)) == f.filter(
            |c: char| alphanumeric(c),
        ),
    decreases f.len(),
{
    let a = |c: char| alphanumeric(c);
    let g = |c: char| sanitized_char(c);
    if f.len() > 0 {
        lemma_sanitizing_keeps_alphanumerics(f.drop_last());
        assert(f.map_values(g) =~= f.drop_last().map_values(g).push(g(f.last())));
        assert(f =~= f.drop_last().push(f.last()));
        f.drop_last().map_values(g).lemma_filter_push(g(f.last()), a);
        f.drop_last().lemma_filter_push(f.last(), a);
    } else {
        reveal(Seq::filter);
        assert(f.map_values(g) =~= f);
    }
}

/// What `strip` keeps does not start or end with a stripped character.
proof fn lemma_strip_edges(s: Seq<char>, p: spec_fn(char) -> bool)
    ensures
        strip(s, p).len() > 0 ==> !p(strip(s, p)[0]) && !p(strip(s, p).last()),
        strip(s, p).len() > 0 ==> crate::text::leading(s, p) < s.len() && crate::text::leading(s, p)
            + crate::text::trailing(s, p) < s.len() && strip(s, p) == s.subrange(
            crate::text::leading(s, p) as int,
            s.len() - crate::text::trailing(s, p),
        ),
{
    crate::text::lemma_leading_stops(s, p);
    crate::text::lemma_trailing_stops(s, p);
    let lo = crate::text::leading(s, p) as int;
    let t = crate::text::trailing(s, p) as int;
    if lo < s.len() && lo + t >= s.len() {
        assert(p(s[lo]));
    }
}

// ---------------------------------------------------------------------------
// Fingerprints
// ---------------------------------------------------------------------------

/// The SHA-256 digest of `data`.
pub uninterp spec fn sha256(data: Seq<u8>) -> Seq<u8>;

/// `sha2::Sha256::digest(data)`, as a vector of its bytes. The digest of
/// SHA-256 is 32 bytes long; its value is left to the name `sha256`.
#[verifier::external_body]
fn sha256_digest(data: &[u8]) -> (r: Vec<u8>)
    ensures
        r@ == sha256(data@),
        r@.len() == 32,
{
    <sha2::Sha256 as sha2::Digest>::digest(data).to_vec()
}

/// The lower-case hexadecimal digit for `d` (`0..=15`).
pub open spec fn hex_digit(d: int) -> char {
    if d < 10 {
        crate::text::digit_char(d as nat)
    } else if d == 10 {
        'a'
    } else if d == 11 {
        'b'
    } else if d == 12 {
        'c'
    } else if d == 13 {
        'd'
    } else if d == 14 {
        'e'
    } else {
        'f'
    }
}

/// `bytes` written as lower-case hexadecimal, two digits per byte, as the
/// `{:x}` format writes a digest.
pub open spec fn hex_lower(bytes: Seq<u8>) -> Seq<char>
    decreases bytes.len(),
{
    if bytes.len() == 0 {
        seq![]
    } else {
        let b = bytes.last() as int;
        hex_lower(bytes.drop_last()) + seq![hex_digit(b / 16), hex_digit(b % 16)]
    }
}

/// Lower-case hex writes each byte as two digits, high nibble first, in
/// order: byte `i` becomes characters `2i` and `2i + 1`, each one of
/// `0123456789abcdef`.
pub proof fn law_hex_writes_each_byte_as_two_digits(bytes: Seq<u8>)
    ensures
        hex_lower(bytes).len() == 2 * bytes.len(),
        forall|i: int|
            0 <= i < bytes.len() ==> #[trigger] hex_lower(bytes)[2 * i] == "0123456789abcdef"@[bytes[i] as int / 16]
                && hex_lower(bytes)[2 * i + 1] == "0123456789abcdef"@[bytes[i] as int % 16],
    decreases bytes.len(),
{
    reveal_strlit("0123456789abcdef");
    if bytes.len() > 0 {
        let d = bytes.drop_last();
        law_hex_writes_each_byte_as_two_digits(d);
        let h = hex_lower(bytes);
        let hd = hex_lower(d);
        assert forall|i: int| 0 <= i < bytes.len() implies #[trigger] h[2 * i] == "0123456789abcdef"@[bytes[i] as int
            / 16] && h[2 * i + 1] == "0123456789abcdef"@[bytes[i] as int % 16] by {
            if i < d.len() {
                assert(d[i] == bytes[i]);
                assert(h[2 * i] == hd[2 * i]);
                assert(h[2 * i + 1] == hd[2 * i + 1]);
            } else {
                let b = bytes[i] as int;
                assert(h[2 * i] == hex_digit(b / 16));
                assert(h[2 * i + 1] == hex_digit(b % 16));
            }
        }
    }
}

fn hex_char(d: u8) -> (c: char)
    requires
        d < 16,
    ensures
        c == hex_digit(d as int),
{
    if d < 10 {
        let c = match d {
            0 => '0',
            1 => '1',
            2 => '2',
            3 => '3',
            4 => '4',
            5 => '5',
            6 => '6',
            7 => '7',
            8 => '8',
            _ => '9',
        };
        c
    } else if d == 10 {
        'a'
    } else if d == 11 {
        'b'
    } else if d == 12 {
        'c'
    } else if d == 13 {
        'd'
    } else if d == 14 {
        'e'
    } else {
        'f'
    }
}

/// Lower-case hexadecimal of `bytes`.
pub fn to_hex_lower(bytes: &Vec<u8>) -> (r: String)
    ensures
        r@ == hex_lower(bytes@),
        r@.len() == 2 * bytes@.len(),
{
    let mut r = String::new();
    let mut i: usize = 0;
    while i < bytes.len()
        invariant
            i <= bytes@.len(),
            r@ == hex_lower(bytes@.take(i as int)),
            r@.len() == 2 * i,
        decreases bytes@.len() - i,
    {
        let b = bytes[i];
        proof {
            assert(bytes@.take(i + 1).drop_last() =~= bytes@.take(i as int));
            assert(bytes@.take(i + 1).last() == b);
        }
        push_char(&mut r, hex_char(b / 16));
        push_char(&mut r, hex_char(b % 16));
        i = i + 1;
        assert(r@ =~= hex_lower(bytes@.take(i as int)));
    }
    assert(bytes@.take(bytes@.len() as int) =~= bytes@);
    r
}

// ---------------------------------------------------------------------------
// Uploads
// ---------------------------------------------------------------------------

/// How an accepted upload is recorded.
#[derive(Debug)]
pub struct Upload {
    /// Its format, from its extension.
    pub format: String,
    /// Lower-case hex SHA-256 of its bytes.
    pub sha256: String,
    /// The file name it is stored under: content-addressed, so the same
    /// file uploaded twice cannot collide and an edited re-upload lands
    /// beside the original.
    pub stored_name: String,
    /// Its size in bytes.
    pub byte_size: i64,
}

/// How many hex digits of the fingerprint prefix a stored file name.
pub const NAME_PREFIX: usize = 12;

/// The name a file with this digest is stored under: the digest's first
/// hex digits, a dash, and the sanitized file name.
pub open spec fn digest_name(filename: Seq<char>, digest: Seq<u8>) -> Seq<char> {
    hex_lower(digest).take(NAME_PREFIX as int) + seq!['-'] + sanitized(filename)
}

/// The name an upload is stored under.
pub open spec fn stored_name(filename: Seq<char>, bytes: Seq<u8>) -> Seq<char> {
    digest_name(filename, sha256(bytes))
}

/// The name a file is stored under, from its digest. The digest must give
/// at least `NAME_PREFIX` hex digits.
pub fn name_for_digest(filename: &str, digest: &Vec<u8>) -> (r: String)
    requires
        2 * digest@.len() >= NAME_PREFIX,
    ensures
        r@ == digest_name(filename@, digest@),
{
    let hex = to_hex_lower(digest);
    let hv = chars_of(hex.as_str());
    let mut name = crate::text::string_from_chars(&hv, 0, NAME_PREFIX);
    push_char(&mut name, '-');
    let clean = sanitize(filename);
    name.append(clean.as_str());
    assert(name@ =~= digest_name(filename@, digest@));
    name
}

/// Check an uploaded file and decide how it is recorded: refused when its
/// format is unknown or it is empty.
pub fn prepare_upload(filename: &str, bytes: &Vec<u8>) -> (r: Result<Upload, String>)
    requires
        bytes@.len() <= i64::MAX,
    ensures
        !known_format(extension(filename@)) ==> r is Err && r->Err_0@ == unknown_format_message(
            filename@,
        ),
        known_format(extension(filename@)) && bytes@.len() == 0 ==> r is Err && r->Err_0@ == "'"@
            + filename@ + "' is empty"@,
        known_format(extension(filename@)) && bytes@.len() > 0 ==> r is Ok && ({
            let u = r->Ok_0;
            &&& u.format@ == extension(filename@)
            &&& u.sha256@ == hex_lower(sha256(bytes@))
            &&& u.stored_name@ == stored_name(filename@, bytes@)
            &&& u.byte_size == bytes@.len()
        }),
{
    let format = match format_of(filename) {
        Ok(f) => f,
        Err(e) => return Err(e),
    };
    if bytes.len() == 0 {
        let mut e = "'".to_owned();
        e.append(filename);
        e.append("' is empty");
        return Err(e);
    }
    let digest = sha256_digest(bytes.as_slice());
    let hex = to_hex_lower(&digest);
    let name = name_for_digest(filename, &digest);
    Ok(Upload { format, sha256: hex, stored_name: name, byte_size: bytes.len() as i64 })
}

} // verus!
