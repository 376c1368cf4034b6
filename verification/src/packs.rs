//! Translation packs: which texts are available, and the rules that turn a
//! downloaded book into the canonical book/chapter/verse + token model.
//!
//! Only freely distributable texts are listed in the registry.
use vstd::prelude::*;
use crate::text::{
    append_decimal, chars_of, decimal, parse_i64, spec_parse_i64, string_from_chars, trim, trim_text,
};

verus! {

broadcast use vstd::string::group_string_axioms;

/// Canonical 66-book order: (OSIS code, display name, testament). Also the
/// download order: the text source numbers books 1..66 to match.
pub const BOOKS: [(&'static str, &'static str, &'static str); 66] = [
    ("Gen", "Genesis", "OT"),
    ("Exod", "Exodus", "OT"),
    ("Lev", "Leviticus", "OT"),
    ("Num", "Numbers", "OT"),
    ("Deut", "Deuteronomy", "OT"),
    ("Josh", "Joshua", "OT"),
    ("Judg", "Judges", "OT"),
    ("Ruth", "Ruth", "OT"),
    ("1Sam", "1 Samuel", "OT"),
    ("2Sam", "2 Samuel", "OT"),
    ("1Kgs", "1 Kings", "OT"),
    ("2Kgs", "2 Kings", "OT"),
    ("1Chr", "1 Chronicles", "OT"),
    ("2Chr", "2 Chronicles", "OT"),
    ("Ezra", "Ezra", "OT"),
    ("Neh", "Nehemiah", "OT"),
    ("Esth", "Esther", "OT"),
    ("Job", "Job", "OT"),
    ("Ps", "Psalms", "OT"),
    ("Prov", "Proverbs", "OT"),
    ("Eccl", "Ecclesiastes", "OT"),
    ("Song", "Song of Solomon", "OT"),
    ("Isa", "Isaiah", "OT"),
    ("Jer", "Jeremiah", "OT"),
    ("Lam", "Lamentations", "OT"),
    ("Ezek", "Ezekiel", "OT"),
    ("Dan", "Daniel", "OT"),
    ("Hos", "Hosea", "OT"),
    ("Joel", "Joel", "OT"),
    ("Amos", "Amos", "OT"),
    ("Obad", "Obadiah", "OT"),
    ("Jonah", "Jonah", "OT"),
    ("Mic", "Micah", "OT"),
    ("Nah", "Nahum", "OT"),
    ("Hab", "Habakkuk", "OT"),
    ("Zeph", "Zephaniah", "OT"),
    ("Hag", "Haggai", "OT"),
    ("Zech", "Zechariah", "OT"),
    ("Mal", "Malachi", "OT"),
    ("Matt", "Matthew", "NT"),
    ("Mark", "Mark", "NT"),
    ("Luke", "Luke", "NT"),
    ("John", "John", "NT"),
    ("Acts", "Acts", "NT"),
    ("Rom", "Romans", "NT"),
    ("1Cor", "1 Corinthians", "NT"),
    ("2Cor", "2 Corinthians", "NT"),
    ("Gal", "Galatians", "NT"),
    ("Eph", "Ephesians", "NT"),
    ("Phil", "Philippians", "NT"),
    ("Col", "Colossians", "NT"),
    ("1Thess", "1 Thessalonians", "NT"),
    ("2Thess", "2 Thessalonians", "NT"),
    ("1Tim", "1 Timothy", "NT"),
    ("2Tim", "2 Timothy", "NT"),
    ("Titus", "Titus", "NT"),
    ("Phlm", "Philemon", "NT"),
    ("Heb", "Hebrews", "NT"),
    ("Jas", "James", "NT"),
    ("1Pet", "1 Peter", "NT"),
    ("2Pet", "2 Peter", "NT"),
    ("1John", "1 John", "NT"),
    ("2John", "2 John", "NT"),
    ("3John", "3 John", "NT"),
    ("Jude", "Jude", "NT"),
    ("Rev", "Revelation", "NT"),
];

// ---------------------------------------------------------------------------
// Tokenization
// ---------------------------------------------------------------------------

/// Words, with internal apostrophes and hyphens kept whole ("God's",
/// "well-beloved"). Every importer must tokenize alike, because word anchors
/// point at token indices.
pub const WORD_PATTERN: &'static str = r"[^\W_]+(?:['\u{2019}\-][^\W_]+)*";

/// Bytes `c` takes in UTF-8 (`char::len_utf8`).
pub open spec fn utf8_width(c: char) -> nat {
    let u = c as u32;
    if u < 0x80 {
        1
    } else if u < 0x800 {
        2
    } else if u < 0x10000 {
        3
    } else {
        4
    }
}

/// Bytes the first `k` characters of `s` take in UTF-8.
pub open spec fn utf8_offset(s: Seq<char>, k: int) -> nat
    decreases k,
{
    if k <= 0 {
        0
    } else {
        utf8_offset(s, k - 1) + utf8_width(s[k - 1])
    }
}

/// `b` is a byte offset between two characters of `s` (or at either end).
pub open spec fn on_char_boundary(s: Seq<char>, b: int) -> bool {
    exists|k: int| 0 <= k <= s.len() && utf8_offset(s, k) == b
}

/// The character index at byte offset `b` of `s`.
pub open spec fn char_index(s: Seq<char>, b: int) -> int {
    choose|k: int| 0 <= k <= s.len() && utf8_offset(s, k) == b
}

/// Earlier character positions lie at smaller byte offsets.
pub proof fn lemma_offset_increases(s: Seq<char>, j: int, k: int)
    requires
        0 <= j <= k,
    ensures
        utf8_offset(s, j) <= utf8_offset(s, k),
        j < k ==> utf8_offset(s, j) < utf8_offset(s, k),
    decreases k - j,
{
    if j < k {
        lemma_offset_increases(s, j, k - 1);
    }
}

/// A byte offset on a boundary names exactly one character position.
proof fn lemma_char_index(s: Seq<char>, b: int, k: int)
    requires
        0 <= k <= s.len(),
        utf8_offset(s, k) == b,
    ensures
        char_index(s, b) == k,
{
    let c = char_index(s, b);
    if c < k {
        lemma_offset_increases(s, c, k);
    } else if c > k {
        lemma_offset_increases(s, k, c);
    }
}

/// The matches of a regular expression in a haystack: the byte ranges of the
/// successive non-overlapping matches, in order, or `None` when the pattern
/// does not compile.
pub uninterp spec fn regex_matches(pattern: Seq<char>, haystack: Seq<char>) -> Option<
    Seq<(usize, usize)>,
>;

/// Byte ranges as `find_iter` reports its matches in `text`: each starts no
/// later than it ends, both ends fall on character boundaries, and each
/// match starts no earlier than the one before it ends (successive,
/// non-overlapping).
pub open spec fn well_formed_matches(text: Seq<char>, m: Seq<(usize, usize)>) -> bool {
    &&& forall|i: int|
        0 <= i < m.len() ==> {
            let r = #[trigger] m[i];
            &&& r.0 <= r.1
            &&& on_char_boundary(text, r.0 as int)
            &&& on_char_boundary(text, r.1 as int)
        }
    &&& forall|i: int| 0 < i < m.len() ==> m[i - 1].1 <= #[trigger] m[i].0
}

/// `regex::Regex::new(pattern)` followed by `find_iter(haystack)`, each match
/// reduced to its byte range `(start(), end())`. The regex crate documents
/// that `start() <= end()`, that both fall on character boundaries of the
/// haystack, and that `find_iter` yields successive non-overlapping matches.
/// Every match of `WORD_PATTERN` is at least one character long: the pattern
/// opens with `[^\W_]+`, one or more characters of a class. Which ranges
/// come back is left to the name `regex_matches`.
#[verifier::external_body]
fn find_matches(pattern: &str, haystack: &str) -> (r: Option<Vec<(usize, usize)>>)
    ensures
        r is Some <==> regex_matches(pattern@, haystack@) is Some,
        r is Some ==> r->Some_0@ == regex_matches(pattern@, haystack@)->Some_0,
        r is Some ==> well_formed_matches(haystack@, r->Some_0@),
        r is Some && pattern@ == WORD_PATTERN@ ==> forall|i: int|
            0 <= i < r->Some_0@.len() ==> #[trigger] r->Some_0@[i].0 < r->Some_0@[i].1,
{
    match regex::Regex::new(pattern) {
        Ok(re) => Some(re.find_iter(haystack).map(|m| (m.start(), m.end())).collect()),
        Err(_) => None,
    }
}

fn utf8_len(c: char) -> (w: usize)
    ensures
        w == utf8_width(c),
{
    let u = c as u32;
    if u < 0x80 {
        1
    } else if u < 0x800 {
        2
    } else if u < 0x10000 {
        3
    } else {
        4
    }
}

/// The character index of byte offset `b` in `v`.
fn char_index_of(v: &Vec<char>, b: usize) -> (k: usize)
    requires
        on_char_boundary(v@, b as int),
    ensures
        k <= v@.len(),
        utf8_offset(v@, k as int) == b,
        k == char_index(v@, b as int),
{
    let ghost target = choose|t: int| 0 <= t <= v@.len() && utf8_offset(v@, t) == b;
    let n = v.len();
    let mut k: usize = 0;
    let mut acc: usize = 0;
    while acc < b
        invariant
            0 <= target <= n,
            n == v@.len(),
            utf8_offset(v@, target) == b,
            k <= target,
            acc == utf8_offset(v@, k as int),
            acc <= b,
        decreases b - acc,
    {
        proof {
            if k >= target {
                lemma_offset_increases(v@, target, k as int);
            }
            assert(k < target);
            lemma_offset_increases(v@, k + 1, target);
        }
        let w = utf8_len(v[k]);
        acc = acc + w;
        k = k + 1;
    }
    proof {
        if k < target {
            lemma_offset_increases(v@, k as int, target);
        }
        lemma_char_index(v@, b as int, k as int);
    }
    k
}

/// Token `t`, the `j`-th, is the word the match `m` found in `text`: its
/// index, the characters the match covers, and their character offsets.
pub open spec fn word_token(text: Seq<char>, m: (usize, usize), t: (i64, String, i64, i64), j: int) -> bool {
    let ks = char_index(text, m.0 as int);
    let ke = char_index(text, m.1 as int);
    &&& 0 <= ks <= ke <= text.len()
    &&& utf8_offset(text, ks) == m.0
    &&& utf8_offset(text, ke) == m.1
    &&& t.0 == j as i64
    &&& t.1@ == text.subrange(ks, ke)
    &&& t.2 == ks as i64
    &&& t.3 == ke as i64
}

/// `r` is the tokenization of `text`: one token per match of
/// `WORD_PATTERN`, in order (none if the pattern were not to compile).
pub open spec fn tokens_of(text: Seq<char>, r: Seq<(i64, String, i64, i64)>) -> bool {
    match regex_matches(WORD_PATTERN@, text) {
        None => r.len() == 0,
        Some(m) => {
            &&& r.len() == m.len()
            &&& forall|i: int| 0 <= i < m.len() ==> word_token(text, m[i], #[trigger] r[i], i)
        },
    }
}

/// The tokens of a verse: `(idx, surface, char_start, char_end)` per word
/// that `WORD_PATTERN` finds, in order.
///
/// Offsets are in characters, not bytes, because readers slice the verse text
/// with them; every offset pair slices back to exactly its surface.
pub fn tokenize(text: &str) -> (r: Vec<(i64, String, i64, i64)>)
    ensures
        tokens_of(text@, r@),
        text@.len() <= i64::MAX ==> forall|k: int| 0 < k < r@.len() ==> r@[k - 1].3 <= #[trigger] r@[k].2,
        text@.len() <= i64::MAX ==> forall|k: int| 0 <= k < r@.len() ==> #[trigger] r@[k].2 < r@[k].3,
{
    match find_matches(WORD_PATTERN, text) {
        None => Vec::new(),
        Some(matches) => tokens_from_matches(text, &matches),
    }
}

/// A match that starts where or after an earlier one ends gives a token that
/// starts where or after the earlier token ends.
proof fn lemma_later_match_later_token(
    text: Seq<char>,
    m0: (usize, usize),
    m1: (usize, usize),
    t0: (i64, String, i64, i64),
    ks: int,
)
    requires
        word_token(text, m0, t0, t0.0 as int),
        0 <= ks <= text.len(),
        utf8_offset(text, ks) == m1.0,
        m0.1 <= m1.0,
    ensures
        t0.3 <= ks,
        m0.1 < m1.0 && text.len() <= i64::MAX ==> t0.3 < ks,
{
    let ke = char_index(text, m0.1 as int);
    if ke >= ks {
        lemma_offset_increases(text, ks, ke);
    }
}

/// A non-empty match gives a non-empty token.
proof fn lemma_nonempty_match_nonempty_token(text: Seq<char>, m: (usize, usize), t: (i64, String, i64, i64), j: int)
    requires
        word_token(text, m, t, j),
        m.0 < m.1,
        text.len() <= i64::MAX,
    ensures
        t.2 < t.3,
{
    let ks = char_index(text, m.0 as int);
    let ke = char_index(text, m.1 as int);
    if ke <= ks {
        lemma_offset_increases(text, ke, ks);
    }
}

/// The tokens for the word matches `matches` (byte ranges) in `text`: the
/// `i`-th token is the `i`-th match, with its characters and character
/// offsets. Tokens come in text order and do not overlap (stated where the
/// offsets fit the `i64` they are stored as).
pub fn tokens_from_matches(text: &str, matches: &Vec<(usize, usize)>) -> (r: Vec<(i64, String, i64, i64)>)
    requires
        well_formed_matches(text@, matches@),
    ensures
        r@.len() == matches@.len(),
        forall|j: int| 0 <= j < matches@.len() ==> word_token(text@, matches@[j], #[trigger] r@[j], j),
        text@.len() <= i64::MAX ==> forall|k: int| 0 < k < r@.len() ==> r@[k - 1].3 <= #[trigger] r@[k].2,
        text@.len() <= i64::MAX && (forall|j: int| 0 <= j < matches@.len() ==> #[trigger] matches@[j].0
            < matches@[j].1) ==> forall|k: int| 0 <= k < r@.len() ==> #[trigger] r@[k].2 < r@[k].3,
        text@.len() <= i64::MAX && (forall|j: int| 0 < j < matches@.len() ==> matches@[j - 1].1
            < #[trigger] matches@[j].0) ==> forall|k: int| 0 < k < r@.len() ==> r@[k - 1].3
            < #[trigger] r@[k].2,
{
    let v = chars_of(text);
    let mut out: Vec<(i64, String, i64, i64)> = Vec::new();
    let mut i: usize = 0;
    while i < matches.len()
        invariant
            v@ == text@,
            well_formed_matches(text@, matches@),
            i <= matches@.len(),
            out@.len() == i,
            forall|j: int|
                0 <= j < i ==> word_token(text@, matches@[j], #[trigger] out@[j], j),
            text@.len() <= i64::MAX ==> forall|k: int| 0 < k < i ==> out@[k - 1].3 <= #[trigger] out@[k].2,
        decreases matches@.len() - i,
    {
        let (b0, b1) = matches[i];
        assert(matches@[i as int].0 <= matches@[i as int].1);
        let ks = char_index_of(&v, b0);
        let ke = char_index_of(&v, b1);
        proof {
            if ks > ke {
                lemma_offset_increases(v@, ke as int, ks as int);
            }
            if i > 0 {
                lemma_later_match_later_token(text@, matches@[i - 1], matches@[i as int], out@[i - 1], ks as int);
            }
        }
        let surface = string_from_chars(&v, ks, ke);
        let ghost prev = out@;
        out.push((i as i64, surface, ks as i64, ke as i64));
        assert forall|j: int| 0 <= j < i + 1 implies word_token(text@, matches@[j], #[trigger] out@[j], j) by {
            if j < i {
                assert(out@[j] == prev[j]);
            }
        }
        assert forall|k: int| text@.len() <= i64::MAX && 0 < k < i + 1 implies out@[k - 1].3 <= #[trigger] out@[k].2 by {
            assert(out@[k - 1] == prev[k - 1]);
            if k < i {
                assert(out@[k] == prev[k]);
            }
        }
        i = i + 1;
    }
    proof {
        if text@.len() <= i64::MAX {
            if forall|j: int| 0 <= j < matches@.len() ==> #[trigger] matches@[j].0 < matches@[j].1 {
                assert forall|k: int| 0 <= k < out@.len() implies #[trigger] out@[k].2 < out@[k].3 by {
                    lemma_nonempty_match_nonempty_token(text@, matches@[k], out@[k], k);
                }
            }
            if forall|j: int| 0 < j < matches@.len() ==> matches@[j - 1].1 < #[trigger] matches@[j].0 {
                assert forall|k: int| 0 < k < out@.len() implies out@[k - 1].3 < #[trigger] out@[k].2 by {
                    assert(word_token(text@, matches@[k], out@[k], k));
                    assert(word_token(text@, matches@[k - 1], out@[k - 1], k - 1));
                    lemma_later_match_later_token(
                        text@,
                        matches@[k - 1],
                        matches@[k],
                        out@[k - 1],
                        char_index(text@, matches@[k].0 as int),
                    );
                }
            }
        }
    }
    out
}

// ---------------------------------------------------------------------------
// The registry
// ---------------------------------------------------------------------------

/// One entry in the shipped pack registry.
#[derive(Debug)]
pub struct PackEntry {
    pub abbrev: String,
    pub name: String,
    pub slug: String,
    pub language: String,
    pub license: String,
    pub year: String,
    pub versification: String,
    pub blurb: String,
}

pub ghost struct PackEntryView {
    pub abbrev: Seq<char>,
    pub name: Seq<char>,
    pub slug: Seq<char>,
    pub language: Seq<char>,
    pub license: Seq<char>,
    pub year: Seq<char>,
    pub versification: Seq<char>,
    pub blurb: Seq<char>,
}

impl View for PackEntry {
    type V = PackEntryView;

    open spec fn view(&self) -> PackEntryView {
        PackEntryView {
            abbrev: self.abbrev@,
            name: self.name@,
            slug: self.slug@,
            language: self.language@,
            license: self.license@,
            year: self.year@,
            versification: self.versification@,
            blurb: self.blurb@,
        }
    }
}

impl PackEntry {
    /// A field-by-field copy.
    pub fn copy(&self) -> (r: PackEntry)
        ensures
            r@ == self@,
    {
        PackEntry {
            abbrev: self.abbrev.clone(),
            name: self.name.clone(),
            slug: self.slug.clone(),
            language: self.language.clone(),
            license: self.license.clone(),
            year: self.year.clone(),
            versification: self.versification.clone(),
            blurb: self.blurb.clone(),
        }
    }
}

/// The first registry entry with abbreviation `abbrev`, if any.
pub open spec fn first_with_abbrev(registry: Seq<PackEntry>, abbrev: Seq<char>) -> Option<int> {
    if exists|i: int| 0 <= i < registry.len() && #[trigger] registry[i].abbrev@ == abbrev {
        Some(
            choose|i: int|
                0 <= i < registry.len() && #[trigger] registry[i].abbrev@ == abbrev && forall|j: int|
                    0 <= j < i ==> #[trigger] registry[j].abbrev@ != abbrev,
        )
    } else {
        None
    }
}

/// The registry entry for a pack, looked up by its abbreviation.
pub fn find_entry(registry: &Vec<PackEntry>, abbrev: &str) -> (r: Result<PackEntry, String>)
    ensures
        match r {
            Ok(e) => exists|i: int|
                0 <= i < registry@.len() && #[trigger] registry@[i].abbrev@ == abbrev@ && e@
                    == registry@[i]@ && forall|j: int|
                    0 <= j < i ==> #[trigger] registry@[j].abbrev@ != abbrev@,
            Err(msg) => (forall|i: int|
                0 <= i < registry@.len() ==> #[trigger] registry@[i].abbrev@ != abbrev@) && msg@
                == "no pack '"@ + abbrev@ + "' in the registry"@,
        },
{
    let mut i: usize = 0;
    while i < registry.len()
        invariant
            i <= registry@.len(),
            forall|j: int| 0 <= j < i ==> #[trigger] registry@[j].abbrev@ != abbrev@,
        decreases registry@.len() - i,
    {
        if crate::text::same_text(registry[i].abbrev.as_str(), abbrev) {
            return Ok(registry[i].copy());
        }
        i = i + 1;
    }
    let mut msg = "no pack '".to_owned();
    msg.append(abbrev);
    msg.append("' in the registry");
    Err(msg)
}

/// A registry entry plus its local install state.
#[derive(Debug)]
pub struct Pack {
    pub entry: PackEntry,
    pub installed: bool,
    pub translation_id: Option<i64>,
    pub verse_count: i64,
}

/// An entry's install state from what is stored for its translation: the
/// translation's id and how many verses it has (`None`: nothing stored). A
/// pack is installed exactly when it has text.
pub fn pack_status(entry: PackEntry, stored: Option<(Option<i64>, i64)>) -> (r: Pack)
    ensures
        r.entry == entry,
        stored is None ==> r.translation_id is None && r.verse_count == 0,
        stored is Some ==> r.translation_id == stored->Some_0.0 && r.verse_count
            == stored->Some_0.1,
        r.installed == (r.verse_count > 0),
{
    let (translation_id, verse_count) = match stored {
        Some(row) => row,
        None => (None, 0),
    };
    Pack { entry, installed: verse_count > 0, translation_id, verse_count }
}

/// The translation whose text removing a pack clears: its id, looked up by
/// the pack's abbreviation. Removing a pack that was never installed is
/// refused; the translation row itself is kept either way.
pub fn removal_target(abbrev: &str, translation_id: Option<i64>) -> (r: Result<i64, String>)
    ensures
        translation_id is Some ==> r is Ok && r->Ok_0 == translation_id->Some_0,
        translation_id is None ==> r is Err && r->Err_0@ == "'"@ + abbrev@ + "' is not installed"@,
{
    match translation_id {
        Some(id) => Ok(id),
        None => {
            let mut e = "'".to_owned();
            e.append(abbrev);
            e.append("' is not installed");
            Err(e)
        },
    }
}

// ---------------------------------------------------------------------------
// Downloaded books
// ---------------------------------------------------------------------------

/// A field of the downloaded payload that should hold a number: the source
/// writes chapter and verse numbers either as JSON numbers or as strings.
#[derive(Debug)]
pub enum JsonScalar {
    /// A JSON number that is an integer in `i64` range.
    Int(i64),
    /// A JSON string.
    Text(String),
    /// Anything else (another number, `null`, an array, an object, ...).
    Other,
}

/// One verse as downloaded.
#[derive(Debug)]
pub struct VersePayload {
    /// The `verse` field, if present.
    pub verse: Option<JsonScalar>,
    /// The `text` field, when it is present and a string.
    pub text: Option<String>,
}

/// One chapter as downloaded.
#[derive(Debug)]
pub struct ChapterPayload {
    /// The `chapter` field, if present.
    pub chapter: Option<JsonScalar>,
    /// The `verses` field, when it is present and an array.
    pub verses: Option<Vec<VersePayload>>,
}

/// One book as downloaded.
#[derive(Debug)]
pub struct BookPayload {
    /// The `chapters` field, when it is present and an array.
    pub chapters: Option<Vec<ChapterPayload>>,
}

/// A chapter or verse number as read from the payload.
pub open spec fn scalar_number(f: Option<JsonScalar>) -> Option<int> {
    match f {
        Some(JsonScalar::Int(n)) => Some(n as int),
        Some(JsonScalar::Text(s)) => spec_parse_i64(s@),
        _ => None,
    }
}

/// The text of a verse, trimmed; a verse without text reads as empty.
pub open spec fn verse_text(v: VersePayload) -> Seq<char> {
    match v.text {
        Some(t) => trim(t@),
        None => seq![],
    }
}

/// The `(chapter, verse, text)` rows of one chapter's verses, or `None` when
/// a verse number is missing or unreadable.
pub open spec fn chapter_rows(chapter: int, verses: Seq<VersePayload>) -> Option<
    Seq<(int, int, Seq<char>)>,
>
    decreases verses.len(),
{
    if verses.len() == 0 {
        Some(seq![])
    } else {
        match (chapter_rows(chapter, verses.drop_last()), scalar_number(verses.last().verse)) {
            (Some(rows), Some(n)) => Some(rows.push((chapter, n, verse_text(verses.last())))),
            _ => None,
        }
    }
}

/// The rows of a chapter, or `None` when its number or verse list is
/// missing or unreadable.
pub open spec fn chapter_payload_rows(c: ChapterPayload) -> Option<Seq<(int, int, Seq<char>)>> {
    match (scalar_number(c.chapter), c.verses) {
        (Some(n), Some(vs)) => chapter_rows(n, vs@),
        _ => None,
    }
}

/// The `(chapter, verse, text)` rows of a whole book, in payload order, or
/// `None` when the payload does not have the expected shape.
pub open spec fn book_payload_rows(chapters: Seq<ChapterPayload>) -> Option<
    Seq<(int, int, Seq<char>)>,
>
    decreases chapters.len(),
{
    if chapters.len() == 0 {
        Some(seq![])
    } else {
        match (book_payload_rows(chapters.drop_last()), chapter_payload_rows(chapters.last())) {
            (Some(a), Some(b)) => Some(a + b),
            _ => None,
        }
    }
}

/// A chapter's rows follow its verse list: it parses exactly when every
/// verse has a readable number, and then the `k`-th row is the `k`-th verse,
/// with the chapter's number, the verse's number and its trimmed text.
pub proof fn law_chapter_rows_follow_the_verse_list(chapter: int, verses: Seq<VersePayload>)
    ensures
        chapter_rows(chapter, verses) is Some <==> forall|k: int|
            0 <= k < verses.len() ==> #[trigger] scalar_number(verses[k].verse) is Some,
        chapter_rows(chapter, verses) is Some ==> chapter_rows(chapter, verses)->Some_0.len()
            == verses.len() && forall|k: int|
            0 <= k < verses.len() ==> #[trigger] chapter_rows(chapter, verses)->Some_0[k] == (
                chapter,
                scalar_number(verses[k].verse)->Some_0,
                verse_text(verses[k]),
            ),
    decreases verses.len(),
{
    if verses.len() > 0 {
        let d = verses.drop_last();
        law_chapter_rows_follow_the_verse_list(chapter, d);
        assert forall|k: int| 0 <= k < d.len() implies #[trigger] d[k] == verses[k] by {}
        if chapter_rows(chapter, verses) is None && chapter_rows(chapter, d) is None {
            let k = choose|k: int| 0 <= k < d.len() && !(#[trigger] scalar_number(d[k].verse) is Some);
            assert(d[k] == verses[k]);
        }
        if (forall|k: int| 0 <= k < verses.len() ==> #[trigger] scalar_number(verses[k].verse) is Some) {
            assert forall|k: int| 0 <= k < d.len() implies #[trigger] scalar_number(d[k].verse) is Some by {
                assert(d[k] == verses[k]);
            }
            assert(scalar_number(verses[verses.len() - 1].verse) is Some);
        }
        if chapter_rows(chapter, verses) is Some {
            assert forall|k: int| 0 <= k < verses.len() implies #[trigger] scalar_number(verses[k].verse) is Some by {
                if k < d.len() {
                    assert(d[k] == verses[k]);
                }
            }
        }
    }
}

/// A book's rows are its chapters' rows, chapter after chapter: splitting
/// the chapter list anywhere, the whole parses exactly when both parts do,
/// and its rows are the first part's followed by the second's.
pub proof fn law_book_rows_join_in_chapter_order(a: Seq<ChapterPayload>, b: Seq<ChapterPayload>)
    ensures
        book_payload_rows(a + b) is Some <==> (book_payload_rows(a) is Some && book_payload_rows(b) is Some),
        book_payload_rows(a + b) is Some ==> book_payload_rows(a + b)->Some_0 == book_payload_rows(a)->Some_0
            + book_payload_rows(b)->Some_0,
    decreases b.len(),
{
    if b.len() == 0 {
        assert(a + b =~= a);
        assert(book_payload_rows(b) == Some(Seq::<(int, int, Seq<char>)>::empty()));
        if book_payload_rows(a) is Some {
            assert(book_payload_rows(a)->Some_0 + Seq::<(int, int, Seq<char>)>::empty() =~= book_payload_rows(a)->Some_0);
        }
    } else {
        let bd = b.drop_last();
        law_book_rows_join_in_chapter_order(a, bd);
        assert((a + b).drop_last() =~= a + bd);
        assert((a + b).last() == b.last());
        if book_payload_rows(a + b) is Some {
            let ra = book_payload_rows(a)->Some_0;
            let rbd = book_payload_rows(bd)->Some_0;
            let rl = chapter_payload_rows(b.last())->Some_0;
            assert(ra + rbd + rl =~= ra + (rbd + rl));
        }
    }
}

pub open spec fn rows_view(v: Seq<(i64, i64, String)>) -> Seq<(int, int, Seq<char>)> {
    v.map_values(|r: (i64, i64, String)| (r.0 as int, r.1 as int, r.2@))
}

fn scalar_value(f: &Option<JsonScalar>) -> (r: Option<i64>)
    ensures
        match scalar_number(*f) {
            Some(n) => r == Some(n as i64) && i64::MIN <= n <= i64::MAX,
            None => r is None,
        },
{
    match f {
        Some(JsonScalar::Int(n)) => Some(*n),
        Some(JsonScalar::Text(s)) => parse_i64(s.as_str()),
        _ => None,
    }
}

/// Append the rows of one chapter to `out`.
fn push_chapter_rows(chapter: i64, verses: &Vec<VersePayload>, out: &mut Vec<(i64, i64, String)>) -> (ok: bool)
    ensures
        ok == chapter_rows(chapter as int, verses@) is Some,
        ok ==> rows_view(final(out)@) == rows_view(old(out)@) + chapter_rows(chapter as int, verses@)->Some_0,
{
    let ghost start = rows_view(out@);
    let mut i: usize = 0;
    while i < verses.len()
        invariant
            i <= verses@.len(),
            chapter_rows(chapter as int, verses@.take(i as int)) is Some,
            rows_view(out@) == start + chapter_rows(chapter as int, verses@.take(i as int))->Some_0,
        decreases verses@.len() - i,
    {
        proof {
            assert(verses@.take(i + 1).drop_last() =~= verses@.take(i as int));
            assert(verses@.take(i + 1).last() == verses@[i as int]);
        }
        let n = match scalar_value(&verses[i].verse) {
            Some(n) => n,
            None => {
                proof {
                    lemma_chapter_rows_stay_none(chapter as int, verses@, i + 1);
                }
                return false;
            },
        };
        let text = match &verses[i].text {
            Some(t) => trim_text(t.as_str()),
            None => String::new(),
        };
        let ghost before = out@;
        out.push((chapter, n, text));
        proof {
            assert(rows_view(out@) =~= rows_view(before).push((chapter as int, n as int, verse_text(verses@[i as int]))));
        }
        i = i + 1;
    }
    assert(verses@.take(verses@.len() as int) =~= verses@);
    true
}

proof fn lemma_chapter_rows_stay_none(chapter: int, verses: Seq<VersePayload>, k: int)
    requires
        0 <= k <= verses.len(),
        chapter_rows(chapter, verses.take(k)) is None,
    ensures
        chapter_rows(chapter, verses) is None,
    decreases verses.len() - k,
{
    if k < verses.len() {
        assert(verses.take(k + 1).drop_last() =~= verses.take(k));
        lemma_chapter_rows_stay_none(chapter, verses, k + 1);
    } else {
        assert(verses.take(k) =~= verses);
    }
}

proof fn lemma_book_rows_stay_none(chapters: Seq<ChapterPayload>, k: int)
    requires
        0 <= k <= chapters.len(),
        book_payload_rows(chapters.take(k)) is None,
    ensures
        book_payload_rows(chapters) is None,
    decreases chapters.len() - k,
{
    if k < chapters.len() {
        assert(chapters.take(k + 1).drop_last() =~= chapters.take(k));
        lemma_book_rows_stay_none(chapters, k + 1);
    } else {
        assert(chapters.take(k) =~= chapters);
    }
}

/// One book's verses as `(chapter, verse, text)`, read from the downloaded
/// payload: `None` when it does not have the expected shape.
pub fn parse_book(payload: &BookPayload) -> (r: Option<Vec<(i64, i64, String)>>)
    ensures
        match payload.chapters {
            None => r is None,
            Some(chs) => match book_payload_rows(chs@) {
                None => r is None,
                Some(rows) => r is Some && rows_view(r->Some_0@) == rows,
            },
        },
{
    let chapters = match &payload.chapters {
        None => return None,
        Some(chs) => chs,
    };
    let mut out: Vec<(i64, i64, String)> = Vec::new();
    let mut i: usize = 0;
    while i < chapters.len()
        invariant
            i <= chapters@.len(),
            payload.chapters is Some && payload.chapters->Some_0@ == chapters@,
            book_payload_rows(chapters@.take(i as int)) is Some,
            rows_view(out@) == book_payload_rows(chapters@.take(i as int))->Some_0,
        decreases chapters@.len() - i,
    {
        proof {
            assert(chapters@.take(i + 1).drop_last() =~= chapters@.take(i as int));
            assert(chapters@.take(i + 1).last() == chapters@[i as int]);
        }
        let ch = &chapters[i];
        let n = match scalar_value(&ch.chapter) {
            Some(n) => n,
            None => {
                proof {
                    lemma_book_rows_stay_none(chapters@, i + 1);
                }
                return None;
            },
        };
        let verses = match &ch.verses {
            Some(vs) => vs,
            None => {
                proof {
                    lemma_book_rows_stay_none(chapters@, i + 1);
                }
                return None;
            },
        };
        if !push_chapter_rows(n, verses, &mut out) {
            proof {
                lemma_book_rows_stay_none(chapters@, i + 1);
            }
            return None;
        }
        i = i + 1;
    }
    assert(chapters@.take(chapters@.len() as int) =~= chapters@);
    Some(out)
}


// ---------------------------------------------------------------------------
// Rows of an installed book
// ---------------------------------------------------------------------------

/// A verse's translation-independent OSIS id: `"<book>.<chapter>.<verse>"`.
pub open spec fn osis_verse_id(book: Seq<char>, chapter: int, verse: int) -> Seq<char> {
    book + "."@ + decimal(chapter) + "."@ + decimal(verse)
}

/// A verse ready to be stored, with its tokens.
#[derive(Debug)]
pub struct VerseRow {
    pub verse_id: String,
    pub chapter: i64,
    pub verse: i64,
    pub text: String,
    /// Position of the verse in the whole translation.
    pub canonical_order: i64,
    pub tokens: Vec<(i64, String, i64, i64)>,
}

/// `row` stores `v` as the verse at position `order` of the translation.
pub open spec fn verse_row_of(book: Seq<char>, v: (i64, i64, String), order: int, row: VerseRow) -> bool {
    &&& row.verse_id@ == osis_verse_id(book, v.0 as int, v.1 as int)
    &&& row.chapter == v.0
    &&& row.verse == v.1
    &&& row.text@ == v.2@
    &&& row.canonical_order == order
    &&& tokens_of(v.2@, row.tokens@)
}

fn verse_id_of(book_osis: &str, chapter: i64, verse: i64) -> (r: String)
    ensures
        r@ == osis_verse_id(book_osis@, chapter as int, verse as int),
{
    let mut r = book_osis.to_owned();
    r.append(".");
    append_decimal(&mut r, chapter);
    r.append(".");
    append_decimal(&mut r, verse);
    assert(r@ =~= osis_verse_id(book_osis@, chapter as int, verse as int));
    r
}

/// The rows for one downloaded book. `canonical` carries the running verse
/// counter across books: each verse takes the next position.
pub fn book_rows(book_osis: &str, verses: &Vec<(i64, i64, String)>, canonical: &mut i64) -> (rows: Vec<VerseRow>)
    requires
        *old(canonical) + verses@.len() <= i64::MAX,
    ensures
        *final(canonical) == *old(canonical) + verses@.len(),
        rows@.len() == verses@.len(),
        forall|i: int|
            0 <= i < verses@.len() ==> verse_row_of(
                book_osis@,
                verses@[i],
                *old(canonical) + i + 1,
                #[trigger] rows@[i],
            ),
{
    let ghost start = *canonical;
    let mut rows: Vec<VerseRow> = Vec::new();
    let mut i: usize = 0;
    while i < verses.len()
        invariant
            i <= verses@.len(),
            start + verses@.len() <= i64::MAX,
            *canonical == start + i,
            rows@.len() == i,
            forall|j: int|
                0 <= j < i ==> verse_row_of(book_osis@, verses@[j], start + j + 1, #[trigger] rows@[j]),
        decreases verses@.len() - i,
    {
        let (chapter, verse, text) = (verses[i].0, verses[i].1, &verses[i].2);
        *canonical = *canonical + 1;
        let row = VerseRow {
            verse_id: verse_id_of(book_osis, chapter, verse),
            chapter,
            verse,
            text: text.clone(),
            canonical_order: *canonical,
            tokens: tokenize(text.as_str()),
        };
        let ghost before = rows@;
        rows.push(row);
        assert forall|j: int| 0 <= j < i + 1 implies verse_row_of(book_osis@, verses@[j], start + j + 1, #[trigger] rows@[j]) by {
            if j < i {
                assert(rows@[j] == before[j]);
            }
        }
        i = i + 1;
    }
    rows
}

} // verus!
