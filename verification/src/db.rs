//! The reading and annotation model: translations, chapters, anchors, notes
//! and highlights, and the rules that decide what a reader sees.
//!
//! Verse anchors are translation-independent; word anchors belong to the
//! translation they were made in, and a word note read in another
//! translation surfaces on its verse, flagged as degraded, rather than being
//! re-pointed at a word it was never written on.
use vstd::prelude::*;
use vstd::pervasive::VecAdditionalExecFns;
use crate::text::same_text;

verus! {

broadcast use vstd::string::group_string_axioms;

// ---------------------------------------------------------------------------
// Reading payloads
// ---------------------------------------------------------------------------

#[derive(Debug)]
pub struct Translation {
    pub id: i64,
    pub abbrev: String,
    pub name: String,
    pub language: String,
}

#[derive(Debug)]
pub struct Book {
    pub osis: String,
    pub name: String,
    pub testament: String,
    pub canonical_order: i64,
    pub chapter_count: i64,
}

#[derive(Debug)]
pub struct Token {
    pub idx: i64,
    pub surface: String,
    pub char_start: i64,
    pub char_end: i64,
}

#[derive(Debug)]
pub struct Verse {
    pub verse_id: String,
    pub verse: i64,
    pub text: String,
    pub tokens: Vec<Token>,
}

/// Translations that actually have text installed, given each stored
/// translation with its verse count. A removed pack keeps its translation
/// (so word anchors written against it still resolve) but has no verses, and
/// must not appear in the reader.
pub fn list_translations(stored: Vec<(Translation, i64)>) -> (r: Vec<Translation>)
    ensures
        r@ == stored@.filter(|t: (Translation, i64)| t.1 > 0).map_values(
            |t: (Translation, i64)| t.0,
        ),
{
    let ghost all = stored@;
    let n = stored.len();
    let mut r: Vec<Translation> = Vec::new();
    let mut k: usize = 0;
    let mut rest = stored;
    while rest.len() > 0
        invariant
            k + rest@.len() == all.len(),
            all.len() == n,
            rest@ == all.skip(k as int),
            r@ == all.take(k as int).filter(|t: (Translation, i64)| t.1 > 0).map_values(
                |t: (Translation, i64)| t.0,
            ),
        decreases rest@.len(),
    {
        let (t, count) = rest.remove(0);
        proof {
            assert(all.take(k + 1) =~= all.take(k as int).push(all[k as int]));
            all.take(k as int).lemma_filter_push(all[k as int], |t: (Translation, i64)| t.1 > 0);
        }
        let ghost before = r@;
        if count > 0 {
            r.push(t);
        }
        proof {
            let p = |t: (Translation, i64)| t.1 > 0;
            let m = |t: (Translation, i64)| t.0;
            if p(all[k as int]) {
                assert(all.take(k as int).filter(p).push(all[k as int]).map_values(m)
                    =~= all.take(k as int).filter(p).map_values(m).push(all[k as int].0));
            }
        }
        k = k + 1;
        assert(rest@ =~= all.skip(k as int));
        assert(r@ =~= all.take(k as int).filter(|t: (Translation, i64)| t.1 > 0).map_values(
            |t: (Translation, i64)| t.0,
        ));
    }
    assert(all.take(k as int) =~= all);
    r
}


// ---------------------------------------------------------------------------
// Anchors
// ---------------------------------------------------------------------------

/// Where a note or highlight is attached: a verse, or one word of a verse in
/// one translation (with a snapshot of the word's surface).
#[derive(Debug)]
pub struct Anchor {
    /// `"verse"` or `"word"`.
    pub anchor_type: String,
    pub verse_id: String,
    pub translation_id: Option<i64>,
    pub token_idx: Option<i64>,
    pub surface: Option<String>,
}

pub ghost struct AnchorView {
    pub anchor_type: Seq<char>,
    pub verse_id: Seq<char>,
    pub translation_id: Option<i64>,
    pub token_idx: Option<i64>,
    pub surface: Option<Seq<char>>,
}

pub open spec fn opt_text(s: Option<String>) -> Option<Seq<char>> {
    match s {
        Some(t) => Some(t@),
        None => None,
    }
}

impl View for Anchor {
    type V = AnchorView;

    open spec fn view(&self) -> AnchorView {
        AnchorView {
            anchor_type: self.anchor_type@,
            verse_id: self.verse_id@,
            translation_id: self.translation_id,
            token_idx: self.token_idx,
            surface: opt_text(self.surface),
        }
    }
}

pub open spec fn is_word_anchor(a: AnchorView) -> bool {
    a.anchor_type == "word"@
}

pub open spec fn is_verse_anchor(a: AnchorView) -> bool {
    a.anchor_type == "verse"@
}

/// The form an anchor is stored in. A verse anchor keeps only its verse, so
/// a verse note never becomes bound to the translation it was written in; a
/// word anchor must name its translation and token. Anything else is refused.
pub open spec fn normalized_anchor(a: AnchorView) -> Result<AnchorView, Seq<char>> {
    if is_verse_anchor(a) {
        Ok(AnchorView { translation_id: None, token_idx: None, surface: None, ..a })
    } else if is_word_anchor(a) {
        if a.translation_id is None {
            Err("word anchor requires a translation_id"@)
        } else if a.token_idx is None {
            Err("word anchor requires a token_idx"@)
        } else {
            Ok(a)
        }
    } else {
        Err("unknown anchor_type '"@ + a.anchor_type + "'"@)
    }
}

/// An anchor in its stored form.
pub open spec fn normal_anchor(a: AnchorView) -> bool {
    ||| is_verse_anchor(a) && a.translation_id is None && a.token_idx is None && a.surface is None
    ||| is_word_anchor(a) && a.translation_id is Some && a.token_idx is Some
}

impl Anchor {
    /// Whether this is a word anchor.
    pub fn is_word(&self) -> (r: bool)
        ensures
            r == is_word_anchor(self@),
    {
        same_text(self.anchor_type.as_str(), "word")
    }

    /// This anchor in the form it is stored in; see `normalized_anchor`.
    pub fn normalized(self) -> (r: Result<Anchor, String>)
        ensures
            match normalized_anchor(self@) {
                Ok(a) => r is Ok && r->Ok_0@ == a,
                Err(m) => r is Err && r->Err_0@ == m,
            },
    {
        if same_text(self.anchor_type.as_str(), "verse") {
            Ok(Anchor {
                anchor_type: self.anchor_type,
                verse_id: self.verse_id,
                translation_id: None,
                token_idx: None,
                surface: None,
            })
        } else if same_text(self.anchor_type.as_str(), "word") {
            if self.translation_id.is_none() {
                return Err("word anchor requires a translation_id".to_owned());
            }
            if self.token_idx.is_none() {
                return Err("word anchor requires a token_idx".to_owned());
            }
            Ok(self)
        } else {
            let mut e = "unknown anchor_type '".to_owned();
            e.append(self.anchor_type.as_str());
            e.append("'");
            Err(e)
        }
    }
}

/// The two anchor kinds have different names.
proof fn lemma_word_is_not_verse()
    ensures
        "word"@ != "verse"@,
{
    reveal_strlit("word");
    reveal_strlit("verse");
    assert("word"@[0] != "verse"@[0]);
}

/// Normalizing gives an anchor in its stored form, and leaves an anchor
/// already in that form as it is. In particular a verse anchor never keeps
/// the translation it was written in.
pub proof fn law_normalizing_is_idempotent(a: AnchorView)
    ensures
        normalized_anchor(a) is Ok ==> normal_anchor(normalized_anchor(a)->Ok_0),
        normalized_anchor(a) is Ok ==> normalized_anchor(normalized_anchor(a)->Ok_0) == normalized_anchor(a),
        normal_anchor(a) ==> normalized_anchor(a) == Ok::<AnchorView, Seq<char>>(a),
        is_verse_anchor(a) ==> normalized_anchor(a) is Ok && normalized_anchor(a)->Ok_0.translation_id is None,
{
    lemma_word_is_not_verse();
}

/// The anchor a new note is stored with: none for a general study note,
/// otherwise the anchor in its stored form; a malformed anchor is refused.
pub fn note_anchor(anchor: Option<Anchor>) -> (r: Result<Option<Anchor>, String>)
    ensures
        anchor is None ==> r is Ok && r->Ok_0 is None,
        anchor is Some ==> match normalized_anchor(anchor->Some_0@) {
            Ok(a) => r is Ok && r->Ok_0 is Some && r->Ok_0->Some_0@ == a,
            Err(m) => r is Err && r->Err_0@ == m,
        },
{
    match anchor {
        None => Ok(None),
        Some(a) => match a.normalized() {
            Ok(n) => Ok(Some(n)),
            Err(e) => Err(e),
        },
    }
}

// ---------------------------------------------------------------------------
// Notes
// ---------------------------------------------------------------------------

/// A note with its anchor, as the reader shows it.
#[derive(Debug)]
pub struct Note {
    pub note_id: i64,
    pub title: Option<String>,
    pub body: String,
    pub created_at: String,
    pub updated_at: String,
    pub anchor_type: String,
    pub verse_id: String,
    pub translation_id: Option<i64>,
    pub token_idx: Option<i64>,
    pub surface: Option<String>,
    /// Abbreviation of the translation a word note was written in.
    pub origin_abbrev: Option<String>,
    /// A word note shown at verse level because the reader is in another
    /// translation than the one it was written in.
    pub degraded: bool,
}

/// A word note read outside the translation it was written in.
pub open spec fn note_degraded(anchor_type: Seq<char>, translation_id: Option<i64>, active: i64) -> bool {
    anchor_type == "word"@ && translation_id != Some(active)
}

/// `n`, with its degraded flag set for a reader in translation `active`.
pub open spec fn as_read_in(n: Note, active: i64) -> Note {
    Note { degraded: note_degraded(n.anchor_type@, n.translation_id, active), ..n }
}

/// Whether the note `n` is listed at anchor `a` for a reader in translation
/// `active`. A word anchor lists the notes written on that exact word in
/// that exact translation. A verse anchor lists the verse's own notes plus
/// the word notes made in another translation: those cannot be re-anchored
/// to a text they were never written against, so they surface on the verse.
pub open spec fn note_listed(a: AnchorView, n: Note, active: i64) -> bool {
    if is_word_anchor(a) {
        &&& n.anchor_type@ == "word"@
        &&& n.verse_id@ == a.verse_id
        &&& a.translation_id is Some && n.translation_id == a.translation_id
        &&& a.token_idx is Some && n.token_idx == a.token_idx
    } else {
        &&& n.verse_id@ == a.verse_id
        &&& (n.anchor_type@ == "verse"@ || (n.anchor_type@ == "word"@ && n.translation_id is Some
            && n.translation_id->Some_0 != active))
    }
}

/// Which notes an anchor lists. At a word, only the notes on that very word:
/// same verse, same translation, same token. At a verse, every note on the
/// verse itself, and a word note of that verse exactly when it was written in
/// another translation than the one being read. Reading a note changes only
/// its degraded flag, which is set exactly for a word note from another
/// translation.
pub proof fn law_notes_are_listed_where_they_were_written(a: AnchorView, n: Note, active: i64)
    ensures
        note_listed(a, n, active) ==> n.verse_id@ == a.verse_id,
        is_word_anchor(a) && note_listed(a, n, active) ==> n.anchor_type@ == "word"@ && a.translation_id
            is Some && n.translation_id == a.translation_id && a.token_idx is Some && n.token_idx
            == a.token_idx,
        is_verse_anchor(a) && n.verse_id@ == a.verse_id && n.anchor_type@ == "verse"@ ==> note_listed(
            a,
            n,
            active,
        ),
        is_verse_anchor(a) && n.verse_id@ == a.verse_id && n.anchor_type@ == "word"@ && n.translation_id
            is Some ==> (note_listed(a, n, active) <==> n.translation_id != Some(active)),
        as_read_in(n, active) == (Note { degraded: as_read_in(n, active).degraded, ..n }),
        as_read_in(n, active).degraded <==> (n.anchor_type@ == "word"@ && n.translation_id != Some(
            active,
        )),
{
    lemma_word_is_not_verse();
}

fn note_is_listed(a: &Anchor, n: &Note, active: i64) -> (r: bool)
    ensures
        r == note_listed(a@, *n, active),
{
    if a.is_word() {
        same_text(n.anchor_type.as_str(), "word") && same_text(n.verse_id.as_str(), a.verse_id.as_str())
            && match (a.translation_id, n.translation_id) {
            (Some(x), Some(y)) => x == y,
            _ => false,
        } && match (a.token_idx, n.token_idx) {
            (Some(x), Some(y)) => x == y,
            _ => false,
        }
    } else {
        same_text(n.verse_id.as_str(), a.verse_id.as_str()) && (same_text(n.anchor_type.as_str(), "verse") || (
        same_text(n.anchor_type.as_str(), "word") && match n.translation_id {
            Some(t) => t != active,
            None => false,
        }))
    }
}

/// The notes listed at an anchor for a reader in translation `active`,
/// chosen from `candidates` (the notes anchored in the anchor's verse, oldest
/// first), each flagged degraded when it is a word note read elsewhere.
/// A malformed anchor is refused.
pub fn list_notes(anchor: Anchor, candidates: Vec<Note>, active_translation_id: i64) -> (r: Result<
    Vec<Note>,
    String,
>)
    ensures
        match normalized_anchor(anchor@) {
            Err(m) => r is Err && r->Err_0@ == m,
            Ok(a) => r is Ok && r->Ok_0@ == candidates@.filter(
                |n: Note| note_listed(a, n, active_translation_id),
            ).map_values(|n: Note| as_read_in(n, active_translation_id)),
        },
{
    let anchor = match anchor.normalized() {
        Ok(a) => a,
        Err(e) => return Err(e),
    };
    let ghost all = candidates@;
    let ghost a = anchor@;
    let n = candidates.len();
    let mut out: Vec<Note> = Vec::new();
    let mut k: usize = 0;
    let mut rest = candidates;
    while rest.len() > 0
        invariant
            k + rest@.len() == all.len(),
            all.len() == n,
            a == anchor@,
            rest@ == all.skip(k as int),
            out@ == all.take(k as int).filter(|n: Note| note_listed(a, n, active_translation_id)).map_values(
                |n: Note| as_read_in(n, active_translation_id),
            ),
        decreases rest@.len(),
    {
        let mut note = rest.remove(0);
        let ghost orig = note;
        let ghost p = |n: Note| note_listed(a, n, active_translation_id);
        let ghost m = |n: Note| as_read_in(n, active_translation_id);
        proof {
            assert(all.take(k + 1) =~= all.take(k as int).push(all[k as int]));
            all.take(k as int).lemma_filter_push(all[k as int], p);
        }
        if note_is_listed(&anchor, &note, active_translation_id) {
            let word = same_text(note.anchor_type.as_str(), "word");
            let here = match note.translation_id {
                Some(t) => t == active_translation_id,
                None => false,
            };
            note.degraded = word && !here;
            assert(note == as_read_in(orig, active_translation_id));
            let ghost before = out@;
            out.push(note);
            proof {
                assert(all.take(k as int).filter(p).push(all[k as int]).map_values(m)
                    =~= before.push(m(all[k as int])));
            }
        }
        k = k + 1;
        assert(rest@ =~= all.skip(k as int));
    }
    assert(all.take(k as int) =~= all);
    Ok(out)
}


/// A word note surfaces on its verse exactly when it is read in another
/// translation than its own, and is flagged degraded there; on its own word,
/// in its own translation, it is not degraded. A verse note shows on its
/// verse in every translation, never degraded.
pub proof fn law_word_notes_degrade_outside_their_translation(a: AnchorView, n: Note, active: i64)
    requires
        normal_anchor(a),
    ensures
        is_verse_anchor(a) && n.verse_id@ == a.verse_id && n.anchor_type@ == "word"@
            && n.translation_id is Some ==> (note_listed(a, n, active) <==> n.translation_id != Some(
            active,
        )),
        is_verse_anchor(a) && note_listed(a, n, active) && n.anchor_type@ == "word"@ ==> as_read_in(
            n,
            active,
        ).degraded,
        is_word_anchor(a) && note_listed(a, n, active) && a.translation_id == Some(active) ==> !as_read_in(
            n,
            active,
        ).degraded,
        is_verse_anchor(a) && n.verse_id@ == a.verse_id && n.anchor_type@ == "verse"@ ==> note_listed(
            a,
            n,
            active,
        ) && !as_read_in(n, active).degraded,
{
    lemma_word_is_not_verse();
}

// ---------------------------------------------------------------------------
// Highlights
// ---------------------------------------------------------------------------

/// A highlight: one colour at one anchor.
#[derive(Debug)]
pub struct Highlight {
    pub id: i64,
    pub anchor_type: String,
    pub verse_id: String,
    pub translation_id: Option<i64>,
    pub token_idx: Option<i64>,
    pub color: String,
}

/// Whether highlight `h` sits at anchor `a`: for a word anchor, the same
/// word of the same verse in the same translation; for a verse anchor, the
/// verse's own highlight.
pub open spec fn highlight_at(a: AnchorView, h: Highlight) -> bool {
    if is_word_anchor(a) {
        &&& h.anchor_type@ == "word"@
        &&& h.verse_id@ == a.verse_id
        &&& a.translation_id is Some && h.translation_id == a.translation_id
        &&& a.token_idx is Some && h.token_idx == a.token_idx
    } else {
        h.anchor_type@ == "verse"@ && h.verse_id@ == a.verse_id
    }
}

/// A highlight is at an anchor only when it marks the same place: the same
/// verse and kind, and for a word the same translation and the same token,
/// so highlighting one word never touches another word of the verse. The
/// row placed at an anchor in stored form is at it.
pub proof fn law_a_highlight_is_at_its_own_place_only(a: AnchorView, h: Highlight, color: Seq<char>)
    ensures
        highlight_at(a, h) ==> h.verse_id@ == a.verse_id,
        is_word_anchor(a) && highlight_at(a, h) ==> h.anchor_type@ == "word"@ && a.translation_id is Some
            && h.translation_id == a.translation_id && a.token_idx is Some && h.token_idx == a.token_idx,
        is_verse_anchor(a) && highlight_at(a, h) ==> h.anchor_type@ == "verse"@,
        is_word_anchor(a) && h.anchor_type@ == a.anchor_type && h.verse_id@ == a.verse_id
            && h.translation_id == a.translation_id && h.token_idx != a.token_idx ==> !highlight_at(a, h),
        normal_anchor(a) && placed(a, color, h) ==> highlight_at(a, h),
{
    lemma_word_is_not_verse();
}

/// Highlight `h` is the one placed at anchor `a` in colour `color`.
pub open spec fn placed(a: AnchorView, color: Seq<char>, h: Highlight) -> bool {
    &&& h.anchor_type@ == a.anchor_type
    &&& h.verse_id@ == a.verse_id
    &&& h.translation_id == a.translation_id
    &&& h.token_idx == a.token_idx
    &&& h.color@ == color
}

/// The highlights left after setting `added` at anchor `a`: every highlight
/// at `a` is replaced.
pub open spec fn after_setting(existing: Seq<Highlight>, a: AnchorView, added: Highlight) -> Seq<
    Highlight,
> {
    existing.filter(|h: Highlight| !highlight_at(a, h)).push(added)
}

/// The highlights left after clearing anchor `a`.
pub open spec fn after_clearing(existing: Seq<Highlight>, a: AnchorView) -> Seq<Highlight> {
    existing.filter(|h: Highlight| !highlight_at(a, h))
}

fn highlight_is_at(a: &Anchor, h: &Highlight) -> (r: bool)
    ensures
        r == highlight_at(a@, *h),
{
    if a.is_word() {
        same_text(h.anchor_type.as_str(), "word") && same_text(h.verse_id.as_str(), a.verse_id.as_str())
            && match (a.translation_id, h.translation_id) {
            (Some(x), Some(y)) => x == y,
            _ => false,
        } && match (a.token_idx, h.token_idx) {
            (Some(x), Some(y)) => x == y,
            _ => false,
        }
    } else {
        same_text(h.anchor_type.as_str(), "verse") && same_text(h.verse_id.as_str(), a.verse_id.as_str())
    }
}

/// The ids of the highlights at an anchor: the ones setting or clearing a
/// highlight there removes.
pub fn highlights_at(anchor: &Anchor, existing: &Vec<Highlight>) -> (ids: Vec<i64>)
    ensures
        ids@ == existing@.filter(|h: Highlight| highlight_at(anchor@, h)).map_values(|h: Highlight| h.id),
{
    let ghost p = |h: Highlight| highlight_at(anchor@, h);
    let ghost m = |h: Highlight| h.id;
    let mut ids: Vec<i64> = Vec::new();
    let mut i: usize = 0;
    while i < existing.len()
        invariant
            i <= existing@.len(),
            p == |h: Highlight| highlight_at(anchor@, h),
            m == |h: Highlight| h.id,
            ids@ == existing@.take(i as int).filter(p).map_values(m),
        decreases existing@.len() - i,
    {
        proof {
            assert(existing@.take(i + 1) =~= existing@.take(i as int).push(existing@[i as int]));
            existing@.take(i as int).lemma_filter_push(existing@[i as int], p);
        }
        if highlight_is_at(anchor, &existing[i]) {
            ids.push(existing[i].id);
            proof {
                assert(existing@.take(i as int).filter(p).push(existing@[i as int]).map_values(m)
                    =~= existing@.take(i as int).filter(p).map_values(m).push(existing@[i as int].id));
            }
        }
        i = i + 1;
    }
    assert(existing@.take(existing@.len() as int) =~= existing@);
    ids
}

proof fn lemma_filter_out_all(s: Seq<Highlight>, a: AnchorView)
    ensures
        s.filter(|h: Highlight| !highlight_at(a, h)).filter(|h: Highlight| highlight_at(a, h)).len() == 0,
    decreases s.len(),
{
    let q = |h: Highlight| !highlight_at(a, h);
    let p = |h: Highlight| highlight_at(a, h);
    reveal(Seq::filter);
    if s.len() > 0 {
        lemma_filter_out_all(s.drop_last(), a);
        if q(s.last()) {
            s.drop_last().filter(q).lemma_filter_push(s.last(), p);
        }
    }
}

proof fn lemma_filter_keeps_kept(s: Seq<Highlight>, a: AnchorView)
    ensures
        s.filter(|h: Highlight| !highlight_at(a, h)).filter(|h: Highlight| !highlight_at(a, h))
            == s.filter(|h: Highlight| !highlight_at(a, h)),
    decreases s.len(),
{
    let q = |h: Highlight| !highlight_at(a, h);
    reveal(Seq::filter);
    if s.len() > 0 {
        lemma_filter_keeps_kept(s.drop_last(), a);
        if q(s.last()) {
            s.drop_last().filter(q).lemma_filter_push(s.last(), q);
        }
    }
}

/// One highlight per anchor: after a colour is set at an anchor, exactly one
/// highlight sits there, the new one in the new colour; a cleared anchor has
/// none. The highlights at every other anchor (a word of the same verse, say)
/// are left as they were, in order.
pub proof fn law_one_highlight_per_anchor(
    existing: Seq<Highlight>,
    a: AnchorView,
    color: Seq<char>,
    added: Highlight,
)
    requires
        normal_anchor(a),
        placed(a, color, added),
    ensures
        after_setting(existing, a, added).filter(|h: Highlight| highlight_at(a, h)) == seq![added],
        after_clearing(existing, a).filter(|h: Highlight| highlight_at(a, h)).len() == 0,
        after_setting(existing, a, added).filter(|h: Highlight| !highlight_at(a, h))
            == existing.filter(|h: Highlight| !highlight_at(a, h)),
        after_clearing(existing, a).filter(|h: Highlight| !highlight_at(a, h))
            == existing.filter(|h: Highlight| !highlight_at(a, h)),
{
    let q = |h: Highlight| !highlight_at(a, h);
    let p = |h: Highlight| highlight_at(a, h);
    lemma_filter_out_all(existing, a);
    lemma_filter_keeps_kept(existing, a);
    existing.filter(q).lemma_filter_push(added, p);
    existing.filter(q).lemma_filter_push(added, q);
    lemma_word_is_not_verse();
    assert(highlight_at(a, added));
    assert(existing.filter(q).filter(p) =~= Seq::<Highlight>::empty());
    assert(existing.filter(q).filter(p).push(added) =~= seq![added]);
}

/// What setting a highlight writes: the rows it deletes and the row it
/// inserts (the new row's id is the table's to give).
#[derive(Debug)]
pub struct HighlightChange {
    /// The ids of the highlights already at the anchor.
    pub remove: Vec<i64>,
    /// The anchor, in the form it is stored in.
    pub anchor: Anchor,
    /// The new colour.
    pub color: String,
}

/// Set (or replace) the highlight at an anchor, given the highlights already
/// stored for its verse: the ones at the anchor are deleted and one row in
/// the new colour is inserted. A malformed anchor is refused.
pub fn plan_highlight(anchor: Anchor, color: String, existing: &Vec<Highlight>) -> (r: Result<
    HighlightChange,
    String,
>)
    ensures
        match normalized_anchor(anchor@) {
            Err(m) => r is Err && r->Err_0@ == m,
            Ok(n) => r is Ok && r->Ok_0.anchor@ == n && r->Ok_0.color == color && r->Ok_0.remove@
                == existing@.filter(|h: Highlight| highlight_at(n, h)).map_values(|h: Highlight| h.id),
        },
{
    let anchor = match anchor.normalized() {
        Ok(a) => a,
        Err(e) => return Err(e),
    };
    let remove = highlights_at(&anchor, existing);
    Ok(HighlightChange { remove, anchor, color })
}

/// The rows of `table` whose ids are not in `ids`.
pub open spec fn without_ids(table: Seq<Highlight>, ids: Seq<i64>) -> Seq<Highlight> {
    table.filter(|h: Highlight| !ids.contains(h.id))
}

/// No two rows of `table` share an id, as its key keeps them.
pub open spec fn distinct_ids(table: Seq<Highlight>) -> bool {
    forall|i: int, j: int| 0 <= i < j < table.len() ==> #[trigger] table[i].id != #[trigger] table[j].id
}

proof fn lemma_filters_agree(
    s: Seq<Highlight>,
    p: spec_fn(Highlight) -> bool,
    q: spec_fn(Highlight) -> bool,
)
    requires
        forall|i: int| 0 <= i < s.len() ==> p(#[trigger] s[i]) == q(s[i]),
    ensures
        s.filter(p) == s.filter(q),
    decreases s.len(),
{
    reveal(Seq::filter);
    if s.len() > 0 {
        assert forall|i: int| 0 <= i < s.drop_last().len() implies p(#[trigger] s.drop_last()[i]) == q(
            s.drop_last()[i],
        ) by {
            assert(s.drop_last()[i] == s[i]);
        }
        lemma_filters_agree(s.drop_last(), p, q);
        assert(p(s[s.len() - 1]) == q(s[s.len() - 1]));
    }
}

/// In a table with unique ids, a row's id is among the ids of the rows at an
/// anchor exactly when the row is at that anchor.
proof fn lemma_ids_at_anchor(table: Seq<Highlight>, a: AnchorView, i: int)
    requires
        distinct_ids(table),
        0 <= i < table.len(),
    ensures
        table.filter(|h: Highlight| highlight_at(a, h)).map_values(|h: Highlight| h.id).contains(
            table[i].id,
        ) <==> highlight_at(a, table[i]),
{
    broadcast use vstd::seq_lib::group_filter_ensures;
    let p = |h: Highlight| highlight_at(a, h);
    let f = table.filter(p);
    let ids = f.map_values(|h: Highlight| h.id);
    if highlight_at(a, table[i]) {
        assert(f.contains(table[i]));
        let k = choose|k: int| 0 <= k < f.len() && f[k] == table[i];
        assert(ids[k] == table[i].id);
    }
    if ids.contains(table[i].id) {
        let k = choose|k: int| 0 <= k < ids.len() && ids[k] == table[i].id;
        assert(f.contains(f[k]));
        table.lemma_filter_contains_rev(p, f[k]);
        let j = choose|j: int| 0 <= j < table.len() && table[j] == f[k];
        assert(p(f[k]));
        if j < i {
            assert(table[j].id != table[i].id);
        } else if i < j {
            assert(table[i].id != table[j].id);
        }
    }
}

/// Deleting the rows `plan_highlight` names and inserting its row sets the
/// highlight: in a table whose ids are unique the result is `after_setting`,
/// so exactly the new row sits at the anchor, and every row elsewhere stays
/// as it was, in order.
pub proof fn law_a_set_highlight_replaces_the_old_one(
    table: Seq<Highlight>,
    a: AnchorView,
    color: Seq<char>,
    added: Highlight,
)
    requires
        distinct_ids(table),
        normal_anchor(a),
        placed(a, color, added),
    ensures
        ({
            let after = without_ids(
                table,
                table.filter(|h: Highlight| highlight_at(a, h)).map_values(|h: Highlight| h.id),
            ).push(added);
            &&& after == after_setting(table, a, added)
            &&& after.filter(|h: Highlight| highlight_at(a, h)) == seq![added]
            &&& after.filter(|h: Highlight| !highlight_at(a, h)) == table.filter(
                |h: Highlight| !highlight_at(a, h),
            )
        }),
{
    let ids = table.filter(|h: Highlight| highlight_at(a, h)).map_values(|h: Highlight| h.id);
    let p = |h: Highlight| !ids.contains(h.id);
    let q = |h: Highlight| !highlight_at(a, h);
    assert forall|i: int| 0 <= i < table.len() implies p(#[trigger] table[i]) == q(table[i]) by {
        lemma_ids_at_anchor(table, a, i);
    }
    lemma_filters_agree(table, p, q);
    law_one_highlight_per_anchor(table, a, color, added);
}

/// A verse highlight and a word highlight in the same verse are independent:
/// a verse anchor never reaches a word highlight, nor a word anchor a verse
/// highlight.
pub proof fn law_verse_and_word_highlights_are_independent(a: AnchorView, h: Highlight)
    requires
        normal_anchor(a),
    ensures
        is_verse_anchor(a) && h.anchor_type@ == "word"@ ==> !highlight_at(a, h),
        is_word_anchor(a) && h.anchor_type@ == "verse"@ ==> !highlight_at(a, h),
{
    lemma_word_is_not_verse();
}


// ---------------------------------------------------------------------------
// A chapter's annotations
// ---------------------------------------------------------------------------

/// One "there is a note here" indicator for the reading pane.
#[derive(Debug)]
pub struct NoteMark {
    pub verse_id: String,
    /// `None`: a verse-level indicator.
    pub token_idx: Option<i64>,
    /// Notes anchored exactly here (verse notes, or word notes in the active
    /// translation).
    pub count: i64,
    /// Word notes from other translations, shown on the verse instead.
    pub degraded: i64,
}

/// Every highlight and note indicator for one chapter.
#[derive(Debug)]
pub struct ChapterAnnotations {
    pub highlights: Vec<Highlight>,
    pub note_marks: Vec<NoteMark>,
}

/// `v` is one of the chapter's verses.
pub open spec fn in_chapter(verse_ids: Seq<String>, v: Seq<char>) -> bool {
    exists|i: int| 0 <= i < verse_ids.len() && #[trigger] verse_ids[i]@ == v
}

/// Whether a reader in translation `active` sees highlight `h` in the
/// chapter: verse highlights always, word highlights only in their own
/// translation.
pub open spec fn highlight_shown(verse_ids: Seq<String>, h: Highlight, active: i64) -> bool {
    in_chapter(verse_ids, h.verse_id@) && (h.anchor_type@ == "verse"@ || h.translation_id == Some(
        active,
    ))
}

/// What a chapter shows: only highlights of its own verses; a verse
/// highlight in every translation, a word highlight only in its own. A note's
/// indicator sits on its word only for a word note in the translation being
/// read, and on its verse otherwise.
pub proof fn law_what_a_chapter_shows(verse_ids: Seq<String>, h: Highlight, a: AnchorView, active: i64)
    ensures
        highlight_shown(verse_ids, h, active) ==> in_chapter(verse_ids, h.verse_id@),
        in_chapter(verse_ids, h.verse_id@) && h.anchor_type@ == "verse"@ ==> highlight_shown(
            verse_ids,
            h,
            active,
        ),
        in_chapter(verse_ids, h.verse_id@) && h.anchor_type@ == "word"@ ==> (highlight_shown(
            verse_ids,
            h,
            active,
        ) <==> h.translation_id == Some(active)),
        mark_key(a, active).0 == a.verse_id,
        is_word_anchor(a) && a.translation_id == Some(active) ==> mark_key(a, active).1 == a.token_idx,
        !(is_word_anchor(a) && a.translation_id == Some(active)) ==> mark_key(a, active).1 is None,
{
    lemma_word_is_not_verse();
}

/// Where a note's indicator goes: a word note in the active translation
/// marks its own word; every other note marks the verse.
pub open spec fn mark_token(a: AnchorView, active: i64) -> Option<i64> {
    if a.anchor_type == "word"@ && a.translation_id == Some(active) {
        a.token_idx
    } else {
        None
    }
}

/// A word note written in another translation than `active`.
pub open spec fn foreign_word(a: AnchorView, active: i64) -> bool {
    a.anchor_type == "word"@ && a.translation_id is Some && a.translation_id->Some_0 != active
}

/// The indicator a note anchored at `a` contributes to.
pub open spec fn mark_key(a: AnchorView, active: i64) -> (Seq<char>, Option<i64>) {
    (a.verse_id, mark_token(a, active))
}

pub open spec fn key_of(m: NoteMark) -> (Seq<char>, Option<i64>) {
    (m.verse_id@, m.token_idx)
}

/// How many of the chapter's note anchors fall on indicator `key` and are
/// (or are not, per `foreign`) word notes from another translation.
pub open spec fn tally(
    anchors: Seq<Anchor>,
    verse_ids: Seq<String>,
    active: i64,
    key: (Seq<char>, Option<i64>),
    foreign: bool,
) -> nat
    decreases anchors.len(),
{
    if anchors.len() == 0 {
        0
    } else {
        let a = anchors.last()@;
        tally(anchors.drop_last(), verse_ids, active, key, foreign) + if in_chapter(verse_ids, a.verse_id)
            && mark_key(a, active) == key && foreign_word(a, active) == foreign {
            1nat
        } else {
            0nat
        }
    }
}

/// Some indicator in `marks` is the one a note anchored at `a` falls on.
pub open spec fn covered(marks: Seq<NoteMark>, a: AnchorView, active: i64) -> bool {
    exists|j: int| #![trigger marks[j]] 0 <= j < marks.len() && key_of(marks[j]) == mark_key(a, active)
}

/// Some note of the chapter falls on indicator `key`.
pub open spec fn witnessed(
    anchors: Seq<Anchor>,
    verse_ids: Seq<String>,
    active: i64,
    key: (Seq<char>, Option<i64>),
) -> bool {
    exists|i: int|
        #![trigger anchors[i]]
        0 <= i < anchors.len() && in_chapter(verse_ids, anchors[i]@.verse_id) && mark_key(
            anchors[i]@,
            active,
        ) == key
}

/// `marks` are the chapter's note indicators: one per indicator position that
/// some note of the chapter falls on, none twice, each counting the notes at
/// home there and the word notes from other translations surfacing there.
pub open spec fn note_marks_of(
    anchors: Seq<Anchor>,
    verse_ids: Seq<String>,
    active: i64,
    marks: Seq<NoteMark>,
) -> bool {
    &&& forall|j: int, k: int|
        #![trigger marks[j], marks[k]]
        0 <= j < k < marks.len() ==> key_of(marks[j]) != key_of(marks[k])
    &&& forall|i: int|
        #![trigger anchors[i]]
        0 <= i < anchors.len() && in_chapter(verse_ids, anchors[i]@.verse_id) ==> covered(
            marks,
            anchors[i]@,
            active,
        )
    &&& forall|j: int|
        #![trigger marks[j]]
        0 <= j < marks.len() ==> witnessed(anchors, verse_ids, active, key_of(marks[j]))
    &&& forall|j: int|
        #![trigger marks[j]]
        0 <= j < marks.len() ==> {
            &&& marks[j].count == tally(anchors, verse_ids, active, key_of(marks[j]), false)
            &&& marks[j].degraded == tally(anchors, verse_ids, active, key_of(marks[j]), true)
        }
}

proof fn lemma_tally_zero(
    anchors: Seq<Anchor>,
    verse_ids: Seq<String>,
    active: i64,
    key: (Seq<char>, Option<i64>),
    foreign: bool,
)
    requires
        !witnessed(anchors, verse_ids, active, key),
    ensures
        tally(anchors, verse_ids, active, key, foreign) == 0,
    decreases anchors.len(),
{
    if anchors.len() > 0 {
        let d = anchors.drop_last();
        assert forall|i: int| #![trigger d[i]] 0 <= i < d.len() implies !(in_chapter(verse_ids, d[i]@.verse_id)
            && mark_key(d[i]@, active) == key) by {
            assert(d[i] == anchors[i]);
        }
        lemma_tally_zero(d, verse_ids, active, key, foreign);
        assert(anchors.last() == anchors[anchors.len() - 1]);
    }
}

proof fn lemma_tally_bound(
    anchors: Seq<Anchor>,
    verse_ids: Seq<String>,
    active: i64,
    key: (Seq<char>, Option<i64>),
    foreign: bool,
)
    ensures
        tally(anchors, verse_ids, active, key, foreign) <= anchors.len(),
    decreases anchors.len(),
{
    if anchors.len() > 0 {
        lemma_tally_bound(anchors.drop_last(), verse_ids, active, key, foreign);
    }
}

proof fn lemma_tally_push(
    pre: Seq<Anchor>,
    a: Anchor,
    verse_ids: Seq<String>,
    active: i64,
    key: (Seq<char>, Option<i64>),
    foreign: bool,
)
    ensures
        tally(pre.push(a), verse_ids, active, key, foreign) == tally(pre, verse_ids, active, key, foreign)
            + if in_chapter(verse_ids, a@.verse_id) && mark_key(a@, active) == key && foreign_word(a@, active)
            == foreign {
            1nat
        } else {
            0nat
        },
{
    assert(pre.push(a).drop_last() =~= pre);
}

/// A witness in `pre` is still one after a note anchor is appended.
proof fn lemma_witness_push(
    pre: Seq<Anchor>,
    a: Anchor,
    verse_ids: Seq<String>,
    active: i64,
    key: (Seq<char>, Option<i64>),
)
    requires
        witnessed(pre, verse_ids, active, key),
    ensures
        witnessed(pre.push(a), verse_ids, active, key),
{
    let i = choose|i: int|
        #![trigger pre[i]]
        0 <= i < pre.len() && in_chapter(verse_ids, pre[i]@.verse_id) && mark_key(pre[i]@, active) == key;
    assert(pre.push(a)[i] == pre[i]);
}

proof fn lemma_marks_skip(pre: Seq<Anchor>, a: Anchor, verse_ids: Seq<String>, active: i64, marks: Seq<NoteMark>)
    requires
        note_marks_of(pre, verse_ids, active, marks),
        !in_chapter(verse_ids, a@.verse_id),
    ensures
        note_marks_of(pre.push(a), verse_ids, active, marks),
{
    let post = pre.push(a);
    assert forall|jj: int| #![trigger marks[jj]] 0 <= jj < marks.len() implies {
        &&& marks[jj].count == tally(post, verse_ids, active, key_of(marks[jj]), false)
        &&& marks[jj].degraded == tally(post, verse_ids, active, key_of(marks[jj]), true)
    } by {
        lemma_tally_push(pre, a, verse_ids, active, key_of(marks[jj]), false);
        lemma_tally_push(pre, a, verse_ids, active, key_of(marks[jj]), true);
    }
    assert forall|ii: int| #![trigger post[ii]]
        0 <= ii < post.len() && in_chapter(verse_ids, post[ii]@.verse_id) implies covered(marks, post[ii]@, active) by {
        if ii < pre.len() {
            assert(post[ii] == pre[ii]);
        } else {
            assert(post[ii] == a);
        }
    }
    assert forall|jj: int| #![trigger marks[jj]] 0 <= jj < marks.len() implies witnessed(post, verse_ids, active, key_of(marks[jj])) by {
        lemma_witness_push(pre, a, verse_ids, active, key_of(marks[jj]));
    }
}

proof fn lemma_marks_count(
    pre: Seq<Anchor>,
    a: Anchor,
    verse_ids: Seq<String>,
    active: i64,
    old: Seq<NoteMark>,
    found: int,
    updated: NoteMark,
)
    requires
        note_marks_of(pre, verse_ids, active, old),
        in_chapter(verse_ids, a@.verse_id),
        0 <= found < old.len(),
        key_of(old[found]) == mark_key(a@, active),
        key_of(updated) == key_of(old[found]),
        updated.count == old[found].count + if foreign_word(a@, active) { 0int } else { 1int },
        updated.degraded == old[found].degraded + if foreign_word(a@, active) { 1int } else { 0int },
    ensures
        note_marks_of(pre.push(a), verse_ids, active, old.update(found, updated)),
{
    let post = pre.push(a);
    let m = old.update(found, updated);
    let key = mark_key(a@, active);
    assert forall|jj: int| #![trigger m[jj]] 0 <= jj < m.len() && jj != found implies m[jj] == old[jj] && key_of(m[jj]) != key by {
        if jj < found {
            assert(key_of(old[jj]) != key_of(old[found]));
        } else {
            assert(key_of(old[found]) != key_of(old[jj]));
        }
    }
    assert forall|jj: int| #![trigger m[jj]] 0 <= jj < m.len() implies {
        &&& m[jj].count == tally(post, verse_ids, active, key_of(m[jj]), false)
        &&& m[jj].degraded == tally(post, verse_ids, active, key_of(m[jj]), true)
    } by {
        lemma_tally_push(pre, a, verse_ids, active, key_of(m[jj]), false);
        lemma_tally_push(pre, a, verse_ids, active, key_of(m[jj]), true);
        if jj != found {
            assert(m[jj] == old[jj]);
        }
    }
    assert forall|ii: int| #![trigger post[ii]]
        0 <= ii < post.len() && in_chapter(verse_ids, post[ii]@.verse_id) implies covered(m, post[ii]@, active) by {
        if ii < pre.len() {
            assert(post[ii] == pre[ii]);
            assert(covered(old, pre[ii]@, active));
            let jj = choose|jj: int| #![trigger old[jj]] 0 <= jj < old.len() && key_of(old[jj]) == mark_key(pre[ii]@, active);
            if jj == found {
                assert(key_of(m[found]) == mark_key(post[ii]@, active));
            } else {
                assert(m[jj] == old[jj]);
            }
        } else {
            assert(post[ii] == a);
            assert(key_of(m[found]) == mark_key(post[ii]@, active));
        }
    }
    assert forall|jj: int| #![trigger m[jj]] 0 <= jj < m.len() implies witnessed(post, verse_ids, active, key_of(m[jj])) by {
        assert(key_of(m[jj]) == key_of(old[jj]));
        assert(witnessed(pre, verse_ids, active, key_of(old[jj])));
        lemma_witness_push(pre, a, verse_ids, active, key_of(m[jj]));
    }
    assert forall|j1: int, k1: int| #![trigger m[j1], m[k1]] 0 <= j1 < k1 < m.len() implies key_of(m[j1]) != key_of(m[k1]) by {
        assert(key_of(old[j1]) != key_of(old[k1]));
        assert(key_of(m[j1]) == key_of(old[j1]));
        assert(key_of(m[k1]) == key_of(old[k1]));
    }
}

proof fn lemma_marks_new(
    pre: Seq<Anchor>,
    a: Anchor,
    verse_ids: Seq<String>,
    active: i64,
    old: Seq<NoteMark>,
    added: NoteMark,
)
    requires
        note_marks_of(pre, verse_ids, active, old),
        in_chapter(verse_ids, a@.verse_id),
        forall|k: int| 0 <= k < old.len() ==> key_of(#[trigger] old[k]) != mark_key(a@, active),
        key_of(added) == mark_key(a@, active),
        added.count == if foreign_word(a@, active) { 0int } else { 1int },
        added.degraded == if foreign_word(a@, active) { 1int } else { 0int },
    ensures
        note_marks_of(pre.push(a), verse_ids, active, old.push(added)),
{
    let post = pre.push(a);
    let m = old.push(added);
    let key = mark_key(a@, active);
    let n = old.len() as int;
    if witnessed(pre, verse_ids, active, key) {
        let i = choose|i: int|
            #![trigger pre[i]]
            0 <= i < pre.len() && in_chapter(verse_ids, pre[i]@.verse_id) && mark_key(pre[i]@, active) == key;
        assert(covered(old, pre[i]@, active));
        let jj = choose|jj: int| #![trigger old[jj]] 0 <= jj < old.len() && key_of(old[jj]) == mark_key(pre[i]@, active);
        assert(false);
    }
    lemma_tally_zero(pre, verse_ids, active, key, false);
    lemma_tally_zero(pre, verse_ids, active, key, true);
    assert forall|jj: int| #![trigger m[jj]] 0 <= jj < m.len() implies {
        &&& m[jj].count == tally(post, verse_ids, active, key_of(m[jj]), false)
        &&& m[jj].degraded == tally(post, verse_ids, active, key_of(m[jj]), true)
    } by {
        lemma_tally_push(pre, a, verse_ids, active, key_of(m[jj]), false);
        lemma_tally_push(pre, a, verse_ids, active, key_of(m[jj]), true);
        if jj < n {
            assert(m[jj] == old[jj]);
        }
    }
    assert forall|ii: int| #![trigger post[ii]]
        0 <= ii < post.len() && in_chapter(verse_ids, post[ii]@.verse_id) implies covered(m, post[ii]@, active) by {
        if ii < pre.len() {
            assert(post[ii] == pre[ii]);
            assert(covered(old, pre[ii]@, active));
            let jj = choose|jj: int| #![trigger old[jj]] 0 <= jj < old.len() && key_of(old[jj]) == mark_key(pre[ii]@, active);
            assert(m[jj] == old[jj]);
        } else {
            assert(post[ii] == a);
            assert(key_of(m[n]) == mark_key(post[ii]@, active));
        }
    }
    assert forall|jj: int| #![trigger m[jj]] 0 <= jj < m.len() implies witnessed(post, verse_ids, active, key_of(m[jj])) by {
        if jj < n {
            assert(m[jj] == old[jj]);
            assert(witnessed(pre, verse_ids, active, key_of(old[jj])));
            lemma_witness_push(pre, a, verse_ids, active, key_of(m[jj]));
        } else {
            assert(post[pre.len() as int] == a);
        }
    }
    assert forall|j1: int, k1: int| #![trigger m[j1], m[k1]] 0 <= j1 < k1 < m.len() implies key_of(m[j1]) != key_of(m[k1]) by {
        assert(m[j1] == old[j1]);
        if k1 < n {
            assert(m[k1] == old[k1]);
            assert(key_of(old[j1]) != key_of(old[k1]));
        }
    }
}

fn verse_in_chapter(verse_ids: &Vec<String>, v: &String) -> (r: bool)
    ensures
        r == in_chapter(verse_ids@, v@),
{
    let mut i: usize = 0;
    while i < verse_ids.len()
        invariant
            i <= verse_ids@.len(),
            forall|j: int| 0 <= j < i ==> #[trigger] verse_ids@[j]@ != v@,
        decreases verse_ids@.len() - i,
    {
        if same_text(verse_ids[i].as_str(), v.as_str()) {
            return true;
        }
        i = i + 1;
    }
    false
}

fn same_option(a: Option<i64>, b: Option<i64>) -> (r: bool)
    ensures
        r == (a == b),
{
    match (a, b) {
        (Some(x), Some(y)) => x == y,
        (None, None) => true,
        _ => false,
    }
}

/// The position of the indicator `(verse_id, token)` among `marks`, if any.
fn find_mark(marks: &Vec<NoteMark>, verse_id: &String, token: Option<i64>) -> (r: Option<usize>)
    ensures
        match r {
            Some(j) => j < marks@.len() && key_of(marks@[j as int]) == (verse_id@, token),
            None => forall|k: int| 0 <= k < marks@.len() ==> key_of(#[trigger] marks@[k]) != (verse_id@, token),
        },
{
    let mut j: usize = 0;
    while j < marks.len()
        invariant
            j <= marks@.len(),
            forall|k: int| 0 <= k < j ==> key_of(#[trigger] marks@[k]) != (verse_id@, token),
        decreases marks@.len() - j,
    {
        if same_text(marks[j].verse_id.as_str(), verse_id.as_str()) && same_option(marks[j].token_idx, token) {
            return Some(j);
        }
        j = j + 1;
    }
    None
}

/// The chapter's note indicators, from the anchors of the notes in it.
/// `verse_ids` are the chapter's verses in the active translation.
pub fn note_marks(verse_ids: &Vec<String>, anchors: &Vec<Anchor>, active_translation_id: i64) -> (marks:
    Vec<NoteMark>)
    requires
        anchors@.len() <= i64::MAX,
    ensures
        note_marks_of(anchors@, verse_ids@, active_translation_id, marks@),
{
    let active = active_translation_id;
    let mut marks: Vec<NoteMark> = Vec::new();
    let mut i: usize = 0;
    while i < anchors.len()
        invariant
            i <= anchors@.len(),
            anchors@.len() <= i64::MAX,
            note_marks_of(anchors@.take(i as int), verse_ids@, active, marks@),
        decreases anchors@.len() - i,
    {
        let ghost pre = anchors@.take(i as int);
        proof {
            assert(anchors@.take(i + 1) =~= pre.push(anchors@[i as int]));
        }
        let a = &anchors[i];
        if verse_in_chapter(verse_ids, &a.verse_id) {
            let word = same_text(a.anchor_type.as_str(), "word");
            let here = same_option(a.translation_id, Some(active));
            let tok = if word && here {
                a.token_idx
            } else {
                None
            };
            let foreign = word && match a.translation_id {
                Some(t) => t != active,
                None => false,
            };
            let ghost key = mark_key(a@, active);
            assert(key == (a.verse_id@, tok));
            assert(foreign == foreign_word(a@, active));
            match find_mark(&marks, &a.verse_id, tok) {
                Some(found) => {
                    proof {
                        lemma_tally_bound(pre, verse_ids@, active, key, false);
                        lemma_tally_bound(pre, verse_ids@, active, key, true);
                    }
                    let old = &marks[found];
                    let updated = NoteMark {
                        verse_id: old.verse_id.clone(),
                        token_idx: old.token_idx,
                        count: if foreign { old.count } else { old.count + 1 },
                        degraded: if foreign { old.degraded + 1 } else { old.degraded },
                    };
                    proof {
                        lemma_marks_count(pre, *a, verse_ids@, active, marks@, found as int, updated);
                    }
                    marks.set(found, updated);
                },
                None => {
                    let added = NoteMark {
                        verse_id: a.verse_id.clone(),
                        token_idx: tok,
                        count: if foreign { 0 } else { 1 },
                        degraded: if foreign { 1 } else { 0 },
                    };
                    proof {
                        lemma_marks_new(pre, *a, verse_ids@, active, marks@, added);
                    }
                    marks.push(added);
                },
            }
        } else {
            proof {
                lemma_marks_skip(pre, *a, verse_ids@, active, marks@);
            }
        }
        i = i + 1;
    }
    assert(anchors@.take(anchors@.len() as int) =~= anchors@);
    marks
}


/// The chapter's highlights, chosen from `candidates`.
pub fn chapter_highlights(verse_ids: &Vec<String>, candidates: Vec<Highlight>, active_translation_id: i64) -> (r:
    Vec<Highlight>)
    ensures
        r@ == candidates@.filter(|h: Highlight| highlight_shown(verse_ids@, h, active_translation_id)),
{
    let ghost all = candidates@;
    let ghost p = |h: Highlight| highlight_shown(verse_ids@, h, active_translation_id);
    let n = candidates.len();
    let mut out: Vec<Highlight> = Vec::new();
    let mut k: usize = 0;
    let mut rest = candidates;
    while rest.len() > 0
        invariant
            k + rest@.len() == all.len(),
            all.len() == n,
            p == |h: Highlight| highlight_shown(verse_ids@, h, active_translation_id),
            rest@ == all.skip(k as int),
            out@ == all.take(k as int).filter(p),
        decreases rest@.len(),
    {
        let h = rest.remove(0);
        proof {
            assert(all.take(k + 1) =~= all.take(k as int).push(all[k as int]));
            all.take(k as int).lemma_filter_push(all[k as int], p);
        }
        let shown = verse_in_chapter(verse_ids, &h.verse_id) && (same_text(h.anchor_type.as_str(), "verse")
            || same_option(h.translation_id, Some(active_translation_id)));
        if shown {
            out.push(h);
        }
        k = k + 1;
        assert(rest@ =~= all.skip(k as int));
    }
    assert(all.take(k as int) =~= all);
    out
}

/// Every highlight and note indicator for one chapter, read in translation
/// `active_translation_id`. `verse_ids` are the chapter's verses;
/// `highlights` and `anchors` are the stored highlights and note anchors to
/// choose from. Verse-level annotations are matched by verse alone; word
/// highlights only show in their own translation, and word notes from other
/// translations mark their verse instead of a word. Refused only when there
/// are more note anchors than an `i64` count can hold.
pub fn chapter_annotations(
    verse_ids: &Vec<String>,
    highlights: Vec<Highlight>,
    anchors: &Vec<Anchor>,
    active_translation_id: i64,
) -> (r: Result<ChapterAnnotations, String>)
    ensures
        anchors@.len() > i64::MAX ==> r is Err && r->Err_0@ == "too many notes in this chapter"@,
        anchors@.len() <= i64::MAX ==> r is Ok && r->Ok_0.highlights@ == highlights@.filter(
            |h: Highlight| highlight_shown(verse_ids@, h, active_translation_id),
        ) && note_marks_of(anchors@, verse_ids@, active_translation_id, r->Ok_0.note_marks@),
{
    if anchors.len() as u64 > 0x7fff_ffff_ffff_ffffu64 {
        return Err("too many notes in this chapter".to_owned());
    }
    Ok(
        ChapterAnnotations {
            highlights: chapter_highlights(verse_ids, highlights, active_translation_id),
            note_marks: note_marks(verse_ids, anchors, active_translation_id),
        },
    )
}


/// The outcome of updating or deleting note `note_id`, given how many stored
/// notes the change touched: none means there was no such note.
pub fn note_change(note_id: i64, changed: usize) -> (r: Result<(), String>)
    ensures
        changed == 0 ==> r is Err && r->Err_0@ == "note "@ + crate::text::decimal(note_id as int)
            + " not found"@,
        changed != 0 ==> r is Ok,
{
    if changed == 0 {
        let mut e = "note ".to_owned();
        crate::text::append_decimal(&mut e, note_id);
        e.append(" not found");
        assert(e@ =~= "note "@ + crate::text::decimal(note_id as int) + " not found"@);
        return Err(e);
    }
    Ok(())
}

} // verus!
