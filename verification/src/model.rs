//! The data read from a dictionary page: paraphrases, pronunciations, word
//! forms and example sentences, for English and Chinese result pages.
use vstd::prelude::*;
use vstd::string::{StrSliceExecFns, StringExecFns};

use crate::color::Color;
use crate::render::{
    examples_text, lines_spec, pronounce_text, render_examples, render_lines, render_pronounce,
    render_styled_lines, styled_lines_spec,
};
use crate::html::{
    find_tags, find_tags_spec, lacks, lemma_find_tags_no_markup, lemma_words_shape, strip_chars,
    strip_html, strip_spec, ws_free,
};
use crate::text::{
    chars_of, contains_chars, contains_seq, find_char, find_from, find_seq, join, join_chars,
    lemma_find_from, lemma_find_from_ge, matches_at, occurs_at, skip_chars, starts_with_chars, sub_chars, split_words, string_of, words, strings_view, strs_view, vecs_view,
};

verus! {

broadcast use vstd::seq::group_seq_axioms;

// ── Composing searches ───────────────────────────────────────────────────

/// The contents of the `tag` elements fitting `hint` found in each of `ss`,
/// one fragment after another.
pub open spec fn find_in_all(ss: Seq<Seq<char>>, tag: Seq<char>, hint: Seq<char>) -> Seq<
    Seq<char>,
>
    decreases ss.len(),
{
    if ss.len() == 0 {
        seq![]
    } else {
        find_in_all(ss.drop_last(), tag, hint) + find_tags_spec(ss.last(), tag, hint)
    }
}

/// The non-empty members of `ss`, in order.
pub open spec fn keep_nonempty<A>(ss: Seq<Seq<A>>) -> Seq<Seq<A>>
    decreases ss.len(),
{
    if ss.len() == 0 {
        seq![]
    } else {
        keep_nonempty(ss.drop_last()) + if ss.last().len() > 0 {
            seq![ss.last()]
        } else {
            seq![]
        }
    }
}

/// The text of each fragment of `ss`.
pub open spec fn strip_each(ss: Seq<Seq<char>>) -> Seq<Seq<char>> {
    ss.map_values(|x: Seq<char>| strip_spec(x))
}

/// The non-empty texts of the fragments `ss`.
pub open spec fn stripped_texts(ss: Seq<Seq<char>>) -> Seq<Seq<char>> {
    keep_nonempty(strip_each(ss))
}

/// Runs [`find_tags`] on each fragment of `ss` and gathers the results in order.
pub fn find_tags_in_all<'a>(ss: &Vec<&'a str>, tag: &str, hint: &str) -> (r: Vec<&'a str>)
    ensures
        strs_view(r@) == find_in_all(strs_view(ss@), tag@, hint@),
{
    let mut out: Vec<&'a str> = Vec::new();
    let mut i: usize = 0;
    assert(strs_view(ss@).take(0) =~= Seq::<Seq<char>>::empty());
    assert(strs_view(out@) =~= Seq::<Seq<char>>::empty());
    while i < ss.len()
        invariant
            i <= ss@.len(),
            strs_view(out@) == find_in_all(strs_view(ss@).take(i as int), tag@, hint@),
        decreases ss@.len() - i,
    {
        let ghost before = out@;
        let mut found = find_tags(ss[i], tag, hint);
        let ghost f = found@;
        out.append(&mut found);
        proof {
            let v = strs_view(ss@);
            assert(v.take(i + 1).drop_last() =~= v.take(i as int));
            assert(v.take(i + 1).last() == ss@[i as int]@);
            assert(strs_view(out@) =~= strs_view(before) + strs_view(f));
        }
        i = i + 1;
    }
    assert(strs_view(ss@).take(ss@.len() as int) =~= strs_view(ss@));
    out
}

/// The texts of the fragments `ss` (see [`strip_html`]), as character vectors.
pub fn strip_all(ss: &Vec<&str>) -> (r: Vec<Vec<char>>)
    ensures
        vecs_view(r@) == strip_each(strs_view(ss@)),
{
    let mut out: Vec<Vec<char>> = Vec::new();
    let mut i: usize = 0;
    while i < ss.len()
        invariant
            i <= ss@.len(),
            vecs_view(out@) == strip_each(strs_view(ss@)).take(i as int),
        decreases ss@.len() - i,
    {
        let c = chars_of(ss[i]);
        let t = strip_chars(&c);
        let ghost before = out@;
        assert(strs_view(ss@)[i as int] == ss@[i as int]@);
        assert(strip_each(strs_view(ss@))[i as int] == t@);
        out.push(t);
        assert(vecs_view(out@) =~= vecs_view(before).push(t@));
        assert(strip_each(strs_view(ss@)).take(i + 1) =~= strip_each(strs_view(ss@)).take(
            i as int,
        ).push(t@));
        i = i + 1;
    }
    assert(strip_each(strs_view(ss@)).take(ss@.len() as int) =~= strip_each(strs_view(ss@)));
    out
}

/// The non-empty texts of the fragments `ss`, as strings.
pub fn strip_nonempty(ss: &Vec<&str>) -> (r: Vec<String>)
    ensures
        strings_view(r@) == stripped_texts(strs_view(ss@)),
{
    let texts = strip_all(ss);
    let mut out: Vec<String> = Vec::new();
    let mut i: usize = 0;
    let ghost all = vecs_view(texts@);
    assert(all.take(0) =~= Seq::<Seq<char>>::empty());
    assert(strings_view(out@) =~= Seq::<Seq<char>>::empty());
    while i < texts.len()
        invariant
            i <= texts@.len(),
            all == vecs_view(texts@),
            strings_view(out@) == keep_nonempty(all.take(i as int)),
        decreases texts@.len() - i,
    {
        let ghost before = out@;
        assert(all.take(i + 1).drop_last() =~= all.take(i as int));
        assert(all.take(i + 1).last() == texts@[i as int]@);
        if texts[i].len() > 0 {
            let s = string_of(&texts[i]);
            out.push(s);
            assert(strings_view(out@) =~= strings_view(before) + seq![texts@[i as int]@]);
        } else {
            assert(strings_view(out@) =~= strings_view(before) + Seq::<Seq<char>>::empty());
        }
        i = i + 1;
    }
    assert(all.take(texts@.len() as int) =~= all);
    out
}

// ── Paraphrase ───────────────────────────────────────────────────────────

/// The `.trans-container` sections of the `#phrsListTab` block of a page.
pub open spec fn trans_sections(html: Seq<char>) -> Seq<Seq<char>> {
    find_in_all(find_tags_spec(html, "div"@, "#phrsListTab"@), "div"@, ".trans-container"@)
}

/// The paraphrases of an English result page: the texts of the `<li>` items
/// of the lists in the translation sections.
pub open spec fn list_paraphrases(html: Seq<char>) -> Seq<Seq<char>> {
    stripped_texts(find_in_all(find_in_all(trans_sections(html), "ul"@, ""@), "li"@, ""@))
}

/// The text of a `.contentTitle` span: the texts of its links joined by `; `,
/// or, if that is empty, the text of the whole span.
pub open spec fn content_title_text(ct: Seq<char>) -> Seq<char> {
    let links = join(strip_each(find_tags_spec(ct, "a"@, ""@)), "; "@);
    if links.len() == 0 {
        strip_spec(ct)
    } else {
        links
    }
}

/// The paraphrases of a Chinese result page: the titles in the
/// `p.wordGroup` paragraphs of the translation sections, non-empty ones only.
pub open spec fn word_group_paraphrases(html: Seq<char>) -> Seq<Seq<char>> {
    keep_nonempty(
        find_in_all(
            find_in_all(trans_sections(html), "p"@, ".wordGroup"@),
            "span"@,
            ".contentTitle"@,
        ).map_values(|ct: Seq<char>| content_title_text(ct)),
    )
}

/// The paraphrases of a page: those of an English page, or, when there are
/// none, those of a Chinese page.
pub open spec fn paraphrases(html: Seq<char>) -> Seq<Seq<char>> {
    if list_paraphrases(html).len() > 0 {
        list_paraphrases(html)
    } else {
        word_group_paraphrases(html)
    }
}

/// The sections of `html` whose paraphrase list is read.
pub fn translation_sections<'a>(html: &'a str) -> (r: Vec<&'a str>)
    ensures
        strs_view(r@) == trans_sections(html@),
{
    let tabs = find_tags(html, "div", "#phrsListTab");
    find_tags_in_all(&tabs, "div", ".trans-container")
}

/// The paraphrases listed in `<li>` items, as on an English result page.
pub fn list_paraphrase_entries(html: &str) -> (r: Vec<String>)
    ensures
        strings_view(r@) == list_paraphrases(html@),
{
    let sections = translation_sections(html);
    let lists = find_tags_in_all(&sections, "ul", "");
    let items = find_tags_in_all(&lists, "li", "");
    strip_nonempty(&items)
}

fn content_title(ct: &str) -> (r: String)
    ensures
        r@ == content_title_text(ct@),
{
    let links = find_tags(ct, "a", "");
    let texts = strip_all(&links);
    let sep = chars_of("; ");
    let joined = join_chars(&texts, &sep);
    if joined.len() == 0 {
        strip_html(ct)
    } else {
        string_of(&joined)
    }
}

fn word_group_entries(html: &str) -> (r: Vec<String>)
    ensures
        strings_view(r@) == word_group_paraphrases(html@),
{
    let sections = translation_sections(html);
    let groups = find_tags_in_all(&sections, "p", ".wordGroup");
    let titles = find_tags_in_all(&groups, "span", ".contentTitle");
    let ghost all = strs_view(titles@).map_values(|ct: Seq<char>| content_title_text(ct));
    let mut out: Vec<String> = Vec::new();
    let mut i: usize = 0;
    assert(all.take(0) =~= Seq::<Seq<char>>::empty());
    assert(strings_view(out@) =~= Seq::<Seq<char>>::empty());
    while i < titles.len()
        invariant
            i <= titles@.len(),
            all == strs_view(titles@).map_values(|ct: Seq<char>| content_title_text(ct)),
            strings_view(out@) == keep_nonempty(all.take(i as int)),
        decreases titles@.len() - i,
    {
        let ghost before = out@;
        let t = content_title(titles[i]);
        assert(all.take(i + 1).drop_last() =~= all.take(i as int));
        assert(all.take(i + 1).last() == t@);
        if !t.as_str().is_empty() {
            out.push(t);
            assert(strings_view(out@) =~= strings_view(before) + seq![all[i as int]]);
        } else {
            assert(strings_view(out@) =~= strings_view(before) + Seq::<Seq<char>>::empty());
        }
        i = i + 1;
    }
    assert(all.take(titles@.len() as int) =~= all);
    out
}

/// The paraphrases of a dictionary page.
pub struct Paraphrase {
    entries: Vec<String>,
}

impl View for Paraphrase {
    type V = Seq<Seq<char>>;

    closed spec fn view(&self) -> Seq<Seq<char>> {
        strings_view(self.entries@)
    }
}

impl Paraphrase {
    /// Reads the paraphrases of a result page: the `<li>` items of an English
    /// page, or, when there are none, the word-group titles of a Chinese page.
    pub fn parse(html: &str) -> (r: Self)
        ensures
            r@ == paraphrases(html@),
    {
        let entries = list_paraphrase_entries(html);
        if entries.len() > 0 {
            return Paraphrase { entries };
        }
        Paraphrase { entries: word_group_entries(html) }
    }

    /// The printed form of the paraphrases: one per line.
    pub fn render(&self) -> (r: String)
        ensures
            r@ == lines_spec(self@),
    {
        render_lines(&self.entries)
    }

    /// The paraphrases, in page order.
    pub fn entries(&self) -> (r: &Vec<String>)
        ensures
            strings_view(r@) == self@,
    {
        &self.entries
    }

    /// Whether no paraphrase was found.
    pub fn is_empty(&self) -> (r: bool)
        ensures
            r == (self@.len() == 0),
    {
        self.entries.len() == 0
    }
}

// ── Pronounce ───────────────────────────────────────────────────────────

/// A pronunciation: a region (`英`, `美`, or empty) and its phonetic notation.
pub struct PronounceEntry {
    pub region: String,
    pub phonetic: String,
}

impl View for PronounceEntry {
    type V = (Seq<char>, Seq<char>);

    open spec fn view(&self) -> (Seq<char>, Seq<char>) {
        (self.region@, self.phonetic@)
    }
}

/// The views of a sequence of pronunciations.
pub open spec fn entries_view(v: Seq<PronounceEntry>) -> Seq<(Seq<char>, Seq<char>)> {
    v.map_values(|e: PronounceEntry| e@)
}

/// The pronunciation held by a `.pronounce` span: the first two words of its
/// text, when it has at least two.
pub open spec fn pronounce_entry(inner: Seq<char>) -> Option<(Seq<char>, Seq<char>)> {
    let parts = words(strip_spec(inner));
    if parts.len() >= 2 {
        Some((parts[0], parts[1]))
    } else {
        None
    }
}

/// The pronunciations held by the spans `spans`, in order.
pub open spec fn pronounce_entries(spans: Seq<Seq<char>>) -> Seq<(Seq<char>, Seq<char>)>
    decreases spans.len(),
{
    if spans.len() == 0 {
        seq![]
    } else {
        pronounce_entries(spans.drop_last()) + match pronounce_entry(spans.last()) {
            Some(e) => seq![e],
            None => seq![],
        }
    }
}

/// The region-marked pronunciations of an English result page.
pub open spec fn region_pronunciations(html: Seq<char>) -> Seq<(Seq<char>, Seq<char>)> {
    pronounce_entries(find_tags_spec(html, "span"@, ".pronounce"@))
}

/// The pronunciations of a page: the region-marked ones of an English page,
/// or, when there are none, the text of the first `.phonetic` span of a
/// Chinese page as one pronunciation without region, if that text is not empty.
pub open spec fn pronunciations(html: Seq<char>) -> Seq<(Seq<char>, Seq<char>)> {
    let ph = find_tags_spec(html, "span"@, ".phonetic"@);
    if region_pronunciations(html).len() > 0 {
        region_pronunciations(html)
    } else if ph.len() > 0 && strip_spec(ph[0]).len() > 0 {
        seq![(seq![], strip_spec(ph[0]))]
    } else {
        seq![]
    }
}

/// The region-marked pronunciations of `html`, as on an English result page.
pub fn region_pronounce_entries(html: &str) -> (r: Vec<PronounceEntry>)
    ensures
        entries_view(r@) == region_pronunciations(html@),
{
    let spans = find_tags(html, "span", ".pronounce");
    let mut out: Vec<PronounceEntry> = Vec::new();
    let mut i: usize = 0;
    assert(strs_view(spans@).take(0) =~= Seq::<Seq<char>>::empty());
    assert(entries_view(out@) =~= Seq::<(Seq<char>, Seq<char>)>::empty());
    while i < spans.len()
        invariant
            i <= spans@.len(),
            entries_view(out@) == pronounce_entries(strs_view(spans@).take(i as int)),
        decreases spans@.len() - i,
    {
        let ghost before = out@;
        let ghost v = strs_view(spans@);
        assert(v.take(i + 1).drop_last() =~= v.take(i as int));
        assert(v.take(i + 1).last() == spans@[i as int]@);
        let c = chars_of(spans[i]);
        let text = strip_chars(&c);
        let parts = split_words(&text);
        if parts.len() >= 2 {
            let e = PronounceEntry { region: string_of(&parts[0]), phonetic: string_of(&parts[1]) };
            out.push(e);
            assert(entries_view(out@) =~= entries_view(before) + seq![e@]);
        } else {
            assert(entries_view(out@) =~= entries_view(before) + Seq::<(Seq<char>, Seq<char>)>::empty());
        }
        i = i + 1;
    }
    assert(strs_view(spans@).take(spans@.len() as int) =~= strs_view(spans@));
    out
}

/// The pronunciations of a dictionary page.
pub struct Pronounce {
    entries: Vec<PronounceEntry>,
}

impl View for Pronounce {
    type V = Seq<(Seq<char>, Seq<char>)>;

    closed spec fn view(&self) -> Seq<(Seq<char>, Seq<char>)> {
        entries_view(self.entries@)
    }
}

impl Pronounce {
    /// Reads the pronunciations of a result page: the `.pronounce` spans of an
    /// English page, or, when there are none, the first `.phonetic` span of a
    /// Chinese page.
    pub fn parse(html: &str) -> (r: Self)
        ensures
            r@ == pronunciations(html@),
    {
        let entries = region_pronounce_entries(html);
        if entries.len() > 0 {
            return Pronounce { entries };
        }
        let ph = find_tags(html, "span", ".phonetic");
        if ph.len() > 0 {
            let phonetic = strip_html(ph[0]);
            if !phonetic.as_str().is_empty() {
                let e = PronounceEntry { region: String::new(), phonetic };
                let entries = vec![e];
                assert(entries_view(entries@) =~= seq![(Seq::<char>::empty(), e.phonetic@)]);
                return Pronounce { entries };
            }
        }
        let entries: Vec<PronounceEntry> = Vec::new();
        assert(entries_view(entries@) =~= Seq::<(Seq<char>, Seq<char>)>::empty());
        Pronounce { entries }
    }

    /// The printed form of the pronunciations: side by side on one line, or
    /// nothing at all when there is none.
    pub fn render(&self) -> (r: String)
        ensures
            r@ == pronounce_text(self@),
    {
        render_pronounce(&self.entries)
    }

    /// The pronunciations, in page order.
    pub fn entries(&self) -> (r: &Vec<PronounceEntry>)
        ensures
            entries_view(r@) == self@,
    {
        &self.entries
    }

    /// Whether no pronunciation was found.
    pub fn is_empty(&self) -> (r: bool)
        ensures
            r == (self@.len() == 0),
    {
        self.entries.len() == 0
    }
}

// ── Variant ──────────────────────────────────────────────────────────────

/// Every `<p` in the section `sec` is followed, somewhere after it, by a `>`.
pub open spec fn p_tags_closed(sec: Seq<char>) -> bool {
    forall|j: int| occurs_at(sec, "<p"@, j) ==> (#[trigger] find_from(sec, seq!['>'], j)) is Some
}

/// The word forms read from the section `sec` from `pos` on: each `<p` in
/// turn, up to the first `>` after it, is an opening tag; a tag naming
/// `wordGroup` is passed over, and for any other the text of the first `p`
/// element from that point on is taken (if there is one). Scanning resumes
/// after the tag.
pub open spec fn form_scan_from(sec: Seq<char>, pos: int) -> Seq<Seq<char>>
    decreases sec.len() - pos,
{
    match find_from(sec, "<p"@, pos) {
        None => seq![],
        Some(abs) => match find_from(sec, seq!['>'], abs) {
            None => seq![],
            Some(te) => {
                proof {
                    lemma_find_from_ge(sec, "<p"@, pos);
                    lemma_find_from_ge(sec, seq!['>'], abs);
                }
                let found = find_tags_spec(sec.skip(abs), "p"@, ""@);
                (if contains_seq(sec.subrange(abs, te + 1), "wordGroup"@) {
                    seq![]
                } else if found.len() > 0 {
                    seq![strip_spec(found[0])]
                } else {
                    seq![]
                }) + form_scan_from(sec, te + 1)
            },
        },
    }
}

/// The scan of [`form_scan_from`] meets a `<p` with no `>` after it (the
/// point where reading the opening tag would run past the section).
pub open spec fn form_scan_stuck(sec: Seq<char>, pos: int) -> bool
    decreases sec.len() - pos,
{
    match find_from(sec, "<p"@, pos) {
        None => false,
        Some(abs) => match find_from(sec, seq!['>'], abs) {
            None => true,
            Some(te) => {
                proof {
                    lemma_find_from_ge(sec, "<p"@, pos);
                    lemma_find_from_ge(sec, seq!['>'], abs);
                }
                form_scan_stuck(sec, te + 1)
            },
        },
    }
}

proof fn lemma_form_scan_stuck_from(sec: Seq<char>, pos: int)
    requires
        0 <= pos,
    ensures
        form_scan_stuck(sec, pos) <==> exists|j: int|
            pos <= j && occurs_at(sec, "<p"@, j) && (#[trigger] find_from(sec, seq!['>'], j)) is None,
    decreases sec.len() - pos,
{
    lemma_find_from(sec, "<p"@, pos);
    match find_from(sec, "<p"@, pos) {
        None => {},
        Some(abs) => {
            lemma_find_from(sec, seq!['>'], abs);
            match find_from(sec, seq!['>'], abs) {
                None => {},
                Some(te) => {
                    lemma_find_from_ge(sec, seq!['>'], abs);
                    lemma_form_scan_stuck_from(sec, te + 1);
                    if exists|j: int|
                        pos <= j && occurs_at(sec, "<p"@, j) && (#[trigger] find_from(
                            sec,
                            seq!['>'],
                            j,
                        )) is None {
                        let j = choose|j: int|
                            pos <= j && occurs_at(sec, "<p"@, j) && (#[trigger] find_from(
                                sec,
                                seq!['>'],
                                j,
                            )) is None;
                        lemma_find_from(sec, seq!['>'], j);
                        assert(abs <= j);
                        assert(te + 1 <= j);
                    }
                },
            }
        },
    }
}

/// Reading the word forms of a section goes through exactly when its `<p`
/// tags are closed: the scan meets an unclosed `<p` if and only if there is one.
pub proof fn lemma_p_tags_closed_iff_scan_completes(sec: Seq<char>)
    ensures
        p_tags_closed(sec) <==> !form_scan_stuck(sec, 0),
{
    lemma_form_scan_stuck_from(sec, 0);
}

/// The word forms read from each of the sections `ss`, one section after another.
pub open spec fn form_scan_all(ss: Seq<Seq<char>>) -> Seq<Seq<char>>
    decreases ss.len(),
{
    if ss.len() == 0 {
        seq![]
    } else {
        form_scan_all(ss.drop_last()) + form_scan_from(ss.last(), 0)
    }
}

/// Every translation section of `html` has its `<p` tags closed: the pages
/// whose word forms can be read.
pub open spec fn forms_readable(html: Seq<char>) -> bool {
    forall|i: int| 0 <= i < trans_sections(html).len() ==> p_tags_closed(#[trigger] trans_sections(html)[i])
}

/// The word forms of a page: the non-empty texts of the `p` elements of the
/// translation sections, other than `wordGroup` paragraphs.
pub open spec fn word_forms(html: Seq<char>) -> Seq<Seq<char>> {
    keep_nonempty(form_scan_all(trans_sections(html)))
}

/// The texts of the word forms of the section `sec`, empty ones included.
pub fn scan_forms(sec: &str) -> (r: Vec<String>)
    requires
        p_tags_closed(sec@),
    ensures
        strings_view(r@) == form_scan_from(sec@, 0),
{
    let s = chars_of(sec);
    let p = chars_of("<p");
    let wg = chars_of("wordGroup");
    let mut out: Vec<String> = Vec::new();
    let mut pos: usize = 0;
    assert(strings_view(out@) =~= Seq::<Seq<char>>::empty());
    while pos <= s.len()
        invariant
            s@ == sec@,
            p@ == "<p"@,
            wg@ == "wordGroup"@,
            p_tags_closed(sec@),
            pos <= s@.len() + 1,
            strings_view(out@) + form_scan_from(s@, pos as int) == form_scan_from(s@, 0),
        decreases s@.len() + 1 - pos,
    {
        let ghost before = strings_view(out@);
        let abs = match find_seq(&s, &p, pos) {
            Some(abs) => abs,
            None => {
                assert(strings_view(out@) + seq![] =~= strings_view(out@));
                return out;
            },
        };
        proof {
            lemma_find_from(s@, p@, pos as int);
            assert(occurs_at(sec@, "<p"@, abs as int));
            assert(find_from(sec@, seq!['>'], abs as int) is Some);
        }
        let te = match find_char(&s, '>', abs) {
            Some(te) => te,
            None => {
                return out;
            },
        };
        proof {
            lemma_find_from_ge(s@, p@, pos as int);
            lemma_find_from_ge(s@, seq!['>'], abs as int);
        }
        let open_tag = sub_chars(&s, abs, te + 1);
        if contains_chars(&open_tag, &wg) {
            assert(strings_view(out@) + form_scan_from(s@, te + 1) =~= before + (seq![]
                + form_scan_from(s@, te + 1)));
            pos = te + 1;
            continue;
        }
        let rest = sec.substring_char(abs, s.len());
        assert(rest@ =~= s@.skip(abs as int));
        let found = find_tags(rest, "p", "");
        if found.len() > 0 {
            let text = strip_html(found[0]);
            out.push(text);
            assert(strings_view(out@) =~= before.push(text@));
            assert(strings_view(out@) + form_scan_from(s@, te + 1) =~= before + (seq![text@]
                + form_scan_from(s@, te + 1)));
        } else {
            assert(strings_view(out@) + form_scan_from(s@, te + 1) =~= before + (seq![]
                + form_scan_from(s@, te + 1)));
        }
        pos = te + 1;
    }
    assert(strings_view(out@) + seq![] =~= strings_view(out@));
    out
}

/// Keeps the non-empty strings of `v`, in order.
pub fn nonempty_strings(v: Vec<String>) -> (r: Vec<String>)
    ensures
        strings_view(r@) == keep_nonempty(strings_view(v@)),
{
    let mut out: Vec<String> = Vec::new();
    let mut i: usize = 0;
    let ghost all = strings_view(v@);
    assert(all.take(0) =~= Seq::<Seq<char>>::empty());
    assert(strings_view(out@) =~= Seq::<Seq<char>>::empty());
    while i < v.len()
        invariant
            i <= v@.len(),
            all == strings_view(v@),
            strings_view(out@) == keep_nonempty(all.take(i as int)),
        decreases v@.len() - i,
    {
        let ghost before = out@;
        assert(all.take(i + 1).drop_last() =~= all.take(i as int));
        assert(all.take(i + 1).last() == v@[i as int]@);
        if !v[i].as_str().is_empty() {
            let t = v[i].clone();
            out.push(t);
            assert(strings_view(out@) =~= strings_view(before) + seq![v@[i as int]@]);
        } else {
            assert(strings_view(out@) =~= strings_view(before) + Seq::<Seq<char>>::empty());
        }
        i = i + 1;
    }
    assert(all.take(v@.len() as int) =~= all);
    out
}

/// The word forms of a dictionary page (plural, past tense, ...).
pub struct Variant {
    forms: Vec<String>,
}

impl View for Variant {
    type V = Seq<Seq<char>>;

    closed spec fn view(&self) -> Seq<Seq<char>> {
        strings_view(self.forms@)
    }
}

impl Variant {
    /// Whether the word forms of `html` can be read: every `<p` in its
    /// translation sections is followed by a `>`.
    pub fn readable(html: &str) -> (r: bool)
        ensures
            r == forms_readable(html@),
    {
        let sections = translation_sections(html);
        let p = chars_of("<p");
        let mut i: usize = 0;
        while i < sections.len()
            invariant
                i <= sections@.len(),
                p@ == "<p"@,
                strs_view(sections@) == trans_sections(html@),
                forall|k: int| 0 <= k < i ==> p_tags_closed(#[trigger] trans_sections(html@)[k]),
            decreases sections@.len() - i,
        {
            let s = chars_of(sections[i]);
            assert(s@ == trans_sections(html@)[i as int]);
            let mut j: usize = 0;
            while j < s.len()
                invariant
                    j <= s@.len(),
                    i < sections@.len(),
                    strs_view(sections@) == trans_sections(html@),
                    s@ == trans_sections(html@)[i as int],
                    p@ == "<p"@,
                    forall|k: int| 0 <= k < j ==> occurs_at(s@, "<p"@, k) ==> (#[trigger] find_from(s@, seq!['>'], k)) is Some,
                decreases s@.len() - j,
            {
                if matches_at(&s, &p, j) && find_char(&s, '>', j).is_none() {
                    assert(!p_tags_closed(trans_sections(html@)[i as int]));
                    return false;
                }
                j = j + 1;
            }
            proof {
                reveal_strlit("<p");
                assert forall|k: int| occurs_at(s@, "<p"@, k) implies (#[trigger] find_from(s@, seq!['>'], k)) is Some by {
                    if k >= j {
                        assert(k + p@.len() <= s@.len());
                    }
                }
            }
            i = i + 1;
        }
        true
    }

    /// Reads the word forms of a result page: the `p` elements of the
    /// translation sections, skipping `wordGroup` paragraphs and empty texts.
    pub fn parse(html: &str) -> (r: Self)
        requires
            forms_readable(html@),
        ensures
            r@ == word_forms(html@),
    {
        let sections = translation_sections(html);
        let mut all: Vec<String> = Vec::new();
        let mut i: usize = 0;
        assert(strs_view(sections@).take(0) =~= Seq::<Seq<char>>::empty());
        assert(strings_view(all@) =~= Seq::<Seq<char>>::empty());
        while i < sections.len()
            invariant
                i <= sections@.len(),
                strs_view(sections@) == trans_sections(html@),
                forms_readable(html@),
                strings_view(all@) == form_scan_all(strs_view(sections@).take(i as int)),
            decreases sections@.len() - i,
        {
            let ghost before = all@;
            let ghost v = strs_view(sections@);
            assert(v.take(i + 1).drop_last() =~= v.take(i as int));
            assert(v.take(i + 1).last() == sections@[i as int]@);
            assert(p_tags_closed(trans_sections(html@)[i as int]));
            let mut found = scan_forms(sections[i]);
            let ghost f = found@;
            all.append(&mut found);
            assert(strings_view(all@) =~= strings_view(before) + strings_view(f));
            i = i + 1;
        }
        assert(strs_view(sections@).take(sections@.len() as int) =~= strs_view(sections@));
        Variant { forms: nonempty_strings(all) }
    }

    /// The printed form of the word forms: one per line, in cyan.
    pub fn render(&self) -> (r: String)
        ensures
            r@ == styled_lines_spec(self@, Color::Cyan),
    {
        render_styled_lines(&self.forms, Color::Cyan)
    }

    /// The word forms, in page order.
    pub fn forms(&self) -> (r: &Vec<String>)
        ensures
            strings_view(r@) == self@,
    {
        &self.forms
    }

    /// Whether no word form was found.
    pub fn is_empty(&self) -> (r: bool)
        ensures
            r == (self@.len() == 0),
    {
        self.forms.len() == 0
    }
}

// ── Example ──────────────────────────────────────────────────────────────

/// A sense with its example sentences, as mathematical values: the groups of
/// sentences (one group per `.examples` block), the meaning, and the heading.
pub type SentenceModel = (Seq<Seq<Seq<char>>>, Seq<char>, Seq<char>);

/// A sense of the word with its example sentences. The sentences of each
/// `.examples` block form one group; the first sentence of a group is shown
/// with the `例:` prefix and the rest are only indented.
pub struct SentenceElement {
    groups: Vec<Vec<String>>,
    meaning: String,
    head: String,
}

/// The views of a sequence of sentence groups.
pub open spec fn groups_view(g: Seq<Vec<String>>) -> Seq<Seq<Seq<char>>> {
    g.map_values(|v: Vec<String>| strings_view(v@))
}

impl View for SentenceElement {
    type V = SentenceModel;

    closed spec fn view(&self) -> SentenceModel {
        (groups_view(self.groups@), self.meaning@, self.head@)
    }
}

/// The views of a sequence of senses.
pub open spec fn elements_view(v: Seq<SentenceElement>) -> Seq<SentenceModel> {
    v.map_values(|e: SentenceElement| e@)
}

impl SentenceElement {
    /// The sentence groups, in page order.
    pub fn groups(&self) -> (r: &Vec<Vec<String>>)
        ensures
            groups_view(r@) == self@.0,
    {
        &self.groups
    }

    /// The meaning of the sense.
    pub fn meaning(&self) -> (r: &str)
        ensures
            r@ == self@.1,
    {
        self.meaning.as_str()
    }

    /// The heading of the sense (its grammar label).
    pub fn head(&self) -> (r: &str)
        ensures
            r@ == self@.2,
    {
        self.head.as_str()
    }
}

/// The senses read from the fragments `lis`, through `entry`, in order.
pub open spec fn senses(lis: Seq<Seq<char>>, entry: spec_fn(Seq<char>) -> Option<SentenceModel>) -> Seq<SentenceModel>
    decreases lis.len(),
{
    if lis.len() == 0 {
        seq![]
    } else {
        senses(lis.drop_last(), entry) + match entry(lis.last()) {
            Some(e) => seq![e],
            None => seq![],
        }
    }
}

/// The list items of the Collins `.collinsToggle` blocks of a page.
pub open spec fn collins_items(html: Seq<char>) -> Seq<Seq<char>> {
    find_in_all(find_tags_spec(html, "div"@, ".collinsToggle"@), "li"@, ""@)
}

/// The non-empty headings of a Collins item.
pub open spec fn collins_heads(li: Seq<char>) -> Seq<Seq<char>> {
    stripped_texts(find_tags_spec(li, "span"@, ".additional"@))
}

/// The non-empty meanings of a Collins item.
pub open spec fn collins_meanings(li: Seq<char>) -> Seq<Seq<char>> {
    stripped_texts(find_in_all(find_tags_spec(li, "div"@, ".collinsMajorTrans"@), "p"@, ""@))
}

/// The non-empty sentences of one `.examples` block.
pub open spec fn example_group(div: Seq<char>) -> Seq<Seq<char>> {
    stripped_texts(find_tags_spec(div, "p"@, ""@))
}

/// The non-empty sentence groups of a Collins item.
pub open spec fn example_groups(li: Seq<char>) -> Seq<Seq<Seq<char>>> {
    keep_nonempty(
        find_tags_spec(li, "div"@, ".examples"@).map_values(|d: Seq<char>| example_group(d)),
    )
}

/// The sense of a Collins item: kept when it has a heading, a meaning and an
/// example group. Its meaning is the first meaning with the first heading
/// removed from its front (when it starts with it); its heading is the first
/// heading in brackets when there is one heading, else the second heading.
pub open spec fn collins_entry(li: Seq<char>) -> Option<SentenceModel> {
    let heads = collins_heads(li);
    let meanings = collins_meanings(li);
    let groups = example_groups(li);
    if heads.len() == 0 || meanings.len() == 0 || groups.len() == 0 {
        None
    } else {
        let meaning = if heads[0].is_prefix_of(meanings[0]) {
            meanings[0].skip(heads[0].len() as int)
        } else {
            meanings[0]
        };
        let head = if heads.len() == 1 {
            "["@ + heads[0] + "]"@
        } else {
            heads[1]
        };
        Some((groups, meaning, head))
    }
}

/// The senses of the Collins dictionary section of an English result page.
pub open spec fn collins_senses(html: Seq<char>) -> Seq<SentenceModel> {
    senses(collins_items(html), |li: Seq<char>| collins_entry(li))
}

/// The list items of the `#bilingual` blocks of a page.
pub open spec fn bilingual_items(html: Seq<char>) -> Seq<Seq<char>> {
    find_in_all(find_tags_spec(html, "div"@, "#bilingual"@), "li"@, ""@)
}

/// The sense of a bilingual item: its non-empty paragraph texts as one group,
/// with no heading and no meaning; none when it has no such text.
pub open spec fn bilingual_entry(li: Seq<char>) -> Option<SentenceModel> {
    let sentences = stripped_texts(find_tags_spec(li, "p"@, ""@));
    if sentences.len() == 0 {
        None
    } else {
        Some((seq![sentences], seq![], seq![]))
    }
}

/// The senses of the bilingual example section of a Chinese result page.
pub open spec fn bilingual_senses(html: Seq<char>) -> Seq<SentenceModel> {
    senses(bilingual_items(html), |li: Seq<char>| bilingual_entry(li))
}

/// The example senses of a page: the Collins senses, or, when there are
/// none, the bilingual ones.
pub open spec fn example_senses(html: Seq<char>) -> Seq<SentenceModel> {
    if collins_senses(html).len() > 0 {
        collins_senses(html)
    } else {
        bilingual_senses(html)
    }
}

fn sentence_groups(li: &str) -> (r: Vec<Vec<String>>)
    ensures
        groups_view(r@) == example_groups(li@),
{
    let divs = find_tags(li, "div", ".examples");
    let ghost all = strs_view(divs@).map_values(|d: Seq<char>| example_group(d));
    let mut out: Vec<Vec<String>> = Vec::new();
    let mut i: usize = 0;
    assert(all.take(0) =~= Seq::<Seq<Seq<char>>>::empty());
    assert(groups_view(out@) =~= Seq::<Seq<Seq<char>>>::empty());
    while i < divs.len()
        invariant
            i <= divs@.len(),
            all == strs_view(divs@).map_values(|d: Seq<char>| example_group(d)),
            groups_view(out@) == keep_nonempty(all.take(i as int)),
        decreases divs@.len() - i,
    {
        let ghost before = out@;
        let ps = find_tags(divs[i], "p", "");
        let g = strip_nonempty(&ps);
        assert(all.take(i + 1).drop_last() =~= all.take(i as int));
        assert(all.take(i + 1).last() == strings_view(g@));
        if g.len() > 0 {
            out.push(g);
            assert(groups_view(out@) =~= groups_view(before) + seq![all[i as int]]);
        } else {
            assert(groups_view(out@) =~= groups_view(before) + Seq::<Seq<Seq<char>>>::empty());
        }
        i = i + 1;
    }
    assert(all.take(divs@.len() as int) =~= all);
    out
}

fn collins_element(li: &str) -> (r: Option<SentenceElement>)
    ensures
        match r {
            Some(e) => collins_entry(li@) == Some(e@),
            None => collins_entry(li@) is None,
        },
{
    let head_spans = find_tags(li, "span", ".additional");
    let heads = strip_nonempty(&head_spans);
    if heads.len() == 0 {
        return None;
    }
    let trans = find_tags(li, "div", ".collinsMajorTrans");
    let paras = find_tags_in_all(&trans, "p", "");
    let meanings = strip_nonempty(&paras);
    if meanings.len() == 0 {
        return None;
    }
    let m0 = chars_of(meanings[0].as_str());
    let h0 = chars_of(heads[0].as_str());
    let meaning = if starts_with_chars(&m0, &h0) {
        let rest = skip_chars(&m0, h0.len());
        string_of(&rest)
    } else {
        meanings[0].clone()
    };
    let groups = sentence_groups(li);
    if groups.len() == 0 {
        return None;
    }
    let head = if heads.len() == 1 {
        let mut h = "[".to_owned();
        h.append(heads[0].as_str());
        h.append("]");
        h
    } else {
        heads[1].clone()
    };
    Some(SentenceElement { groups, meaning, head })
}

fn bilingual_element(li: &str) -> (r: Option<SentenceElement>)
    ensures
        match r {
            Some(e) => bilingual_entry(li@) == Some(e@),
            None => bilingual_entry(li@) is None,
        },
{
    let ps = find_tags(li, "p", "");
    let sentences = strip_nonempty(&ps);
    if sentences.len() == 0 {
        return None;
    }
    let groups = vec![sentences];
    assert(groups_view(groups@) =~= seq![strings_view(sentences@)]);
    Some(SentenceElement { groups, meaning: String::new(), head: String::new() })
}

/// The Collins senses of `html`, as on an English result page.
pub fn collins_elements(html: &str) -> (r: Vec<SentenceElement>)
    ensures
        elements_view(r@) == collins_senses(html@),
{
    let toggles = find_tags(html, "div", ".collinsToggle");
    let items = find_tags_in_all(&toggles, "li", "");
    let ghost entry = |li: Seq<char>| collins_entry(li);
    let mut out: Vec<SentenceElement> = Vec::new();
    let mut i: usize = 0;
    assert(strs_view(items@).take(0) =~= Seq::<Seq<char>>::empty());
    assert(elements_view(out@) =~= Seq::<SentenceModel>::empty());
    while i < items.len()
        invariant
            i <= items@.len(),
            entry == (|li: Seq<char>| collins_entry(li)),
            elements_view(out@) == senses(strs_view(items@).take(i as int), entry),
        decreases items@.len() - i,
    {
        let ghost before = out@;
        let ghost v = strs_view(items@);
        assert(v.take(i + 1).drop_last() =~= v.take(i as int));
        assert(v.take(i + 1).last() == items@[i as int]@);
        match collins_element(items[i]) {
            Some(e) => {
                out.push(e);
                assert(elements_view(out@) =~= elements_view(before) + seq![e@]);
            },
            None => {
                assert(elements_view(out@) =~= elements_view(before) + Seq::<SentenceModel>::empty());
            },
        }
        i = i + 1;
    }
    assert(strs_view(items@).take(items@.len() as int) =~= strs_view(items@));
    out
}

/// The bilingual senses of `html`, as on a Chinese result page.
pub fn bilingual_elements(html: &str) -> (r: Vec<SentenceElement>)
    ensures
        elements_view(r@) == bilingual_senses(html@),
{
    let blocks = find_tags(html, "div", "#bilingual");
    let items = find_tags_in_all(&blocks, "li", "");
    let ghost entry = |li: Seq<char>| bilingual_entry(li);
    let mut out: Vec<SentenceElement> = Vec::new();
    let mut i: usize = 0;
    assert(strs_view(items@).take(0) =~= Seq::<Seq<char>>::empty());
    assert(elements_view(out@) =~= Seq::<SentenceModel>::empty());
    while i < items.len()
        invariant
            i <= items@.len(),
            entry == (|li: Seq<char>| bilingual_entry(li)),
            elements_view(out@) == senses(strs_view(items@).take(i as int), entry),
        decreases items@.len() - i,
    {
        let ghost before = out@;
        let ghost v = strs_view(items@);
        assert(v.take(i + 1).drop_last() =~= v.take(i as int));
        assert(v.take(i + 1).last() == items@[i as int]@);
        match bilingual_element(items[i]) {
            Some(e) => {
                out.push(e);
                assert(elements_view(out@) =~= elements_view(before) + seq![e@]);
            },
            None => {
                assert(elements_view(out@) =~= elements_view(before) + Seq::<SentenceModel>::empty());
            },
        }
        i = i + 1;
    }
    assert(strs_view(items@).take(items@.len() as int) =~= strs_view(items@));
    out
}

/// The example sentences of a dictionary page, sense by sense.
pub struct Example {
    entries: Vec<SentenceElement>,
}

impl View for Example {
    type V = Seq<SentenceModel>;

    closed spec fn view(&self) -> Seq<SentenceModel> {
        elements_view(self.entries@)
    }
}

impl Example {
    /// Reads the example sentences of a result page: the Collins senses of an
    /// English page, or, when there are none, the bilingual examples of a
    /// Chinese page.
    pub fn parse(html: &str) -> (r: Self)
        ensures
            r@ == example_senses(html@),
    {
        let mut entries = Self::parse_collins(html);
        if entries.len() == 0 {
            entries = Self::parse_bilingual(html);
        }
        Example { entries }
    }

    /// The Collins senses of an English result page.
    pub fn parse_collins(html: &str) -> (r: Vec<SentenceElement>)
        ensures
            elements_view(r@) == collins_senses(html@),
    {
        collins_elements(html)
    }

    /// The bilingual example senses of a Chinese result page.
    pub fn parse_bilingual(html: &str) -> (r: Vec<SentenceElement>)
        ensures
            elements_view(r@) == bilingual_senses(html@),
    {
        bilingual_elements(html)
    }

    /// The printed form of the examples: the senses numbered from 1, a sense
    /// with neither heading nor meaning without a title line, then a reset
    /// sequence.
    pub fn render(&self) -> (r: String)
        ensures
            r@ == examples_text(self@, false),
    {
        render_examples(&self.entries, false)
    }

    /// The senses, in page order.
    pub fn entries(&self) -> (r: &Vec<SentenceElement>)
        ensures
            elements_view(r@) == self@,
    {
        &self.entries
    }

    /// Whether no example sentence was found.
    pub fn is_empty(&self) -> (r: bool)
        ensures
            r == (self@.len() == 0),
    {
        self.entries.len() == 0
    }
}

// ── Selections and concatenations ─────────────────────────────────────

/// `m` maps each member of `r` to the index in `ss` it was taken from: the
/// members of `r` are non-empty members of `ss`, taken in increasing order of
/// index, and every non-empty member of `ss` is taken.
pub open spec fn picks_nonempty<A>(ss: Seq<Seq<A>>, r: Seq<Seq<A>>, m: Seq<int>) -> bool {
    &&& m.len() == r.len()
    &&& forall|k: int|
        0 <= k < m.len() ==> 0 <= #[trigger] m[k] < ss.len() && r[k] == ss[m[k]] && r[k].len() > 0
    &&& forall|k: int, l: int| 0 <= k < l < m.len() ==> #[trigger] m[k] < #[trigger] m[l]
    &&& forall|j: int|
        0 <= j < ss.len() && (#[trigger] ss[j]).len() > 0 ==> exists|k: int|
            0 <= k < m.len() && #[trigger] m[k] == j
}

/// `r` is exactly the non-empty members of `ss`, in their order in `ss`.
pub open spec fn nonempty_in_order<A>(ss: Seq<Seq<A>>, r: Seq<Seq<A>>) -> bool {
    exists|m: Seq<int>| picks_nonempty(ss, r, m)
}

/// `off` cuts `r` into `parts`: consecutive stretches from the start to the end.
pub open spec fn cuts_into<A>(r: Seq<A>, parts: Seq<Seq<A>>, off: Seq<int>) -> bool {
    &&& off.len() == parts.len() + 1
    &&& off[0] == 0
    &&& off[parts.len() as int] == r.len()
    &&& forall|k: int| #![trigger parts[k]] 0 <= k < parts.len() ==> off[k] <= off[k + 1]
    &&& forall|k: int| 0 <= k < parts.len() ==> r.subrange(off[k], off[k + 1]) == #[trigger] parts[k]
}

/// `r` is the parts `parts` laid end to end, in order.
pub open spec fn laid_end_to_end<A>(r: Seq<A>, parts: Seq<Seq<A>>) -> bool {
    exists|off: Seq<int>| cuts_into(r, parts, off)
}

/// Keeping the non-empty members keeps exactly those, in order.
pub proof fn lemma_keep_nonempty_in_order<A>(ss: Seq<Seq<A>>)
    ensures
        nonempty_in_order(ss, keep_nonempty(ss)),
    decreases ss.len(),
{
    if ss.len() == 0 {
        let m = Seq::<int>::empty();
        assert(picks_nonempty(ss, keep_nonempty(ss), m));
    } else {
        let front = ss.drop_last();
        lemma_keep_nonempty_in_order(front);
        let m0 = choose|m: Seq<int>| picks_nonempty(front, keep_nonempty(front), m);
        let r0 = keep_nonempty(front);
        let r = keep_nonempty(ss);
        let n = ss.len() - 1;
        if ss.last().len() > 0 {
            let m = m0.push(n);
            assert(r == r0.push(ss.last()));
            assert forall|k: int| 0 <= k < m.len() implies 0 <= #[trigger] m[k] < ss.len() && r[k]
                == ss[m[k]] && r[k].len() > 0 by {
                if k < m0.len() {
                    assert(m[k] == m0[k]);
                    assert(r[k] == r0[k]);
                    assert(front[m0[k]] == ss[m0[k]]);
                }
            }
            assert forall|k: int, l: int| 0 <= k < l < m.len() implies #[trigger] m[k] < #[trigger] m[l] by {
                assert(m[k] == m0[k]);
                if l < m0.len() {
                    assert(m[l] == m0[l]);
                }
            }
            assert forall|j: int| 0 <= j < ss.len() && (#[trigger] ss[j]).len() > 0 implies exists|k: int|
                0 <= k < m.len() && #[trigger] m[k] == j by {
                if j < n {
                    assert(front[j] == ss[j]);
                    let k = choose|k: int| 0 <= k < m0.len() && #[trigger] m0[k] == j;
                    assert(m[k] == m0[k]);
                } else {
                    assert(m[m0.len() as int] == n);
                }
            }
            assert(picks_nonempty(ss, r, m));
        } else {
            assert(r =~= r0);
            assert forall|k: int| 0 <= k < m0.len() implies 0 <= #[trigger] m0[k] < ss.len() && r[k]
                == ss[m0[k]] && r[k].len() > 0 by {
                assert(front[m0[k]] == ss[m0[k]]);
            }
            assert forall|j: int| 0 <= j < ss.len() && (#[trigger] ss[j]).len() > 0 implies exists|k: int|
                0 <= k < m0.len() && #[trigger] m0[k] == j by {
                assert(j != n);
                assert(front[j] == ss[j]);
            }
            assert(picks_nonempty(ss, r, m0));
        }
    }
}

/// `m` maps each member of `r` to the index in `xs` it was read from: each
/// member of `r` is the value of a present member of `xs`, taken in
/// increasing order of index, and every present member of `xs` is taken.
pub open spec fn picks_somes<B>(xs: Seq<Option<B>>, r: Seq<B>, m: Seq<int>) -> bool {
    &&& m.len() == r.len()
    &&& forall|k: int| 0 <= k < m.len() ==> 0 <= #[trigger] m[k] < xs.len() && xs[m[k]] == Some(r[k])
    &&& forall|k: int, l: int| 0 <= k < l < m.len() ==> #[trigger] m[k] < #[trigger] m[l]
    &&& forall|j: int|
        0 <= j < xs.len() && (#[trigger] xs[j]) is Some ==> exists|k: int|
            0 <= k < m.len() && #[trigger] m[k] == j
}

/// `r` is exactly the values of the present members of `xs`, in order.
pub open spec fn somes_in_order<B>(xs: Seq<Option<B>>, r: Seq<B>) -> bool {
    exists|m: Seq<int>| picks_somes(xs, r, m)
}

/// The values of `xs`'s present members, with one more member `y` read.
pub open spec fn some_part<B>(y: Option<B>) -> Seq<B> {
    match y {
        Some(v) => seq![v],
        None => seq![],
    }
}

proof fn lemma_picks_somes_push<B>(xs: Seq<Option<B>>, r: Seq<B>, m: Seq<int>, y: Option<B>)
    requires
        picks_somes(xs, r, m),
    ensures
        somes_in_order(xs.push(y), r + some_part(y)),
{
    let xs2 = xs.push(y);
    let n = xs.len() as int;
    match y {
        Some(v) => {
            let r2 = r + seq![v];
            let m2 = m.push(n);
            assert forall|k: int| 0 <= k < m2.len() implies 0 <= #[trigger] m2[k] < xs2.len() && xs2[m2[k]]
                == Some(r2[k]) by {
                if k < m.len() {
                    assert(m2[k] == m[k]);
                    assert(r2[k] == r[k]);
                    assert(xs2[m[k]] == xs[m[k]]);
                }
            }
            assert forall|k: int, l: int| 0 <= k < l < m2.len() implies #[trigger] m2[k] < #[trigger] m2[l] by {
                assert(m2[k] == m[k]);
                if l < m.len() {
                    assert(m2[l] == m[l]);
                }
            }
            assert forall|j: int| 0 <= j < xs2.len() && (#[trigger] xs2[j]) is Some implies exists|k: int|
                0 <= k < m2.len() && #[trigger] m2[k] == j by {
                if j < n {
                    assert(xs2[j] == xs[j]);
                    let k = choose|k: int| 0 <= k < m.len() && #[trigger] m[k] == j;
                    assert(m2[k] == m[k]);
                } else {
                    assert(m2[m.len() as int] == n);
                }
            }
            assert(picks_somes(xs2, r2, m2));
            assert(r + some_part(y) == r2);
        },
        None => {
            assert(r + some_part(y) =~= r);
            assert forall|k: int| 0 <= k < m.len() implies 0 <= #[trigger] m[k] < xs2.len() && xs2[m[k]]
                == Some(r[k]) by {
                assert(xs2[m[k]] == xs[m[k]]);
            }
            assert forall|j: int| 0 <= j < xs2.len() && (#[trigger] xs2[j]) is Some implies exists|k: int|
                0 <= k < m.len() && #[trigger] m[k] == j by {
                assert(j != n);
                assert(xs2[j] == xs[j]);
            }
            assert(picks_somes(xs2, r, m));
        },
    }
}

/// The region-marked pronunciations of the spans `spans` are exactly the
/// pronunciations that the spans hold, span by span in order.
pub proof fn lemma_pronounce_entries_in_order(spans: Seq<Seq<char>>)
    ensures
        somes_in_order(spans.map_values(|x: Seq<char>| pronounce_entry(x)), pronounce_entries(spans)),
    decreases spans.len(),
{
    let xs = spans.map_values(|x: Seq<char>| pronounce_entry(x));
    if spans.len() == 0 {
        assert(picks_somes(xs, pronounce_entries(spans), Seq::<int>::empty()));
    } else {
        let front = spans.drop_last();
        lemma_pronounce_entries_in_order(front);
        let fxs = front.map_values(|x: Seq<char>| pronounce_entry(x));
        let m = choose|m: Seq<int>| picks_somes(fxs, pronounce_entries(front), m);
        lemma_picks_somes_push(fxs, pronounce_entries(front), m, pronounce_entry(spans.last()));
        assert(fxs.push(pronounce_entry(spans.last())) =~= xs);
        assert(pronounce_entries(spans) == pronounce_entries(front) + some_part(
            pronounce_entry(spans.last()),
        ));
    }
}

/// The senses read from the items `lis` are exactly the senses that the
/// items hold, item by item in order.
pub proof fn lemma_senses_in_order(
    lis: Seq<Seq<char>>,
    entry: spec_fn(Seq<char>) -> Option<SentenceModel>,
)
    ensures
        somes_in_order(lis.map_values(entry), senses(lis, entry)),
    decreases lis.len(),
{
    let xs = lis.map_values(entry);
    if lis.len() == 0 {
        assert(picks_somes(xs, senses(lis, entry), Seq::<int>::empty()));
    } else {
        let front = lis.drop_last();
        lemma_senses_in_order(front, entry);
        let fxs = front.map_values(entry);
        let m = choose|m: Seq<int>| picks_somes(fxs, senses(front, entry), m);
        lemma_picks_somes_push(fxs, senses(front, entry), m, entry(lis.last()));
        assert(fxs.push(entry(lis.last())) =~= xs);
        assert(senses(lis, entry) == senses(front, entry) + some_part(entry(lis.last())));
    }
}

/// Adding a part at the end of what is laid end to end.
pub proof fn lemma_cuts_push<A>(r: Seq<A>, parts: Seq<Seq<A>>, off: Seq<int>, x: Seq<A>)
    requires
        cuts_into(r, parts, off),
    ensures
        cuts_into(r + x, parts.push(x), off.push(r.len() + x.len() as int)),
{
    let r2 = r + x;
    let p2 = parts.push(x);
    let o2 = off.push(r.len() + x.len() as int);
    assert(o2[0] == off[0]);
    assert(o2[p2.len() as int] == r2.len());
    assert(o2.len() == p2.len() + 1);
    assert forall|k: int| 0 <= k < p2.len() implies o2[k] <= o2[k + 1] && r2.subrange(o2[k], o2[k + 1])
        == #[trigger] p2[k] by {
        assert(p2[k] == p2[k]);
        if k < parts.len() {
            assert(o2[k] == off[k] && o2[k + 1] == off[k + 1]);
            assert(parts[k] == p2[k]);
            lemma_cuts_monotone(r, parts, off, k + 1, parts.len() as int);
            lemma_cuts_monotone(r, parts, off, 0, k);
            assert(r2.subrange(off[k], off[k + 1]) =~= r.subrange(off[k], off[k + 1]));
        } else {
            assert(r2.subrange(r.len() as int, r.len() + x.len() as int) =~= x);
        }
    }
    assert forall|k: int| #![trigger o2[k]] 0 <= k < p2.len() implies o2[k] <= o2[k + 1] by {
        if k < parts.len() {
            assert(o2[k] == off[k] && o2[k + 1] == off[k + 1]);
            assert(parts[k] == p2[k]);
        } else {
            lemma_cuts_monotone(r, parts, off, 0, k);
        }
    }
}

proof fn lemma_cuts_monotone<A>(r: Seq<A>, parts: Seq<Seq<A>>, off: Seq<int>, a: int, b: int)
    requires
        cuts_into(r, parts, off),
        0 <= a <= b <= parts.len(),
    ensures
        off[a] <= off[b],
    decreases b - a,
{
    if a < b {
        lemma_cuts_monotone(r, parts, off, a + 1, b);
        assert(off[a] <= off[a + 1]) by {
            let _ = parts[a];
        }
    }
}

/// What [`find_tags_in_all`] gathers is the results for the fragments, one
/// after another: each fragment's elements, in fragment order.
pub proof fn lemma_find_in_all_concat(ss: Seq<Seq<char>>, tag: Seq<char>, hint: Seq<char>)
    ensures
        laid_end_to_end(
            find_in_all(ss, tag, hint),
            ss.map_values(|f: Seq<char>| find_tags_spec(f, tag, hint)),
        ),
    decreases ss.len(),
{
    let parts = ss.map_values(|f: Seq<char>| find_tags_spec(f, tag, hint));
    if ss.len() == 0 {
        let off = seq![0int];
        assert(cuts_into(find_in_all(ss, tag, hint), parts, off));
    } else {
        let front = ss.drop_last();
        lemma_find_in_all_concat(front, tag, hint);
        let fparts = front.map_values(|f: Seq<char>| find_tags_spec(f, tag, hint));
        let off = choose|off: Seq<int>| cuts_into(find_in_all(front, tag, hint), fparts, off);
        let x = find_tags_spec(ss.last(), tag, hint);
        lemma_cuts_push(find_in_all(front, tag, hint), fparts, off, x);
        assert(fparts.push(x) =~= parts);
        assert(find_in_all(ss, tag, hint) == find_in_all(front, tag, hint) + x);
    }
}

// ── Laws ─────────────────────────────────────────────────────────────────

/// Every member of `keep_nonempty(ss)` is non-empty.
pub proof fn lemma_keep_nonempty<A>(ss: Seq<Seq<A>>)
    ensures
        forall|k: int| 0 <= k < keep_nonempty(ss).len() ==> (#[trigger] keep_nonempty(ss)[k]).len() > 0,
    decreases ss.len(),
{
    if ss.len() > 0 {
        lemma_keep_nonempty(ss.drop_last());
        let front = keep_nonempty(ss.drop_last());
        let r = keep_nonempty(ss);
        assert forall|k: int| 0 <= k < r.len() implies (#[trigger] r[k]).len() > 0 by {
            if k < front.len() {
                assert(r[k] == front[k]);
            }
        }
    }
}

proof fn lemma_find_in_all_no_markup(ss: Seq<Seq<char>>, tag: Seq<char>, hint: Seq<char>)
    requires
        ss.len() == 0,
    ensures
        find_in_all(ss, tag, hint) == Seq::<Seq<char>>::empty(),
{
}

/// A page without markup (no `<`) yields no data: no paraphrase, no
/// pronunciation, no word form and no example, English or Chinese; and its
/// word forms can be read.
pub proof fn lemma_plain_page_is_empty(html: Seq<char>)
    requires
        lacks(html, '<'),
    ensures
        paraphrases(html).len() == 0,
        pronunciations(html).len() == 0,
        forms_readable(html),
        word_forms(html).len() == 0,
        example_senses(html).len() == 0,
{
    lemma_find_tags_no_markup(html, "div"@, "#phrsListTab"@);
    lemma_find_tags_no_markup(html, "span"@, ".pronounce"@);
    lemma_find_tags_no_markup(html, "span"@, ".phonetic"@);
    lemma_find_tags_no_markup(html, "div"@, ".collinsToggle"@);
    lemma_find_tags_no_markup(html, "div"@, "#bilingual"@);
    let e = Seq::<Seq<char>>::empty();
    assert(trans_sections(html) == e);
    assert(find_in_all(e, "ul"@, ""@) == e);
    assert(find_in_all(e, "li"@, ""@) == e);
    assert(find_in_all(e, "p"@, ".wordGroup"@) == e);
    assert(find_in_all(e, "span"@, ".contentTitle"@) == e);
    assert(strip_each(e) =~= e);
    assert(e.map_values(|ct: Seq<char>| content_title_text(ct)) =~= e);
    assert(form_scan_all(e) == e);
    assert(collins_items(html) == e);
    assert(bilingual_items(html) == e);
}

/// Every paraphrase and every word form read from a page is non-empty.
pub proof fn lemma_read_texts_nonempty(html: Seq<char>)
    ensures
        forall|k: int| 0 <= k < paraphrases(html).len() ==> (#[trigger] paraphrases(html)[k]).len() > 0,
        forall|k: int| 0 <= k < word_forms(html).len() ==> (#[trigger] word_forms(html)[k]).len() > 0,
{
    lemma_keep_nonempty(strip_each(find_in_all(find_in_all(trans_sections(html), "ul"@, ""@), "li"@, ""@)));
    lemma_keep_nonempty(
        find_in_all(
            find_in_all(trans_sections(html), "p"@, ".wordGroup"@),
            "span"@,
            ".contentTitle"@,
        ).map_values(|ct: Seq<char>| content_title_text(ct)),
    );
    lemma_keep_nonempty(form_scan_all(trans_sections(html)));
}

proof fn lemma_pronounce_entries_words(spans: Seq<Seq<char>>)
    ensures
        forall|k: int|
            0 <= k < pronounce_entries(spans).len() ==> {
                let e = #[trigger] pronounce_entries(spans)[k];
                &&& e.0.len() > 0 && ws_free(e.0)
                &&& e.1.len() > 0 && ws_free(e.1)
            },
    decreases spans.len(),
{
    if spans.len() > 0 {
        lemma_pronounce_entries_words(spans.drop_last());
        lemma_words_shape(strip_spec(spans.last()));
        let front = pronounce_entries(spans.drop_last());
        let r = pronounce_entries(spans);
        assert forall|k: int| 0 <= k < r.len() implies {
            let e = #[trigger] r[k];
            &&& e.0.len() > 0 && ws_free(e.0)
            &&& e.1.len() > 0 && ws_free(e.1)
        } by {
            if k < front.len() {
                assert(r[k] == front[k]);
            } else {
                let parts = words(strip_spec(spans.last()));
                assert(parts[0].len() > 0 && ws_free(parts[0]));
                assert(parts[1].len() > 0 && ws_free(parts[1]));
            }
        }
    }
}

/// The region and the phonetic notation of every region-marked pronunciation
/// are single words: non-empty and without whitespace.
pub proof fn lemma_region_pronunciations_are_words(html: Seq<char>)
    ensures
        forall|k: int|
            0 <= k < region_pronunciations(html).len() ==> {
                let e = #[trigger] region_pronunciations(html)[k];
                &&& e.0.len() > 0 && ws_free(e.0)
                &&& e.1.len() > 0 && ws_free(e.1)
            },
{
    lemma_pronounce_entries_words(find_tags_spec(html, "span"@, ".pronounce"@));
}

/// A sense with at least one group of sentences, every group with at least
/// one sentence, and every sentence non-empty.
pub open spec fn sense_has_sentences(e: SentenceModel) -> bool {
    &&& e.0.len() > 0
    &&& forall|g: int| 0 <= g < e.0.len() ==> (#[trigger] e.0[g]).len() > 0
    &&& forall|g: int, i: int| 0 <= g < e.0.len() && 0 <= i < e.0[g].len() ==> (#[trigger] e.0[g][i]).len() > 0
}

proof fn lemma_senses_have_sentences(
    lis: Seq<Seq<char>>,
    entry: spec_fn(Seq<char>) -> Option<SentenceModel>,
)
    requires
        forall|li: Seq<char>| (#[trigger] entry(li)) is Some ==> sense_has_sentences(entry(li)->0),
    ensures
        forall|k: int| 0 <= k < senses(lis, entry).len() ==> sense_has_sentences(#[trigger] senses(lis, entry)[k]),
    decreases lis.len(),
{
    if lis.len() > 0 {
        lemma_senses_have_sentences(lis.drop_last(), entry);
        let front = senses(lis.drop_last(), entry);
        let r = senses(lis, entry);
        assert forall|k: int| 0 <= k < r.len() implies sense_has_sentences(#[trigger] r[k]) by {
            if k < front.len() {
                assert(r[k] == front[k]);
            } else {
                assert(entry(lis.last()) is Some);
            }
        }
    }
}

proof fn lemma_collins_entry_sentences(li: Seq<char>)
    ensures
        collins_entry(li) is Some ==> sense_has_sentences(collins_entry(li)->0),
{
    let divs = find_tags_spec(li, "div"@, ".examples"@);
    let groups = divs.map_values(|d: Seq<char>| example_group(d));
    lemma_keep_nonempty(groups);
    let kept = keep_nonempty(groups);
    assert forall|g: int, i: int| 0 <= g < kept.len() && 0 <= i < kept[g].len() implies (#[trigger] kept[g][i]).len() > 0 by {
        lemma_keep_nonempty_members(groups, g);
        let j = choose|j: int| 0 <= j < groups.len() && groups[j] == kept[g];
        lemma_keep_nonempty(strip_each(find_tags_spec(divs[j], "p"@, ""@)));
    }
}

/// Every member of `keep_nonempty(ss)` is a member of `ss`.
pub proof fn lemma_keep_nonempty_members<A>(ss: Seq<Seq<A>>, k: int)
    requires
        0 <= k < keep_nonempty(ss).len(),
    ensures
        exists|j: int| 0 <= j < ss.len() && ss[j] == keep_nonempty(ss)[k],
    decreases ss.len(),
{
    let front = keep_nonempty(ss.drop_last());
    if k < front.len() {
        lemma_keep_nonempty_members(ss.drop_last(), k);
        let j = choose|j: int| 0 <= j < ss.drop_last().len() && ss.drop_last()[j] == front[k];
        assert(ss[j] == ss.drop_last()[j]);
        assert(keep_nonempty(ss)[k] == front[k]);
    } else {
        assert(keep_nonempty(ss)[k] == ss.last());
        assert(ss[ss.len() - 1] == ss.last());
    }
}

proof fn lemma_bilingual_entry_sentences(li: Seq<char>)
    ensures
        bilingual_entry(li) is Some ==> sense_has_sentences(bilingual_entry(li)->0),
{
    let sentences = stripped_texts(find_tags_spec(li, "p"@, ""@));
    lemma_keep_nonempty(strip_each(find_tags_spec(li, "p"@, ""@)));
    if sentences.len() > 0 {
        let e = bilingual_entry(li)->0;
        assert(e.0 == seq![sentences]);
        assert forall|g: int, i: int| 0 <= g < e.0.len() && 0 <= i < e.0[g].len() implies (#[trigger] e.0[g][i]).len() > 0 by {
            assert(e.0[g] == sentences);
        }
    }
}

/// Every example sense read from a page has at least one group of sentences,
/// each group has at least one sentence, and no sentence is empty.
pub proof fn lemma_example_senses_have_sentences(html: Seq<char>)
    ensures
        forall|k: int| 0 <= k < example_senses(html).len() ==> sense_has_sentences(#[trigger] example_senses(html)[k]),
{
    let fc = |li: Seq<char>| collins_entry(li);
    let fb = |li: Seq<char>| bilingual_entry(li);
    assert forall|li: Seq<char>| (#[trigger] fc(li)) is Some implies sense_has_sentences(fc(li)->0) by {
        lemma_collins_entry_sentences(li);
    }
    assert forall|li: Seq<char>| (#[trigger] fb(li)) is Some implies sense_has_sentences(fb(li)->0) by {
        lemma_bilingual_entry_sentences(li);
    }
    lemma_senses_have_sentences(collins_items(html), fc);
    lemma_senses_have_sentences(bilingual_items(html), fb);
}

/// English data comes first: when the English reading of a page (the
/// crate-root readers) finds anything, the page's reading is exactly it; the
/// Chinese-page pronunciation fallback is at most one pronunciation, without region.
pub proof fn lemma_english_first(html: Seq<char>)
    ensures
        region_pronunciations(html).len() > 0 ==> pronunciations(html) == region_pronunciations(html),
        list_paraphrases(html).len() > 0 ==> paraphrases(html) == list_paraphrases(html),
        collins_senses(html).len() > 0 ==> example_senses(html) == collins_senses(html),
        region_pronunciations(html).len() == 0 ==> pronunciations(html).len() <= 1 && forall|k: int|
            0 <= k < pronunciations(html).len() ==> (#[trigger] pronunciations(html)[k]).0.len() == 0,
{
}

/// The sentence groups of a block: the non-empty texts of its paragraphs.
pub open spec fn block_sentences(d: Seq<char>) -> Seq<Seq<char>> {
    keep_nonempty(strip_each(find_tags_spec(d, "p"@, ""@)))
}

/// The groups of a Collins sense are exactly the non-empty sentence groups of
/// its `.examples` blocks, one group per such block, in page order; and the
/// sentences of a block are exactly the non-empty texts of its paragraphs, in order.
pub proof fn lemma_collins_groups(li: Seq<char>)
    ensures
        collins_entry(li) is Some ==> nonempty_in_order(
            find_tags_spec(li, "div"@, ".examples"@).map_values(|d: Seq<char>| block_sentences(d)),
            (collins_entry(li)->0).0,
        ),
        forall|d: Seq<char>|
            nonempty_in_order(strip_each(find_tags_spec(d, "p"@, ""@)), #[trigger] block_sentences(d)),
{
    let blocks = find_tags_spec(li, "div"@, ".examples"@);
    assert(blocks.map_values(|d: Seq<char>| block_sentences(d)) =~= blocks.map_values(
        |d: Seq<char>| example_group(d),
    ));
    lemma_keep_nonempty_in_order(blocks.map_values(|d: Seq<char>| example_group(d)));
    assert forall|d: Seq<char>|
        nonempty_in_order(strip_each(find_tags_spec(d, "p"@, ""@)), #[trigger] block_sentences(d)) by {
        lemma_keep_nonempty_in_order(strip_each(find_tags_spec(d, "p"@, ""@)));
    }
}

/// The `.contentTitle` spans of the `wordGroup` paragraphs of the translation
/// sections of a page, in page order.
pub open spec fn word_group_titles(html: Seq<char>) -> Seq<Seq<char>> {
    find_in_all(find_in_all(trans_sections(html), "p"@, ".wordGroup"@), "span"@, ".contentTitle"@)
}

/// On a Chinese page (no English list paraphrase) the paraphrases are
/// exactly the non-empty title texts of every `.contentTitle` span of every
/// `wordGroup` paragraph, in page order; the spans are those of each
/// paragraph laid end to end, and the paragraphs those of each section.
pub proof fn lemma_word_group_paraphrases(html: Seq<char>)
    ensures
        list_paraphrases(html).len() == 0 ==> nonempty_in_order(
            word_group_titles(html).map_values(|ct: Seq<char>| content_title_text(ct)),
            paraphrases(html),
        ),
        laid_end_to_end(
            word_group_titles(html),
            find_in_all(trans_sections(html), "p"@, ".wordGroup"@).map_values(
                |wg: Seq<char>| find_tags_spec(wg, "span"@, ".contentTitle"@),
            ),
        ),
        laid_end_to_end(
            find_in_all(trans_sections(html), "p"@, ".wordGroup"@),
            trans_sections(html).map_values(|sec: Seq<char>| find_tags_spec(sec, "p"@, ".wordGroup"@)),
        ),
{
    lemma_keep_nonempty_in_order(
        word_group_titles(html).map_values(|ct: Seq<char>| content_title_text(ct)),
    );
    lemma_find_in_all_concat(
        find_in_all(trans_sections(html), "p"@, ".wordGroup"@),
        "span"@,
        ".contentTitle"@,
    );
    lemma_find_in_all_concat(trans_sections(html), "p"@, ".wordGroup"@);
}

/// What is read from a page is exactly what its parts hold, in page order:
/// every `.pronounce` span that holds a pronunciation gives it; every Collins
/// (or bilingual) item that holds a sense gives it; every non-empty text of
/// an `<li>` of the translation lists is a paraphrase; every non-empty form
/// text of the translation sections is a word form.
pub proof fn lemma_page_readings_in_order(html: Seq<char>)
    ensures
        somes_in_order(
            find_tags_spec(html, "span"@, ".pronounce"@).map_values(|x: Seq<char>| pronounce_entry(x)),
            region_pronunciations(html),
        ),
        somes_in_order(
            collins_items(html).map_values(|li: Seq<char>| collins_entry(li)),
            collins_senses(html),
        ),
        somes_in_order(
            bilingual_items(html).map_values(|li: Seq<char>| bilingual_entry(li)),
            bilingual_senses(html),
        ),
        nonempty_in_order(
            strip_each(find_in_all(find_in_all(trans_sections(html), "ul"@, ""@), "li"@, ""@)),
            list_paraphrases(html),
        ),
        nonempty_in_order(form_scan_all(trans_sections(html)), word_forms(html)),
{
    lemma_pronounce_entries_in_order(find_tags_spec(html, "span"@, ".pronounce"@));
    lemma_senses_in_order(collins_items(html), |li: Seq<char>| collins_entry(li));
    lemma_senses_in_order(bilingual_items(html), |li: Seq<char>| bilingual_entry(li));
    lemma_keep_nonempty_in_order(
        strip_each(find_in_all(find_in_all(trans_sections(html), "ul"@, ""@), "li"@, ""@)),
    );
    lemma_keep_nonempty_in_order(form_scan_all(trans_sections(html)));
}

} // verus!
