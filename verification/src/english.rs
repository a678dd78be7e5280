//! The page data as read from English result pages, with the full page text
//! that the command prints for a word.
use vstd::prelude::*;
use vstd::string::StringExecFns;

use crate::color::{styled, styled_spec, Color};
use crate::model::{
    collins_elements, collins_senses, elements_view, entries_view, find_in_all,
    list_paraphrase_entries, list_paraphrases, region_pronounce_entries, region_pronunciations,
    strip_nonempty, stripped_texts, trans_sections, translation_sections, find_tags_in_all,
    PronounceEntry, SentenceElement, SentenceModel,
};
use crate::render::{
    examples_text, lines_spec, pronounce_text, render_examples, render_lines, render_pronounce,
    render_styled_lines, styled_lines_spec,
};
use crate::text::strings_view;

verus! {

/// The paraphrases of an English result page.
pub struct Paraphrase {
    entries: Vec<String>,
}

impl View for Paraphrase {
    type V = Seq<Seq<char>>;

    closed spec fn view(&self) -> Seq<Seq<char>> {
        strings_view(self.entries@)
    }
}

impl Paraphrase {
    /// Reads the paraphrases of an English result page: the non-empty texts
    /// of the `<li>` items in the translation sections.
    pub fn parse(html: &str) -> (r: Self)
        ensures
            r@ == list_paraphrases(html@),
    {
        Paraphrase { entries: list_paraphrase_entries(html) }
    }

    /// The printed form of the paraphrases: one per line.
    pub fn render(&self) -> (r: String)
        ensures
            r@ == lines_spec(self@),
    {
        render_lines(&self.entries)
    }

    /// The paraphrases, in page order.
    pub fn entries(&self) -> (r: &Vec<String>)
        ensures
            strings_view(r@) == self@,
    {
        &self.entries
    }

    /// Whether no paraphrase was found.
    pub fn is_empty(&self) -> (r: bool)
        ensures
            r == (self@.len() == 0),
    {
        self.entries.len() == 0
    }
}

/// The region-marked pronunciations of an English result page.
pub struct Pronounce {
    entries: Vec<PronounceEntry>,
}

impl View for Pronounce {
    type V = Seq<(Seq<char>, Seq<char>)>;

    closed spec fn view(&self) -> Seq<(Seq<char>, Seq<char>)> {
        entries_view(self.entries@)
    }
}

impl Pronounce {
    /// Reads the pronunciations of an English result page: of each
    /// `.pronounce` span whose text has at least two words, the first word as
    /// the region and the second as the phonetic notation.
    pub fn parse(html: &str) -> (r: Self)
        ensures
            r@ == region_pronunciations(html@),
    {
        Pronounce { entries: region_pronounce_entries(html) }
    }

    /// The printed form of the pronunciations.
    pub fn render(&self) -> (r: String)
        ensures
            r@ == pronounce_text(self@),
    {
        render_pronounce(&self.entries)
    }

    /// The pronunciations, in page order.
    pub fn entries(&self) -> (r: &Vec<PronounceEntry>)
        ensures
            entries_view(r@) == self@,
    {
        &self.entries
    }

    /// Whether no pronunciation was found.
    pub fn is_empty(&self) -> (r: bool)
        ensures
            r == (self@.len() == 0),
    {
        self.entries.len() == 0
    }
}

/// The word forms of an English page: the non-empty texts of every `p`
/// element of the translation sections.
pub open spec fn paragraph_forms(html: Seq<char>) -> Seq<Seq<char>> {
    stripped_texts(find_in_all(trans_sections(html), "p"@, ""@))
}

/// The word forms (plural, past tense, ...) of an English result page.
pub struct Variant {
    forms: Vec<String>,
}

impl View for Variant {
    type V = Seq<Seq<char>>;

    closed spec fn view(&self) -> Seq<Seq<char>> {
        strings_view(self.forms@)
    }
}

impl Variant {
    /// Reads the word forms of an English result page.
    pub fn parse(html: &str) -> (r: Self)
        ensures
            r@ == paragraph_forms(html@),
    {
        let sections = translation_sections(html);
        let paras = find_tags_in_all(&sections, "p", "");
        Variant { forms: strip_nonempty(&paras) }
    }

    /// The printed form of the word forms: one per line, in cyan.
    pub fn render(&self) -> (r: String)
        ensures
            r@ == styled_lines_spec(self@, Color::Cyan),
    {
        render_styled_lines(&self.forms, Color::Cyan)
    }

    /// The word forms, in page order.
    pub fn forms(&self) -> (r: &Vec<String>)
        ensures
            strings_view(r@) == self@,
    {
        &self.forms
    }

    /// Whether no word form was found.
    pub fn is_empty(&self) -> (r: bool)
        ensures
            r == (self@.len() == 0),
    {
        self.forms.len() == 0
    }
}

/// The Collins example sentences of an English result page, sense by sense.
pub struct Example {
    entries: Vec<SentenceElement>,
}

impl View for Example {
    type V = Seq<SentenceModel>;

    closed spec fn view(&self) -> Seq<SentenceModel> {
        elements_view(self.entries@)
    }
}

impl Example {
    /// Reads the Collins senses of an English result page.
    pub fn parse(html: &str) -> (r: Self)
        ensures
            r@ == collins_senses(html@),
    {
        Example { entries: collins_elements(html) }
    }

    /// The printed form of the examples: the senses numbered from 1, each
    /// with its title line, then a reset sequence.
    pub fn render(&self) -> (r: String)
        ensures
            r@ == examples_text(self@, true),
    {
        render_examples(&self.entries, true)
    }

    /// The senses, in page order.
    pub fn entries(&self) -> (r: &Vec<SentenceElement>)
        ensures
            elements_view(r@) == self@,
    {
        &self.entries
    }

    /// Whether no example sentence was found.
    pub fn is_empty(&self) -> (r: bool)
        ensures
            r == (self@.len() == 0),
    {
        self.entries.len() == 0
    }
}

/// The request path that looks `word` up on the dictionary site.
pub open spec fn search_path_spec(word: Seq<char>) -> Seq<char> {
    "/search?q="@ + word
}

/// The request path that looks `word` up on the dictionary site.
pub fn search_path(word: &str) -> (r: String)
    ensures
        r@ == search_path_spec(word@),
{
    let mut p = "/search?q=".to_owned();
    p.append(word);
    p
}

/// The full text printed for `word` and its result page `html`: the word in
/// red, the pronunciations, the paraphrases, the word forms, an empty line,
/// and the examples.
pub open spec fn page_text(html: Seq<char>, word: Seq<char>) -> Seq<char> {
    styled_spec(word, Color::Red) + "\n"@ + pronounce_text(region_pronunciations(html))
        + lines_spec(list_paraphrases(html)) + styled_lines_spec(paragraph_forms(html), Color::Cyan)
        + "\n"@ + examples_text(collins_senses(html), true)
}

/// The full text printed for `word` and its result page `html`.
pub fn render_page(html: &str, word: &str) -> (r: String)
    ensures
        r@ == page_text(html@, word@),
{
    let mut out = styled(word, Color::Red);
    out.append("\n");
    let p = Pronounce::parse(html).render();
    out.append(p.as_str());
    let q = Paraphrase::parse(html).render();
    out.append(q.as_str());
    let v = Variant::parse(html).render();
    out.append(v.as_str());
    out.append("\n");
    let e = Example::parse(html).render();
    out.append(e.as_str());
    out
}

} // verus!
