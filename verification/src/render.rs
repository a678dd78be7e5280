//! The terminal text of the data read from a page: what each part prints.
use vstd::prelude::*;
use vstd::string::StringExecFns;

use crate::color::{ansi_code, styled, styled_spec, Color};
use crate::model::{
    cuts_into, laid_end_to_end, lemma_cuts_push,
    elements_view, entries_view, groups_view, PronounceEntry, SentenceElement, SentenceModel,
};
use crate::text::{string_of, strings_view};

verus! {

broadcast use vstd::seq::group_seq_axioms;

/// The decimal digit for `d < 10`.
pub open spec fn digit(d: nat) -> char {
    (48 + d) as char
}

/// The decimal notation of `n`.
pub open spec fn decimal(n: nat) -> Seq<char>
    decreases n,
{
    if n < 10 {
        seq![digit(n)]
    } else {
        decimal(n / 10) + seq![digit(n % 10)]
    }
}

fn decimal_chars(n: usize) -> (r: Vec<char>)
    ensures
        r@ == decimal(n as nat),
    decreases n,
{
    if n < 10 {
        let d = (48 + n) as u8;
        vec![d as char]
    } else {
        let mut out = decimal_chars(n / 10);
        let d = (48 + n % 10) as u8;
        out.push(d as char);
        out
    }
}

/// The decimal notation of `n`, as a string.
pub fn decimal_string(n: usize) -> (r: String)
    ensures
        r@ == decimal(n as nat),
{
    let v = decimal_chars(n);
    string_of(&v)
}

/// Each of `ss` on a line of its own.
pub open spec fn lines_spec(ss: Seq<Seq<char>>) -> Seq<char>
    decreases ss.len(),
{
    if ss.len() == 0 {
        seq![]
    } else {
        lines_spec(ss.drop_last()) + ss.last() + "\n"@
    }
}

/// Each of `ss` in colour `c` on a line of its own.
pub open spec fn styled_lines_spec(ss: Seq<Seq<char>>, c: Color) -> Seq<char>
    decreases ss.len(),
{
    if ss.len() == 0 {
        seq![]
    } else {
        styled_lines_spec(ss.drop_last(), c) + styled_spec(ss.last(), c) + "\n"@
    }
}

/// The pronunciations `es` side by side: each region, a space, the phonetic
/// notation in cyan, and two spaces.
pub open spec fn pronounce_items(es: Seq<(Seq<char>, Seq<char>)>) -> Seq<char>
    decreases es.len(),
{
    if es.len() == 0 {
        seq![]
    } else {
        pronounce_items(es.drop_last()) + styled_spec(es.last().0, Color::Reset) + " "@
            + styled_spec(es.last().1, Color::Cyan) + "  "@
    }
}

/// The pronunciation line: nothing when there is no pronunciation, else the
/// pronunciations followed by a line break.
pub open spec fn pronounce_text(es: Seq<(Seq<char>, Seq<char>)>) -> Seq<char> {
    if es.len() == 0 {
        seq![]
    } else {
        pronounce_items(es) + "\n"@
    }
}

/// The sentences of one group, one per line in yellow: the first after a
/// green `例:` label, the others indented to the same column.
pub open spec fn group_text(g: Seq<Seq<char>>) -> Seq<char>
    decreases g.len(),
{
    if g.len() == 0 {
        seq![]
    } else {
        group_text(g.drop_last()) + styled_spec(
            if g.len() == 1 {
                "  例: "@
            } else {
                "       "@
            },
            Color::Green,
        ) + styled_spec(g.last(), Color::Yellow) + "\n"@
    }
}

/// The sentence groups `gs`, one after another.
pub open spec fn groups_text(gs: Seq<Seq<Seq<char>>>) -> Seq<char>
    decreases gs.len(),
{
    if gs.len() == 0 {
        seq![]
    } else {
        groups_text(gs.drop_last()) + group_text(gs.last())
    }
}

/// The sense `e` numbered `num`: a title line (the number, the heading in
/// green, the meaning) unless `always_title` is false and both heading and
/// meaning are empty; then its sentence groups and an empty line.
pub open spec fn sense_text(e: SentenceModel, num: nat, always_title: bool) -> Seq<char> {
    (if always_title || e.2.len() > 0 || e.1.len() > 0 {
        decimal(num) + ". "@ + styled_spec(e.2, Color::Green) + styled_spec(e.1, Color::Reset)
            + "\n"@
    } else {
        seq![]
    }) + groups_text(e.0) + "\n"@
}

/// The senses `es`, numbered from 1.
pub open spec fn senses_text(es: Seq<SentenceModel>, always_title: bool) -> Seq<char>
    decreases es.len(),
{
    if es.len() == 0 {
        seq![]
    } else {
        senses_text(es.drop_last(), always_title) + sense_text(es.last(), es.len(), always_title)
    }
}

/// The example section: the numbered senses, then a reset sequence on a line of its own.
pub open spec fn examples_text(es: Seq<SentenceModel>, always_title: bool) -> Seq<char> {
    senses_text(es, always_title) + ansi_code(Color::Reset) + "\n"@
}

/// Each of `ss` on a line of its own.
pub fn render_lines(ss: &Vec<String>) -> (r: String)
    ensures
        r@ == lines_spec(strings_view(ss@)),
{
    let mut out = String::new();
    let mut i: usize = 0;
    let ghost all = strings_view(ss@);
    assert(all.take(0) =~= Seq::<Seq<char>>::empty());
    while i < ss.len()
        invariant
            i <= ss@.len(),
            all == strings_view(ss@),
            out@ == lines_spec(all.take(i as int)),
        decreases ss@.len() - i,
    {
        assert(all.take(i + 1).drop_last() =~= all.take(i as int));
        assert(all.take(i + 1).last() == ss@[i as int]@);
        out.append(ss[i].as_str());
        out.append("\n");
        i = i + 1;
    }
    assert(all.take(ss@.len() as int) =~= all);
    out
}

/// Each of `ss` in colour `c` on a line of its own.
pub fn render_styled_lines(ss: &Vec<String>, c: Color) -> (r: String)
    ensures
        r@ == styled_lines_spec(strings_view(ss@), c),
{
    let mut out = String::new();
    let mut i: usize = 0;
    let ghost all = strings_view(ss@);
    assert(all.take(0) =~= Seq::<Seq<char>>::empty());
    while i < ss.len()
        invariant
            i <= ss@.len(),
            all == strings_view(ss@),
            out@ == styled_lines_spec(all.take(i as int), c),
        decreases ss@.len() - i,
    {
        assert(all.take(i + 1).drop_last() =~= all.take(i as int));
        assert(all.take(i + 1).last() == ss@[i as int]@);
        let line = styled(ss[i].as_str(), c);
        out.append(line.as_str());
        out.append("\n");
        i = i + 1;
    }
    assert(all.take(ss@.len() as int) =~= all);
    out
}

/// The pronunciation line of `es`.
pub fn render_pronounce(es: &Vec<PronounceEntry>) -> (r: String)
    ensures
        r@ == pronounce_text(entries_view(es@)),
{
    let mut out = String::new();
    if es.len() == 0 {
        return out;
    }
    let mut i: usize = 0;
    let ghost all = entries_view(es@);
    assert(all.take(0) =~= Seq::<(Seq<char>, Seq<char>)>::empty());
    while i < es.len()
        invariant
            i <= es@.len(),
            all == entries_view(es@),
            out@ == pronounce_items(all.take(i as int)),
        decreases es@.len() - i,
    {
        assert(all.take(i + 1).drop_last() =~= all.take(i as int));
        assert(all.take(i + 1).last() == es@[i as int]@);
        let region = styled(es[i].region.as_str(), Color::Reset);
        let phonetic = styled(es[i].phonetic.as_str(), Color::Cyan);
        out.append(region.as_str());
        out.append(" ");
        out.append(phonetic.as_str());
        out.append("  ");
        i = i + 1;
    }
    assert(all.take(es@.len() as int) =~= all);
    out.append("\n");
    out
}

fn render_group(g: &Vec<String>) -> (r: String)
    ensures
        r@ == group_text(strings_view(g@)),
{
    let mut out = String::new();
    let mut i: usize = 0;
    let ghost all = strings_view(g@);
    assert(all.take(0) =~= Seq::<Seq<char>>::empty());
    while i < g.len()
        invariant
            i <= g@.len(),
            all == strings_view(g@),
            out@ == group_text(all.take(i as int)),
        decreases g@.len() - i,
    {
        assert(all.take(i + 1).drop_last() =~= all.take(i as int));
        assert(all.take(i + 1).last() == g@[i as int]@);
        let prefix = if i == 0 {
            "  例: "
        } else {
            "       "
        };
        let label = styled(prefix, Color::Green);
        let sentence = styled(g[i].as_str(), Color::Yellow);
        out.append(label.as_str());
        out.append(sentence.as_str());
        out.append("\n");
        i = i + 1;
    }
    assert(all.take(g@.len() as int) =~= all);
    out
}

fn render_sense(e: &SentenceElement, num: usize, always_title: bool) -> (r: String)
    ensures
        r@ == sense_text(e@, num as nat, always_title),
{
    let mut out = String::new();
    let head = e.head();
    let meaning = e.meaning();
    if always_title || !head.is_empty() || !meaning.is_empty() {
        let n = decimal_string(num);
        out.append(n.as_str());
        out.append(". ");
        let h = styled(head, Color::Green);
        let m = styled(meaning, Color::Reset);
        out.append(h.as_str());
        out.append(m.as_str());
        out.append("\n");
    }
    let gs = e.groups();
    let ghost all = groups_view(gs@);
    let ghost title = out@;
    let mut i: usize = 0;
    assert(all.take(0) =~= Seq::<Seq<Seq<char>>>::empty());
    assert(out@ =~= title + groups_text(all.take(0)));
    while i < gs.len()
        invariant
            i <= gs@.len(),
            all == groups_view(gs@),
            out@ == title + groups_text(all.take(i as int)),
        decreases gs@.len() - i,
    {
        assert(all.take(i + 1).drop_last() =~= all.take(i as int));
        assert(all.take(i + 1).last() == strings_view(gs@[i as int]@));
        let t = render_group(&gs[i]);
        out.append(t.as_str());
        i = i + 1;
    }
    assert(all.take(gs@.len() as int) =~= all);
    out.append("\n");
    out
}

/// The example section for the senses `es`, numbered from 1; when
/// `always_title` is false, a sense with neither heading nor meaning gets no
/// title line.
pub fn render_examples(es: &Vec<SentenceElement>, always_title: bool) -> (r: String)
    ensures
        r@ == examples_text(elements_view(es@), always_title),
{
    let mut out = String::new();
    let mut i: usize = 0;
    let ghost all = elements_view(es@);
    assert(all.take(0) =~= Seq::<SentenceModel>::empty());
    while i < es.len()
        invariant
            i <= es@.len(),
            all == elements_view(es@),
            out@ == senses_text(all.take(i as int), always_title),
        decreases es@.len() - i,
    {
        assert(all.take(i + 1).drop_last() =~= all.take(i as int));
        assert(all.take(i + 1).last() == es@[i as int]@);
        let t = render_sense(&es[i], i + 1, always_title);
        out.append(t.as_str());
        i = i + 1;
    }
    assert(all.take(es@.len() as int) =~= all);
    out.append(Color::Reset.code());
    out.append("\n");
    out
}

/// The senses `es` each with its own number: the `k`-th (from 0) numbered `k + 1`.
pub open spec fn numbered_senses(es: Seq<SentenceModel>, always_title: bool) -> Seq<Seq<char>> {
    Seq::new(es.len(), |k: int| sense_text(es[k], (k + 1) as nat, always_title))
}

proof fn lemma_senses_text_numbered(es: Seq<SentenceModel>, always_title: bool)
    ensures
        laid_end_to_end(senses_text(es, always_title), numbered_senses(es, always_title)),
    decreases es.len(),
{
    let parts = numbered_senses(es, always_title);
    if es.len() == 0 {
        let off = seq![0int];
        assert(cuts_into(senses_text(es, always_title), parts, off));
    } else {
        let front = es.drop_last();
        lemma_senses_text_numbered(front, always_title);
        let fparts = numbered_senses(front, always_title);
        let off = choose|off: Seq<int>| cuts_into(senses_text(front, always_title), fparts, off);
        let x = sense_text(es.last(), es.len(), always_title);
        lemma_cuts_push(senses_text(front, always_title), fparts, off, x);
        assert(fparts.push(x) =~= parts);
    }
}

/// The example section numbers its senses in order: it is the text of the
/// first sense titled `1`, then the second titled `2`, and so on, laid end to
/// end, followed by a reset sequence on a line of its own.
pub proof fn lemma_examples_numbered(es: Seq<SentenceModel>, always_title: bool)
    ensures
        exists|body: Seq<char>|
            examples_text(es, always_title) == body + ansi_code(Color::Reset) + "\n"@
                && laid_end_to_end(body, numbered_senses(es, always_title)),
{
    lemma_senses_text_numbered(es, always_title);
    let body = senses_text(es, always_title);
    assert(examples_text(es, always_title) == body + ansi_code(Color::Reset) + "\n"@);
}

/// A sense with a title line starts with its number and a dot: when titles
/// are always shown, or the sense has a heading or a meaning, the text of the
/// sense numbered `num` begins with the decimal `num` followed by `. `.
pub proof fn lemma_sense_title(e: SentenceModel, num: nat, always_title: bool)
    ensures
        (always_title || e.2.len() > 0 || e.1.len() > 0) ==> (decimal(num) + ". "@).is_prefix_of(
            sense_text(e, num, always_title),
        ),
{
    let t = decimal(num) + ". "@;
    if always_title || e.2.len() > 0 || e.1.len() > 0 {
        let full = sense_text(e, num, always_title);
        assert(full.subrange(0, t.len() as int) =~= t);
    }
}

/// The number that the decimal digits `d` denote, most significant first.
pub open spec fn decimal_value(d: Seq<char>) -> int
    decreases d.len(),
{
    if d.len() == 0 {
        0
    } else {
        10 * decimal_value(d.drop_last()) + (d.last() as int - 48)
    }
}

/// Reading back the decimal notation of `n` gives `n`, and every character is a digit.
pub proof fn lemma_decimal_value(n: nat)
    ensures
        decimal_value(decimal(n)) == n,
        forall|i: int| 0 <= i < decimal(n).len() ==> '0' <= #[trigger] decimal(n)[i] <= '9',
    decreases n,
{
    if n >= 10 {
        lemma_decimal_value(n / 10);
        let d = decimal(n);
        assert(d.drop_last() =~= decimal(n / 10));
        assert(d.last() == digit(n % 10));
        assert(digit(n % 10) as int == 48 + n % 10);
        assert(10 * (n / 10) + n % 10 == n);
        assert(decimal_value(d) == 10 * decimal_value(d.drop_last()) + (d.last() as int - 48));
        assert forall|i: int| 0 <= i < d.len() implies '0' <= #[trigger] d[i] <= '9' by {
            if i < d.len() - 1 {
                assert(d[i] == decimal(n / 10)[i]);
            }
        }
    } else {
        assert(decimal(n).drop_last() =~= Seq::<char>::empty());
        assert(digit(n) as int == 48 + n);
        assert(decimal_value(Seq::<char>::empty()) == 0);
        let d = decimal(n);
        assert(decimal_value(d) == 10 * decimal_value(d.drop_last()) + (d.last() as int - 48));
    }
}

/// The lines of `ss` are each member followed by a line break, in order.
pub proof fn lemma_lines_laid(ss: Seq<Seq<char>>)
    ensures
        laid_end_to_end(lines_spec(ss), Seq::new(ss.len(), |k: int| ss[k] + "\n"@)),
    decreases ss.len(),
{
    let parts = Seq::new(ss.len(), |k: int| ss[k] + "\n"@);
    if ss.len() == 0 {
        assert(cuts_into(lines_spec(ss), parts, seq![0int]));
    } else {
        let front = ss.drop_last();
        lemma_lines_laid(front);
        let fparts = Seq::new(front.len(), |k: int| front[k] + "\n"@);
        let off = choose|off: Seq<int>| cuts_into(lines_spec(front), fparts, off);
        let x = parts[ss.len() - 1];
        lemma_cuts_push(lines_spec(front), fparts, off, x);
        assert(fparts.push(x) =~= parts);
        assert(lines_spec(ss) == lines_spec(front) + x);
    }
}

/// The coloured lines of `ss` are each member in colour `c` followed by a
/// line break, in order.
pub proof fn lemma_styled_lines_laid(ss: Seq<Seq<char>>, c: Color)
    ensures
        laid_end_to_end(styled_lines_spec(ss, c), Seq::new(ss.len(), |k: int| styled_spec(ss[k], c) + "\n"@)),
    decreases ss.len(),
{
    let parts = Seq::new(ss.len(), |k: int| styled_spec(ss[k], c) + "\n"@);
    if ss.len() == 0 {
        assert(cuts_into(styled_lines_spec(ss, c), parts, seq![0int]));
    } else {
        let front = ss.drop_last();
        lemma_styled_lines_laid(front, c);
        let fparts = Seq::new(front.len(), |k: int| styled_spec(front[k], c) + "\n"@);
        let off = choose|off: Seq<int>| cuts_into(styled_lines_spec(front, c), fparts, off);
        let x = parts[ss.len() - 1];
        lemma_cuts_push(styled_lines_spec(front, c), fparts, off, x);
        assert(fparts.push(x) =~= parts);
        assert(styled_lines_spec(ss, c) == styled_lines_spec(front, c) + x);
    }
}

/// The pronunciation line lists each pronunciation in order: its region, a
/// space, its phonetic notation in cyan, and two spaces.
pub proof fn lemma_pronounce_items_laid(es: Seq<(Seq<char>, Seq<char>)>)
    ensures
        laid_end_to_end(pronounce_items(es), Seq::new(es.len(), |k: int| styled_spec(es[k].0, Color::Reset) + " "@ + styled_spec(es[k].1, Color::Cyan) + "  "@)),
    decreases es.len(),
{
    let parts = Seq::new(es.len(), |k: int| styled_spec(es[k].0, Color::Reset) + " "@ + styled_spec(es[k].1, Color::Cyan) + "  "@);
    if es.len() == 0 {
        assert(cuts_into(pronounce_items(es), parts, seq![0int]));
    } else {
        let front = es.drop_last();
        lemma_pronounce_items_laid(front);
        let fparts = Seq::new(front.len(), |k: int| styled_spec(front[k].0, Color::Reset) + " "@ + styled_spec(front[k].1, Color::Cyan) + "  "@);
        let off = choose|off: Seq<int>| cuts_into(pronounce_items(front), fparts, off);
        let x = parts[es.len() - 1];
        lemma_cuts_push(pronounce_items(front), fparts, off, x);
        assert(fparts.push(x) =~= parts);
        assert(pronounce_items(es) == pronounce_items(front) + x);
    }
}

/// A group lists each sentence in order on a line of its own: the first
/// after a `例:` label, the others after an indent of the same width.
pub proof fn lemma_group_text_laid(g: Seq<Seq<char>>)
    ensures
        laid_end_to_end(group_text(g), Seq::new(g.len(), |k: int| styled_spec(if k == 0 { "  例: "@ } else { "       "@ }, Color::Green) + styled_spec(g[k], Color::Yellow) + "\n"@)),
    decreases g.len(),
{
    let parts = Seq::new(g.len(), |k: int| styled_spec(if k == 0 { "  例: "@ } else { "       "@ }, Color::Green) + styled_spec(g[k], Color::Yellow) + "\n"@);
    if g.len() == 0 {
        assert(cuts_into(group_text(g), parts, seq![0int]));
    } else {
        let front = g.drop_last();
        lemma_group_text_laid(front);
        let fparts = Seq::new(front.len(), |k: int| styled_spec(if k == 0 { "  例: "@ } else { "       "@ }, Color::Green) + styled_spec(front[k], Color::Yellow) + "\n"@);
        let off = choose|off: Seq<int>| cuts_into(group_text(front), fparts, off);
        let x = parts[g.len() - 1];
        lemma_cuts_push(group_text(front), fparts, off, x);
        assert(fparts.push(x) =~= parts);
        assert(group_text(g) == group_text(front) + x);
    }
}

/// The sentence groups are laid out one after another, in order.
pub proof fn lemma_groups_text_laid(gs: Seq<Seq<Seq<char>>>)
    ensures
        laid_end_to_end(groups_text(gs), Seq::new(gs.len(), |k: int| group_text(gs[k]))),
    decreases gs.len(),
{
    let parts = Seq::new(gs.len(), |k: int| group_text(gs[k]));
    if gs.len() == 0 {
        assert(cuts_into(groups_text(gs), parts, seq![0int]));
    } else {
        let front = gs.drop_last();
        lemma_groups_text_laid(front);
        let fparts = Seq::new(front.len(), |k: int| group_text(front[k]));
        let off = choose|off: Seq<int>| cuts_into(groups_text(front), fparts, off);
        let x = parts[gs.len() - 1];
        lemma_cuts_push(groups_text(front), fparts, off, x);
        assert(fparts.push(x) =~= parts);
        assert(groups_text(gs) == groups_text(front) + x);
    }
}

} // verus!
