//! A minimal HTML engine: finding tags (with same-tag nesting), matching
//! attribute hints, and extracting text with entity decoding.
use vstd::prelude::*;
use vstd::string::StrSliceExecFns;

use crate::text::{
    is_ws, words_from,
    join, join_chars, string_of,
    append_chars, chars_of, contains_chars, contains_seq, find_char, find_from, find_seq,
    lemma_find_first, lemma_find_from, lemma_find_from_ge, lemma_find_none, matches_at, occurs_at, opt_int, skip_chars, strs_view, split_words, sub_chars, contains_word, words,
};

verus! {

broadcast use vstd::seq::group_seq_axioms;

// ── Attribute hints ──────────────────────────────────────────────────────

/// The text that opens a double-quoted `class` attribute.
pub open spec fn class_marker() -> Seq<char> {
    "class=\""@
}

/// Some `class="..."` attribute of `t` at or after `pos` lists `class` among its
/// whitespace-separated values; attributes are read left to right, and an
/// attribute whose closing quote is missing ends the search.
pub open spec fn class_listed_from(t: Seq<char>, class: Seq<char>, pos: int) -> bool
    decreases t.len() - pos,
{
    match find_from(t, class_marker(), pos) {
        None => false,
        Some(st) => {
            let vs = st + class_marker().len();
            match find_from(t, seq!['"'], vs) {
                None => false,
                Some(ve) => {
                    proof {
                        lemma_find_from_ge(t, class_marker(), pos);
                        lemma_find_from_ge(t, seq!['"'], vs);
                    }
                    words(t.subrange(vs, ve)).contains(class) || class_listed_from(
                        t,
                        class,
                        ve + 1,
                    )
                },
            }
        },
    }
}

/// The opening tag `t` carries `class` in a `class="..."` attribute.
pub open spec fn has_class(t: Seq<char>, class: Seq<char>) -> bool {
    class_listed_from(t, class, 0)
}

/// The opening tag `t` carries `id="id"` or `id='id'`.
pub open spec fn has_id(t: Seq<char>, id: Seq<char>) -> bool {
    contains_seq(t, "id=\""@ + id + "\""@) || contains_seq(t, "id='"@ + id + "'"@)
}

/// The opening tag `t` fits the hint: `.name` asks for a class, `#name` for an
/// id, and any other hint for a plain substring.
pub open spec fn attr_fits(t: Seq<char>, hint: Seq<char>) -> bool {
    if hint.len() > 0 && hint[0] == '.' {
        has_class(t, hint.drop_first())
    } else if hint.len() > 0 && hint[0] == '#' {
        has_id(t, hint.drop_first())
    } else {
        contains_seq(t, hint)
    }
}

fn tag_has_class(open_tag: &Vec<char>, class: &Vec<char>) -> (r: bool)
    ensures
        r == has_class(open_tag@, class@),
{
    let marker = chars_of("class=\"");
    let mut pos: usize = 0;
    while pos <= open_tag.len()
        invariant
            marker@ == class_marker(),
            pos <= open_tag@.len() + 1,
            has_class(open_tag@, class@) == class_listed_from(open_tag@, class@, pos as int),
        decreases open_tag@.len() + 1 - pos,
    {
        let st = match find_seq(open_tag, &marker, pos) {
            Some(st) => st,
            None => {
                return false;
            },
        };
        proof {
            lemma_find_from_ge(open_tag@, class_marker(), pos as int);
        }
        let vs = st + marker.len();
        let ve = match find_char(open_tag, '"', vs) {
            Some(ve) => ve,
            None => {
                return false;
            },
        };
        proof {
            lemma_find_from_ge(open_tag@, seq!['"'], vs as int);
        }
        let values = sub_chars(open_tag, vs, ve);
        let ws = split_words(&values);
        if contains_word(&ws, class) {
            return true;
        }
        pos = ve + 1;
    }
    false
}

fn tag_has_id(open_tag: &Vec<char>, id: &Vec<char>) -> (r: bool)
    ensures
        r == has_id(open_tag@, id@),
{
    let mut dq = chars_of("id=\"");
    append_chars(&mut dq, id);
    let q = chars_of("\"");
    append_chars(&mut dq, &q);
    let mut sq = chars_of("id='");
    append_chars(&mut sq, id);
    let a = chars_of("'");
    append_chars(&mut sq, &a);
    contains_chars(open_tag, &dq) || contains_chars(open_tag, &sq)
}

fn attr_matches_chars(open_tag: &Vec<char>, hint: &Vec<char>) -> (r: bool)
    ensures
        r == attr_fits(open_tag@, hint@),
{
    if hint.len() > 0 && hint[0] == '.' {
        let name = skip_chars(hint, 1);
        assert(name@ =~= hint@.drop_first());
        tag_has_class(open_tag, &name)
    } else if hint.len() > 0 && hint[0] == '#' {
        let name = skip_chars(hint, 1);
        assert(name@ =~= hint@.drop_first());
        tag_has_id(open_tag, &name)
    } else {
        contains_chars(open_tag, hint)
    }
}

/// Whether the opening tag `open_tag` fits the attribute hint:
/// `.classname` matches a value of a `class` attribute, `#id` an `id`
/// attribute, and a bare string any substring of the tag.
pub fn attr_matches(open_tag: &str, hint: &str) -> (r: bool)
    ensures
        r == attr_fits(open_tag@, hint@),
{
    let t = chars_of(open_tag);
    let h = chars_of(hint);
    attr_matches_chars(&t, &h)
}

// ── Finding tags ─────────────────────────────────────────────────────────

/// The text that starts an opening tag `<tag...`.
pub open spec fn open_marker(tag: Seq<char>) -> Seq<char> {
    seq!['<'] + tag
}

/// The closing tag `</tag>`.
pub open spec fn close_marker(tag: Seq<char>) -> Seq<char> {
    seq!['<', '/'] + tag + seq!['>']
}

/// Scanning `s` from `search` with `depth` elements still open, the index at
/// which the closing marker that brings the depth to zero starts. At each step
/// the nearer of the next `open` and the next `close` counts, a closing marker
/// winning a tie; with neither left, or at the end of `s`, there is none.
/// (The markers are never empty; an empty one ends the scan.)
pub open spec fn closing_index(
    s: Seq<char>,
    open: Seq<char>,
    close: Seq<char>,
    search: int,
    depth: nat,
) -> Option<int>
    decreases s.len() - search,
{
    if search < 0 || search >= s.len() || depth == 0 {
        None
    } else {
        let no = find_from(s, open, search);
        let nc = find_from(s, close, search);
        proof {
            lemma_find_from_ge(s, open, search);
            lemma_find_from_ge(s, close, search);
        }
        if nc is Some && (no is None || nc->0 <= no->0) {
            if depth == 1 {
                nc
            } else if close.len() == 0 {
                None
            } else {
                closing_index(s, open, close, nc->0 + close.len(), (depth - 1) as nat)
            }
        } else if no is Some && open.len() > 0 {
            closing_index(s, open, close, no->0 + open.len(), depth + 1)
        } else {
            None
        }
    }
}

/// A closing index lies at or after the point where the scan starts, and the
/// closing marker found there fits inside `s`.
pub proof fn lemma_closing_index_bounds(
    s: Seq<char>,
    open: Seq<char>,
    close: Seq<char>,
    search: int,
    depth: nat,
)
    ensures
        closing_index(s, open, close, search, depth) matches Some(c) ==> search <= c && c
            + close.len() <= s.len() && occurs_at(s, close, c),
    decreases s.len() - search,
{
    if search < 0 || search >= s.len() || depth == 0 {
    } else {
        let no = find_from(s, open, search);
        let nc = find_from(s, close, search);
        lemma_find_from_ge(s, open, search);
        lemma_find_from_ge(s, close, search);
        lemma_find_from(s, close, search);
        if nc is Some && (no is None || nc->0 <= no->0) {
            if depth == 1 {
            } else if close.len() == 0 {
            } else {
                lemma_closing_index_bounds(s, open, close, nc->0 + close.len(), (depth - 1) as nat);
            }
        } else if no is Some && open.len() > 0 {
            lemma_closing_index_bounds(s, open, close, no->0 + open.len(), depth + 1);
        }
    }
}

/// The contents of the elements named `tag` that fit `hint` and start at or
/// after `pos`, in document order. From an opening `<tag` up to its first `>`:
/// an element whose opening tag does not fit the hint is passed over; one
/// whose opening tag ends in `/>` contributes the empty text; any other
/// contributes the text up to its matching `</tag>`, counting nested elements
/// of the same name, and the scan resumes after that closing tag. An element
/// that is never closed is passed over.
pub open spec fn tags_from(s: Seq<char>, tag: Seq<char>, hint: Seq<char>, pos: int) -> Seq<
    Seq<char>,
>
    decreases s.len() - pos,
{
    if pos < 0 || pos >= s.len() {
        seq![]
    } else {
        match find_from(s, open_marker(tag), pos) {
            None => seq![],
            Some(ts) => match find_from(s, seq!['>'], ts) {
                None => seq![],
                Some(te) => {
                    proof {
                        lemma_find_from_ge(s, open_marker(tag), pos);
                        lemma_find_from_ge(s, seq!['>'], ts);
                    }
                    if hint.len() > 0 && !attr_fits(s.subrange(ts, te + 1), hint) {
                        tags_from(s, tag, hint, te + 1)
                    } else if s[te - 1] == '/' {
                        seq![seq![]] + tags_from(s, tag, hint, te + 1)
                    } else {
                        match closing_index(s, open_marker(tag), close_marker(tag), te + 1, 1) {
                            Some(ci) => {
                                proof {
                                    lemma_closing_index_bounds(
                                        s,
                                        open_marker(tag),
                                        close_marker(tag),
                                        te + 1,
                                        1,
                                    );
                                }
                                seq![s.subrange(te + 1, ci)] + tags_from(
                                    s,
                                    tag,
                                    hint,
                                    ci + close_marker(tag).len(),
                                )
                            },
                            None => tags_from(s, tag, hint, te + 1),
                        }
                    }
                },
            },
        }
    }
}

/// The contents of the elements named `tag` in `s` that fit `hint`.
pub open spec fn find_tags_spec(s: Seq<char>, tag: Seq<char>, hint: Seq<char>) -> Seq<Seq<char>> {
    tags_from(s, tag, hint, 0)
}

/// `piece` occurs somewhere in `s`.
pub open spec fn is_piece_of(piece: Seq<char>, s: Seq<char>) -> bool {
    exists|i: int| occurs_at(s, piece, i)
}

proof fn lemma_tags_from_pieces(s: Seq<char>, tag: Seq<char>, hint: Seq<char>, pos: int)
    ensures
        forall|k: int|
            0 <= k < tags_from(s, tag, hint, pos).len() ==> is_piece_of(
                #[trigger] tags_from(s, tag, hint, pos)[k],
                s,
            ),
    decreases s.len() - pos,
{
    if pos < 0 || pos >= s.len() {
    } else {
        match find_from(s, open_marker(tag), pos) {
            None => {},
            Some(ts) => match find_from(s, seq!['>'], ts) {
                None => {},
                Some(te) => {
                    lemma_find_from_ge(s, open_marker(tag), pos);
                    lemma_find_from_ge(s, seq!['>'], ts);
                    let rest_from = if hint.len() > 0 && !attr_fits(s.subrange(ts, te + 1), hint) {
                        te + 1
                    } else if s[te - 1] == '/' {
                        te + 1
                    } else {
                        match closing_index(s, open_marker(tag), close_marker(tag), te + 1, 1) {
                            Some(ci) => {
                                lemma_closing_index_bounds(
                                    s,
                                    open_marker(tag),
                                    close_marker(tag),
                                    te + 1,
                                    1,
                                );
                                ci + close_marker(tag).len()
                            },
                            None => te + 1,
                        }
                    };
                    lemma_tags_from_pieces(s, tag, hint, rest_from);
                    let all = tags_from(s, tag, hint, pos);
                    let rest = tags_from(s, tag, hint, rest_from);
                    if hint.len() > 0 && !attr_fits(s.subrange(ts, te + 1), hint) {
                    } else if s[te - 1] == '/' {
                        assert(all == seq![Seq::<char>::empty()] + rest);
                        assert(s.subrange(0, 0) =~= Seq::<char>::empty());
                        assert(occurs_at(s, all[0], 0));
                        assert forall|k: int| 0 <= k < all.len() implies is_piece_of(
                            #[trigger] all[k],
                            s,
                        ) by {
                            if k > 0 {
                                assert(all[k] == rest[k - 1]);
                            }
                        }
                    } else {
                        match closing_index(s, open_marker(tag), close_marker(tag), te + 1, 1) {
                            Some(ci) => {
                                let x = s.subrange(te + 1, ci);
                                assert(all == seq![x] + rest);
                                assert(s.subrange(te + 1, te + 1 + x.len()) =~= x);
                                assert(occurs_at(s, all[0], te + 1));
                                assert forall|k: int| 0 <= k < all.len() implies is_piece_of(
                                    #[trigger] all[k],
                                    s,
                                ) by {
                                    if k > 0 {
                                        assert(all[k] == rest[k - 1]);
                                    }
                                }
                            },
                            None => {},
                        }
                    }
                },
            },
        }
    }
}

/// Every text that `find_tags` returns is a piece of the page: it occurs in
/// the page as it stands, character for character.
pub proof fn lemma_find_tags_pieces(s: Seq<char>, tag: Seq<char>, hint: Seq<char>)
    ensures
        forall|k: int|
            0 <= k < find_tags_spec(s, tag, hint).len() ==> is_piece_of(
                #[trigger] find_tags_spec(s, tag, hint)[k],
                s,
            ),
{
    lemma_tags_from_pieces(s, tag, hint, 0);
}

/// `s[t..st]` is an opening tag of `tag`: it starts with `<tag`, ends with
/// its only `>`, and fits `hint` (an empty hint fits every tag).
pub open spec fn opening_tag_at(s: Seq<char>, tag: Seq<char>, hint: Seq<char>, t: int, st: int) -> bool {
    &&& 0 <= t < st <= s.len()
    &&& occurs_at(s, open_marker(tag), t)
    &&& s[st - 1] == '>'
    &&& forall|j: int| t <= j < st - 1 ==> s[j] != '>'
    &&& hint.len() == 0 || attr_fits(s.subrange(t, st), hint)
}

/// The spans `sp` place the texts `r` in `s` from `pos` on: for each text a
/// triple `(t, st, en)` where `s[t..st]` is a fitting opening tag, the text
/// is `s[st..en]`, and either the opening tag ends in `/>` and the text is
/// empty, or `</tag>` starts at `en`; the spans come in document order
/// without overlap.
pub open spec fn spans_place(
    s: Seq<char>,
    tag: Seq<char>,
    hint: Seq<char>,
    r: Seq<Seq<char>>,
    sp: Seq<(int, int, int)>,
    pos: int,
) -> bool {
    &&& sp.len() == r.len()
    &&& forall|k: int|
        0 <= k < sp.len() ==> {
            let (t, st, en) = #[trigger] sp[k];
            &&& pos <= t
            &&& st <= en <= s.len()
            &&& opening_tag_at(s, tag, hint, t, st)
            &&& r[k] == s.subrange(st, en)
            &&& (s[st - 2] == '/' && en == st) || occurs_at(s, close_marker(tag), en)
        }
    &&& forall|k: int| 0 <= k < sp.len() - 1 ==> (#[trigger] sp[k]).2 <= sp[k + 1].0
}

proof fn lemma_spans_place_later(
    s: Seq<char>,
    tag: Seq<char>,
    hint: Seq<char>,
    r: Seq<Seq<char>>,
    sp: Seq<(int, int, int)>,
    pos: int,
    later: int,
)
    requires
        pos <= later,
        spans_place(s, tag, hint, r, sp, later),
    ensures
        spans_place(s, tag, hint, r, sp, pos),
{
    assert forall|k: int| 0 <= k < sp.len() implies pos <= (#[trigger] sp[k]).0 by {}
}

proof fn lemma_spans_place_cons(
    s: Seq<char>,
    tag: Seq<char>,
    hint: Seq<char>,
    x: Seq<char>,
    span: (int, int, int),
    r: Seq<Seq<char>>,
    sp: Seq<(int, int, int)>,
    pos: int,
    later: int,
)
    requires
        pos <= span.0,
        span.2 <= later,
        span.1 <= span.2 <= s.len(),
        opening_tag_at(s, tag, hint, span.0, span.1),
        x == s.subrange(span.1, span.2),
        (s[span.1 - 2] == '/' && span.2 == span.1) || occurs_at(s, close_marker(tag), span.2),
        spans_place(s, tag, hint, r, sp, later),
    ensures
        spans_place(s, tag, hint, seq![x] + r, seq![span] + sp, pos),
{
    let r2 = seq![x] + r;
    let sp2 = seq![span] + sp;
    assert forall|k: int| 0 <= k < sp2.len() implies {
        let (t, st, en) = #[trigger] sp2[k];
        &&& pos <= t
        &&& st <= en <= s.len()
        &&& opening_tag_at(s, tag, hint, t, st)
        &&& r2[k] == s.subrange(st, en)
        &&& (s[st - 2] == '/' && en == st) || occurs_at(s, close_marker(tag), en)
    } by {
        if k > 0 {
            assert(sp2[k] == sp[k - 1]);
            assert(r2[k] == r[k - 1]);
            assert(later <= sp[k - 1].0);
        }
    }
    assert forall|k: int| 0 <= k < sp2.len() - 1 implies (#[trigger] sp2[k]).2 <= sp2[k + 1].0 by {
        assert(sp2[k + 1] == sp[k]);
        if k > 0 {
            assert(sp2[k] == sp[k - 1]);
        } else {
            assert(later <= sp[0].0);
        }
    }
}

proof fn lemma_tag_end(s: Seq<char>, tag: Seq<char>, ts: int, te: int)
    requires
        0 <= ts,
        occurs_at(s, open_marker(tag), ts),
        find_from(s, seq!['>'], ts) == Some(te),
    ensures
        ts < te < s.len(),
        s[te] == '>',
        forall|j: int| ts <= j < te ==> s[j] != '>',
{
    lemma_find_from(s, seq!['>'], ts);
    assert(s.subrange(ts, ts + open_marker(tag).len())[0] == '<');
    assert(s.subrange(te, te + 1)[0] == '>');
    assert forall|j: int| ts <= j < te implies s[j] != '>' by {
        if s[j] == '>' {
            assert(s.subrange(j, j + 1) =~= seq!['>']);
            assert(occurs_at(s, seq!['>'], j));
        }
    }
}

#[verifier::rlimit(50)]
proof fn lemma_tags_from_spans(s: Seq<char>, tag: Seq<char>, hint: Seq<char>, pos: int)
    requires
        0 <= pos,
    ensures
        exists|sp: Seq<(int, int, int)>| spans_place(s, tag, hint, tags_from(s, tag, hint, pos), sp, pos),
    decreases s.len() - pos,
{
    let r = tags_from(s, tag, hint, pos);
    let empty = Seq::<(int, int, int)>::empty();
    if pos >= s.len() {
        assert(spans_place(s, tag, hint, r, empty, pos));
        return;
    }
    lemma_find_from(s, open_marker(tag), pos);
    match find_from(s, open_marker(tag), pos) {
        None => {
            assert(spans_place(s, tag, hint, r, empty, pos));
        },
        Some(ts) => {
            lemma_find_from(s, seq!['>'], ts);
            match find_from(s, seq!['>'], ts) {
                None => {
                    assert(spans_place(s, tag, hint, r, empty, pos));
                },
                Some(te) => {
                    let st = te + 1;
                    lemma_tag_end(s, tag, ts, te);
                    if hint.len() > 0 && !attr_fits(s.subrange(ts, te + 1), hint) {
                        lemma_tags_from_spans(s, tag, hint, st);
                        let sp = choose|sp: Seq<(int, int, int)>|
                            spans_place(s, tag, hint, tags_from(s, tag, hint, st), sp, st);
                        lemma_spans_place_later(s, tag, hint, r, sp, pos, st);
                    } else if s[te - 1] == '/' {
                        lemma_tags_from_spans(s, tag, hint, st);
                        let sp = choose|sp: Seq<(int, int, int)>|
                            spans_place(s, tag, hint, tags_from(s, tag, hint, st), sp, st);
                        assert(s.subrange(st, st) =~= Seq::<char>::empty());
                        lemma_spans_place_cons(
                            s,
                            tag,
                            hint,
                            Seq::<char>::empty(),
                            (ts, st, st),
                            tags_from(s, tag, hint, st),
                            sp,
                            pos,
                            st,
                        );
                        assert(r == seq![Seq::<char>::empty()] + tags_from(s, tag, hint, st));
                    } else {
                        match closing_index(s, open_marker(tag), close_marker(tag), st, 1) {
                            Some(ci) => {
                                lemma_closing_index_bounds(
                                    s,
                                    open_marker(tag),
                                    close_marker(tag),
                                    st,
                                    1,
                                );
                                let later = ci + close_marker(tag).len();
                                lemma_tags_from_spans(s, tag, hint, later);
                                let sp = choose|sp: Seq<(int, int, int)>|
                                    spans_place(s, tag, hint, tags_from(s, tag, hint, later), sp, later);
                                lemma_spans_place_cons(
                                    s,
                                    tag,
                                    hint,
                                    s.subrange(st, ci),
                                    (ts, st, ci),
                                    tags_from(s, tag, hint, later),
                                    sp,
                                    pos,
                                    later,
                                );
                                assert(r == seq![s.subrange(st, ci)] + tags_from(s, tag, hint, later));
                            },
                            None => {
                                lemma_tags_from_spans(s, tag, hint, st);
                                let sp = choose|sp: Seq<(int, int, int)>|
                                    spans_place(s, tag, hint, tags_from(s, tag, hint, st), sp, st);
                                lemma_spans_place_later(s, tag, hint, r, sp, pos, st);
                            },
                        }
                    }
                },
            }
        },
    }
}

/// Where the texts of `find_tags` lie: each is the stretch of the page right
/// after a fitting opening tag `<tag ...>` (whose only `>` is its last
/// character) and, unless the tag closes itself with `/>` and the text is
/// empty, right before a `</tag>`; the stretches come in document order and
/// do not overlap.
pub proof fn lemma_find_tags_positions(s: Seq<char>, tag: Seq<char>, hint: Seq<char>)
    ensures
        exists|sp: Seq<(int, int, int)>| spans_place(s, tag, hint, find_tags_spec(s, tag, hint), sp, 0),
{
    lemma_tags_from_spans(s, tag, hint, 0);
    let sp = choose|sp: Seq<(int, int, int)>|
        spans_place(s, tag, hint, tags_from(s, tag, hint, 0), sp, 0);
    assert(spans_place(s, tag, hint, find_tags_spec(s, tag, hint), sp, 0));
}

/// A page in which `<tag` does not occur has no `tag` elements.
pub proof fn lemma_find_tags_absent(s: Seq<char>, tag: Seq<char>, hint: Seq<char>)
    requires
        !contains_seq(s, open_marker(tag)),
    ensures
        find_tags_spec(s, tag, hint) == Seq::<Seq<char>>::empty(),
{
    lemma_find_from(s, open_marker(tag), 0);
}

/// A page without `<` has no elements at all.
pub proof fn lemma_find_tags_no_markup(s: Seq<char>, tag: Seq<char>, hint: Seq<char>)
    requires
        lacks(s, '<'),
    ensures
        find_tags_spec(s, tag, hint) == Seq::<Seq<char>>::empty(),
{
    lemma_find_from(s, open_marker(tag), 0);
    if let Some(k) = find_from(s, open_marker(tag), 0) {
        assert(s.subrange(k, k + open_marker(tag).len())[0] == s[k]);
    }
    lemma_find_tags_absent(s, tag, hint);
}

/// The empty hint fits every opening tag.
pub proof fn lemma_empty_hint_fits(t: Seq<char>)
    ensures
        attr_fits(t, Seq::<char>::empty()),
{
    assert(t.subrange(0, 0) =~= Seq::<char>::empty());
}

/// The character `c` does not occur in `t`.
pub open spec fn lacks(t: Seq<char>, c: char) -> bool {
    forall|i: int| 0 <= i < t.len() ==> t[i] != c
}

/// The contents `<tag>x</tag>` of the outer element of [`nested_page`].
#[verifier::opaque]
pub open spec fn nested_inner(tag: Seq<char>, x: Seq<char>) -> Seq<char> {
    open_marker(tag) + seq!['>'] + x + close_marker(tag)
}

/// The page `<tag><tag>x</tag></tag>`.
#[verifier::opaque]
pub open spec fn nested_page(tag: Seq<char>, x: Seq<char>) -> Seq<char> {
    open_marker(tag) + seq!['>'] + nested_inner(tag, x) + close_marker(tag)
}

/// The nesting conditions: `tag` is a non-empty name without `<`, `>` or `/`,
/// and `x` is text without `<`.
pub open spec fn nesting_fits(tag: Seq<char>, x: Seq<char>) -> bool {
    &&& tag.len() > 0
    &&& lacks(tag, '<')
    &&& lacks(tag, '>')
    &&& lacks(tag, '/')
    &&& lacks(x, '<')
}

#[verifier::rlimit(50)]
proof fn lemma_nested_page_chars(tag: Seq<char>, x: Seq<char>)
    requires
        nesting_fits(tag, x),
    ensures
        ({
            let s = nested_page(tag, x);
            let l = tag.len() as int;
            let p1 = 2 * l + 4 + x.len();
            let p2 = p1 + l + 3;
            &&& s.len() == p2 + l + 3
            &&& s[l + 1] == '>'
            &&& s[1] == tag[0] && s[l + 3] == tag[0]
            &&& s[p1 + 1] == '/' && s[p2 + 1] == '/'
            &&& forall|j: int| 0 <= j < l + 1 ==> s[j] != '>'
            &&& forall|j: int| 1 <= j < l + 1 ==> s[j] == tag[j - 1]
            &&& forall|j: int|
                0 <= j < s.len() && s[j] == '<' ==> j == 0 || j == l + 2 || j == p1 || j == p2
            &&& s.subrange(0, l + 1) == open_marker(tag)
            &&& s.subrange(l + 2, 2 * l + 3) == open_marker(tag)
            &&& s.subrange(p1, p1 + l + 3) == close_marker(tag)
            &&& s.subrange(p2, p2 + l + 3) == close_marker(tag)
            &&& s.subrange(l + 1, l + 2) == seq!['>']
            &&& s.subrange(l + 2, p2) == nested_inner(tag, x)
        }),
{
    reveal(nested_page);
    reveal(nested_inner);
    let o = open_marker(tag);
    let c = close_marker(tag);
    let inner = nested_inner(tag, x);
    let s = nested_page(tag, x);
    let l = tag.len() as int;
    let xl = x.len() as int;
    let p1 = 2 * l + 4 + xl;
    let p2 = p1 + l + 3;
    assert(inner.len() == 2 * l + 5 + xl);
    assert forall|j: int| 0 <= j < s.len() implies s[j] == (if j < l + 2 {
        if j == 0 {
            '<'
        } else if j <= l {
            tag[j - 1]
        } else {
            '>'
        }
    } else if j < p2 {
        inner[j - l - 2]
    } else {
        c[j - p2]
    }) by {}
    assert forall|j: int| 0 <= j < inner.len() implies inner[j] == (if j < l + 2 {
        if j == 0 {
            '<'
        } else if j <= l {
            tag[j - 1]
        } else {
            '>'
        }
    } else if j < l + 2 + xl {
        x[j - l - 2]
    } else {
        c[j - l - 2 - xl]
    }) by {}
    assert forall|j: int| 0 <= j < c.len() implies c[j] == (if j == 0 {
        '<'
    } else if j == 1 {
        '/'
    } else if j < l + 2 {
        tag[j - 2]
    } else {
        '>'
    }) by {}
    assert(s.subrange(0, l + 1) =~= o);
    assert(s.subrange(l + 2, 2 * l + 3) =~= o);
    assert(s.subrange(p1, p1 + l + 3) =~= c);
    assert(s.subrange(p2, p2 + l + 3) =~= c);
    assert(s.subrange(l + 1, l + 2) =~= seq!['>']);
    assert(s.subrange(l + 2, p2) =~= inner);
}

proof fn lemma_nested_occurrences(tag: Seq<char>, x: Seq<char>)
    requires
        nesting_fits(tag, x),
    ensures
        ({
            let s = nested_page(tag, x);
            let l = tag.len() as int;
            let p1 = 2 * l + 4 + x.len();
            let p2 = p1 + l + 3;
            &&& s.len() == p2 + l + 3
            &&& forall|j: int| occurs_at(s, open_marker(tag), j) ==> j == 0 || j == l + 2
            &&& forall|j: int| occurs_at(s, close_marker(tag), j) ==> j == p1 || j == p2
            &&& forall|j: int| 0 <= j < l + 1 ==> !occurs_at(s, seq!['>'], j)
            &&& occurs_at(s, open_marker(tag), 0)
            &&& occurs_at(s, open_marker(tag), l + 2)
            &&& occurs_at(s, close_marker(tag), p1)
            &&& occurs_at(s, close_marker(tag), p2)
            &&& occurs_at(s, seq!['>'], l + 1)
            &&& s[l] != '/'
            &&& s.subrange(l + 2, p2) == nested_inner(tag, x)
        }),
{
    let o = open_marker(tag);
    let c = close_marker(tag);
    let s = nested_page(tag, x);
    let l = tag.len() as int;
    let p1 = 2 * l + 4 + x.len();
    let p2 = p1 + l + 3;
    lemma_nested_page_chars(tag, x);
    assert(o[1] == tag[0]);
    assert(c[1] == '/');
    assert forall|j: int| occurs_at(s, o, j) implies j == 0 || j == l + 2 by {
        assert(s.subrange(j, j + l + 1)[0] == o[0]);
        assert(s.subrange(j, j + l + 1)[1] == o[1]);
    }
    assert forall|j: int| occurs_at(s, c, j) implies j == p1 || j == p2 by {
        assert(s.subrange(j, j + l + 3)[0] == c[0]);
        assert(s.subrange(j, j + l + 3)[1] == c[1]);
    }
    assert forall|j: int| 0 <= j < l + 1 implies !occurs_at(s, seq!['>'], j) by {
        assert(s.subrange(j, j + 1)[0] == s[j]);
    }
    assert(s[l] == tag[l - 1]);
}

proof fn lemma_nested_close(tag: Seq<char>, x: Seq<char>)
    requires
        nesting_fits(tag, x),
    ensures
        closing_index(
            nested_page(tag, x),
            open_marker(tag),
            close_marker(tag),
            tag.len() + 2int,
            1,
        ) == Some(3 * tag.len() + 7 + x.len() as int),
{
    let o = open_marker(tag);
    let c = close_marker(tag);
    let s = nested_page(tag, x);
    let l = tag.len() as int;
    let p1 = 2 * l + 4 + x.len();
    let p2 = p1 + l + 3;
    lemma_nested_occurrences(tag, x);
    lemma_find_first(s, o, l + 2, l + 2);
    lemma_find_first(s, c, l + 2, p1);
    lemma_find_none(s, o, 2 * l + 3);
    lemma_find_first(s, c, 2 * l + 3, p1);
    lemma_find_none(s, o, p2);
    lemma_find_first(s, c, p2, p2);
    assert(o.len() == l + 1);
    assert(c.len() == l + 3);
    assert(closing_index(s, o, c, p2, 1) == Some(p2));
    assert(closing_index(s, o, c, 2 * l + 3, 2) == closing_index(s, o, c, p2, 1));
    assert(closing_index(s, o, c, l + 2, 1) == closing_index(s, o, c, 2 * l + 3, 2));
}

/// The opening tag `<tag` + `attrs` + `>`.
pub open spec fn opening_text(tag: Seq<char>, attrs: Seq<char>) -> Seq<char> {
    open_marker(tag) + attrs + seq!['>']
}

proof fn lemma_opening_text_chars(tag: Seq<char>, attrs: Seq<char>)
    ensures
        ({
            let t = opening_text(tag, attrs);
            let l = tag.len() as int;
            &&& t.len() == l + attrs.len() + 2
            &&& t[0] == '<'
            &&& forall|i: int| 1 <= i < l + 1 ==> t[i] == tag[i - 1]
            &&& forall|i: int| l + 1 <= i < l + 1 + attrs.len() ==> t[i] == attrs[i - l - 1]
            &&& t[l + 1 + attrs.len()] == '>'
            &&& t.subrange(0, l + 1) == open_marker(tag)
        }),
{
    let t = opening_text(tag, attrs);
    let l = tag.len() as int;
    assert forall|i: int| 1 <= i < l + 1 implies t[i] == tag[i - 1] by {}
    assert forall|i: int| l + 1 <= i < l + 1 + attrs.len() implies t[i] == attrs[i - l - 1] by {}
    assert(t.subrange(0, l + 1) =~= open_marker(tag));
}

proof fn lemma_close_marker_chars(tag: Seq<char>)
    ensures
        ({
            let c = close_marker(tag);
            let l = tag.len() as int;
            &&& c.len() == l + 3
            &&& c[0] == '<'
            &&& c[1] == '/'
            &&& forall|i: int| 2 <= i < l + 2 ==> c[i] == tag[i - 2]
            &&& c[l + 2] == '>'
        }),
{
    let c = close_marker(tag);
    assert forall|i: int| 2 <= i < tag.len() + 2 implies c[i] == tag[i - 2] by {}
}

/// The page `<tag A>pre<tag B>x</tag>post</tag>`: an element whose opening
/// tag carries the attributes `a`, holding an element with attributes `b`.
#[verifier::opaque]
pub open spec fn hinted_page(
    tag: Seq<char>,
    a: Seq<char>,
    pre: Seq<char>,
    b: Seq<char>,
    x: Seq<char>,
    post: Seq<char>,
) -> Seq<char> {
    opening_text(tag, a) + pre + opening_text(tag, b) + x + close_marker(tag) + post
        + close_marker(tag)
}

/// The shape conditions of [`hinted_page`]: a non-empty tag name and
/// attributes without `<`, `>` or `/`, and texts without `<`.
pub open spec fn hinted_page_fits(
    tag: Seq<char>,
    a: Seq<char>,
    pre: Seq<char>,
    b: Seq<char>,
    x: Seq<char>,
    post: Seq<char>,
) -> bool {
    &&& tag.len() > 0
    &&& lacks(tag, '<') && lacks(tag, '>') && lacks(tag, '/')
    &&& lacks(a, '<') && lacks(a, '>') && lacks(a, '/')
    &&& lacks(b, '<') && lacks(b, '>') && lacks(b, '/')
    &&& lacks(pre, '<') && lacks(x, '<') && lacks(post, '<')
}

#[verifier::rlimit(60)]
proof fn lemma_hinted_page_layout(
    tag: Seq<char>,
    a: Seq<char>,
    pre: Seq<char>,
    b: Seq<char>,
    x: Seq<char>,
    post: Seq<char>,
)
    ensures
        ({
            let s = hinted_page(tag, a, pre, b, x, post);
            let oa = opening_text(tag, a);
            let ob = opening_text(tag, b);
            let c = close_marker(tag);
            let q: int = oa.len() + pre.len() as int;
            let p1: int = q + ob.len() + x.len();
            let p2: int = p1 + c.len() + post.len();
            &&& s.len() == p2 + c.len()
            &&& forall|j: int| 0 <= j < oa.len() ==> s[j] == oa[j]
            &&& forall|j: int| oa.len() <= j < q ==> s[j] == pre[j - oa.len()]
            &&& forall|j: int| q <= j < q + ob.len() ==> s[j] == ob[j - q]
            &&& forall|j: int| q + ob.len() <= j < p1 ==> s[j] == x[j - q - ob.len()]
            &&& forall|j: int| p1 <= j < p1 + c.len() ==> s[j] == c[j - p1]
            &&& forall|j: int| p1 + c.len() <= j < p2 ==> s[j] == post[j - p1 - c.len()]
            &&& forall|j: int| p2 <= j < p2 + c.len() ==> s[j] == c[j - p2]
            &&& s.subrange(0, oa.len() as int) == oa
            &&& s.subrange(q, q + ob.len()) == ob
            &&& s.subrange(q + ob.len(), p1) == x
            &&& s.subrange(p1, p1 + c.len()) == c
            &&& s.subrange(p2, p2 + c.len()) == c
        }),
{
    reveal(hinted_page);
    let s = hinted_page(tag, a, pre, b, x, post);
    let oa = opening_text(tag, a);
    let ob = opening_text(tag, b);
    let c = close_marker(tag);
    let q: int = oa.len() + pre.len() as int;
    let p1: int = q + ob.len() + x.len();
    let p2: int = p1 + c.len() + post.len();
    assert forall|j: int| 0 <= j < oa.len() implies s[j] == oa[j] by {}
    assert forall|j: int| oa.len() <= j < q implies s[j] == pre[j - oa.len()] by {}
    assert forall|j: int| q <= j < q + ob.len() implies s[j] == ob[j - q] by {}
    assert forall|j: int| q + ob.len() <= j < p1 implies s[j] == x[j - q - ob.len()] by {}
    assert forall|j: int| p1 <= j < p1 + c.len() implies s[j] == c[j - p1] by {}
    assert forall|j: int| p1 + c.len() <= j < p2 implies s[j] == post[j - p1 - c.len()] by {}
    assert forall|j: int| p2 <= j < p2 + c.len() implies s[j] == c[j - p2] by {}
    assert(s.subrange(0, oa.len() as int) =~= oa);
    assert(s.subrange(q, q + ob.len()) =~= ob);
    assert(s.subrange(q + ob.len(), p1) =~= x);
    assert(s.subrange(p1, p1 + c.len()) =~= c);
    assert(s.subrange(p2, p2 + c.len()) =~= c);
}

#[verifier::rlimit(60)]
proof fn lemma_hinted_page_chars(
    tag: Seq<char>,
    a: Seq<char>,
    pre: Seq<char>,
    b: Seq<char>,
    x: Seq<char>,
    post: Seq<char>,
)
    requires
        hinted_page_fits(tag, a, pre, b, x, post),
    ensures
        ({
            let s = hinted_page(tag, a, pre, b, x, post);
            let l = tag.len() as int;
            let n1 = l + a.len() + 2;
            let q: int = n1 + pre.len();
            let n2 = l + b.len() + 2;
            let p1: int = q + n2 + x.len();
            let p2: int = p1 + l + 3 + post.len();
            &&& s.len() == p2 + l + 3
            &&& forall|j: int| 0 <= j < s.len() && s[j] == '<' ==> j == 0 || j == q || j == p1 || j == p2
            &&& s[1] == tag[0] && s[q + 1] == tag[0]
            &&& s[p1 + 1] == '/' && s[p2 + 1] == '/'
            &&& s[n1 - 1] == '>' && s[q + n2 - 1] == '>'
            &&& forall|j: int| 0 <= j < n1 - 1 ==> s[j] != '>'
            &&& forall|j: int| q <= j < q + n2 - 1 ==> s[j] != '>'
            &&& s[q + n2 - 2] != '/'
        }),
{
    lemma_hinted_page_layout(tag, a, pre, b, x, post);
    lemma_opening_text_chars(tag, a);
    lemma_opening_text_chars(tag, b);
    lemma_close_marker_chars(tag);
    let s = hinted_page(tag, a, pre, b, x, post);
    let oa = opening_text(tag, a);
    let ob = opening_text(tag, b);
    let c = close_marker(tag);
    let l = tag.len() as int;
    let n1 = l + a.len() + 2;
    let q: int = n1 + pre.len();
    let n2 = l + b.len() + 2;
    let p1: int = q + n2 + x.len();
    let p2: int = p1 + l + 3 + post.len();
    assert(s[1] == oa[1]);
    assert(s[q + 1] == ob[1]);
    assert(s[p1 + 1] == c[1]);
    assert(s[p2 + 1] == c[1]);
    assert(s[n1 - 1] == oa[n1 - 1]);
    assert(s[q + n2 - 1] == ob[n2 - 1]);
    assert(s[q + n2 - 2] == ob[n2 - 2]);
    if b.len() > 0 {
        assert(ob[n2 - 2] == b[b.len() - 1]);
    } else {
        assert(ob[n2 - 2] == tag[l - 1]);
    }
    assert forall|j: int| 0 <= j < s.len() && s[j] == '<' implies j == 0 || j == q || j == p1 || j
        == p2 by {
        if j < n1 {
            assert(s[j] == oa[j]);
            if 1 <= j < l + 1 {
                assert(oa[j] == tag[j - 1]);
            } else if l + 1 <= j < l + 1 + a.len() {
                assert(oa[j] == a[j - l - 1]);
            }
        } else if j < q {
            assert(s[j] == pre[j - n1]);
        } else if j < q + n2 {
            assert(s[j] == ob[j - q]);
            if 1 <= j - q < l + 1 {
                assert(ob[j - q] == tag[j - q - 1]);
            } else if l + 1 <= j - q < l + 1 + b.len() {
                assert(ob[j - q] == b[j - q - l - 1]);
            }
        } else if j < p1 {
            assert(s[j] == x[j - q - n2]);
        } else if j < p1 + l + 3 {
            assert(s[j] == c[j - p1]);
            if 2 <= j - p1 < l + 2 {
                assert(c[j - p1] == tag[j - p1 - 2]);
            }
        } else if j < p2 {
            assert(s[j] == post[j - p1 - l - 3]);
        } else {
            assert(s[j] == c[j - p2]);
            if 2 <= j - p2 < l + 2 {
                assert(c[j - p2] == tag[j - p2 - 2]);
            }
        }
    }
    assert forall|j: int| 0 <= j < n1 - 1 implies s[j] != '>' by {
        assert(s[j] == oa[j]);
        if 1 <= j < l + 1 {
            assert(oa[j] == tag[j - 1]);
        } else if l + 1 <= j {
            assert(oa[j] == a[j - l - 1]);
        }
    }
    assert forall|j: int| q <= j < q + n2 - 1 implies s[j] != '>' by {
        assert(s[j] == ob[j - q]);
        if 1 <= j - q < l + 1 {
            assert(ob[j - q] == tag[j - q - 1]);
        } else if l + 1 <= j - q {
            assert(ob[j - q] == b[j - q - l - 1]);
        }
    }
}

proof fn lemma_hinted_page_occurrences(
    tag: Seq<char>,
    a: Seq<char>,
    pre: Seq<char>,
    b: Seq<char>,
    x: Seq<char>,
    post: Seq<char>,
)
    requires
        hinted_page_fits(tag, a, pre, b, x, post),
    ensures
        ({
            let s = hinted_page(tag, a, pre, b, x, post);
            let l = tag.len() as int;
            let n1 = l + a.len() + 2;
            let q: int = n1 + pre.len();
            let n2 = l + b.len() + 2;
            let p1: int = q + n2 + x.len();
            let p2: int = p1 + l + 3 + post.len();
            &&& s.len() == p2 + l + 3
            &&& forall|j: int| occurs_at(s, open_marker(tag), j) ==> j == 0 || j == q
            &&& forall|j: int| occurs_at(s, close_marker(tag), j) ==> j == p1 || j == p2
            &&& occurs_at(s, open_marker(tag), 0)
            &&& occurs_at(s, open_marker(tag), q)
            &&& occurs_at(s, close_marker(tag), p1)
            &&& occurs_at(s, seq!['>'], n1 - 1)
            &&& occurs_at(s, seq!['>'], q + n2 - 1)
            &&& forall|j: int| 0 <= j < n1 - 1 ==> !occurs_at(s, seq!['>'], j)
            &&& forall|j: int| q <= j < q + n2 - 1 ==> !occurs_at(s, seq!['>'], j)
            &&& s[q + n2 - 2] != '/'
            &&& s.subrange(0, n1) == opening_text(tag, a)
            &&& s.subrange(q, q + n2) == opening_text(tag, b)
            &&& s.subrange(q + n2, p1) == x
        }),
{
    lemma_hinted_page_layout(tag, a, pre, b, x, post);
    lemma_hinted_page_chars(tag, a, pre, b, x, post);
    lemma_opening_text_chars(tag, a);
    lemma_opening_text_chars(tag, b);
    let s = hinted_page(tag, a, pre, b, x, post);
    let o = open_marker(tag);
    let c = close_marker(tag);
    let l = tag.len() as int;
    let n1 = l + a.len() + 2;
    let q: int = n1 + pre.len();
    let n2 = l + b.len() + 2;
    let p1: int = q + n2 + x.len();
    let p2: int = p1 + l + 3 + post.len();
    assert(o[1] == tag[0]);
    assert(c[1] == '/');
    assert(tag[0] != '/');
    assert forall|j: int| occurs_at(s, o, j) implies j == 0 || j == q by {
        assert(s.subrange(j, j + l + 1)[0] == o[0]);
        assert(s.subrange(j, j + l + 1)[1] == o[1]);
    }
    assert forall|j: int| occurs_at(s, c, j) implies j == p1 || j == p2 by {
        assert(s.subrange(j, j + l + 3)[0] == c[0]);
        assert(s.subrange(j, j + l + 3)[1] == c[1]);
    }
    assert(s.subrange(0, l + 1) =~= o) by {
        assert(s.subrange(0, l + 1) =~= s.subrange(0, n1).subrange(0, l + 1));
    }
    assert(s.subrange(q, q + l + 1) =~= o) by {
        assert(s.subrange(q, q + l + 1) =~= s.subrange(q, q + n2).subrange(0, l + 1));
    }
    assert(s.subrange(n1 - 1, n1) =~= seq!['>']);
    assert(s.subrange(q + n2 - 1, q + n2) =~= seq!['>']);
    assert forall|j: int| 0 <= j < n1 - 1 implies !occurs_at(s, seq!['>'], j) by {
        assert(s.subrange(j, j + 1)[0] == s[j]);
    }
    assert forall|j: int| q <= j < q + n2 - 1 implies !occurs_at(s, seq!['>'], j) by {
        assert(s.subrange(j, j + 1)[0] == s[j]);
    }
}

/// An element whose opening tag does not fit the hint is not skipped as a
/// whole: the scan moves on past its opening tag, so a fitting element inside
/// it is found. In `<tag A>pre<tag B>x</tag>post</tag>`, where `<tag A>` does
/// not fit the hint and `<tag B>` does, the result is `[x]`.
pub proof fn lemma_nested_fitting_element_found(
    tag: Seq<char>,
    a: Seq<char>,
    pre: Seq<char>,
    b: Seq<char>,
    x: Seq<char>,
    post: Seq<char>,
    hint: Seq<char>,
)
    requires
        hinted_page_fits(tag, a, pre, b, x, post),
        hint.len() > 0,
        !attr_fits(opening_text(tag, a), hint),
        attr_fits(opening_text(tag, b), hint),
    ensures
        find_tags_spec(hinted_page(tag, a, pre, b, x, post), tag, hint) == seq![x],
{
    lemma_hinted_page_occurrences(tag, a, pre, b, x, post);
    let s = hinted_page(tag, a, pre, b, x, post);
    let o = open_marker(tag);
    let c = close_marker(tag);
    let l = tag.len() as int;
    let n1 = l + a.len() + 2;
    let q: int = n1 + pre.len();
    let n2 = l + b.len() + 2;
    let p1: int = q + n2 + x.len();
    assert(o.len() == l + 1);
    assert(c.len() == l + 3);
    lemma_find_first(s, o, 0, 0);
    lemma_find_first(s, seq!['>'], 0, n1 - 1);
    assert(tags_from(s, tag, hint, 0) == tags_from(s, tag, hint, n1));
    lemma_find_first(s, o, n1, q);
    lemma_find_first(s, seq!['>'], q, q + n2 - 1);
    lemma_find_none(s, o, q + n2);
    lemma_find_first(s, c, q + n2, p1);
    assert(closing_index(s, o, c, q + n2, 1) == Some(p1));
    lemma_find_none(s, o, p1 + l + 3);
    assert(tags_from(s, tag, hint, p1 + l + 3) == Seq::<Seq<char>>::empty());
    assert(tags_from(s, tag, hint, n1) =~= seq![x]);
}

/// The page `<tag A>x</tag>mid<tag B>y</tag>`: two sibling elements.
#[verifier::opaque]
pub open spec fn sibling_page(
    tag: Seq<char>,
    a: Seq<char>,
    x: Seq<char>,
    mid: Seq<char>,
    b: Seq<char>,
    y: Seq<char>,
) -> Seq<char> {
    opening_text(tag, a) + x + close_marker(tag) + mid + opening_text(tag, b) + y + close_marker(
        tag,
    )
}

#[verifier::rlimit(60)]
proof fn lemma_sibling_page_layout(
    tag: Seq<char>,
    a: Seq<char>,
    x: Seq<char>,
    mid: Seq<char>,
    b: Seq<char>,
    y: Seq<char>,
)
    ensures
        ({
            let s = sibling_page(tag, a, x, mid, b, y);
            let oa = opening_text(tag, a);
            let ob = opening_text(tag, b);
            let c = close_marker(tag);
            let p1: int = oa.len() + x.len() as int;
            let r: int = p1 + c.len() + mid.len();
            let p2: int = r + ob.len() + y.len();
            &&& s.len() == p2 + c.len()
            &&& forall|j: int| 0 <= j < oa.len() ==> s[j] == oa[j]
            &&& forall|j: int| oa.len() <= j < p1 ==> s[j] == x[j - oa.len()]
            &&& forall|j: int| p1 <= j < p1 + c.len() ==> s[j] == c[j - p1]
            &&& forall|j: int| p1 + c.len() <= j < r ==> s[j] == mid[j - p1 - c.len()]
            &&& forall|j: int| r <= j < r + ob.len() ==> s[j] == ob[j - r]
            &&& forall|j: int| r + ob.len() <= j < p2 ==> s[j] == y[j - r - ob.len()]
            &&& forall|j: int| p2 <= j < p2 + c.len() ==> s[j] == c[j - p2]
            &&& s.subrange(0, oa.len() as int) == oa
            &&& s.subrange(oa.len() as int, p1) == x
            &&& s.subrange(p1, p1 + c.len()) == c
            &&& s.subrange(r, r + ob.len()) == ob
            &&& s.subrange(r + ob.len(), p2) == y
            &&& s.subrange(p2, p2 + c.len()) == c
        }),
{
    reveal(sibling_page);
    let s = sibling_page(tag, a, x, mid, b, y);
    let oa = opening_text(tag, a);
    let ob = opening_text(tag, b);
    let c = close_marker(tag);
    let p1: int = oa.len() + x.len() as int;
    let r: int = p1 + c.len() + mid.len();
    let p2: int = r + ob.len() + y.len();
    assert forall|j: int| 0 <= j < oa.len() implies s[j] == oa[j] by {}
    assert forall|j: int| oa.len() <= j < p1 implies s[j] == x[j - oa.len()] by {}
    assert forall|j: int| p1 <= j < p1 + c.len() implies s[j] == c[j - p1] by {}
    assert forall|j: int| p1 + c.len() <= j < r implies s[j] == mid[j - p1 - c.len()] by {}
    assert forall|j: int| r <= j < r + ob.len() implies s[j] == ob[j - r] by {}
    assert forall|j: int| r + ob.len() <= j < p2 implies s[j] == y[j - r - ob.len()] by {}
    assert forall|j: int| p2 <= j < p2 + c.len() implies s[j] == c[j - p2] by {}
    assert(s.subrange(0, oa.len() as int) =~= oa);
    assert(s.subrange(oa.len() as int, p1) =~= x);
    assert(s.subrange(p1, p1 + c.len()) =~= c);
    assert(s.subrange(r, r + ob.len()) =~= ob);
    assert(s.subrange(r + ob.len(), p2) =~= y);
    assert(s.subrange(p2, p2 + c.len()) =~= c);
}

#[verifier::rlimit(60)]
proof fn lemma_sibling_page_chars(
    tag: Seq<char>,
    a: Seq<char>,
    x: Seq<char>,
    mid: Seq<char>,
    b: Seq<char>,
    y: Seq<char>,
)
    requires
        hinted_page_fits(tag, a, x, b, mid, y),
    ensures
        ({
            let s = sibling_page(tag, a, x, mid, b, y);
            let l = tag.len() as int;
            let n1 = l + a.len() + 2;
            let p1: int = n1 + x.len();
            let r: int = p1 + l + 3 + mid.len();
            let n2 = l + b.len() + 2;
            let p2: int = r + n2 + y.len();
            &&& s.len() == p2 + l + 3
            &&& forall|j: int| 0 <= j < s.len() && s[j] == '<' ==> j == 0 || j == p1 || j == r || j == p2
            &&& s[1] == tag[0] && s[r + 1] == tag[0]
            &&& s[p1 + 1] == '/' && s[p2 + 1] == '/'
            &&& s[n1 - 1] == '>' && s[r + n2 - 1] == '>'
            &&& forall|j: int| 0 <= j < n1 - 1 ==> s[j] != '>'
            &&& forall|j: int| r <= j < r + n2 - 1 ==> s[j] != '>'
            &&& s[n1 - 2] != '/' && s[r + n2 - 2] != '/'
        }),
{
    lemma_sibling_page_layout(tag, a, x, mid, b, y);
    lemma_opening_text_chars(tag, a);
    lemma_opening_text_chars(tag, b);
    lemma_close_marker_chars(tag);
    let s = sibling_page(tag, a, x, mid, b, y);
    let oa = opening_text(tag, a);
    let ob = opening_text(tag, b);
    let c = close_marker(tag);
    let l = tag.len() as int;
    let n1 = l + a.len() + 2;
    let p1: int = n1 + x.len();
    let r: int = p1 + l + 3 + mid.len();
    let n2 = l + b.len() + 2;
    let p2: int = r + n2 + y.len();
    assert(s[1] == oa[1]);
    assert(s[r + 1] == ob[1]);
    assert(s[p1 + 1] == c[1]);
    assert(s[p2 + 1] == c[1]);
    assert(s[n1 - 1] == oa[n1 - 1]);
    assert(s[r + n2 - 1] == ob[n2 - 1]);
    assert(s[n1 - 2] == oa[n1 - 2]);
    assert(s[r + n2 - 2] == ob[n2 - 2]);
    if a.len() > 0 {
        assert(oa[n1 - 2] == a[a.len() - 1]);
    } else {
        assert(oa[n1 - 2] == tag[l - 1]);
    }
    if b.len() > 0 {
        assert(ob[n2 - 2] == b[b.len() - 1]);
    } else {
        assert(ob[n2 - 2] == tag[l - 1]);
    }
    assert forall|j: int| 0 <= j < s.len() && s[j] == '<' implies j == 0 || j == p1 || j == r || j
        == p2 by {
        if j < n1 {
            assert(s[j] == oa[j]);
            if 1 <= j < l + 1 {
                assert(oa[j] == tag[j - 1]);
            } else if l + 1 <= j < l + 1 + a.len() {
                assert(oa[j] == a[j - l - 1]);
            }
        } else if j < p1 {
            assert(s[j] == x[j - n1]);
        } else if j < p1 + l + 3 {
            assert(s[j] == c[j - p1]);
            if 2 <= j - p1 < l + 2 {
                assert(c[j - p1] == tag[j - p1 - 2]);
            }
        } else if j < r {
            assert(s[j] == mid[j - p1 - l - 3]);
        } else if j < r + n2 {
            assert(s[j] == ob[j - r]);
            if 1 <= j - r < l + 1 {
                assert(ob[j - r] == tag[j - r - 1]);
            } else if l + 1 <= j - r < l + 1 + b.len() {
                assert(ob[j - r] == b[j - r - l - 1]);
            }
        } else if j < p2 {
            assert(s[j] == y[j - r - n2]);
        } else {
            assert(s[j] == c[j - p2]);
            if 2 <= j - p2 < l + 2 {
                assert(c[j - p2] == tag[j - p2 - 2]);
            }
        }
    }
    assert forall|j: int| 0 <= j < n1 - 1 implies s[j] != '>' by {
        assert(s[j] == oa[j]);
        if 1 <= j < l + 1 {
            assert(oa[j] == tag[j - 1]);
        } else if l + 1 <= j {
            assert(oa[j] == a[j - l - 1]);
        }
    }
    assert forall|j: int| r <= j < r + n2 - 1 implies s[j] != '>' by {
        assert(s[j] == ob[j - r]);
        if 1 <= j - r < l + 1 {
            assert(ob[j - r] == tag[j - r - 1]);
        } else if l + 1 <= j - r {
            assert(ob[j - r] == b[j - r - l - 1]);
        }
    }
}

proof fn lemma_sibling_page_occurrences(
    tag: Seq<char>,
    a: Seq<char>,
    x: Seq<char>,
    mid: Seq<char>,
    b: Seq<char>,
    y: Seq<char>,
)
    requires
        hinted_page_fits(tag, a, x, b, mid, y),
    ensures
        ({
            let s = sibling_page(tag, a, x, mid, b, y);
            let l = tag.len() as int;
            let n1 = l + a.len() + 2;
            let p1: int = n1 + x.len();
            let r: int = p1 + l + 3 + mid.len();
            let n2 = l + b.len() + 2;
            let p2: int = r + n2 + y.len();
            &&& s.len() == p2 + l + 3
            &&& forall|j: int| occurs_at(s, open_marker(tag), j) ==> j == 0 || j == r
            &&& forall|j: int| occurs_at(s, close_marker(tag), j) ==> j == p1 || j == p2
            &&& occurs_at(s, open_marker(tag), 0)
            &&& occurs_at(s, open_marker(tag), r)
            &&& occurs_at(s, close_marker(tag), p1)
            &&& occurs_at(s, close_marker(tag), p2)
            &&& occurs_at(s, seq!['>'], n1 - 1)
            &&& occurs_at(s, seq!['>'], r + n2 - 1)
            &&& forall|j: int| 0 <= j < n1 - 1 ==> !occurs_at(s, seq!['>'], j)
            &&& forall|j: int| r <= j < r + n2 - 1 ==> !occurs_at(s, seq!['>'], j)
            &&& s[n1 - 2] != '/' && s[r + n2 - 2] != '/'
            &&& s.subrange(0, n1) == opening_text(tag, a)
            &&& s.subrange(r, r + n2) == opening_text(tag, b)
            &&& s.subrange(n1, p1) == x
            &&& s.subrange(r + n2, p2) == y
        }),
{
    lemma_sibling_page_layout(tag, a, x, mid, b, y);
    lemma_sibling_page_chars(tag, a, x, mid, b, y);
    lemma_opening_text_chars(tag, a);
    lemma_opening_text_chars(tag, b);
    let s = sibling_page(tag, a, x, mid, b, y);
    let o = open_marker(tag);
    let c = close_marker(tag);
    let l = tag.len() as int;
    let n1 = l + a.len() + 2;
    let p1: int = n1 + x.len();
    let r: int = p1 + l + 3 + mid.len();
    let n2 = l + b.len() + 2;
    let p2: int = r + n2 + y.len();
    assert(o[1] == tag[0]);
    assert(c[1] == '/');
    assert(tag[0] != '/');
    assert forall|j: int| occurs_at(s, o, j) implies j == 0 || j == r by {
        assert(s.subrange(j, j + l + 1)[0] == o[0]);
        assert(s.subrange(j, j + l + 1)[1] == o[1]);
    }
    assert forall|j: int| occurs_at(s, c, j) implies j == p1 || j == p2 by {
        assert(s.subrange(j, j + l + 3)[0] == c[0]);
        assert(s.subrange(j, j + l + 3)[1] == c[1]);
    }
    assert(s.subrange(0, l + 1) =~= o) by {
        assert(s.subrange(0, l + 1) =~= s.subrange(0, n1).subrange(0, l + 1));
    }
    assert(s.subrange(r, r + l + 1) =~= o) by {
        assert(s.subrange(r, r + l + 1) =~= s.subrange(r, r + n2).subrange(0, l + 1));
    }
    assert(s.subrange(n1 - 1, n1) =~= seq!['>']);
    assert(s.subrange(r + n2 - 1, r + n2) =~= seq!['>']);
    assert forall|j: int| 0 <= j < n1 - 1 implies !occurs_at(s, seq!['>'], j) by {
        assert(s.subrange(j, j + 1)[0] == s[j]);
    }
    assert forall|j: int| r <= j < r + n2 - 1 implies !occurs_at(s, seq!['>'], j) by {
        assert(s.subrange(j, j + 1)[0] == s[j]);
    }
}

/// Sibling elements are all found, in order: in `<tag A>x</tag>mid<tag B>y</tag>`,
/// where both opening tags fit the hint (a non-empty tag name and attributes
/// without `<`, `>` or `/`; texts without `<`), the result is `[x, y]`.
pub proof fn lemma_sibling_elements_found(
    tag: Seq<char>,
    a: Seq<char>,
    x: Seq<char>,
    mid: Seq<char>,
    b: Seq<char>,
    y: Seq<char>,
    hint: Seq<char>,
)
    requires
        hinted_page_fits(tag, a, x, b, mid, y),
        hint.len() == 0 || attr_fits(opening_text(tag, a), hint),
        hint.len() == 0 || attr_fits(opening_text(tag, b), hint),
    ensures
        find_tags_spec(sibling_page(tag, a, x, mid, b, y), tag, hint) == seq![x, y],
{
    lemma_sibling_page_occurrences(tag, a, x, mid, b, y);
    let s = sibling_page(tag, a, x, mid, b, y);
    let o = open_marker(tag);
    let c = close_marker(tag);
    let l = tag.len() as int;
    let n1 = l + a.len() + 2;
    let p1: int = n1 + x.len();
    let r: int = p1 + l + 3 + mid.len();
    let n2 = l + b.len() + 2;
    let p2: int = r + n2 + y.len();
    assert(o.len() == l + 1);
    assert(c.len() == l + 3);
    lemma_find_first(s, o, 0, 0);
    lemma_find_first(s, seq!['>'], 0, n1 - 1);
    lemma_find_first(s, o, n1, r);
    lemma_find_first(s, c, n1, p1);
    assert(closing_index(s, o, c, n1, 1) == Some(p1));
    lemma_find_first(s, o, p1 + l + 3, r);
    lemma_find_first(s, seq!['>'], r, r + n2 - 1);
    lemma_find_none(s, o, r + n2);
    lemma_find_first(s, c, r + n2, p2);
    assert(closing_index(s, o, c, r + n2, 1) == Some(p2));
    assert(tags_from(s, tag, hint, p2 + l + 3) == Seq::<Seq<char>>::empty());
    assert(tags_from(s, tag, hint, p1 + l + 3) =~= seq![y]);
    assert(tags_from(s, tag, hint, 0) =~= seq![x, y]);
}

/// An `id` hint finds its element: the opening tag `<tag id="name">` fits the hint `#name`.
pub proof fn lemma_id_attribute(tag: Seq<char>, name: Seq<char>)
    ensures
        attr_fits(
            opening_text(tag, seq![' ', 'i', 'd', '=', '"'] + name + seq!['"']),
            seq!['#'] + name,
        ),
{
    reveal_strlit("id=\"");
    reveal_strlit("\"");
    let attrs = seq![' ', 'i', 'd', '=', '"'] + name + seq!['"'];
    let t = opening_text(tag, attrs);
    let pat = "id=\""@ + name + "\""@;
    let l = tag.len() as int;
    lemma_opening_text_chars(tag, attrs);
    assert((seq!['#'] + name).drop_first() =~= name);
    assert(pat =~= attrs.drop_first());
    assert(t.subrange(l + 2, l + 2 + pat.len()) =~= pat) by {
        assert forall|i: int| 0 <= i < pat.len() implies t[l + 2 + i] == pat[i] by {
            assert(t[l + 2 + i] == attrs[i + 1]);
        }
    }
    assert(occurs_at(t, pat, l + 2));
    lemma_find_from(t, pat, 0);
    assert(contains_seq(t, pat));
    assert(has_id(t, name));
}

/// A `class` hint reads the listed values: for the opening tag
/// `<tag class="vals">` (a name and values without `"`), the hint `.c` fits
/// exactly when `c` is one of the whitespace-separated values.
pub proof fn lemma_class_attribute(tag: Seq<char>, vals: Seq<char>, c: Seq<char>)
    requires
        lacks(tag, '"'),
        lacks(vals, '"'),
    ensures
        attr_fits(
            opening_text(tag, seq![' ', 'c', 'l', 'a', 's', 's', '=', '"'] + vals + seq!['"']),
            seq!['.'] + c,
        ) == words(vals).contains(c),
{
    reveal_strlit("class=\"");
    let pre8 = seq![' ', 'c', 'l', 'a', 's', 's', '=', '"'];
    let attrs = pre8 + vals + seq!['"'];
    let t = opening_text(tag, attrs);
    let m = class_marker();
    let l = tag.len() as int;
    let v = vals.len() as int;
    lemma_opening_text_chars(tag, attrs);
    assert((seq!['.'] + c).drop_first() =~= c);
    assert(m.len() == 7 && m[6] == '"');
    assert forall|k: int| 0 <= k < attrs.len() implies #[trigger] attrs[k] == (if k < 8 {
        pre8[k]
    } else if k < 8 + v {
        vals[k - 8]
    } else {
        '"'
    }) by {}
    // The class marker starts right after `<tag `.
    assert(t.subrange(l + 2, l + 9) =~= m) by {
        assert forall|i: int| 0 <= i < 7 implies t[l + 2 + i] == m[i] by {
            assert(t[l + 2 + i] == attrs[i + 1]);
        }
    }
    assert forall|j: int| 0 <= j < l + 2 implies !occurs_at(t, m, j) by {
        if occurs_at(t, m, j) {
            assert(t.subrange(j, j + 7)[6] == t[j + 6]);
            if j + 6 < l + 1 {
                assert(t[j + 6] == tag[j + 5]);
            } else {
                assert(t[j + 6] == attrs[j + 5 - l]);
            }
        }
    }
    lemma_find_first(t, m, 0, l + 2);
    // The values end at the next `"`.
    let ve = l + 9 + v;
    assert(t[ve] == attrs[8 + v]);
    assert(t.subrange(ve, ve + 1) =~= seq!['"']);
    assert forall|j: int| l + 9 <= j < ve implies !occurs_at(t, seq!['"'], j) by {
        assert(t.subrange(j, j + 1)[0] == t[j]);
        assert(t[j] == attrs[j - l - 1]);
    }
    lemma_find_first(t, seq!['"'], l + 9, ve);
    assert(t.subrange(l + 9, ve) =~= vals) by {
        assert forall|i: int| 0 <= i < v implies t[l + 9 + i] == vals[i] by {
            assert(t[l + 9 + i] == attrs[8 + i]);
        }
    }
    // After the values only `>` is left, so no other class attribute follows.
    assert(t.len() == ve + 2);
    lemma_find_from(t, m, ve + 1);
    assert(class_listed_from(t, c, ve + 1) == false);
}

/// Same-name nesting is handled: in `<tag><tag>x</tag></tag>` the outer
/// element is found with the whole inner element as its contents, and the
/// inner element is not reported on its own.
pub proof fn lemma_nested_same_tag(tag: Seq<char>, x: Seq<char>)
    requires
        nesting_fits(tag, x),
    ensures
        find_tags_spec(nested_page(tag, x), tag, Seq::<char>::empty()) == seq![
            nested_inner(tag, x),
        ],
{
    let o = open_marker(tag);
    let s = nested_page(tag, x);
    let h = Seq::<char>::empty();
    let l = tag.len() as int;
    let p2 = 3 * l + 7 + x.len();
    lemma_nested_occurrences(tag, x);
    lemma_nested_close(tag, x);
    lemma_find_first(s, o, 0, 0);
    lemma_find_first(s, seq!['>'], 0, l + 1);
    assert(tags_from(s, tag, h, p2 + l + 3) == Seq::<Seq<char>>::empty());
    assert(tags_from(s, tag, h, 0) =~= seq![nested_inner(tag, x)]);
}

fn closing_index_exec(s: &Vec<char>, open: &Vec<char>, close: &Vec<char>, start: usize) -> (r:
    Option<usize>)
    requires
        open@.len() > 0,
        close@.len() > 0,
        1 <= start,
    ensures
        opt_int(r) == closing_index(s@, open@, close@, start as int, 1),
{
    let mut depth: usize = 1;
    let mut search: usize = start;
    while search < s.len()
        invariant
            open@.len() > 0,
            close@.len() > 0,
            1 <= depth <= search,
            closing_index(s@, open@, close@, start as int, 1) == closing_index(
                s@,
                open@,
                close@,
                search as int,
                depth as nat,
            ),
        decreases s@.len() - search,
    {
        let no = find_seq(s, open, search);
        let nc = find_seq(s, close, search);
        proof {
            lemma_find_from_ge(s@, open@, search as int);
            lemma_find_from_ge(s@, close@, search as int);
        }
        let close_first = match (no, nc) {
            (None, Some(_)) => true,
            (Some(o), Some(c)) => c <= o,
            _ => false,
        };
        if close_first {
            let ci = nc.unwrap();
            if depth == 1 {
                return Some(ci);
            }
            depth = depth - 1;
            search = ci + close.len();
        } else if no.is_some() {
            let oi = no.unwrap();
            depth = depth + 1;
            search = oi + open.len();
        } else {
            return None;
        }
    }
    None
}

/// The contents of the elements named `tag` in `html` whose opening tags fit
/// `attr_hint` (see [`attr_matches`]; an empty hint fits every tag), in
/// document order. Same-name elements nested inside a found element belong
/// to its contents: the scan counts nesting depth to find the matching close.
pub fn find_tags<'a>(html: &'a str, tag: &str, attr_hint: &str) -> (r: Vec<&'a str>)
    ensures
        strs_view(r@) == find_tags_spec(html@, tag@, attr_hint@),
{
    let s = chars_of(html);
    let t = chars_of(tag);
    let h = chars_of(attr_hint);
    let mut open: Vec<char> = vec!['<'];
    append_chars(&mut open, &t);
    let mut close: Vec<char> = vec!['<', '/'];
    append_chars(&mut close, &t);
    close.push('>');
    assert(open@ =~= open_marker(t@));
    assert(close@ =~= close_marker(t@));
    let mut results: Vec<&'a str> = Vec::new();
    let mut pos: usize = 0;
    assert(strs_view(results@) =~= Seq::<Seq<char>>::empty());
    while pos < s.len()
        invariant
            s@ == html@,
            t@ == tag@,
            h@ == attr_hint@,
            open@ == open_marker(t@),
            close@ == close_marker(t@),
            pos <= s@.len(),
            strs_view(results@) + tags_from(s@, t@, h@, pos as int) == find_tags_spec(
                s@,
                t@,
                h@,
            ),
        decreases s@.len() - pos,
    {
        let ghost before = strs_view(results@);
        let ts = match find_seq(&s, &open, pos) {
            Some(ts) => ts,
            None => {
                assert(strs_view(results@) + seq![] =~= strs_view(results@));
                return results;
            },
        };
        let te = match find_char(&s, '>', ts) {
            Some(te) => te,
            None => {
                assert(tags_from(s@, t@, h@, pos as int) =~= Seq::<Seq<char>>::empty());
                assert(strs_view(results@) + seq![] =~= strs_view(results@));
                return results;
            },
        };
        proof {
            lemma_find_from_ge(s@, open@, pos as int);
            lemma_find_from_ge(s@, seq!['>'], ts as int);
            lemma_find_from(s@, open@, pos as int);
            lemma_find_from(s@, seq!['>'], ts as int);
            assert(s@.subrange(ts as int, ts + 1)[0] == '<');
            assert(s@.subrange(te as int, te + 1)[0] == '>');
        }
        if h.len() > 0 {
            let open_tag = sub_chars(&s, ts, te + 1);
            if !attr_matches_chars(&open_tag, &h) {
                pos = te + 1;
                continue;
            }
        }
        if s[te - 1] == '/' {
            let empty = html.substring_char(te + 1, te + 1);
            assert(empty@ =~= Seq::<char>::empty());
            results.push(empty);
            assert(strs_view(results@) =~= before.push(seq![]));
            assert(strs_view(results@) + tags_from(s@, t@, h@, te + 1) =~= before + (seq![seq![]]
                + tags_from(s@, t@, h@, te + 1)));
            pos = te + 1;
            continue;
        }
        match closing_index_exec(&s, &open, &close, te + 1) {
            Some(ci) => {
                proof {
                    lemma_closing_index_bounds(s@, open@, close@, te + 1, 1);
                }
                let inner = html.substring_char(te + 1, ci);
                results.push(inner);
                assert(strs_view(results@) =~= before.push(s@.subrange(te + 1, ci as int)));
                assert(strs_view(results@) + tags_from(s@, t@, h@, ci + close@.len())
                    =~= before + (seq![s@.subrange(te + 1, ci as int)] + tags_from(
                    s@,
                    t@,
                    h@,
                    ci + close@.len(),
                )));
                pos = ci + close.len();
            },
            None => {
                pos = te + 1;
            },
        }
    }
    assert(strs_view(results@) + seq![] =~= strs_view(results@));
    results
}

// ── Text extraction ──────────────────────────────────────────────────────

/// `s` from index `i` on, with markup removed: each `<` becomes one space and
/// starts a tag, each `>` ends a tag, and characters inside a tag are dropped.
pub open spec fn detag_from(s: Seq<char>, i: int, in_tag: bool) -> Seq<char>
    decreases s.len() - i,
{
    if i < 0 || i >= s.len() {
        seq![]
    } else if s[i] == '<' {
        seq![' '] + detag_from(s, i + 1, true)
    } else if s[i] == '>' {
        detag_from(s, i + 1, false)
    } else if in_tag {
        detag_from(s, i + 1, true)
    } else {
        seq![s[i]] + detag_from(s, i + 1, false)
    }
}

/// `s` with its markup removed, each tag leaving one space behind.
pub open spec fn detag(s: Seq<char>) -> Seq<char> {
    detag_from(s, 0, false)
}

/// The common entities, each with the character it stands for.
pub open spec fn entity_table() -> Seq<(Seq<char>, char)> {
    seq![
        (seq!['&', 'a', 'm', 'p', ';'], '&'),
        (seq!['&', 'l', 't', ';'], '<'),
        (seq!['&', 'g', 't', ';'], '>'),
        (seq!['&', 'q', 'u', 'o', 't', ';'], '"'),
        (seq!['&', '#', '3', '9', ';'], '\''),
        (seq!['&', 'n', 'b', 's', 'p', ';'], ' '),
    ]
}

/// The entity of the table that starts at index `i` of `s`, if any (no
/// entity of the table is a prefix of another, so at most one fits).
pub open spec fn entity_at(s: Seq<char>, i: int) -> Option<(Seq<char>, char)> {
    let t = entity_table();
    if occurs_at(s, t[0].0, i) {
        Some(t[0])
    } else if occurs_at(s, t[1].0, i) {
        Some(t[1])
    } else if occurs_at(s, t[2].0, i) {
        Some(t[2])
    } else if occurs_at(s, t[3].0, i) {
        Some(t[3])
    } else if occurs_at(s, t[4].0, i) {
        Some(t[4])
    } else if occurs_at(s, t[5].0, i) {
        Some(t[5])
    } else {
        None
    }
}

/// `s` from index `i` on with its entities decoded in one left-to-right
/// pass: an entity is replaced by its character, and reading goes on after
/// the entity, so a decoded `&` never starts another entity.
pub open spec fn decode_from(s: Seq<char>, i: int) -> Seq<char>
    decreases s.len() - i,
{
    if i < 0 || i >= s.len() {
        seq![]
    } else {
        match entity_at(s, i) {
            Some(e) => seq![e.1] + decode_from(s, i + e.0.len()),
            None => seq![s[i]] + decode_from(s, i + 1),
        }
    }
}

/// `s` with the common entities decoded: `&amp;`, `&lt;`, `&gt;`, `&quot;`,
/// `&#39;`, `&nbsp;`.
pub open spec fn decode_entities(s: Seq<char>) -> Seq<char> {
    decode_from(s, 0)
}

/// The words of `s` joined by single spaces.
pub open spec fn collapse_ws(s: Seq<char>) -> Seq<char> {
    join(words(s), seq![' '])
}

/// The text of the HTML fragment `raw`: markup removed, entities decoded,
/// whitespace collapsed.
pub open spec fn strip_spec(raw: Seq<char>) -> Seq<char> {
    collapse_ws(decode_entities(detag(raw)))
}

/// `t` has no character with the Unicode `White_Space` property.
pub open spec fn ws_free(t: Seq<char>) -> bool {
    forall|i: int| 0 <= i < t.len() ==> !is_ws(#[trigger] t[i])
}

/// Whitespace in `t` is collapsed: every whitespace character is a single
/// space standing between two characters that are not whitespace (so `t`
/// neither starts nor ends with whitespace).
pub open spec fn is_collapsed(t: Seq<char>) -> bool {
    forall|i: int|
        0 <= i < t.len() && is_ws(#[trigger] t[i]) ==> t[i] == ' ' && 0 < i < t.len() - 1
            && !is_ws(t[i - 1]) && !is_ws(t[i + 1])
}

proof fn lemma_words_from_shape(s: Seq<char>, i: int, cur: Seq<char>)
    requires
        ws_free(cur),
    ensures
        forall|k: int|
            0 <= k < words_from(s, i, cur).len() ==> (#[trigger] words_from(s, i, cur)[k]).len()
                > 0 && ws_free(words_from(s, i, cur)[k]),
    decreases s.len() - i,
{
    if i < 0 || i >= s.len() {
        if cur.len() > 0 {
            assert(words_from(s, i, cur) == seq![cur]);
            assert(seq![cur][0] == cur);
        } else {
            assert(words_from(s, i, cur).len() == 0);
        }
    } else if is_ws(s[i]) {
        lemma_words_from_shape(s, i + 1, seq![]);
        let head: Seq<Seq<char>> = if cur.len() > 0 {
            seq![cur]
        } else {
            seq![]
        };
        let rest = words_from(s, i + 1, seq![]);
        assert(words_from(s, i, cur) == head + rest);
        assert forall|k: int| 0 <= k < (head + rest).len() implies (#[trigger] (head + rest)[k]).len()
            > 0 && ws_free((head + rest)[k]) by {
            if k >= head.len() {
                assert((head + rest)[k] == rest[k - head.len()]);
            }
        }
    } else {
        assert(ws_free(cur.push(s[i]))) by {
            assert forall|k: int| 0 <= k < cur.push(s[i]).len() implies !is_ws(
                #[trigger] cur.push(s[i])[k],
            ) by {
                if k < cur.len() {
                    assert(cur.push(s[i])[k] == cur[k]);
                }
            }
        }
        lemma_words_from_shape(s, i + 1, cur.push(s[i]));
        assert(words_from(s, i, cur) == words_from(s, i + 1, cur.push(s[i])));
    }
}

/// The members of `ws` one after another.
pub open spec fn concat(ws: Seq<Seq<char>>) -> Seq<char>
    decreases ws.len(),
{
    if ws.len() == 0 {
        seq![]
    } else {
        ws[0] + concat(ws.drop_first())
    }
}

/// The characters of `s` that are not whitespace, in order.
pub open spec fn non_ws_chars(s: Seq<char>) -> Seq<char>
    decreases s.len(),
{
    if s.len() == 0 {
        seq![]
    } else {
        (if is_ws(s[0]) {
            Seq::<char>::empty()
        } else {
            seq![s[0]]
        }) + non_ws_chars(s.drop_first())
    }
}

proof fn lemma_concat_append(a: Seq<Seq<char>>, b: Seq<Seq<char>>)
    ensures
        concat(a + b) == concat(a) + concat(b),
    decreases a.len(),
{
    if a.len() == 0 {
        assert(a + b =~= b);
    } else {
        lemma_concat_append(a.drop_first(), b);
        assert((a + b).drop_first() =~= a.drop_first() + b);
        assert((a + b)[0] == a[0]);
    }
}

proof fn lemma_words_from_concat(s: Seq<char>, i: int, cur: Seq<char>)
    requires
        0 <= i <= s.len(),
    ensures
        concat(words_from(s, i, cur)) == cur + non_ws_chars(s.skip(i)),
    decreases s.len() - i,
{
    if i >= s.len() {
        assert(s.skip(i) =~= Seq::<char>::empty());
        if cur.len() > 0 {
            assert(seq![cur].drop_first() =~= Seq::<Seq<char>>::empty());
            assert(seq![cur][0] == cur);
            assert(concat(seq![cur]) == cur + concat(Seq::<Seq<char>>::empty()));
        }
        assert(cur + Seq::<char>::empty() =~= cur);
        if cur.len() == 0 {
            assert(cur =~= Seq::<char>::empty());
        }
    } else {
        assert(s.skip(i).drop_first() =~= s.skip(i + 1));
        assert(s.skip(i)[0] == s[i]);
        if is_ws(s[i]) {
            lemma_words_from_concat(s, i + 1, seq![]);
            let head: Seq<Seq<char>> = if cur.len() > 0 {
                seq![cur]
            } else {
                seq![]
            };
            let rest = words_from(s, i + 1, seq![]);
            lemma_concat_append(head, rest);
            if cur.len() > 0 {
                assert(seq![cur].drop_first() =~= Seq::<Seq<char>>::empty());
                assert(seq![cur][0] == cur);
                assert(concat(head) == cur + concat(Seq::<Seq<char>>::empty()));
                assert(concat(head) =~= cur);
            } else {
                assert(cur =~= Seq::<char>::empty());
            }
            assert(Seq::<char>::empty() + non_ws_chars(s.skip(i + 1)) =~= non_ws_chars(s.skip(i + 1)));
            assert(cur + non_ws_chars(s.skip(i)) =~= concat(head) + (Seq::<char>::empty() + non_ws_chars(s.skip(i + 1))));
        } else {
            lemma_words_from_concat(s, i + 1, cur.push(s[i]));
            assert(cur.push(s[i]) + non_ws_chars(s.skip(i + 1)) =~= cur + (seq![s[i]] + non_ws_chars(s.skip(i + 1))));
        }
    }
}

/// The words of a text hold exactly its non-whitespace characters, in order:
/// laid end to end they give the text with its whitespace removed.
pub proof fn lemma_words_keep_text(s: Seq<char>)
    ensures
        concat(words(s)) == non_ws_chars(s),
{
    lemma_words_from_concat(s, 0, seq![]);
    assert(s.skip(0) =~= s);
    assert(Seq::<char>::empty() + non_ws_chars(s) =~= non_ws_chars(s));
}

/// The words of any text are non-empty and hold no whitespace.
pub proof fn lemma_words_shape(s: Seq<char>)
    ensures
        forall|k: int|
            0 <= k < words(s).len() ==> (#[trigger] words(s)[k]).len() > 0 && ws_free(words(s)[k]),
{
    lemma_words_from_shape(s, 0, seq![]);
}

/// Non-empty words without whitespace, joined by single spaces, give a
/// collapsed text that starts and ends with a word character.
pub proof fn lemma_join_words_collapsed(ws: Seq<Seq<char>>)
    requires
        forall|k: int| 0 <= k < ws.len() ==> (#[trigger] ws[k]).len() > 0 && ws_free(ws[k]),
    ensures
        is_collapsed(join(ws, seq![' '])),
        ws.len() > 0 ==> join(ws, seq![' ']).len() > 0 && !is_ws(join(ws, seq![' '])[0]) && !is_ws(
            join(ws, seq![' ']).last(),
        ),
    decreases ws.len(),
{
    if ws.len() == 0 {
    } else if ws.len() == 1 {
        assert(ws_free(ws[0]));
    } else {
        let front = ws.drop_last();
        assert forall|k: int| 0 <= k < front.len() implies (#[trigger] front[k]).len() > 0 && ws_free(
            front[k],
        ) by {
            assert(front[k] == ws[k]);
        }
        lemma_join_words_collapsed(front);
        let j = join(front, seq![' ']);
        let w = ws.last();
        assert(w == ws[ws.len() - 1]);
        assert(ws_free(w) && w.len() > 0);
        let t = j + seq![' '] + w;
        assert(join(ws, seq![' ']) == t);
        assert forall|i: int| 0 <= i < t.len() && is_ws(#[trigger] t[i]) implies t[i] == ' ' && 0 < i
            < t.len() - 1 && !is_ws(t[i - 1]) && !is_ws(t[i + 1]) by {
            if i < j.len() {
                assert(t[i] == j[i]);
                if i + 1 < j.len() {
                    assert(t[i + 1] == j[i + 1]);
                }
                if i > 0 {
                    assert(t[i - 1] == j[i - 1]);
                }
            } else if i == j.len() {
                assert(t[i - 1] == j.last());
                assert(t[i + 1] == w[0]);
            } else {
                assert(t[i] == w[i - j.len() - 1]);
            }
        }
        assert(t[0] == j[0]);
        assert(t.last() == w.last());
        assert(w.last() == w[w.len() - 1]);
    }
}

/// What [`strip_html`] returns has its whitespace collapsed: single spaces
/// between words, none at either end.
pub proof fn lemma_strip_collapsed(raw: Seq<char>)
    ensures
        is_collapsed(strip_spec(raw)),
{
    let d = decode_entities(detag(raw));
    lemma_words_shape(d);
    lemma_join_words_collapsed(words(d));
}

proof fn lemma_detag_plain(s: Seq<char>, i: int)
    requires
        lacks(s, '<'),
        lacks(s, '>'),
        0 <= i <= s.len(),
    ensures
        detag_from(s, i, false) == s.skip(i),
    decreases s.len() - i,
{
    if i < s.len() {
        lemma_detag_plain(s, i + 1);
        assert(s.skip(i) =~= seq![s[i]] + s.skip(i + 1));
    } else {
        assert(s.skip(i) =~= Seq::<char>::empty());
    }
}

proof fn lemma_decode_plain(s: Seq<char>, i: int)
    requires
        lacks(s, '&'),
        0 <= i <= s.len(),
    ensures
        decode_from(s, i) == s.skip(i),
    decreases s.len() - i,
{
    if i < s.len() {
        let t = entity_table();
        assert forall|k: int| 0 <= k < 6 implies !occurs_at(s, (#[trigger] t[k]).0, i) by {
            if occurs_at(s, t[k].0, i) {
                assert(s.subrange(i, i + t[k].0.len())[0] == s[i]);
            }
        }
        assert(entity_at(s, i) is None);
        lemma_decode_plain(s, i + 1);
        assert(s.skip(i) =~= seq![s[i]] + s.skip(i + 1));
    } else {
        assert(s.skip(i) =~= Seq::<char>::empty());
    }
}

proof fn lemma_detag_segment(s: Seq<char>, i: int, j: int, in_tag: bool)
    requires
        0 <= i <= j <= s.len(),
        forall|m: int| i <= m < j ==> s[m] != '<' && s[m] != '>',
    ensures
        detag_from(s, i, in_tag) == (if in_tag {
            Seq::<char>::empty()
        } else {
            s.subrange(i, j)
        }) + detag_from(s, j, in_tag),
    decreases j - i,
{
    if i < j {
        lemma_detag_segment(s, i + 1, j, in_tag);
        if !in_tag {
            assert(s.subrange(i, j) =~= seq![s[i]] + s.subrange(i + 1, j));
        }
    } else {
        assert(s.subrange(i, j) =~= Seq::<char>::empty());
    }
}

/// A tag leaves one space behind: text around one tag `<...>` (the texts
/// without `<` or `>`, the tag without `>` inside) loses the tag for a space.
pub proof fn lemma_detag_one_tag(t1: Seq<char>, inner: Seq<char>, t2: Seq<char>)
    requires
        lacks(t1, '<') && lacks(t1, '>'),
        lacks(inner, '<') && lacks(inner, '>'),
        lacks(t2, '<') && lacks(t2, '>'),
    ensures
        detag(t1 + seq!['<'] + inner + seq!['>'] + t2) == t1 + seq![' '] + t2,
{
    let s = t1 + seq!['<'] + inner + seq!['>'] + t2;
    let a = t1.len() as int;
    let b = a + 1 + inner.len();
    assert forall|m: int| 0 <= m < a implies s[m] != '<' && s[m] != '>' by {
        assert(s[m] == t1[m]);
    }
    assert forall|m: int| a + 1 <= m < b implies s[m] != '<' && s[m] != '>' by {
        assert(s[m] == inner[m - a - 1]);
    }
    assert forall|m: int| b + 1 <= m < s.len() implies s[m] != '<' && s[m] != '>' by {
        assert(s[m] == t2[m - b - 1]);
    }
    lemma_detag_segment(s, 0, a, false);
    lemma_detag_segment(s, a + 1, b, true);
    lemma_detag_segment(s, b + 1, s.len() as int, false);
    assert(s[a] == '<');
    assert(s[b] == '>');
    assert(detag_from(s, s.len() as int, false) == Seq::<char>::empty());
    assert(s.subrange(0, a) =~= t1);
    assert(s.subrange(b + 1, s.len() as int) =~= t2);
    assert(detag(s) =~= t1 + seq![' '] + t2);
}

proof fn lemma_decode_segment(s: Seq<char>, i: int, j: int)
    requires
        0 <= i <= j <= s.len(),
        forall|m: int| i <= m < j ==> s[m] != '&',
    ensures
        decode_from(s, i) == s.subrange(i, j) + decode_from(s, j),
    decreases j - i,
{
    if i < j {
        let t = entity_table();
        assert forall|k: int| 0 <= k < 6 implies !occurs_at(s, (#[trigger] t[k]).0, i) by {
            if occurs_at(s, t[k].0, i) {
                assert(s.subrange(i, i + t[k].0.len())[0] == s[i]);
            }
        }
        assert(entity_at(s, i) is None);
        lemma_decode_segment(s, i + 1, j);
        assert(s.subrange(i, j) =~= seq![s[i]] + s.subrange(i + 1, j));
    } else {
        assert(s.subrange(i, j) =~= Seq::<char>::empty());
    }
}

/// Each entity is decoded exactly once: text without `&` around one entity
/// of the table decodes to the same text around the entity's character (so
/// `&amp;lt;` gives `&lt;`).
pub proof fn lemma_decode_one_entity(t1: Seq<char>, k: int, t2: Seq<char>)
    requires
        lacks(t1, '&'),
        lacks(t2, '&'),
        0 <= k < 6,
    ensures
        decode_entities(t1 + entity_table()[k].0 + t2) == t1 + seq![entity_table()[k].1] + t2,
{
    let t = entity_table();
    let e = t[k].0;
    let s = t1 + e + t2;
    let a = t1.len() as int;
    let b = a + e.len();
    assert forall|m: int| 0 <= m < a implies s[m] != '&' by {
        assert(s[m] == t1[m]);
    }
    assert forall|m: int| b <= m < s.len() implies s[m] != '&' by {
        assert(s[m] == t2[m - b]);
    }
    lemma_decode_segment(s, 0, a);
    lemma_decode_segment(s, b, s.len() as int);
    assert(s.subrange(a, b) =~= e);
    assert(occurs_at(s, e, a));
    assert forall|k2: int| 0 <= k2 < k implies !occurs_at(s, (#[trigger] t[k2]).0, a) by {
        if occurs_at(s, t[k2].0, a) {
            assert(s.subrange(a, a + t[k2].0.len())[1] == s[a + 1]);
            assert(s[a + 1] == e[1]);
        }
    }
    assert(entity_at(s, a) == Some(t[k]));
    assert(decode_from(s, s.len() as int) == Seq::<char>::empty());
    assert(s.subrange(0, a) =~= t1);
    assert(s.subrange(b, s.len() as int) =~= t2);
    assert(decode_entities(s) =~= t1 + seq![t[k].1] + t2);
}

/// Plain text passes through [`strip_html`] with only its whitespace
/// collapsed: text without `<`, `>` or `&` has no markup and no entity.
pub proof fn lemma_strip_plain_text(raw: Seq<char>)
    requires
        lacks(raw, '<'),
        lacks(raw, '>'),
        lacks(raw, '&'),
    ensures
        strip_spec(raw) == collapse_ws(raw),
{
    lemma_detag_plain(raw, 0);
    assert(raw.skip(0) =~= raw);
    lemma_decode_plain(raw, 0);
}

fn detag_chars(s: &Vec<char>) -> (r: Vec<char>)
    ensures
        r@ == detag(s@),
{
    let mut out: Vec<char> = Vec::new();
    let mut in_tag = false;
    let mut i: usize = 0;
    while i < s.len()
        invariant
            i <= s@.len(),
            out@ + detag_from(s@, i as int, in_tag) == detag(s@),
        decreases s@.len() - i,
    {
        let ch = s[i];
        let ghost before = out@;
        let ghost was = in_tag;
        if ch == '<' {
            in_tag = true;
            out.push(' ');
            assert(out@ + detag_from(s@, i + 1, true) =~= before + detag_from(s@, i as int, was));
        } else if ch == '>' {
            in_tag = false;
        } else if !in_tag {
            out.push(ch);
            assert(out@ + detag_from(s@, i + 1, false) =~= before + detag_from(s@, i as int, was));
        }
        i = i + 1;
    }
    assert(out@ + seq![] =~= out@);
    out
}

fn decode_chars(s: &Vec<char>) -> (r: Vec<char>)
    ensures
        r@ == decode_entities(s@),
{
    let amp: Vec<char> = vec!['&', 'a', 'm', 'p', ';'];
    let lt: Vec<char> = vec!['&', 'l', 't', ';'];
    let gt: Vec<char> = vec!['&', 'g', 't', ';'];
    let quot: Vec<char> = vec!['&', 'q', 'u', 'o', 't', ';'];
    let apos: Vec<char> = vec!['&', '#', '3', '9', ';'];
    let nbsp: Vec<char> = vec!['&', 'n', 'b', 's', 'p', ';'];
    let ghost t = entity_table();
    assert(amp@ =~= t[0].0 && lt@ =~= t[1].0 && gt@ =~= t[2].0);
    assert(quot@ =~= t[3].0 && apos@ =~= t[4].0 && nbsp@ =~= t[5].0);
    let mut out: Vec<char> = Vec::new();
    let mut i: usize = 0;
    while i < s.len()
        invariant
            i <= s@.len(),
            t == entity_table(),
            amp@ == t[0].0 && lt@ == t[1].0 && gt@ == t[2].0,
            quot@ == t[3].0 && apos@ == t[4].0 && nbsp@ == t[5].0,
            out@ + decode_from(s@, i as int) == decode_entities(s@),
        decreases s@.len() - i,
    {
        let ghost before = out@;
        let (c, n): (char, usize) = if matches_at(s, &amp, i) {
            ('&', amp.len())
        } else if matches_at(s, &lt, i) {
            ('<', lt.len())
        } else if matches_at(s, &gt, i) {
            ('>', gt.len())
        } else if matches_at(s, &quot, i) {
            ('"', quot.len())
        } else if matches_at(s, &apos, i) {
            ('\'', apos.len())
        } else if matches_at(s, &nbsp, i) {
            (' ', nbsp.len())
        } else {
            (s[i], 1)
        };
        proof {
            match entity_at(s@, i as int) {
                Some(e) => {
                    assert(c == e.1 && n == e.0.len());
                    assert(i + n <= s@.len());
                },
                None => {
                    assert(c == s@[i as int] && n == 1);
                },
            }
        }
        out.push(c);
        assert(out@ + decode_from(s@, i + n) =~= before + (seq![c] + decode_from(s@, i + n)));
        i = i + n;
    }
    assert(out@ + seq![] =~= out@);
    out
}

/// The text of `raw`, as characters.
pub fn strip_chars(raw: &Vec<char>) -> (r: Vec<char>)
    ensures
        r@ == strip_spec(raw@),
{
    let out = detag_chars(raw);
    let out = decode_chars(&out);
    let ws = split_words(&out);
    let sep: Vec<char> = vec![' '];
    assert(sep@ =~= seq![' ']);
    join_chars(&ws, &sep)
}

/// Removes the HTML tags of `raw` (each tag becomes one space, so that
/// neighbouring text nodes stay apart), decodes the common entities in one
/// pass (so `&amp;lt;` gives `&lt;`) and
/// collapses whitespace.
pub fn strip_html(raw: &str) -> (r: String)
    ensures
        r@ == strip_spec(raw@),
{
    let s = chars_of(raw);
    let out = strip_chars(&s);
    string_of(&out)
}

} // verus!
