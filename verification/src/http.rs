//! The computing parts of a minimal HTTP/1.0 client: percent-encoding, the
//! request text, and the body of a response. The socket work lives with the caller.
use vstd::prelude::*;
use vstd::string::{StringExecFns, StringSliceAdditionalSpecFns};

use crate::text::{
    chars_of, contains_seq, find_from, find_seq, lemma_find_first, lemma_find_from,
    lemma_find_from_ge, occurs_at, skip_chars, string_of,
};

verus! {

broadcast use vstd::seq::group_seq_axioms;

// ── Percent-encoding ─────────────────────────────────────────────────────

/// A byte that URL encoding keeps as it is: `A-Z a-z 0-9 - _ . ~`.
pub open spec fn is_unreserved(b: u8) -> bool {
    ||| (65 <= b && b <= 90)
    ||| (97 <= b && b <= 122)
    ||| (48 <= b && b <= 57)
    ||| b == 45
    ||| b == 95
    ||| b == 46
    ||| b == 126
}

/// The upper-case hexadecimal digit for `n < 16`.
pub open spec fn hex_digit(n: u8) -> char {
    if n < 10 {
        (48 + n) as char
    } else {
        (55 + n) as char
    }
}

/// The encoding of one byte: the byte itself if unreserved, else `%` and two
/// upper-case hexadecimal digits.
pub open spec fn encode_byte(b: u8) -> Seq<char> {
    if is_unreserved(b) {
        seq![b as char]
    } else {
        seq!['%', hex_digit(b / 16), hex_digit(b % 16)]
    }
}

/// The percent-encoding of the bytes `bs`, byte by byte.
pub open spec fn url_encoded(bs: Seq<u8>) -> Seq<char>
    decreases bs.len(),
{
    if bs.len() == 0 {
        seq![]
    } else {
        url_encoded(bs.drop_last()) + encode_byte(bs.last())
    }
}

fn hex_char(n: u8) -> (r: char)
    requires
        n < 16,
    ensures
        r == hex_digit(n),
{
    if n < 10 {
        (48 + n) as char
    } else {
        (55 + n) as char
    }
}

/// URL-encodes `s`: the bytes `A-Z a-z 0-9 - _ . ~` of its UTF-8 encoding
/// are kept, every other byte becomes `%XX` in upper-case hexadecimal.
pub fn url_encode(s: &str) -> (r: String)
    ensures
        r@ == url_encoded(s.spec_bytes()),
{
    let bytes = s.as_bytes();
    let mut out: Vec<char> = Vec::new();
    let mut i: usize = 0;
    while i < bytes.len()
        invariant
            i <= bytes@.len(),
            bytes@ == s.spec_bytes(),
            out@ == url_encoded(bytes@.take(i as int)),
        decreases bytes@.len() - i,
    {
        let b = bytes[i];
        let ghost before = out@;
        if (65 <= b && b <= 90) || (97 <= b && b <= 122) || (48 <= b && b <= 57) || b == 45 || b
            == 95 || b == 46 || b == 126 {
            out.push(b as char);
        } else {
            out.push('%');
            out.push(hex_char(b / 16));
            out.push(hex_char(b % 16));
        }
        proof {
            assert(bytes@.take(i + 1).drop_last() =~= bytes@.take(i as int));
            assert(out@ =~= before + encode_byte(b));
        }
        i = i + 1;
    }
    assert(bytes@.take(bytes@.len() as int) =~= bytes@);
    string_of(&out)
}

/// The value of the hexadecimal digit `c` (`0-9`, `A-F`).
pub open spec fn hex_value(c: char) -> int {
    if c <= '9' {
        c as int - 48
    } else {
        c as int - 55
    }
}

/// Percent-decoding, read from the end: a `%` two characters before the end
/// starts an escape of one byte, any other last character stands for itself.
pub open spec fn url_decoded(cs: Seq<char>) -> Seq<u8>
    decreases cs.len(),
{
    if cs.len() == 0 {
        seq![]
    } else if cs.len() >= 3 && cs[cs.len() - 3] == '%' {
        url_decoded(cs.subrange(0, cs.len() - 3)).push(
            (16 * hex_value(cs[cs.len() - 2]) + hex_value(cs.last())) as u8,
        )
    } else {
        url_decoded(cs.drop_last()).push(cs.last() as u8)
    }
}

proof fn lemma_hex_digit_value(n: u8)
    requires
        n < 16,
    ensures
        hex_value(hex_digit(n)) == n,
        hex_digit(n) != '%',
{
}

proof fn lemma_encoded_tail(bs: Seq<u8>)
    ensures
        url_encoded(bs).len() >= 1 ==> url_encoded(bs).last() != '%',
        url_encoded(bs).len() >= 2 ==> url_encoded(bs)[url_encoded(bs).len() - 2] != '%',
        url_encoded(bs).len() >= bs.len(),
    decreases bs.len(),
{
    if bs.len() > 0 {
        let b = bs.last();
        let f = url_encoded(bs.drop_last());
        lemma_encoded_tail(bs.drop_last());
        let e = f + encode_byte(b);
        assert(url_encoded(bs) == e);
        if is_unreserved(b) {
            assert(e.last() == b as char);
            if e.len() >= 2 {
                assert(e[e.len() - 2] == f.last());
            }
        } else {
            lemma_hex_digit_value(b / 16);
            lemma_hex_digit_value(b % 16);
            assert(e.last() == hex_digit(b % 16));
            assert(e[e.len() - 2] == hex_digit(b / 16));
        }
    }
}

/// URL encoding loses nothing: decoding what [`url_encode`] produces gives
/// back the UTF-8 bytes of the text, so distinct texts never share an encoding.
pub proof fn lemma_url_decode_encode(bs: Seq<u8>)
    ensures
        url_decoded(url_encoded(bs)) == bs,
    decreases bs.len(),
{
    if bs.len() > 0 {
        let b = bs.last();
        let front = bs.drop_last();
        let f = url_encoded(front);
        lemma_url_decode_encode(front);
        lemma_encoded_tail(front);
        let e = f + encode_byte(b);
        assert(url_encoded(bs) == e);
        if is_unreserved(b) {
            assert(e.last() == b as char);
            assert(e.drop_last() =~= f);
            if e.len() >= 3 {
                assert(e[e.len() - 3] == f[f.len() - 2]);
            }
            assert((b as char) as u8 == b);
        } else {
            lemma_hex_digit_value(b / 16);
            lemma_hex_digit_value(b % 16);
            assert(e[e.len() - 3] == '%');
            assert(e.subrange(0, e.len() - 3) =~= f);
            assert(e[e.len() - 2] == hex_digit(b / 16));
            assert(e.last() == hex_digit(b % 16));
            assert(16 * (b / 16) + b % 16 == b);
        }
        assert(front.push(b) =~= bs);
    }
}

/// A character that can stand in a URL-encoded text: `A-Z a-z 0-9 - _ . ~` and `%`.
pub open spec fn url_char(c: char) -> bool {
    ||| ('A' <= c && c <= 'Z')
    ||| ('a' <= c && c <= 'z')
    ||| ('0' <= c && c <= '9')
    ||| c == '-'
    ||| c == '_'
    ||| c == '.'
    ||| c == '~'
    ||| c == '%'
}

/// What [`url_encode`] produces holds only URL characters, and text made of
/// unreserved characters only is left as it is.
pub proof fn lemma_url_encoded_chars(bs: Seq<u8>)
    ensures
        forall|i: int| 0 <= i < url_encoded(bs).len() ==> url_char(#[trigger] url_encoded(bs)[i]),
        (forall|i: int| 0 <= i < bs.len() ==> is_unreserved(#[trigger] bs[i])) ==> url_encoded(bs)
            == bs.map_values(|b: u8| b as char),
    decreases bs.len(),
{
    if bs.len() > 0 {
        let b = bs.last();
        let front = bs.drop_last();
        let f = url_encoded(front);
        lemma_url_encoded_chars(front);
        let p = encode_byte(b);
        let e = f + p;
        assert(url_encoded(bs) == e);
        assert forall|i: int| 0 <= i < p.len() implies url_char(#[trigger] p[i]) by {
            if !is_unreserved(b) {
                lemma_hex_digit_value(b / 16);
                lemma_hex_digit_value(b % 16);
            }
        }
        assert forall|i: int| 0 <= i < e.len() implies url_char(#[trigger] e[i]) by {
            if i < f.len() {
                assert(e[i] == f[i]);
            } else {
                assert(e[i] == p[i - f.len()]);
            }
        }
        if forall|i: int| 0 <= i < bs.len() ==> is_unreserved(#[trigger] bs[i]) {
            assert forall|i: int| 0 <= i < front.len() implies is_unreserved(#[trigger] front[i]) by {
                assert(front[i] == bs[i]);
            }
            assert(is_unreserved(bs[bs.len() - 1]));
            assert(e =~= bs.map_values(|b: u8| b as char));
        }
    } else {
        assert(url_encoded(bs) =~= bs.map_values(|b: u8| b as char));
    }
}

// ── Requests and responses ───────────────────────────────────────────────

/// The HTTP/1.0 `GET` request for `path` on `host`, asking the server to close the connection.
pub open spec fn get_request_spec(host: Seq<char>, path: Seq<char>) -> Seq<char> {
    "GET "@ + path + " HTTP/1.0\r\nHost: "@ + host + "\r\nConnection: close\r\n\r\n"@
}

/// The text of an HTTP/1.0 `GET` request for `path` on `host`.
pub fn get_request(host: &str, path: &str) -> (r: String)
    ensures
        r@ == get_request_spec(host@, path@),
{
    let mut out = "GET ".to_owned();
    out.append(path);
    out.append(" HTTP/1.0\r\nHost: ");
    out.append(host);
    out.append("\r\nConnection: close\r\n\r\n");
    out
}

/// The body of the response text `r`: everything after the first blank line
/// (`\r\n\r\n`), or nothing if there is none.
pub open spec fn response_body_spec(r: Seq<char>) -> Seq<char> {
    match find_from(r, "\r\n\r\n"@, 0) {
        Some(i) => r.skip(i + 4),
        None => seq![],
    }
}

/// The body of the HTTP response text `response`.
pub fn response_body(response: &str) -> (r: String)
    ensures
        r@ == response_body_spec(response@),
{
    let s = chars_of(response);
    let sep = chars_of("\r\n\r\n");
    let n: usize = s.len();
    proof {
        reveal_strlit("\r\n\r\n");
    }
    match find_seq(&s, &sep, 0) {
        Some(i) => {
            proof {
                lemma_find_from_ge(s@, sep@, 0);
            }
            assert(sep@.len() == 4);
            let body = skip_chars(&s, i + sep.len());
            string_of(&body)
        },
        None => String::new(),
    }
}

/// The body is what follows the first blank line: for a head in which no
/// `\r\n\r\n` starts (not even one running into the blank line),
/// the body of `head`, a blank line and `body` is `body`.
pub proof fn lemma_response_body_after_head(head: Seq<char>, body: Seq<char>)
    requires
        !contains_seq(head + "\r\n\r"@, "\r\n\r\n"@),
    ensures
        response_body_spec(head + "\r\n\r\n"@ + body) == body,
{
    reveal_strlit("\r\n\r\n");
    reveal_strlit("\r\n\r");
    let sep = "\r\n\r\n"@;
    let pre = head + "\r\n\r"@;
    let r = head + sep + body;
    let n = head.len() as int;
    assert(r.subrange(n, n + 4) =~= sep);
    lemma_find_from(pre, sep, 0);
    assert forall|j: int| 0 <= j < n implies !occurs_at(r, sep, j) by {
        if occurs_at(r, sep, j) {
            assert(pre.len() == n + 3);
            assert forall|k: int| 0 <= k < 4 implies #[trigger] pre[j + k] == r[j + k] by {
                if j + k >= n {
                    assert(pre[j + k] == "\r\n\r"@[j + k - n]);
                    assert(r[j + k] == sep[j + k - n]);
                }
            }
            assert(pre.subrange(j, j + 4) =~= r.subrange(j, j + 4));
            assert(occurs_at(pre, sep, j));
        }
    }
    lemma_find_first(r, sep, 0, n);
    assert(r.skip(n + 4) =~= body);
}

/// What `String::from_utf8_lossy` makes of the bytes `bytes`.
pub uninterp spec fn utf8_lossy(bytes: Seq<u8>) -> Seq<char>;

/// `String::from_utf8_lossy`: the text of `bytes`, with each invalid UTF-8
/// sequence replaced by U+FFFD. Stated: the result is a function of the bytes
/// alone, and valid UTF-8 decodes to exactly its characters; the replacement
/// rule for invalid input is left unsaid.
#[verifier::external_body]
fn from_utf8_lossy(bytes: &[u8]) -> (r: String)
    ensures
        r@ == utf8_lossy(bytes@),
        vstd::utf8::valid_utf8(bytes@) ==> r@ == vstd::utf8::decode_utf8(bytes@),
{
    String::from_utf8_lossy(bytes).into_owned()
}

/// The body of the raw HTTP response `raw`, read as UTF-8 with invalid
/// sequences replaced.
pub fn body_of_response(raw: &[u8]) -> (r: String)
    ensures
        r@ == response_body_spec(utf8_lossy(raw@)),
{
    let text = from_utf8_lossy(raw);
    response_body(text.as_str())
}

} // verus!
