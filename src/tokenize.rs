//! Word-count tokenization: split on whitespace, keep letters, digits and
//! underscores, lowercase, drop empty tokens.
use vstd::prelude::*;
use crate::text::{chars_of, string_from_chars};

verus! {

/// Unicode's `White_Space` property, which `char::is_whitespace` tests.
pub open spec fn is_white(c: char) -> bool {
    ('\u{9}' <= c && c <= '\u{d}') || c == ' ' || c == '\u{85}' || c == '\u{a0}' || c
        == '\u{1680}' || ('\u{2000}' <= c && c <= '\u{200a}') || c == '\u{2028}' || c
        == '\u{2029}' || c == '\u{202f}' || c == '\u{205f}' || c == '\u{3000}'
}

/// What `char::is_alphanumeric` answers: the Unicode `Alphabetic` or
/// `Numeric` property.
pub uninterp spec fn is_alnum(c: char) -> bool;

/// What `str::to_lowercase` returns for a text.
pub uninterp spec fn lower_of(s: Seq<char>) -> Seq<char>;

/// Whether `c` is whitespace: the `White_Space` code points, the set that
/// `char::is_whitespace` tests.
pub fn char_is_white(c: char) -> (r: bool)
    ensures
        r == is_white(c),
{
    ('\u{9}' <= c && c <= '\u{d}') || c == ' ' || c == '\u{85}' || c == '\u{a0}' || c
        == '\u{1680}' || ('\u{2000}' <= c && c <= '\u{200a}') || c == '\u{2028}' || c
        == '\u{2029}' || c == '\u{202f}' || c == '\u{205f}' || c == '\u{3000}'
}

/// Relies on `char::is_alphanumeric`, whose answer depends on the
/// character alone.
#[verifier::external_body]
fn char_is_alnum(c: char) -> (r: bool)
    ensures
        r == is_alnum(c),
{
    c.is_alphanumeric()
}

/// Relies on `str::to_lowercase`: a function of the characters alone, which
/// maps the empty text to the empty text.
#[verifier::external_body]
fn lowercase(s: &str) -> (r: String)
    ensures
        r@ == lower_of(s@),
        s@.len() == 0 ==> r@.len() == 0,
{
    s.to_lowercase()
}

/// A character that tokens keep.
pub open spec fn is_word_char(c: char) -> bool {
    is_alnum(c) || c == '_'
}

/// The word characters of `w`, in order.
pub open spec fn word_chars(w: Seq<char>) -> Seq<char>
    decreases w.len(),
{
    if w.len() == 0 {
        w
    } else if is_word_char(w.last()) {
        word_chars(w.drop_last()).push(w.last())
    } else {
        word_chars(w.drop_last())
    }
}

/// The token of a raw word: its word characters, lowercased.
pub open spec fn clean(w: Seq<char>) -> Seq<char> {
    lower_of(word_chars(w))
}

/// Splitting `s` on whitespace, left to right: the finished words and the
/// word in progress.
pub open spec fn scan(s: Seq<char>) -> (Seq<Seq<char>>, Seq<char>)
    decreases s.len(),
{
    if s.len() == 0 {
        (Seq::empty(), Seq::empty())
    } else {
        let (done, cur) = scan(s.drop_last());
        let c = s.last();
        if is_white(c) {
            if cur.len() == 0 {
                (done, cur)
            } else {
                (done.push(cur), Seq::empty())
            }
        } else {
            (done, cur.push(c))
        }
    }
}

/// The maximal runs of non-whitespace characters of `s`.
pub open spec fn words(s: Seq<char>) -> Seq<Seq<char>> {
    let (done, cur) = scan(s);
    if cur.len() == 0 {
        done
    } else {
        done.push(cur)
    }
}

/// The non-empty tokens of the words `ws`, in order.
pub open spec fn tokens_of_words(ws: Seq<Seq<char>>) -> Seq<Seq<char>>
    decreases ws.len(),
{
    if ws.len() == 0 {
        Seq::empty()
    } else if clean(ws.last()).len() == 0 {
        tokens_of_words(ws.drop_last())
    } else {
        tokens_of_words(ws.drop_last()).push(clean(ws.last()))
    }
}

/// The tokens of a text.
pub open spec fn tokens(s: Seq<char>) -> Seq<Seq<char>> {
    tokens_of_words(words(s))
}

/// The texts of `v`.
pub open spec fn texts(v: Seq<String>) -> Seq<Seq<char>> {
    v.map_values(|s: String| s@)
}

/// The token of the raw word `w`.
pub fn clean_word(w: &Vec<char>) -> (r: String)
    ensures
        r@ == clean(w@),
{
    let mut kept: Vec<char> = Vec::new();
    let mut i: usize = 0;
    while i < w.len()
        invariant
            i <= w@.len(),
            kept@ == word_chars(w@.take(i as int)),
        decreases w@.len() - i,
    {
        assert(w@.take(i + 1).drop_last() =~= w@.take(i as int));
        let c = w[i];
        if char_is_alnum(c) || c == '_' {
            kept.push(c);
        }
        i += 1;
    }
    assert(w@.take(w@.len() as int) =~= w@);
    let s = string_from_chars(&kept);
    lowercase(s.as_str())
}

/// Appends the token of `cur` to `out` when it is not empty.
fn emit(out: &mut Vec<String>, cur: &Vec<char>)
    ensures
        texts(final(out)@) == if clean(cur@).len() == 0 {
            texts(old(out)@)
        } else {
            texts(old(out)@).push(clean(cur@))
        },
{
    let t = clean_word(cur);
    if !t.as_str().is_empty() {
        out.push(t);
        assert(texts(final(out)@) =~= texts(old(out)@).push(clean(cur@)));
    }
}

/// The tokens of `text`: split on whitespace, each word reduced to its
/// letters, digits and underscores and lowercased; empty tokens dropped.
pub fn tokenize(text: &str) -> (r: Vec<String>)
    ensures
        texts(r@) == tokens(text@),
{
    let s = chars_of(text);
    let mut out: Vec<String> = Vec::new();
    let mut cur: Vec<char> = Vec::new();
    let mut i: usize = 0;
    while i < s.len()
        invariant
            i <= s@.len(),
            texts(out@) == tokens_of_words(scan(s@.take(i as int)).0),
            cur@ == scan(s@.take(i as int)).1,
        decreases s@.len() - i,
    {
        assert(s@.take(i + 1).drop_last() =~= s@.take(i as int));
        let c = s[i];
        if char_is_white(c) {
            if cur.len() > 0 {
                let ghost done = scan(s@.take(i as int)).0;
                emit(&mut out, &cur);
                proof {
                    assert(done.push(cur@).drop_last() =~= done);
                }
                cur = Vec::new();
            }
        } else {
            cur.push(c);
        }
        i += 1;
    }
    assert(s@.take(s@.len() as int) =~= s@);
    if cur.len() > 0 {
        let ghost done = scan(s@).0;
        emit(&mut out, &cur);
        proof {
            assert(done.push(cur@).drop_last() =~= done);
        }
    }
    out
}

} // verus!
