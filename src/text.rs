//! Character-level helpers shared by the readers, the tokenizer and the
//! writers.
use vstd::prelude::*;
use vstd::std_specs::iter::IteratorSpec;

verus! {

/// The characters of `s`, in order.
pub fn chars_of(s: &str) -> (r: Vec<char>)
    ensures
        r@ == s@,
{
    broadcast use vstd::string::group_string_axioms;

    let mut out: Vec<char> = Vec::new();
    for c in it: s.chars()
        invariant
            it.seq() == s@,
            out@ == s@.take(it.index() as int),
    {
        out.push(c);
    }
    assert(s@.take(s@.len() as int) == s@);
    out
}

/// Whether `a` and `b` hold the same characters.
pub fn text_eq(a: &str, b: &str) -> (r: bool)
    ensures
        r == (a@ == b@),
{
    let x = chars_of(a);
    let y = chars_of(b);
    chars_eq(&x, &y)
}

/// Whether `a` and `b` hold the same characters.
pub fn chars_eq(a: &Vec<char>, b: &Vec<char>) -> (r: bool)
    ensures
        r == (a@ == b@),
{
    if a.len() != b.len() {
        return false;
    }
    let mut i: usize = 0;
    while i < a.len()
        invariant
            a@.len() == b@.len(),
            i <= a.len(),
            a@.take(i as int) == b@.take(i as int),
        decreases a.len() - i,
    {
        if a[i] != b[i] {
            return false;
        }
        assert(a@.take(i + 1) =~= a@.take(i as int).push(a[i as int]));
        assert(b@.take(i + 1) =~= b@.take(i as int).push(b[i as int]));
        i += 1;
    }
    assert(a@ =~= a@.take(a.len() as int));
    assert(b@ =~= b@.take(b.len() as int));
    true
}

/// Relies on `String`'s `FromIterator<char>`: the string holds the
/// characters in order.
#[verifier::external_body]
pub(crate) fn string_from_chars(v: &Vec<char>) -> (r: String)
    ensures
        r@ == v@,
{
    v.iter().collect()
}

/// An owned copy of `s`.
pub fn owned(s: &str) -> (r: String)
    ensures
        r@ == s@,
{
    let v = chars_of(s);
    string_from_chars(&v)
}

/// `a`, then `sep`, then `b`.
pub fn join_with(a: &str, sep: char, b: &str) -> (r: String)
    ensures
        r@ == a@ + seq![sep] + b@,
{
    let mut v = chars_of(a);
    v.push(sep);
    let mut w = chars_of(b);
    v.append(&mut w);
    string_from_chars(&v)
}

/// The last component of a slash-separated path: what follows the last
/// `/`, or the whole path when it has none.
pub open spec fn base_name(p: Seq<char>) -> Seq<char>
    decreases p.len(),
{
    if p.len() == 0 {
        p
    } else if p.last() == '/' {
        Seq::empty()
    } else {
        base_name(p.drop_last()).push(p.last())
    }
}

/// The file name of `path` (see [`base_name`]).
pub fn file_name_of(path: &str) -> (r: String)
    ensures
        r@ == base_name(path@),
{
    let p = chars_of(path);
    let mut i: usize = p.len();
    assert(p@.take(p.len() as int) =~= p@);
    assert(p@.subrange(p.len() as int, p.len() as int) =~= Seq::<char>::empty());
    while i > 0 && p[i - 1] != '/'
        invariant
            i <= p.len(),
            base_name(p@) == base_name(p@.take(i as int)) + p@.subrange(i as int, p.len() as int),
        decreases i,
    {
        let ghost pre = p@.take(i as int);
        assert(pre.drop_last() =~= p@.take(i - 1));
        assert(p@.subrange(i - 1, p.len() as int) =~= seq![p[i - 1]] + p@.subrange(
            i as int,
            p.len() as int,
        ));
        i -= 1;
    }
    assert(base_name(p@.take(i as int)) =~= Seq::<char>::empty());
    let mut out: Vec<char> = Vec::new();
    let mut j: usize = i;
    while j < p.len()
        invariant
            i <= j <= p.len(),
            out@ == p@.subrange(i as int, j as int),
        decreases p.len() - j,
    {
        out.push(p[j]);
        j += 1;
        assert(out@ =~= p@.subrange(i as int, j as int));
    }
    string_from_chars(&out)
}

} // verus!
