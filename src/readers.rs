//! Readers and writers of the line formats: plain text, comma-separated
//! text with a header row, and the framing of JSON-lines files.
use vstd::prelude::*;
use crate::text::{chars_of, owned, string_from_chars};
use crate::tokenize::{char_is_white, is_white, texts};
use crate::value::{field_of, Value};

verus! {

/// Splitting `s` at newlines, left to right: finished lines and the line
/// in progress.
pub open spec fn line_scan(s: Seq<char>) -> (Seq<Seq<char>>, Seq<char>)
    decreases s.len(),
{
    if s.len() == 0 {
        (Seq::empty(), Seq::empty())
    } else {
        let (done, cur) = line_scan(s.drop_last());
        if s.last() == '\n' {
            (done.push(cur), Seq::empty())
        } else {
            (done, cur.push(s.last()))
        }
    }
}

/// A line without its trailing carriage return.
pub open spec fn strip_cr(l: Seq<char>) -> Seq<char> {
    if l.len() > 0 && l.last() == '\r' {
        l.drop_last()
    } else {
        l
    }
}

/// The lines of `s` as a line reader yields them: split at `\n`, one
/// trailing `\r` dropped from each, and no empty line after a final `\n`.
pub open spec fn lines_of(s: Seq<char>) -> Seq<Seq<char>> {
    let (done, cur) = line_scan(s);
    let all = if cur.len() == 0 {
        done
    } else {
        done.push(cur)
    };
    all.map_values(|l: Seq<char>| strip_cr(l))
}

/// Whether `l` holds only whitespace.
pub open spec fn is_blank(l: Seq<char>) -> bool {
    forall|i: int| 0 <= i < l.len() ==> is_white(l[i])
}

/// The lines of `ls` that are not blank, in order.
pub open spec fn non_blank(ls: Seq<Seq<char>>) -> Seq<Seq<char>>
    decreases ls.len(),
{
    if ls.len() == 0 {
        Seq::empty()
    } else if is_blank(ls.last()) {
        non_blank(ls.drop_last())
    } else {
        non_blank(ls.drop_last()).push(ls.last())
    }
}

fn take_line(out: &mut Vec<String>, cur: &Vec<char>)
    ensures
        texts(final(out)@) == texts(old(out)@).push(strip_cr(cur@)),
{
    let mut l: Vec<char> = Vec::new();
    let n = if cur.len() > 0 && cur[cur.len() - 1] == '\r' {
        cur.len() - 1
    } else {
        cur.len()
    };
    let mut i: usize = 0;
    while i < n
        invariant
            n <= cur@.len(),
            i <= n,
            l@ == cur@.take(i as int),
        decreases n - i,
    {
        l.push(cur[i]);
        i += 1;
        assert(l@ =~= cur@.take(i as int));
    }
    assert(l@ =~= strip_cr(cur@));
    out.push(string_from_chars(&l));
    assert(texts(final(out)@) =~= texts(old(out)@).push(strip_cr(cur@)));
}

/// The lines of `content` (see [`lines_of`]).
pub fn split_lines(content: &str) -> (r: Vec<String>)
    ensures
        texts(r@) == lines_of(content@),
{
    let s = chars_of(content);
    let mut out: Vec<String> = Vec::new();
    let mut cur: Vec<char> = Vec::new();
    let mut i: usize = 0;
    assert(s@.take(0) =~= Seq::<char>::empty());
    while i < s.len()
        invariant
            i <= s@.len(),
            texts(out@) == line_scan(s@.take(i as int)).0.map_values(|l: Seq<char>| strip_cr(l)),
            cur@ == line_scan(s@.take(i as int)).1,
        decreases s@.len() - i,
    {
        assert(s@.take(i + 1).drop_last() =~= s@.take(i as int));
        let ghost done = line_scan(s@.take(i as int)).0;
        if s[i] == '\n' {
            take_line(&mut out, &cur);
            proof {
                assert(done.push(cur@).map_values(|l: Seq<char>| strip_cr(l)) =~= done.map_values(
                    |l: Seq<char>| strip_cr(l),
                ).push(strip_cr(cur@)));
            }
            cur = Vec::new();
        } else {
            cur.push(s[i]);
        }
        i += 1;
    }
    assert(s@.take(s@.len() as int) =~= s@);
    if cur.len() > 0 {
        let ghost done = line_scan(s@).0;
        take_line(&mut out, &cur);
        proof {
            assert(done.push(cur@).map_values(|l: Seq<char>| strip_cr(l)) =~= done.map_values(
                |l: Seq<char>| strip_cr(l),
            ).push(strip_cr(cur@)));
        }
    }
    out
}

/// Whether `l` holds only whitespace.
pub fn blank(l: &str) -> (r: bool)
    ensures
        r == is_blank(l@),
{
    let cs = chars_of(l);
    let mut i: usize = 0;
    while i < cs.len()
        invariant
            i <= cs@.len(),
            cs@ == l@,
            forall|k: int| 0 <= k < i ==> is_white(cs@[k]),
        decreases cs@.len() - i,
    {
        if !char_is_white(cs[i]) {
            assert(!is_white(l@[i as int]));
            return false;
        }
        i += 1;
    }
    true
}

/// The non-blank lines of `content`, as a JSON-lines reader frames them:
/// each is to hold one JSON document.
pub fn nonblank_lines(content: &str) -> (r: Vec<String>)
    ensures
        texts(r@) == non_blank(lines_of(content@)),
{
    let ls = split_lines(content);
    let mut out: Vec<String> = Vec::new();
    let mut i: usize = 0;
    assert(texts(ls@).take(0) =~= Seq::<Seq<char>>::empty());
    while i < ls.len()
        invariant
            i <= ls@.len(),
            texts(out@) == non_blank(texts(ls@).take(i as int)),
        decreases ls@.len() - i,
    {
        assert(texts(ls@).take(i + 1).drop_last() =~= texts(ls@).take(i as int));
        assert(texts(ls@).take(i + 1).last() == ls@[i as int]@);
        if !blank(ls[i].as_str()) {
            let ghost before = out@;
            out.push(ls[i].clone());
            assert(texts(out@) =~= texts(before).push(ls@[i as int]@));
        }
        i += 1;
    }
    assert(texts(ls@).take(ls@.len() as int) =~= texts(ls@));
    out
}

/// The JSON-lines text of already encoded documents: each followed by a
/// newline.
pub open spec fn jsonl_frame(docs: Seq<Seq<char>>) -> Seq<char>
    decreases docs.len(),
{
    if docs.len() == 0 {
        Seq::empty()
    } else {
        jsonl_frame(docs.drop_last()) + docs.last() + seq!['\n']
    }
}

/// Writes encoded documents one per line.
pub fn write_jsonl_lines(docs: &Vec<String>) -> (r: String)
    ensures
        r@ == jsonl_frame(texts(docs@)),
{
    let mut out: Vec<char> = Vec::new();
    let mut i: usize = 0;
    assert(texts(docs@).take(0) =~= Seq::<Seq<char>>::empty());
    while i < docs.len()
        invariant
            i <= docs@.len(),
            out@ == jsonl_frame(texts(docs@).take(i as int)),
        decreases docs@.len() - i,
    {
        let ghost before = out@;
        let mut d = chars_of(docs[i].as_str());
        out.append(&mut d);
        out.push('\n');
        proof {
            assert(texts(docs@).take(i + 1).drop_last() =~= texts(docs@).take(i as int));
            assert(out@ =~= before + docs@[i as int]@ + seq!['\n']);
        }
        i += 1;
    }
    assert(texts(docs@).take(docs@.len() as int) =~= texts(docs@));
    string_from_chars(&out)
}

/// A document that survives framing: no newline inside, no carriage return
/// at its end, and not blank.
pub open spec fn frameable(d: Seq<char>) -> bool {
    &&& forall|i: int| 0 <= i < d.len() ==> d[i] != '\n'
    &&& !(d.len() > 0 && d.last() == '\r')
    &&& !is_blank(d)
}

proof fn lemma_scan_frame(docs: Seq<Seq<char>>)
    requires
        forall|i: int| 0 <= i < docs.len() ==> frameable(#[trigger] docs[i]),
    ensures
        line_scan(jsonl_frame(docs)) == (docs, Seq::<char>::empty()),
    decreases docs.len(),
{
    if docs.len() > 0 {
        let d = docs.last();
        let pre = jsonl_frame(docs.drop_last());
        assert(frameable(docs[docs.len() - 1]));
        lemma_scan_frame(docs.drop_last());
        lemma_scan_append(pre, d, docs.drop_last());
        let s = pre + d;
        assert(jsonl_frame(docs) == s.push('\n'));
        assert(s.push('\n').drop_last() =~= s);
        assert(docs.drop_last().push(d) =~= docs);
    }
}

proof fn lemma_scan_append(pre: Seq<char>, d: Seq<char>, done: Seq<Seq<char>>)
    requires
        line_scan(pre) == (done, Seq::<char>::empty()),
        forall|i: int| 0 <= i < d.len() ==> d[i] != '\n',
    ensures
        line_scan(pre + d) == (done, d),
    decreases d.len(),
{
    if d.len() == 0 {
        assert(pre + d =~= pre);
    } else {
        lemma_scan_append(pre, d.drop_last(), done);
        assert((pre + d).drop_last() =~= pre + d.drop_last());
        assert(d.drop_last().push(d.last()) =~= d);
    }
}

proof fn lemma_non_blank_all(docs: Seq<Seq<char>>)
    requires
        forall|i: int| 0 <= i < docs.len() ==> !is_blank(#[trigger] docs[i]),
    ensures
        non_blank(docs) == docs,
    decreases docs.len(),
{
    if docs.len() > 0 {
        assert(!is_blank(docs[docs.len() - 1]));
        lemma_non_blank_all(docs.drop_last());
        assert(docs.drop_last().push(docs.last()) =~= docs);
    }
}

/// Framing round trip: reading back the JSON-lines text of documents that
/// hold no newline, end in no carriage return and are not blank yields the
/// same documents in the same order.
pub proof fn lemma_jsonl_round_trip(docs: Seq<Seq<char>>)
    requires
        forall|i: int| 0 <= i < docs.len() ==> frameable(#[trigger] docs[i]),
    ensures
        non_blank(lines_of(jsonl_frame(docs))) == docs,
{
    lemma_scan_frame(docs);
    assert(docs.map_values(|l: Seq<char>| strip_cr(l)) =~= docs) by {
        assert forall|i: int| 0 <= i < docs.len() implies strip_cr(docs[i]) == docs[i] by {
            assert(frameable(docs[i]));
        }
    }
    assert forall|i: int| 0 <= i < docs.len() implies !is_blank(#[trigger] docs[i]) by {
        assert(frameable(docs[i]));
    }
    lemma_non_blank_all(docs);
}

/// The lines of `ls` that are not empty, in order.
pub open spec fn non_empty(ls: Seq<Seq<char>>) -> Seq<Seq<char>>
    decreases ls.len(),
{
    if ls.len() == 0 {
        Seq::empty()
    } else if ls.last().len() == 0 {
        non_empty(ls.drop_last())
    } else {
        non_empty(ls.drop_last()).push(ls.last())
    }
}

/// The record `{text: line}`.
pub open spec fn is_text_record(r: Value, line: Seq<char>) -> bool {
    r.str_field("text"@) == Some(line)
}

/// The text reader: one record `{text: line}` per non-empty line.
pub fn read_text_to_records(content: &str) -> (r: Vec<Value>)
    ensures
        r@.len() == non_empty(lines_of(content@)).len(),
        forall|i: int|
            0 <= i < r@.len() ==> is_text_record(#[trigger] r@[i], non_empty(lines_of(content@))[i]),
{
    let ls = split_lines(content);
    let ghost all = texts(ls@);
    let mut out: Vec<Value> = Vec::new();
    let mut i: usize = 0;
    assert(all.take(0) =~= Seq::<Seq<char>>::empty());
    while i < ls.len()
        invariant
            i <= ls@.len(),
            all == texts(ls@),
            out@.len() == non_empty(all.take(i as int)).len(),
            forall|k: int|
                0 <= k < out@.len() ==> is_text_record(#[trigger] out@[k], non_empty(all.take(i as int))[k]),
        decreases ls@.len() - i,
    {
        assert(all.take(i + 1).drop_last() =~= all.take(i as int));
        assert(all.take(i + 1).last() == ls@[i as int]@);
        if !ls[i].as_str().is_empty() {
            let ghost before = out@;
            let line = ls[i].clone();
            let ghost lv = line@;
            let fields = vec![(owned("text"), Value::Str(line))];
            proof {
                assert(fields@.drop_last() =~= Seq::<(String, Value)>::empty());
                assert(fields@.last().0@ == "text"@);
                assert(field_of(fields@, "text"@) == Some(Value::Str(fields@[0].1->Str_0)));
            }
            out.push(Value::Object(fields));
            proof {
                assert forall|k: int| 0 <= k < out@.len() implies is_text_record(
                    #[trigger] out@[k],
                    non_empty(all.take(i + 1))[k],
                ) by {
                    if k < before.len() {
                        assert(out@[k] == before[k]);
                    }
                }
            }
        }
        i += 1;
    }
    assert(all.take(ls@.len() as int) =~= all);
    out
}

/// `s` without leading whitespace.
pub open spec fn trim_start(s: Seq<char>) -> Seq<char>
    decreases s.len(),
{
    if s.len() > 0 && is_white(s[0]) {
        trim_start(s.drop_first())
    } else {
        s
    }
}

/// `s` without trailing whitespace.
pub open spec fn trim_end(s: Seq<char>) -> Seq<char>
    decreases s.len(),
{
    if s.len() > 0 && is_white(s.last()) {
        trim_end(s.drop_last())
    } else {
        s
    }
}

/// `s` without leading byte-order marks.
pub open spec fn strip_bom(s: Seq<char>) -> Seq<char>
    decreases s.len(),
{
    if s.len() > 0 && s[0] == '\u{feff}' {
        strip_bom(s.drop_first())
    } else {
        s
    }
}

/// A CSV cell as read: trimmed, then without leading byte-order marks.
pub open spec fn csv_cell(c: Seq<char>) -> Seq<char> {
    strip_bom(trim_end(trim_start(c)))
}

/// Splitting at commas, left to right: finished pieces and the piece in
/// progress.
pub open spec fn comma_scan(s: Seq<char>) -> (Seq<Seq<char>>, Seq<char>)
    decreases s.len(),
{
    if s.len() == 0 {
        (Seq::empty(), Seq::empty())
    } else {
        let (done, cur) = comma_scan(s.drop_last());
        if s.last() == ',' {
            (done.push(cur), Seq::empty())
        } else {
            (done, cur.push(s.last()))
        }
    }
}

/// The comma-separated pieces of `s`; at least one.
pub open spec fn split_commas(s: Seq<char>) -> Seq<Seq<char>> {
    let (done, cur) = comma_scan(s);
    done.push(cur)
}

/// The column names of a header line.
pub open spec fn csv_header(line: Seq<char>) -> Seq<Seq<char>> {
    split_commas(strip_bom(line)).map_values(|c: Seq<char>| csv_cell(c))
}

/// Cell `j` of a data line; a missing trailing cell is empty.
pub open spec fn csv_value(line: Seq<char>, j: int) -> Seq<char> {
    let cols = split_commas(line);
    if j < cols.len() {
        csv_cell(cols[j])
    } else {
        Seq::empty()
    }
}

/// `r` is the record of data line `line` under the column names `hs`.
pub open spec fn is_csv_record(r: Value, hs: Seq<Seq<char>>, line: Seq<char>) -> bool {
    match r {
        Value::Object(fs) => {
            &&& fs@.len() == hs.len()
            &&& forall|j: int|
                0 <= j < hs.len() ==> {
                    &&& (#[trigger] fs@[j]).0@ == hs[j]
                    &&& fs@[j].1 is Str
                    &&& fs@[j].1->Str_0@ == csv_value(line, j)
                }
        },
        _ => false,
    }
}

fn trimmed(s: &Vec<char>) -> (r: Vec<char>)
    ensures
        r@ == trim_end(trim_start(s@)),
{
    let mut a: usize = 0;
    assert(s@.skip(0) =~= s@);
    while a < s.len() && char_is_white(s[a])
        invariant
            a <= s@.len(),
            trim_start(s@) == trim_start(s@.skip(a as int)),
        decreases s@.len() - a,
    {
        assert(s@.skip(a as int).drop_first() =~= s@.skip(a + 1));
        a += 1;
    }
    let ghost t = s@.skip(a as int);
    assert(trim_start(s@) == t);
    let mut b: usize = s.len();
    assert(t.take(t.len() as int) =~= t);
    while b > a && char_is_white(s[b - 1])
        invariant
            a <= b <= s@.len(),
            t == s@.skip(a as int),
            trim_end(t) == trim_end(t.take(b - a)),
        decreases b,
    {
        assert(t.take(b - a).drop_last() =~= t.take(b - a - 1));
        b -= 1;
    }
    let mut out: Vec<char> = Vec::new();
    let mut i: usize = a;
    while i < b
        invariant
            a <= i <= b,
            b <= s@.len(),
            out@ == s@.subrange(a as int, i as int),
        decreases b - i,
    {
        out.push(s[i]);
        i += 1;
        assert(out@ =~= s@.subrange(a as int, i as int));
    }
    assert(out@ =~= t.take(b - a));
    out
}

fn without_bom(s: &Vec<char>) -> (r: Vec<char>)
    ensures
        r@ == strip_bom(s@),
{
    let mut a: usize = 0;
    assert(s@.skip(0) =~= s@);
    while a < s.len() && s[a] == '\u{feff}'
        invariant
            a <= s@.len(),
            strip_bom(s@) == strip_bom(s@.skip(a as int)),
        decreases s@.len() - a,
    {
        assert(s@.skip(a as int).drop_first() =~= s@.skip(a + 1));
        a += 1;
    }
    let mut out: Vec<char> = Vec::new();
    let mut i: usize = a;
    while i < s.len()
        invariant
            a <= i <= s@.len(),
            out@ == s@.subrange(a as int, i as int),
        decreases s@.len() - i,
    {
        out.push(s[i]);
        i += 1;
        assert(out@ =~= s@.subrange(a as int, i as int));
    }
    assert(out@ =~= s@.skip(a as int));
    out
}

/// The cells of a line: split at commas, each trimmed and without leading
/// byte-order marks.
fn csv_cells(line: &Vec<char>) -> (r: Vec<String>)
    ensures
        texts(r@) == split_commas(line@).map_values(|c: Seq<char>| csv_cell(c)),
{
    let mut out: Vec<String> = Vec::new();
    let mut cur: Vec<char> = Vec::new();
    let mut i: usize = 0;
    assert(line@.take(0) =~= Seq::<char>::empty());
    while i < line.len()
        invariant
            i <= line@.len(),
            texts(out@) == comma_scan(line@.take(i as int)).0.map_values(|c: Seq<char>| csv_cell(c)),
            cur@ == comma_scan(line@.take(i as int)).1,
        decreases line@.len() - i,
    {
        assert(line@.take(i + 1).drop_last() =~= line@.take(i as int));
        let ghost done = comma_scan(line@.take(i as int)).0;
        if line[i] == ',' {
            let c = without_bom(&trimmed(&cur));
            let ghost before = out@;
            out.push(string_from_chars(&c));
            proof {
                assert(texts(out@) =~= texts(before).push(csv_cell(cur@)));
                assert(done.push(cur@).map_values(|c: Seq<char>| csv_cell(c)) =~= done.map_values(
                    |c: Seq<char>| csv_cell(c),
                ).push(csv_cell(cur@)));
            }
            cur = Vec::new();
        } else {
            cur.push(line[i]);
        }
        i += 1;
    }
    assert(line@.take(line@.len() as int) =~= line@);
    let ghost done = comma_scan(line@).0;
    let c = without_bom(&trimmed(&cur));
    let ghost before = out@;
    out.push(string_from_chars(&c));
    proof {
        assert(texts(out@) =~= texts(before).push(csv_cell(cur@)));
        assert(done.push(cur@).map_values(|c: Seq<char>| csv_cell(c)) =~= done.map_values(
            |c: Seq<char>| csv_cell(c),
        ).push(csv_cell(cur@)));
    }
    out
}

/// The record of one data line under `headers`.
fn csv_record(headers: &Vec<String>, line: &str) -> (r: Value)
    ensures
        is_csv_record(r, texts(headers@), line@),
{
    let cells = csv_cells(&chars_of(line));
    let mut fields: Vec<(String, Value)> = Vec::new();
    let mut j: usize = 0;
    while j < headers.len()
        invariant
            j <= headers@.len(),
            texts(cells@) == split_commas(line@).map_values(|c: Seq<char>| csv_cell(c)),
            fields@.len() == j,
            forall|k: int|
                0 <= k < j ==> {
                    &&& (#[trigger] fields@[k]).0@ == headers@[k]@
                    &&& fields@[k].1 is Str
                    &&& fields@[k].1->Str_0@ == csv_value(line@, k)
                },
        decreases headers@.len() - j,
    {
        let ghost cols = split_commas(line@);
        assert(texts(cells@).len() == cells@.len());
        assert(cols.map_values(|c: Seq<char>| csv_cell(c)).len() == cols.len());
        let v = if j < cells.len() {
            assert(texts(cells@)[j as int] == cells@[j as int]@);
            assert(cols.map_values(|c: Seq<char>| csv_cell(c))[j as int] == csv_cell(cols[j as int]));
            cells[j].clone()
        } else {
            String::new()
        };
        assert(v@ == csv_value(line@, j as int));
        let ghost before = fields@;
        fields.push((headers[j].clone(), Value::Str(v)));
        proof {
            assert forall|k: int| 0 <= k < j + 1 implies {
                &&& (#[trigger] fields@[k]).0@ == headers@[k]@
                &&& fields@[k].1 is Str
                &&& fields@[k].1->Str_0@ == csv_value(line@, k)
            } by {
                if k < j {
                    assert(fields@[k] == before[k]);
                }
            }
        }
        j += 1;
    }
    let r = Value::Object(fields);
    assert forall|k: int| 0 <= k < texts(headers@).len() implies texts(headers@)[k] == headers@[k]@ by {}
    r
}

/// The CSV reader: the first non-blank line names the columns (split at
/// commas, each trimmed and without byte-order marks); every later
/// non-blank line becomes one record mapping each column name to its cell,
/// a missing trailing cell being empty. All values are strings.
pub fn read_csv_to_records(content: &str) -> (r: Vec<Value>)
    ensures
        non_blank(lines_of(content@)).len() == 0 ==> r@.len() == 0,
        non_blank(lines_of(content@)).len() > 0 ==> {
            let ls = non_blank(lines_of(content@));
            &&& r@.len() == ls.len() - 1
            &&& forall|i: int|
                0 <= i < r@.len() ==> is_csv_record(#[trigger] r@[i], csv_header(ls[0]), ls[i + 1])
        },
{
    let ls = nonblank_lines(content);
    let mut out: Vec<Value> = Vec::new();
    if ls.len() == 0 {
        return out;
    }
    let hline = without_bom(&chars_of(ls[0].as_str()));
    let headers = csv_cells(&hline);
    let ghost hs = csv_header(texts(ls@)[0]);
    assert(texts(headers@) == hs);
    let mut i: usize = 1;
    while i < ls.len()
        invariant
            1 <= i <= ls@.len(),
            texts(headers@) == hs,
            out@.len() == i - 1,
            forall|k: int|
                0 <= k < out@.len() ==> is_csv_record(#[trigger] out@[k], hs, texts(ls@)[k + 1]),
        decreases ls@.len() - i,
    {
        let rec = csv_record(&headers, ls[i].as_str());
        assert(texts(ls@)[i as int] == ls@[i as int]@);
        out.push(rec);
        i += 1;
    }
    out
}

/// The cell of column `tf` in data line `line` under the names `hs`: the
/// last column of that name, if any.
pub open spec fn csv_field(hs: Seq<Seq<char>>, line: Seq<char>, tf: Seq<char>) -> Option<Seq<char>>
    decreases hs.len(),
{
    if hs.len() == 0 {
        None
    } else if hs.last() == tf {
        Some(csv_value(line, hs.len() - 1))
    } else {
        csv_field(hs.drop_last(), line, tf)
    }
}

/// What a CSV record holds at a field is what its line holds in the column
/// of that name.
pub proof fn lemma_csv_field(r: Value, hs: Seq<Seq<char>>, line: Seq<char>, tf: Seq<char>)
    requires
        is_csv_record(r, hs, line),
    ensures
        r.str_field(tf) == csv_field(hs, line, tf),
{
    if let Value::Object(fs) = r {
        lemma_csv_field_prefix(fs@, hs, line, tf, hs.len() as int);
        assert(fs@.take(hs.len() as int) =~= fs@);
        assert(hs.take(hs.len() as int) =~= hs);
    }
}

proof fn lemma_csv_field_prefix(fs: Seq<(String, Value)>, hs: Seq<Seq<char>>, line: Seq<char>, tf: Seq<char>, m: int)
    requires
        fs.len() == hs.len(),
        0 <= m <= hs.len(),
        forall|j: int|
            0 <= j < hs.len() ==> {
                &&& (#[trigger] fs[j]).0@ == hs[j]
                &&& fs[j].1 is Str
                &&& fs[j].1->Str_0@ == csv_value(line, j)
            },
    ensures
        match field_of(fs.take(m), tf) {
            Some(Value::Str(s)) => csv_field(hs.take(m), line, tf) == Some(s@),
            Some(_) => false,
            None => csv_field(hs.take(m), line, tf) is None,
        },
    decreases m,
{
    if m > 0 {
        lemma_csv_field_prefix(fs, hs, line, tf, m - 1);
        assert(fs.take(m).drop_last() =~= fs.take(m - 1));
        assert(hs.take(m).drop_last() =~= hs.take(m - 1));
        assert(fs[m - 1].0@ == hs[m - 1]);
    }
}

/// The data lines of a CSV text and its column names.
pub open spec fn csv_rows(content: Seq<char>) -> Seq<Seq<char>> {
    let ls = non_blank(lines_of(content));
    if ls.len() == 0 {
        Seq::empty()
    } else {
        ls.drop_first()
    }
}

pub open spec fn csv_names(content: Seq<char>) -> Seq<Seq<char>> {
    csv_header(non_blank(lines_of(content))[0])
}

} // verus!
