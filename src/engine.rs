//! Record operators: `reduce_by_key`, the word-count token stage, and the
//! in-memory word count.
use vstd::prelude::*;
use crate::counts::{add_entry, entry_for, has_key, represents, sum_for};
use crate::text::owned;
use crate::tokenize::{texts, tokenize, tokens};
use crate::value::{field_of, Value};

verus! {

/// The (key, value) pairs that `reduce_by_key` sums: one for each record
/// holding a string at `kf` and a non-negative integer at `vf`, in order.
pub open spec fn kv_pairs(recs: Seq<Value>, kf: Seq<char>, vf: Seq<char>) -> Seq<(Seq<char>, nat)>
    decreases recs.len(),
{
    if recs.len() == 0 {
        Seq::empty()
    } else {
        let rest = kv_pairs(recs.drop_last(), kf, vf);
        let r = recs.last();
        if r.str_field(kf) is Some && r.u64_field(vf) is Some {
            rest.push((r.str_field(kf)->0, r.u64_field(vf)->0 as nat))
        } else {
            rest
        }
    }
}

/// The sum of all values of `ps`.
pub open spec fn total(ps: Seq<(Seq<char>, nat)>) -> nat
    decreases ps.len(),
{
    if ps.len() == 0 {
        0
    } else {
        total(ps.drop_last()) + ps.last().1
    }
}

pub proof fn lemma_sum_le_total(ps: Seq<(Seq<char>, nat)>, k: Seq<char>)
    ensures
        sum_for(ps, k) <= total(ps),
    decreases ps.len(),
{
    if ps.len() > 0 {
        lemma_sum_le_total(ps.drop_last(), k);
    }
}

/// Every key's sum fits in `u64`.
pub open spec fn sums_fit(ps: Seq<(Seq<char>, nat)>) -> bool {
    forall|k: Seq<char>| #[trigger] sum_for(ps, k) <= u64::MAX
}

pub proof fn lemma_total_bounds_sums(ps: Seq<(Seq<char>, nat)>)
    requires
        total(ps) <= u64::MAX,
    ensures
        sums_fit(ps),
{
    assert forall|k: Seq<char>| #[trigger] sum_for(ps, k) <= u64::MAX by {
        lemma_sum_le_total(ps, k);
    }
}

pub proof fn lemma_kv_prefix_sum(recs: Seq<Value>, i: int, kf: Seq<char>, vf: Seq<char>, k: Seq<char>)
    requires
        0 <= i <= recs.len(),
    ensures
        sum_for(kv_pairs(recs.take(i), kf, vf), k) <= sum_for(kv_pairs(recs, kf, vf), k),
    decreases recs.len(),
{
    if i < recs.len() {
        assert(recs.drop_last().take(i) =~= recs.take(i));
        lemma_kv_prefix_sum(recs.drop_last(), i, kf, vf, k);
        let rest = kv_pairs(recs.drop_last(), kf, vf);
        let r = recs.last();
        if r.str_field(kf) is Some && r.u64_field(vf) is Some {
            let p = (r.str_field(kf)->0, r.u64_field(vf)->0 as nat);
            assert(rest.push(p).drop_last() =~= rest);
        }
    } else {
        assert(recs.take(i) =~= recs);
    }
}

pub proof fn lemma_kv_prefix(recs: Seq<Value>, i: int, kf: Seq<char>, vf: Seq<char>)
    requires
        0 <= i <= recs.len(),
    ensures
        total(kv_pairs(recs.take(i), kf, vf)) <= total(kv_pairs(recs, kf, vf)),
    decreases recs.len(),
{
    if i < recs.len() {
        assert(recs.drop_last().take(i) =~= recs.take(i));
        lemma_kv_prefix(recs.drop_last(), i, kf, vf);
        let rest = kv_pairs(recs.drop_last(), kf, vf);
        let r = recs.last();
        if r.str_field(kf) is Some && r.u64_field(vf) is Some {
            let p = (r.str_field(kf)->0, r.u64_field(vf)->0 as nat);
            assert(rest.push(p).drop_last() =~= rest);
        }
    } else {
        assert(recs.take(i) =~= recs);
    }
}

/// A field holds a string or an integer, not both: with one field for
/// key and value, no record gives a pair.
pub proof fn lemma_kv_same_field(recs: Seq<Value>, f: Seq<char>)
    ensures
        kv_pairs(recs, f, f) == Seq::<(Seq<char>, nat)>::empty(),
    decreases recs.len(),
{
    if recs.len() > 0 {
        lemma_kv_same_field(recs.drop_last(), f);
    }
}

/// The record `{kf: key, vf: value}`.
pub open spec fn is_kv_record(r: Value, kf: Seq<char>, vf: Seq<char>, key: Seq<char>, v: u64) -> bool {
    &&& r.str_field(kf) == Some(key)
    &&& r.u64_field(vf) == Some(v)
}

/// `r` holds, one record per key and sorted by key, the sum of every key
/// of `ps`: the result of `reduce_by_key` on `ps`.
pub open spec fn reduced(r: Seq<Value>, ps: Seq<(Seq<char>, nat)>, kf: Seq<char>, vf: Seq<char>) -> bool {
    exists|e: Seq<(String, u64)>|
        #[trigger] represents(e, ps) && e.len() == r.len() && forall|i: int|
            0 <= i < r.len() ==> #[trigger] is_kv_record(r[i], kf, vf, e[i].0@, e[i].1)
}

/// The key-sorted entries that `reduce_by_key` builds.
pub fn reduce_entries(input: &Vec<Value>, key_field: &str, value_field: &str) -> (e: Vec<
    (String, u64),
>)
    requires
        sums_fit(kv_pairs(input@, key_field@, value_field@)),
    ensures
        represents(e@, kv_pairs(input@, key_field@, value_field@)),
{
    let mut e: Vec<(String, u64)> = Vec::new();
    let mut i: usize = 0;
    proof {
        assert(input@.take(0) =~= Seq::<Value>::empty());
        assert forall|k: Seq<char>| #[trigger] entry_for(e@, k) <==> has_key(
            kv_pairs(input@.take(0), key_field@, value_field@),
            k,
        ) by {}
    }
    while i < input.len()
        invariant
            i <= input@.len(),
            sums_fit(kv_pairs(input@, key_field@, value_field@)),
            represents(e@, kv_pairs(input@.take(i as int), key_field@, value_field@)),
        decreases input@.len() - i,
    {
        let ghost ps = kv_pairs(input@.take(i as int), key_field@, value_field@);
        assert(input@.take(i + 1).drop_last() =~= input@.take(i as int));
        let rec = &input[i];
        match rec.get(key_field) {
            Some(Value::Str(k)) => match rec.get(value_field) {
                Some(Value::Int(v)) => {
                    proof {
                        let ps1 = kv_pairs(input@.take(i + 1), key_field@, value_field@);
                        assert(ps1 == ps.push((k@, *v as nat)));
                        assert(ps1.drop_last() =~= ps);
                        lemma_kv_prefix_sum(input@, i + 1, key_field@, value_field@, k@);
                        assert(sum_for(ps1, k@) <= u64::MAX);
                    }
                    add_entry(&mut e, k.clone(), *v, Ghost(ps));
                },
                _ => {},
            },
            _ => {},
        }
        i += 1;
    }
    assert(input@.take(input@.len() as int) =~= input@);
    e
}

/// The pair that `reduce_by_key` takes from `rec`: its string at
/// `key_field` and its non-negative integer at `value_field`.
pub fn kv_of(rec: &Value, key_field: &str, value_field: &str) -> (r: Option<(String, u64)>)
    ensures
        match r {
            Some(p) => rec.str_field(key_field@) == Some(p.0@) && rec.u64_field(value_field@)
                == Some(p.1),
            None => !(rec.str_field(key_field@) is Some && rec.u64_field(value_field@) is Some),
        },
{
    match rec.get(key_field) {
        Some(Value::Str(k)) => match rec.get(value_field) {
            Some(Value::Int(v)) => Some((k.clone(), *v)),
            _ => None,
        },
        _ => None,
    }
}

/// The record `{kf: key, vf: value}`.
pub fn kv_record(kf: &str, vf: &str, key: String, v: u64) -> (r: Value)
    ensures
        kf@ != vf@ ==> is_kv_record(r, kf@, vf@, key@, v),
        r is Object,
{
    let a = owned(kf);
    let b = owned(vf);
    let ghost ks = key@;
    let fields = vec![(a, Value::Str(key)), (b, Value::Int(v))];
    proof {
        let f = fields@;
        assert(f.len() == 2);
        assert(f.last() == f[1]);
        assert(f[1].0@ == vf@);
        assert(f[0].0@ == kf@);
        assert(f.drop_last() =~= seq![f[0]]);
        assert(seq![f[0]].drop_last() =~= Seq::<(String, Value)>::empty());
        assert(field_of(f, vf@) == Some(Value::Int(v)));
        if kf@ != vf@ {
            assert(field_of(f, kf@) == field_of(seq![f[0]], kf@));
            assert(seq![f[0]].last() == f[0]);
            assert(field_of(seq![f[0]], kf@) == Some(f[0].1));
        }
    }
    Value::Object(fields)
}

/// `reduce_by_key`: groups the records by the string at `key_field`, sums
/// the non-negative integers at `value_field`, and returns one record
/// `{key_field: key, value_field: sum}` per key, sorted by key. Records
/// without both fields, a non-string key or a non-integer value are skipped.
pub fn op_reduce_by_key(input: Vec<Value>, key_field: &str, value_field: &str) -> (r: Vec<Value>)
    requires
        sums_fit(kv_pairs(input@, key_field@, value_field@)),
    ensures
        reduced(r@, kv_pairs(input@, key_field@, value_field@), key_field@, value_field@),
        key_field@ == value_field@ ==> r@.len() == 0,
{
    proof {
        if key_field@ == value_field@ {
            lemma_kv_same_field(input@, key_field@);
        }
    }
    let e = reduce_entries(&input, key_field, value_field);
    let mut out: Vec<Value> = Vec::new();
    let mut i: usize = 0;
    while i < e.len()
        invariant
            i <= e@.len(),
            out@.len() == i,
            key_field@ != value_field@ ==> forall|j: int|
                0 <= j < i ==> #[trigger] is_kv_record(out@[j], key_field@, value_field@, e@[j].0@, e@[j].1),
        decreases e@.len() - i,
    {
        let k = e[i].0.clone();
        out.push(kv_record(key_field, value_field, k, e[i].1));
        i += 1;
    }
    proof {
        if key_field@ == value_field@ {
            if e@.len() > 0 {
                assert(entry_for(e@, e@[0].0@));
            }
        }
    }
    out
}

/// Each token counted once.
pub open spec fn ones(ts: Seq<Seq<char>>) -> Seq<(Seq<char>, nat)> {
    ts.map_values(|t: Seq<char>| (t, 1nat))
}

/// The tokens of the text field `tf` of each record, in order; records
/// without a string there give none.
pub open spec fn record_tokens(recs: Seq<Value>, tf: Seq<char>) -> Seq<Seq<char>>
    decreases recs.len(),
{
    if recs.len() == 0 {
        Seq::empty()
    } else {
        record_tokens(recs.drop_last(), tf) + match recs.last().str_field(tf) {
            Some(text) => tokens(text),
            None => Seq::empty(),
        }
    }
}

/// The tokens of each line, in order.
pub open spec fn line_tokens(lines: Seq<Seq<char>>) -> Seq<Seq<char>>
    decreases lines.len(),
{
    if lines.len() == 0 {
        Seq::empty()
    } else {
        line_tokens(lines.drop_last()) + tokens(lines.last())
    }
}

/// `r` holds the token records `{token: t, count: 1}` of `ts`.
pub open spec fn token_records(r: Seq<Value>, ts: Seq<Seq<char>>) -> bool {
    &&& r.len() == ts.len()
    &&& forall|i: int| 0 <= i < r.len() ==> #[trigger] is_kv_record(r[i], "token"@, "count"@, ts[i], 1)
}

pub proof fn lemma_token_pairs(r: Seq<Value>, ts: Seq<Seq<char>>)
    requires
        token_records(r, ts),
    ensures
        kv_pairs(r, "token"@, "count"@) == ones(ts),
        total(ones(ts)) == ts.len(),
    decreases r.len(),
{
    if r.len() == 0 {
        assert(ones(ts) =~= Seq::empty());
    } else {
        let k = r.len() - 1;
        assert(is_kv_record(r[k], "token"@, "count"@, ts[k], 1));
        assert(token_records(r.drop_last(), ts.drop_last())) by {
            assert forall|i: int| 0 <= i < r.drop_last().len() implies #[trigger] is_kv_record(
                r.drop_last()[i],
                "token"@,
                "count"@,
                ts.drop_last()[i],
                1,
            ) by {
                assert(is_kv_record(r[i], "token"@, "count"@, ts[i], 1));
            }
        }
        lemma_token_pairs(r.drop_last(), ts.drop_last());
        assert(ones(ts) =~= ones(ts.drop_last()).push((ts[k], 1nat)));
        assert(ones(ts).drop_last() =~= ones(ts.drop_last()));
    }
}

/// The token record `{token: t, count: 1}`.
pub fn token_record(t: String) -> (r: Value)
    ensures
        is_kv_record(r, "token"@, "count"@, t@, 1),
{
    proof {
        reveal_strlit("token");
        reveal_strlit("count");
        assert("token"@ != "count"@) by {
            assert("token"@[0] != "count"@[0]);
        }
    }
    kv_record("token", "count", t, 1)
}

/// Appends the token records of `text` to `out`.
pub(crate) fn push_token_records(out: &mut Vec<Value>, text: &str, Ghost(ts): Ghost<Seq<Seq<char>>>)
    requires
        token_records(old(out)@, ts),
    ensures
        token_records(final(out)@, ts + tokens(text@)),
{
    let toks = tokenize(text);
    let mut j: usize = 0;
    while j < toks.len()
        invariant
            j <= toks@.len(),
            texts(toks@) == tokens(text@),
            token_records(out@, ts + texts(toks@).take(j as int)),
        decreases toks@.len() - j,
    {
        let t = toks[j].clone();
        let ghost before = out@;
        out.push(token_record(t));
        proof {
            let ts1 = ts + texts(toks@).take(j + 1);
            assert(ts1 =~= (ts + texts(toks@).take(j as int)).push(toks@[j as int]@));
            assert forall|i: int| 0 <= i < out@.len() implies #[trigger] is_kv_record(
                out@[i],
                "token"@,
                "count"@,
                ts1[i],
                1,
            ) by {
                if i < before.len() {
                    assert(out@[i] == before[i]);
                }
            }
        }
        j += 1;
    }
    assert(texts(toks@).take(toks@.len() as int) =~= texts(toks@));
}

/// The first word-count stage over records: `{token, count: 1}` for every
/// token of the string at `text_field` of each record, in order.
pub fn wc_stage1_from_records(input: Vec<Value>, text_field: &str) -> (r: Vec<Value>)
    ensures
        token_records(r@, record_tokens(input@, text_field@)),
{
    let mut out: Vec<Value> = Vec::new();
    let mut i: usize = 0;
    assert(input@.take(0) =~= Seq::<Value>::empty());
    while i < input.len()
        invariant
            i <= input@.len(),
            token_records(out@, record_tokens(input@.take(i as int), text_field@)),
        decreases input@.len() - i,
    {
        assert(input@.take(i + 1).drop_last() =~= input@.take(i as int));
        let ghost ts = record_tokens(input@.take(i as int), text_field@);
        match input[i].get(text_field) {
            Some(Value::Str(text)) => {
                push_token_records(&mut out, text.as_str(), Ghost(ts));
            },
            _ => {
                assert(ts + Seq::<Seq<char>>::empty() =~= ts);
            },
        }
        i += 1;
    }
    assert(input@.take(input@.len() as int) =~= input@);
    out
}

/// The first word-count stage over lines of text.
pub fn wc_stage1_make_token_records(lines: Vec<&str>) -> (r: Vec<Value>)
    ensures
        token_records(r@, line_tokens(lines@.map_values(|l: &str| l@))),
{
    let ghost ls = lines@.map_values(|l: &str| l@);
    let mut out: Vec<Value> = Vec::new();
    let mut i: usize = 0;
    assert(ls.take(0) =~= Seq::<Seq<char>>::empty());
    while i < lines.len()
        invariant
            i <= lines@.len(),
            ls == lines@.map_values(|l: &str| l@),
            token_records(out@, line_tokens(ls.take(i as int))),
        decreases lines@.len() - i,
    {
        assert(ls.take(i + 1).drop_last() =~= ls.take(i as int));
        push_token_records(&mut out, lines[i], Ghost(line_tokens(ls.take(i as int))));
        i += 1;
    }
    assert(ls.take(ls.len() as int) =~= ls);
    out
}

/// Word count over lines of text: the tokens of all lines, counted, as
/// `{token, count}` records sorted by token.
pub fn wordcount_from_lines(lines: Vec<&str>) -> (r: Vec<Value>)
    ensures
        reduced(r@, ones(line_tokens(lines@.map_values(|l: &str| l@))), "token"@, "count"@),
{
    let recs = wc_stage1_make_token_records(lines);
    let n = recs.len();
    proof {
        assert(n as nat <= u64::MAX);
        lemma_token_pairs(recs@, line_tokens(lines@.map_values(|l: &str| l@)));
        reveal_strlit("token");
        reveal_strlit("count");
        assert("token"@[0] != "count"@[0]);
    }
    proof {
        lemma_total_bounds_sums(kv_pairs(recs@, "token"@, "count"@));
    }
    op_reduce_by_key(recs, "token", "count")
}

/// The tokens of the `text` field of `r`.
pub open spec fn rec_tokens(r: Value) -> Seq<Seq<char>> {
    match r.str_field("text"@) {
        Some(t) => tokens(t),
        None => Seq::empty(),
    }
}

/// The record `{text: line}`.
pub fn wc_map_line_to_record(line: &str) -> (r: Value)
    ensures
        crate::readers::is_text_record(r, line@),
{
    let fields = vec![(owned("text"), Value::Str(owned(line)))];
    proof {
        assert(fields@.drop_last() =~= Seq::<(String, Value)>::empty());
        assert(fields@.last().0@ == "text"@);
    }
    Value::Object(fields)
}

/// The token records `{token, count: 1}` of the `text` field of `rec`.
pub fn wc_flat_map_tokenize(rec: &Value) -> (r: Vec<Value>)
    ensures
        token_records(r@, rec_tokens(*rec)),
{
    let mut out: Vec<Value> = Vec::new();
    match rec.get("text") {
        Some(Value::Str(text)) => {
            push_token_records(&mut out, text.as_str(), Ghost(Seq::empty()));
            assert(Seq::<Seq<char>>::empty() + tokens(text@) =~= tokens(text@));
        },
        _ => {},
    }
    out
}

/// Whether `rec` holds a non-blank string at `token`.
pub fn wc_filter_nonempty(rec: &Value) -> (r: bool)
    ensures
        r == (rec.str_field("token"@) is Some && !crate::readers::is_blank(
            rec.str_field("token"@)->0,
        )),
{
    match rec.get("token") {
        Some(Value::Str(t)) => !crate::readers::blank(t.as_str()),
        _ => false,
    }
}

proof fn lemma_token_records_concat(a: Seq<Value>, ta: Seq<Seq<char>>, b: Seq<Value>, tb: Seq<Seq<char>>)
    requires
        token_records(a, ta),
        token_records(b, tb),
    ensures
        token_records(a + b, ta + tb),
{
    assert forall|i: int| 0 <= i < (a + b).len() implies #[trigger] is_kv_record(
        (a + b)[i],
        "token"@,
        "count"@,
        (ta + tb)[i],
        1,
    ) by {
        if i < a.len() {
            assert(is_kv_record(a[i], "token"@, "count"@, ta[i], 1));
        } else {
            assert(is_kv_record(b[i - a.len()], "token"@, "count"@, tb[i - a.len()], 1));
        }
    }
}

proof fn lemma_flat_tokens(recs: Seq<Value>, ls: Seq<Seq<char>>, outs: Seq<Vec<Value>>)
    requires
        recs.len() == ls.len(),
        outs.len() == recs.len(),
        forall|i: int| 0 <= i < recs.len() ==> crate::readers::is_text_record(#[trigger] recs[i], ls[i]),
        forall|i: int| 0 <= i < outs.len() ==> token_records((#[trigger] outs[i])@, rec_tokens(recs[i])),
    ensures
        token_records(crate::ops::concat_all(outs), line_tokens(ls)),
    decreases outs.len(),
{
    if outs.len() > 0 {
        let k = outs.len() - 1;
        assert(crate::readers::is_text_record(recs[k], ls[k]));
        assert(token_records(outs[k]@, rec_tokens(recs[k])));
        lemma_flat_tokens(recs.drop_last(), ls.drop_last(), outs.drop_last());
        lemma_token_records_concat(
            crate::ops::concat_all(outs.drop_last()),
            line_tokens(ls.drop_last()),
            outs[k]@,
            tokens(ls[k]),
        );
    } else {
        assert(token_records(Seq::<Value>::empty(), Seq::<Seq<char>>::empty()));
    }
}

proof fn lemma_select_tokens(r: Seq<Value>, ts: Seq<Seq<char>>, keep: Seq<bool>)
    requires
        token_records(r, ts),
        keep.len() == r.len(),
        forall|i: int| 0 <= i < keep.len() ==> #[trigger] keep[i] == !crate::readers::is_blank(ts[i]),
    ensures
        token_records(crate::ops::select(r, keep), crate::readers::non_blank(ts)),
    decreases r.len(),
{
    if r.len() > 0 {
        let k = r.len() - 1;
        assert(keep[k] == !crate::readers::is_blank(ts[k]));
        assert(is_kv_record(r[k], "token"@, "count"@, ts[k], 1));
        lemma_select_tokens(r.drop_last(), ts.drop_last(), keep.drop_last());
        if keep[k] {
            lemma_token_records_concat(
                crate::ops::select(r.drop_last(), keep.drop_last()),
                crate::readers::non_blank(ts.drop_last()),
                seq![r[k]],
                seq![ts[k]],
            );
            assert(crate::ops::select(r.drop_last(), keep.drop_last()) + seq![r[k]] =~= crate::ops::select(
                r.drop_last(),
                keep.drop_last(),
            ).push(r[k]));
            assert(crate::readers::non_blank(ts.drop_last()) + seq![ts[k]] =~= crate::readers::non_blank(
                ts.drop_last(),
            ).push(ts[k]));
        }
    }
}

/// Word count through the generic operators: lines to `{text}` records,
/// `flat_map` to token records, `filter` to non-blank tokens, then
/// `reduce_by_key` on `token` and `count`.
pub fn wordcount_from_lines_with_operators(lines: Vec<&str>) -> (r: Vec<Value>)
    ensures
        reduced(
            r@,
            ones(crate::readers::non_blank(line_tokens(lines@.map_values(|l: &str| l@)))),
            "token"@,
            "count"@,
        ),
{
    let ghost ls = lines@.map_values(|l: &str| l@);
    let mut recs0: Vec<Value> = Vec::new();
    let mut i: usize = 0;
    while i < lines.len()
        invariant
            i <= lines@.len(),
            ls == lines@.map_values(|l: &str| l@),
            recs0@.len() == i,
            forall|k: int| 0 <= k < i ==> crate::readers::is_text_record(#[trigger] recs0@[k], ls[k]),
        decreases lines@.len() - i,
    {
        recs0.push(wc_map_line_to_record(lines[i]));
        i += 1;
    }
    let ghost r0 = recs0@;
    let flat = crate::ops::op_flat_map(recs0, wc_flat_map_tokenize);
    let ghost ts = line_tokens(ls);
    proof {
        let outs = choose|outs: Seq<Vec<Value>>|
            outs.len() == r0.len() && (forall|i: int|
                0 <= i < r0.len() ==> call_ensures(wc_flat_map_tokenize, (&r0[i],), #[trigger] outs[i]))
                && flat@ == crate::ops::concat_all(outs);
        assert forall|i: int| 0 <= i < outs.len() implies token_records((#[trigger] outs[i])@, rec_tokens(r0[i])) by {
            assert(call_ensures(wc_flat_map_tokenize, (&r0[i],), outs[i]));
        }
        lemma_flat_tokens(r0, ls, outs);
    }
    let ghost f0 = flat@;
    let kept = crate::ops::op_filter(flat, wc_filter_nonempty);
    proof {
        let keep = choose|keep: Seq<bool>|
            keep.len() == f0.len() && (forall|i: int|
                0 <= i < f0.len() ==> call_ensures(wc_filter_nonempty, (&f0[i],), #[trigger] keep[i]))
                && kept@ == crate::ops::select(f0, keep);
        assert forall|i: int| 0 <= i < keep.len() implies #[trigger] keep[i] == !crate::readers::is_blank(ts[i]) by {
            assert(call_ensures(wc_filter_nonempty, (&f0[i],), keep[i]));
            assert(is_kv_record(f0[i], "token"@, "count"@, ts[i], 1));
        }
        lemma_select_tokens(f0, ts, keep);
    }
    let n = kept.len();
    proof {
        lemma_token_pairs(kept@, crate::readers::non_blank(ts));
        assert(n as nat <= u64::MAX);
        reveal_strlit("token");
        reveal_strlit("count");
        assert("token"@[0] != "count"@[0]);
    }
    proof {
        lemma_total_bounds_sums(kv_pairs(kept@, "token"@, "count"@));
    }
    op_reduce_by_key(kept, "token", "count")
}

} // verus!
