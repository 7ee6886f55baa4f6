//! The word-count pipeline of one input: token records, the hash shuffle
//! into partitions, and the reduction of every partition through the
//! aggregator into the two-column text.
use vstd::prelude::*;
use crate::aggregate::{SpillingAggregator, DEFAULT_MAX_IN_MEM_KEYS};
use crate::counts::{reduction, represents, two_column, lemma_reduction, entry_pairs};
use crate::engine::{
    kv_pairs, lemma_kv_prefix, lemma_token_pairs, ones, record_tokens, total,
    wc_stage1_from_records,
};
use crate::readers::{
    csv_field, csv_names, csv_rows, is_csv_record, lemma_csv_field, lines_of, non_blank, non_empty,
    read_csv_to_records, read_text_to_records, split_lines,
};
use crate::tokenize::tokens;
use crate::shuffle::{
    flat_parts, lemma_bucket_pairs, lemma_flat_total, lemma_shuffle_preserves_sums,
    partition_records, part_pairs,
};
use crate::value::Value;

verus! {

/// The two-column word count of the tokens `ts`: each token once, sorted,
/// with the number of its occurrences.
pub open spec fn wordcount_output(ts: Seq<Seq<char>>) -> Seq<char> {
    two_column(reduction(ones(ts)))
}

/// Word count of the text field `text_field` of `recs` through a hash
/// shuffle into `num_partitions` partitions (at least one), reduced
/// partition by partition.
pub fn wordcount_records_shuffled(recs: Vec<Value>, text_field: &str, num_partitions: u32) -> (r: String)
    ensures
        r@ == wordcount_output(record_tokens(recs@, text_field@)),
{
    let ghost ts = record_tokens(recs@, text_field@);
    let toks = wc_stage1_from_records(recs, text_field);
    let n: u32 = if num_partitions == 0 {
        1
    } else {
        num_partitions
    };
    let ghost ps = kv_pairs(toks@, "token"@, "count"@);
    let len = toks.len();
    proof {
        lemma_token_pairs(toks@, ts);
        assert(total(ps) == len);
    }
    let buckets = partition_records(toks, "token", n);
    let mut agg = SpillingAggregator::new("", DEFAULT_MAX_IN_MEM_KEYS, 0);
    proof {
        reveal_strlit("");
        assert(flat_parts(ps, n, 0) =~= Seq::<(Seq<char>, nat)>::empty());
    }
    let mut p: usize = 0;
    while p < buckets.len()
        invariant
            buckets@.len() == n,
            n > 0,
            p <= n,
            agg.wf(),
            agg.dir@.len() == 0,
            agg.batches@.len() == 0,
            agg.added@ == flat_parts(ps, n, p as nat),
            total(ps) == len,
            len <= u64::MAX,
            forall|q: int|
                0 <= q < n ==> (#[trigger] buckets@[q])@ == crate::shuffle::bucket(
                    toks@,
                    "token"@,
                    n,
                    q as nat,
                ),
            ps == kv_pairs(toks@, "token"@, "count"@),
        decreases n - p,
    {
        let b = &buckets[p];
        let ghost base = flat_parts(ps, n, p as nat);
        proof {
            lemma_bucket_pairs(toks@, "token"@, "count"@, n, p as nat);
            lemma_flat_total(ps, n, (p + 1) as nat);
            crate::shuffle::lemma_total_concat(base, part_pairs(ps, n, p as nat));
            assert(b@.take(0) =~= Seq::<Value>::empty());
            assert(base + Seq::<(Seq<char>, nat)>::empty() =~= base);
        }
        let mut j: usize = 0;
        while j < b.len()
            invariant
                j <= b@.len(),
                agg.wf(),
                agg.dir@.len() == 0,
                agg.batches@.len() == 0,
                agg.added@ == base + kv_pairs(b@.take(j as int), "token"@, "count"@),
                kv_pairs(b@, "token"@, "count"@) == part_pairs(ps, n, p as nat),
                total(base) + total(part_pairs(ps, n, p as nat)) <= len,
                len <= u64::MAX,
            decreases b@.len() - j,
        {
            let ghost pre = kv_pairs(b@.take(j as int), "token"@, "count"@);
            assert(b@.take(j + 1).drop_last() =~= b@.take(j as int));
            match b[j].get("token") {
                Some(Value::Str(k)) => match b[j].get("count") {
                    Some(Value::Int(v)) => {
                        proof {
                            let post = kv_pairs(b@.take(j + 1), "token"@, "count"@);
                            assert(post == pre.push((k@, *v as nat)));
                            lemma_kv_prefix(b@, j + 1, "token"@, "count"@);
                            crate::shuffle::lemma_total_concat(base, pre);
                            assert(post.drop_last() =~= pre);
                        }
                        proof {
                            crate::engine::lemma_sum_le_total(agg.added@, k@);
                        }
                        let _ = agg.add(k.as_str(), *v);
                        proof {
                            assert(agg.added@ =~= base + kv_pairs(b@.take(j + 1), "token"@, "count"@));
                        }
                    },
                    _ => {},
                },
                _ => {},
            }
            j += 1;
        }
        proof {
            assert(b@.take(b@.len() as int) =~= b@);
        }
        p += 1;
    }
    let spilled: Vec<Vec<(String, u64)>> = Vec::new();
    let out = agg.finalize(&spilled);
    proof {
        let e = choose|e: Seq<(String, u64)>|
            represents(e, agg.added@) && out@ == two_column(entry_pairs(e));
        lemma_shuffle_preserves_sums(e, ps, n);
        lemma_reduction(e, ps);
    }
    out
}

/// The tokens of column `tf` of each data line of a CSV text.
pub open spec fn csv_tokens(hs: Seq<Seq<char>>, rows: Seq<Seq<char>>, tf: Seq<char>) -> Seq<Seq<char>>
    decreases rows.len(),
{
    if rows.len() == 0 {
        Seq::empty()
    } else {
        csv_tokens(hs, rows.drop_last(), tf) + match csv_field(hs, rows.last(), tf) {
            Some(t) => tokens(t),
            None => Seq::empty(),
        }
    }
}

proof fn lemma_csv_tokens(recs: Seq<Value>, hs: Seq<Seq<char>>, rows: Seq<Seq<char>>, tf: Seq<char>)
    requires
        recs.len() == rows.len(),
        forall|i: int| 0 <= i < recs.len() ==> is_csv_record(#[trigger] recs[i], hs, rows[i]),
    ensures
        record_tokens(recs, tf) == csv_tokens(hs, rows, tf),
    decreases recs.len(),
{
    if recs.len() > 0 {
        let k = recs.len() - 1;
        assert(is_csv_record(recs[k], hs, rows[k]));
        lemma_csv_field(recs[k], hs, rows[k], tf);
        assert forall|i: int| 0 <= i < recs.drop_last().len() implies is_csv_record(
            #[trigger] recs.drop_last()[i],
            hs,
            rows.drop_last()[i],
        ) by {
            assert(is_csv_record(recs[i], hs, rows[i]));
        }
        lemma_csv_tokens(recs.drop_last(), hs, rows.drop_last(), tf);
    }
}

/// Word count of a CSV text (see [`read_csv_to_records`]) whose column
/// `text_field` holds the text.
pub fn wordcount_csv_file_shuffled_local(content: &str, text_field: &str, num_partitions: u32) -> (r: String)
    ensures
        r@ == wordcount_output(csv_tokens(csv_names(content@), csv_rows(content@), text_field@)),
{
    let recs = read_csv_to_records(content);
    proof {
        let ls = non_blank(lines_of(content@));
        if ls.len() > 0 {
            assert forall|i: int| 0 <= i < recs@.len() implies is_csv_record(
                #[trigger] recs@[i],
                csv_names(content@),
                csv_rows(content@)[i],
            ) by {
                assert(csv_rows(content@)[i] == ls[i + 1]);
            }
            lemma_csv_tokens(recs@, csv_names(content@), csv_rows(content@), text_field@);
        } else {
            assert(csv_rows(content@).len() == 0);
            assert(recs@.len() == 0);
            lemma_csv_tokens(recs@, csv_names(content@), csv_rows(content@), text_field@);
        }
    }
    wordcount_records_shuffled(recs, text_field, num_partitions)
}

/// Word count of JSON-lines records, already decoded, whose field
/// `text_field` holds the text.
pub fn wordcount_jsonl_file_shuffled_local(records: Vec<Value>, text_field: &str, num_partitions: u32) -> (r: String)
    ensures
        r@ == wordcount_output(record_tokens(records@, text_field@)),
{
    wordcount_records_shuffled(records, text_field, num_partitions)
}

/// The tokens of each non-empty line of a text, in order.
pub open spec fn text_tokens(content: Seq<char>) -> Seq<Seq<char>> {
    crate::engine::line_tokens(non_empty(lines_of(content)))
}

proof fn lemma_text_tokens(recs: Seq<Value>, ls: Seq<Seq<char>>)
    requires
        recs.len() == ls.len(),
        forall|i: int| 0 <= i < recs.len() ==> crate::readers::is_text_record(#[trigger] recs[i], ls[i]),
    ensures
        record_tokens(recs, "text"@) == crate::engine::line_tokens(ls),
    decreases recs.len(),
{
    if recs.len() > 0 {
        let k = recs.len() - 1;
        assert(crate::readers::is_text_record(recs[k], ls[k]));
        assert forall|i: int| 0 <= i < recs.drop_last().len() implies crate::readers::is_text_record(
            #[trigger] recs.drop_last()[i],
            ls.drop_last()[i],
        ) by {
            assert(crate::readers::is_text_record(recs[i], ls[i]));
        }
        lemma_text_tokens(recs.drop_last(), ls.drop_last());
    }
}

/// Word count of a plain text, one record per non-empty line.
pub fn wordcount_file_shuffled_local(content: &str, num_partitions: u32) -> (r: String)
    ensures
        r@ == wordcount_output(text_tokens(content@)),
{
    let recs = read_text_to_records(content);
    proof {
        lemma_text_tokens(recs@, non_empty(lines_of(content@)));
        reveal_strlit("text");
    }
    wordcount_records_shuffled(recs, "text", num_partitions)
}

/// The tokens of every line of a text, in order.
pub open spec fn all_line_tokens(content: Seq<char>) -> Seq<Seq<char>> {
    crate::engine::line_tokens(lines_of(content))
}

/// Single-pass word count of a text: every token of every line counted,
/// sorted, as two-column text.
pub fn wordcount_file(content: &str) -> (r: String)
    ensures
        r@ == wordcount_output(all_line_tokens(content@)),
{
    let ls = split_lines(content);
    let ghost lv = crate::tokenize::texts(ls@);
    let mut toks: Vec<Value> = Vec::new();
    let mut i: usize = 0;
    assert(lv.take(0) =~= Seq::<Seq<char>>::empty());
    while i < ls.len()
        invariant
            i <= ls@.len(),
            lv == crate::tokenize::texts(ls@),
            crate::engine::token_records(toks@, crate::engine::line_tokens(lv.take(i as int))),
        decreases ls@.len() - i,
    {
        assert(lv.take(i + 1).drop_last() =~= lv.take(i as int));
        assert(lv.take(i + 1).last() == ls@[i as int]@);
        crate::engine::push_token_records(&mut toks, ls[i].as_str(), Ghost(crate::engine::line_tokens(lv.take(i as int))));
        i += 1;
    }
    assert(lv.take(lv.len() as int) =~= lv);
    let ghost ts = crate::engine::line_tokens(lv);
    let n = toks.len();
    proof {
        lemma_token_pairs(toks@, ts);
        reveal_strlit("token");
        reveal_strlit("count");
    }
    proof {
        crate::engine::lemma_total_bounds_sums(kv_pairs(toks@, "token"@, "count"@));
    }
    let e = crate::engine::reduce_entries(&toks, "token", "count");
    proof {
        lemma_reduction(e@, ones(ts));
    }
    crate::counts::two_column_text(&e)
}

} // verus!
