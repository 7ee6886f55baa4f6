//! Laws that relate several operations, stated over the specifications the
//! operations' contracts use.
use vstd::prelude::*;
use crate::counts::{entry_for, entry_pairs, has_key, lemma_reduction, lex_lt, reduction, represents, two_column};
use crate::engine::{is_kv_record, reduced};
use crate::job::{JobInfo, JobStatus};
use crate::master::{can_retry, inflight_of, job_failed, load_of, next_attempt, queued_of, AppState, MAX_TASK_ATTEMPTS};
use crate::readers::is_csv_record;
use crate::task::Task;
use crate::value::{field_names, Value};
use crate::wordcount::{text_tokens, wordcount_output};

verus! {

/// Every task of a job is accounted for exactly once: queued, in flight,
/// completed or failed.
pub proof fn lemma_task_accounting(s: AppState, i: int)
    requires
        s.wf(),
        0 <= i < s.jobs@.len(),
    ensures
        queued_of(s.tasks_queue@, s.jobs@[i].id@) + inflight_of(s.in_flight@, s.jobs@[i].id@)
            + s.jobs@[i].completed_tasks + s.jobs@[i].failed_tasks == s.jobs@[i].total_tasks,
        s.jobs@[i].completed_tasks + s.jobs@[i].failed_tasks <= s.jobs@[i].total_tasks,
{
    assert(s.balanced(s.jobs@[i]));
}

/// No registered worker has more tasks in flight than its cap.
pub proof fn lemma_worker_cap(s: AppState, i: int)
    requires
        s.wf(),
        0 <= i < s.workers@.len(),
    ensures
        load_of(s.in_flight@, s.workers@[i].0@) <= s.workers@[i].1.max_concurrency,
{
    assert(s.within_cap(s.workers@[i]));
}

/// The result of `reduce_by_key` is sorted by key, each key at most once.
pub proof fn lemma_reduce_sorted_unique(r: Seq<Value>, ps: Seq<(Seq<char>, nat)>, kf: Seq<char>, vf: Seq<char>)
    requires
        reduced(r, ps, kf, vf),
    ensures
        forall|i: int, j: int|
            #![trigger r[i], r[j]]
            0 <= i < j < r.len() ==> lex_lt(r[i].str_field(kf)->0, r[j].str_field(kf)->0)
                && r[i].str_field(kf) != r[j].str_field(kf),
{
    let e = choose|e: Seq<(String, u64)>|
        #[trigger] represents(e, ps) && e.len() == r.len() && forall|i: int|
            0 <= i < r.len() ==> #[trigger] is_kv_record(r[i], kf, vf, e[i].0@, e[i].1);
    assert forall|i: int, j: int| #![trigger r[i], r[j]] 0 <= i < j < r.len() implies lex_lt(
        r[i].str_field(kf)->0,
        r[j].str_field(kf)->0,
    ) && r[i].str_field(kf) != r[j].str_field(kf) by {
        assert(is_kv_record(r[i], kf, vf, e[i].0@, e[i].1));
        assert(is_kv_record(r[j], kf, vf, e[j].0@, e[j].1));
        assert(lex_lt(e[i].0@, e[j].0@));
        crate::counts::lemma_lex_irreflexive(e[i].0@);
    }
}

/// Spilling does not change the result: entries that any one-pass
/// reduction of the pairs `ps` builds give the text that the aggregator
/// gives for the same pairs, whatever its threshold.
pub proof fn lemma_spill_independent(e: Seq<(String, u64)>, ps: Seq<(Seq<char>, nat)>)
    requires
        represents(e, ps),
    ensures
        two_column(entry_pairs(e)) == two_column(reduction(ps)),
{
    lemma_reduction(e, ps);
}

/// Word count is deterministic: equal token sequences give the same
/// output text, whatever partition count the runs used.
pub proof fn lemma_wordcount_deterministic(a: Seq<Seq<char>>, b: Seq<Seq<char>>)
    requires
        a == b,
    ensures
        wordcount_output(a) == wordcount_output(b),
{
}

/// With nothing added, the reduction, and so the two-column text, is empty.
pub proof fn lemma_nothing_reduces_to_nothing()
    ensures
        reduction(Seq::<(Seq<char>, nat)>::empty()) == Seq::<(Seq<char>, nat)>::empty(),
        two_column(reduction(Seq::<(Seq<char>, nat)>::empty())) == Seq::<char>::empty(),
{
    let e = Seq::<(String, u64)>::empty();
    let ps = Seq::<(Seq<char>, nat)>::empty();
    assert forall|k: Seq<char>| #[trigger] entry_for(e, k) <==> has_key(ps, k) by {}
    lemma_reduction(e, ps);
    assert(entry_pairs(e) =~= ps);
}

/// An empty input text counts no word: its output is empty.
pub proof fn lemma_empty_input_empty_output()
    ensures
        wordcount_output(text_tokens(Seq::<char>::empty())) == Seq::<char>::empty(),
{
    let t = text_tokens(Seq::<char>::empty());
    assert(crate::readers::lines_of(Seq::<char>::empty()) =~= Seq::<Seq<char>>::empty());
    assert(crate::readers::non_empty(Seq::<Seq<char>>::empty()) =~= Seq::<Seq<char>>::empty());
    assert(t =~= Seq::<Seq<char>>::empty());
    assert(crate::engine::ones(t) =~= Seq::<(Seq<char>, nat)>::empty());
    lemma_nothing_reduces_to_nothing();
}

/// Every record of a CSV text has exactly the header's column names.
pub proof fn lemma_csv_field_names(r: Value, hs: Seq<Seq<char>>, line: Seq<char>)
    requires
        is_csv_record(r, hs, line),
    ensures
        r is Object && field_names(r->Object_0@) == hs.to_set(),
{
    if let Value::Object(fs) = r {
        assert forall|k: Seq<char>| field_names(fs@).contains(k) <==> hs.to_set().contains(k) by {
            if field_names(fs@).contains(k) {
                let i = choose|i: int| 0 <= i < fs@.len() && fs@[i].0@ == k;
                assert(hs[i] == k);
            }
            if hs.to_set().contains(k) {
                let i = choose|i: int| 0 <= i < hs.len() && hs[i] == k;
                assert(fs@[i].0@ == k);
            }
        }
        assert(field_names(fs@) =~= hs.to_set());
    }
}

/// The retry boundary: a task runs at most `MAX_TASK_ATTEMPTS` times. One
/// failing at attempt `MAX_TASK_ATTEMPTS - 1` (or later) is not queued
/// again and fails its job, with `finished_at` set; one failing earlier is
/// queued again with the next attempt.
pub proof fn lemma_retry_boundary(t: Task, j: JobInfo, now: u64)
    requires
        j.failed_tasks < u32::MAX,
    ensures
        t.attempt >= MAX_TASK_ATTEMPTS - 1 ==> !can_retry(t) && job_failed(j, now).status
            == JobStatus::Failed && job_failed(j, now).finished_at == Some(now)
            && job_failed(j, now).failed_tasks == j.failed_tasks + 1,
        t.attempt < MAX_TASK_ATTEMPTS - 1 ==> can_retry(t) && next_attempt(t).attempt == t.attempt
            + 1,
{
}

} // verus!
