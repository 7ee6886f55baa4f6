//! A worker's active task: the word count of one input, advanced a quantum
//! of tokens at a time so that several tasks can share a worker in turns.
use vstd::prelude::*;
use crate::counts::{add_entry, entry_for, has_key, lemma_reduction, represents, two_column_text};
use crate::dag::Dag;
use crate::engine::{is_kv_record, lemma_sum_le_total, ones, record_tokens, token_records, total, wc_stage1_from_records};
use crate::task::Task;
use crate::value::Value;
use crate::wordcount::wordcount_output;

verus! {

pub proof fn lemma_total_ones(ts: Seq<Seq<char>>)
    ensures
        total(ones(ts)) == ts.len(),
    decreases ts.len(),
{
    if ts.len() > 0 {
        lemma_total_ones(ts.drop_last());
        assert(ones(ts).drop_last() =~= ones(ts.drop_last()));
    }
}

/// The resumable word count of one input.
pub struct WordcountTaskState {
    /// The token records `{token, count: 1}` of the input, in order.
    pub tokens: Vec<Value>,
    /// How many token records are counted.
    pub next: usize,
    /// The counts so far, sorted by token.
    pub counts: Vec<(String, u64)>,
    /// The tokens of the input.
    pub source: Ghost<Seq<Seq<char>>>,
}

impl WordcountTaskState {
    pub open spec fn wf(self) -> bool {
        &&& token_records(self.tokens@, self.source@)
        &&& self.next <= self.tokens@.len()
        &&& represents(self.counts@, ones(self.source@.take(self.next as int)))
    }

    /// The state before any step, over the records of the input whose
    /// `text` field holds the text.
    pub fn new(records: Vec<Value>) -> (r: WordcountTaskState)
        ensures
            r.wf(),
            r.next == 0,
            r.source@ == record_tokens(records@, "text"@),
    {
        let ghost ts = record_tokens(records@, "text"@);
        let tokens = wc_stage1_from_records(records, "text");
        let r = WordcountTaskState { tokens, next: 0, counts: Vec::new(), source: Ghost(ts) };
        proof {
            assert(ones(ts.take(0)) =~= Seq::<(Seq<char>, nat)>::empty());
            assert forall|k: Seq<char>| #[trigger] entry_for(r.counts@, k) <==> has_key(
                ones(ts.take(0)),
                k,
            ) by {}
        }
        r
    }

    /// Counts up to `quantum` more tokens; true once every token is counted.
    pub fn step(&mut self, quantum: usize) -> (done: bool)
        requires
            old(self).wf(),
        ensures
            final(self).wf(),
            final(self).tokens == old(self).tokens,
            final(self).source == old(self).source,
            final(self).next == if old(self).next + quantum < old(self).tokens@.len() {
                old(self).next + quantum
            } else {
                old(self).tokens@.len() as int
            },
            done == (final(self).next == final(self).tokens@.len()),
    {
        let ghost ts = self.source@;
        let end: usize = if quantum < self.tokens.len() - self.next {
            self.next + quantum
        } else {
            self.tokens.len()
        };
        while self.next < end
            invariant
                self.wf(),
                self.source@ == ts,
                self.tokens == old(self).tokens,
                old(self).next <= self.next <= end,
                end <= self.tokens@.len(),
            decreases end - self.next,
        {
            let i = self.next;
            let ghost pre = ones(ts.take(i as int));
            proof {
                assert(is_kv_record(self.tokens@[i as int], "token"@, "count"@, ts[i as int], 1));
                assert(ones(ts.take(i + 1)) =~= pre.push((ts[i as int], 1nat)));
                lemma_sum_le_total(pre, ts[i as int]);
                lemma_total_ones(ts.take(i as int));
            }
            match self.tokens[i].get("token") {
                Some(Value::Str(t)) => {
                    let t = t.clone();
                    add_entry(&mut self.counts, t, 1, Ghost(pre));
                },
                _ => {},
            }
            self.next = i + 1;
        }
        self.next == self.tokens.len()
    }

    /// The two-column word count, once every token is counted.
    pub fn output(&self) -> (r: String)
        requires
            self.wf(),
            self.next == self.tokens@.len(),
        ensures
            r@ == wordcount_output(self.source@),
    {
        proof {
            assert(self.source@.take(self.next as int) =~= self.source@);
            lemma_reduction(self.counts@, ones(self.source@));
        }
        two_column_text(&self.counts)
    }
}

/// A task running on a worker, with the DAG of its job.
pub struct ActiveTask {
    pub task: Task,
    pub dag: Dag,
    pub state: WordcountTaskState,
}

impl ActiveTask {
    /// A task ready to run over the records of its input (see
    /// [`WordcountTaskState::new`]).
    pub fn new(task: &Task, dag: Dag, records: Vec<Value>) -> (r: ActiveTask)
        ensures
            r.task == *task,
            r.dag == dag,
            r.state.wf(),
            r.state.next == 0,
            r.state.source@ == record_tokens(records@, "text"@),
    {
        ActiveTask { task: task.copy(), dag, state: WordcountTaskState::new(records) }
    }

    /// Runs one quantum of `quantum` tokens; true once the task is done.
    pub fn step(&mut self, quantum: usize) -> (done: bool)
        requires
            old(self).state.wf(),
        ensures
            final(self).state.wf(),
            final(self).task == old(self).task,
            final(self).state.source == old(self).state.source,
            done == (final(self).state.next == final(self).state.tokens@.len()),
            final(self).state.next == if old(self).state.next + quantum < old(
                self,
            ).state.tokens@.len() {
                old(self).state.next + quantum
            } else {
                old(self).state.tokens@.len() as int
            },
    {
        self.state.step(quantum)
    }
}

/// What a worker's control loop does next.
#[derive(Debug, Clone, Copy, PartialEq, Eq, Structural)]
pub enum WorkerAction {
    /// Ask the coordinator for one more task.
    RequestTask,
    /// Run one quantum of the task at the head of the run queue.
    RunQuantum,
    /// Nothing to run: wait before polling again.
    Sleep,
}

/// The worker's decision with `active` tasks of at most `max_concurrency`:
/// ask for more while below the cap and the coordinator had work at the
/// last ask; otherwise run what is active, or sleep when nothing is.
pub fn next_action(active: usize, max_concurrency: u32, queue_was_empty: bool) -> (r: WorkerAction)
    ensures
        r == if active < max_concurrency && !queue_was_empty {
            WorkerAction::RequestTask
        } else if active > 0 {
            WorkerAction::RunQuantum
        } else {
            WorkerAction::Sleep
        },
{
    if active < max_concurrency as usize && !queue_was_empty {
        WorkerAction::RequestTask
    } else if active > 0 {
        WorkerAction::RunQuantum
    } else {
        WorkerAction::Sleep
    }
}

} // verus!
