//! The spilling aggregator: key → sum in memory up to a threshold of keys,
//! with the excess handed out as spill batches and merged back at the end.
use vstd::prelude::*;
use crate::counts::{
    add_entry, entry_for, entry_pairs, has_key, lemma_entry_pairs_sum, lemma_reduction,
    lemma_sum_concat, represents, reduction, sum_for, two_column, two_column_text, decimal,
    push_decimal,
};
use crate::engine::{sums_fit, total};
use crate::text::{chars_of, string_from_chars};

verus! {

/// The threshold used when none is configured.
pub const DEFAULT_MAX_IN_MEM_KEYS: usize = 100000;

/// The pairs of the batches `bs`, batch after batch.
pub open spec fn flat(bs: Seq<Seq<(Seq<char>, nat)>>) -> Seq<(Seq<char>, nat)>
    decreases bs.len(),
{
    if bs.len() == 0 {
        Seq::empty()
    } else {
        flat(bs.drop_last()) + bs.last()
    }
}

/// The spill file of number `seq` of process `pid` in `dir`:
/// `<dir>/spill-<pid>-<seq>.jsonl`.
pub open spec fn spill_path(dir: Seq<char>, pid: u32, seq: u64) -> Seq<char> {
    dir + "/spill-"@ + decimal(pid as nat) + seq!['-'] + decimal(seq as nat) + ".jsonl"@
}

/// Entries to write, one `{"k": key, "v": sum}` line each, to a fresh spill
/// file.
pub struct Spill {
    pub path: String,
    pub entries: Vec<(String, u64)>,
}

pub struct SpillingAggregator {
    /// In-memory sums, sorted by key.
    pub map: Vec<(String, u64)>,
    pub spill_files: Vec<String>,
    /// Spill directory; an empty one turns spilling off.
    pub dir: String,
    pub threshold: usize,
    pub spill_counter: u64,
    pub pid: u32,
    /// The sum of every value added, stopping at the largest `u64`.
    pub sum: u64,
    /// Every pair added so far.
    pub added: Ghost<Seq<(Seq<char>, nat)>>,
    /// The pairs added since the last spill.
    pub mem: Ghost<Seq<(Seq<char>, nat)>>,
    /// The entries of each spill, in order.
    pub batches: Ghost<Seq<Seq<(Seq<char>, nat)>>>,
}

/// `ps1` and `ps2` agree on every key's presence and sum.
pub open spec fn same_sums(ps1: Seq<(Seq<char>, nat)>, ps2: Seq<(Seq<char>, nat)>) -> bool {
    &&& forall|k: Seq<char>| #[trigger] sum_for(ps1, k) == sum_for(ps2, k)
    &&& forall|k: Seq<char>| #[trigger] has_key(ps1, k) <==> has_key(ps2, k)
}

pub proof fn lemma_represents_transfer(e: Seq<(String, u64)>, ps1: Seq<(Seq<char>, nat)>, ps2: Seq<(Seq<char>, nat)>)
    requires
        represents(e, ps1),
        same_sums(ps1, ps2),
    ensures
        represents(e, ps2),
{
    assert forall|k: Seq<char>| #[trigger] entry_for(e, k) <==> has_key(ps2, k) by {
        assert(has_key(ps1, k) <==> has_key(ps2, k));
    }
    assert forall|i: int| 0 <= i < e.len() implies #[trigger] e[i].1 == sum_for(ps2, e[i].0@) by {
        assert(sum_for(ps1, e[i].0@) == sum_for(ps2, e[i].0@));
    }
}

proof fn lemma_has_key_concat(a: Seq<(Seq<char>, nat)>, b: Seq<(Seq<char>, nat)>, k: Seq<char>)
    ensures
        has_key(a + b, k) <==> has_key(a, k) || has_key(b, k),
{
    if has_key(a + b, k) {
        let j = choose|j: int| 0 <= j < (a + b).len() && (a + b)[j].0 == k;
        if j < a.len() {
            assert(a[j].0 == k);
        } else {
            assert(b[j - a.len()].0 == k);
        }
    }
    if has_key(a, k) {
        let j = choose|j: int| 0 <= j < a.len() && a[j].0 == k;
        assert((a + b)[j].0 == k);
    }
    if has_key(b, k) {
        let j = choose|j: int| 0 <= j < b.len() && b[j].0 == k;
        assert((a + b)[a.len() + j].0 == k);
    }
}

impl SpillingAggregator {
    pub open spec fn wf(self) -> bool {
        &&& self.threshold >= 1
        &&& represents(self.map@, self.mem@)
        &&& self.dir@.len() > 0 ==> self.map@.len() < self.threshold
        &&& self.spill_files@.len() == self.batches@.len()
        &&& sums_fit(self.added@)
        &&& self.sum == if total(self.added@) <= u64::MAX {
            total(self.added@)
        } else {
            u64::MAX as nat
        }
        &&& same_sums(self.added@, self.mem@ + flat(self.batches@))
    }

    /// An empty aggregator spilling into `dir` once it holds `threshold`
    /// keys (a threshold of 0 counts as 1); `pid` names its spill files.
    pub fn new(dir: &str, threshold: usize, pid: u32) -> (r: SpillingAggregator)
        ensures
            r.wf(),
            r.added@ == Seq::<(Seq<char>, nat)>::empty(),
            r.dir@ == dir@,
            r.threshold == if threshold == 0 {
                1
            } else {
                threshold
            },
            r.pid == pid,
            r.spill_counter == 0,
            r.spill_files@.len() == 0,
    {
        let r = SpillingAggregator {
            map: Vec::new(),
            spill_files: Vec::new(),
            dir: crate::text::owned(dir),
            threshold: if threshold == 0 {
                1
            } else {
                threshold
            },
            spill_counter: 0,
            pid,
            sum: 0,
            added: Ghost(Seq::empty()),
            mem: Ghost(Seq::empty()),
            batches: Ghost(Seq::empty()),
        };
        proof {
            assert forall|k: Seq<char>| #[trigger] entry_for(r.map@, k) <==> has_key(r.mem@, k) by {}
            assert(r.mem@ + flat(r.batches@) =~= Seq::<(Seq<char>, nat)>::empty());
        }
        r
    }

    /// A test that suffices for [`SpillingAggregator::add`]: true when the
    /// sum of all values added, `value` included, stays within `u64` (and
    /// so every key's sum does), except at exactly `u64::MAX`.
    pub fn can_add(&self, value: u64) -> (r: bool)
        requires
            self.wf(),
        ensures
            r ==> total(self.added@) + value <= u64::MAX,
            total(self.added@) + value < u64::MAX ==> r,
    {
        self.sum < u64::MAX && value <= u64::MAX - self.sum
    }

    /// The path of the next spill file.
    fn next_spill_path(&self, seq: u64) -> (r: String)
        ensures
            r@ == spill_path(self.dir@, self.pid, seq),
    {
        let mut v = chars_of(self.dir.as_str());
        let mut a = chars_of("/spill-");
        v.append(&mut a);
        push_decimal(&mut v, self.pid as u64);
        v.push('-');
        push_decimal(&mut v, seq);
        let mut b = chars_of(".jsonl");
        v.append(&mut b);
        string_from_chars(&v)
    }

    /// Adds `value` to `key`. When the spill directory is set and the map
    /// reaches the threshold, every entry leaves memory as a [`Spill`] to
    /// be written to the returned path.
    pub fn add(&mut self, key: &str, value: u64) -> (r: Option<Spill>)
        requires
            old(self).wf(),
            crate::counts::sum_for(old(self).added@, key@) + value <= u64::MAX,
        ensures
            final(self).wf(),
            final(self).added@ == old(self).added@.push((key@, value as nat)),
            final(self).dir == old(self).dir,
            final(self).threshold == old(self).threshold,
            final(self).pid == old(self).pid,
            r is Some ==> {
                let sp = r->0;
                &&& final(self).map@.len() == 0
                &&& final(self).spill_counter == crate::master::bump64(old(self).spill_counter)
                &&& sp.path@ == spill_path(old(self).dir@, old(self).pid, final(self).spill_counter)
                &&& final(self).spill_files@ == old(self).spill_files@.push(sp.path)
                &&& final(self).batches@ == old(self).batches@.push(entry_pairs(sp.entries@))
                &&& represents(sp.entries@, old(self).mem@.push((key@, value as nat)))
            },
            r is None ==> final(self).spill_files == old(self).spill_files
                && final(self).spill_counter == old(self).spill_counter
                && final(self).batches == old(self).batches,
            r is Some <==> old(self).dir@.len() > 0 && old(self).map@.len() + (if entry_for(
                old(self).map@,
                key@,
            ) {
                0int
            } else {
                1int
            }) >= old(self).threshold,
    {
        let ghost s0 = *self;
        let ghost mem1 = self.mem@.push((key@, value as nat));
        proof {
            lemma_sum_concat(self.mem@, flat(self.batches@), key@);
        }
        add_entry(&mut self.map, crate::text::owned(key), value, Ghost(self.mem@));
        self.sum = self.sum.saturating_add(value);
        self.mem = Ghost(mem1);
        self.added = Ghost(s0.added@.push((key@, value as nat)));
        proof {
            assert forall|k: Seq<char>| #[trigger] sum_for(self.added@, k) == sum_for(
                mem1 + flat(self.batches@),
                k,
            ) by {
                assert(self.added@.drop_last() =~= s0.added@);
                assert(mem1.drop_last() =~= s0.mem@);
                assert(sum_for(s0.added@, k) == sum_for(s0.mem@ + flat(s0.batches@), k));
                lemma_sum_concat(s0.mem@, flat(self.batches@), k);
                lemma_sum_concat(mem1, flat(self.batches@), k);
            }
            assert forall|k: Seq<char>| #[trigger] has_key(self.added@, k) <==> has_key(
                mem1 + flat(self.batches@),
                k,
            ) by {
                lemma_has_key_concat(s0.mem@, flat(self.batches@), k);
                lemma_has_key_concat(mem1, flat(self.batches@), k);
                lemma_has_key_concat(s0.added@, seq![(key@, value as nat)], k);
                lemma_has_key_concat(s0.mem@, seq![(key@, value as nat)], k);
                assert(self.added@ =~= s0.added@ + seq![(key@, value as nat)]);
                assert(mem1 =~= s0.mem@ + seq![(key@, value as nat)]);
                assert(has_key(seq![(key@, value as nat)], k) <==> k == key@) by {
                    if k == key@ {
                        assert(seq![(key@, value as nat)][0].0 == k);
                    }
                }
            }
            assert(self.added@.drop_last() =~= s0.added@);
            assert forall|k: Seq<char>| #[trigger] sum_for(self.added@, k) <= u64::MAX by {
                assert(sum_for(s0.added@, k) <= u64::MAX);
            }
        }
        if !self.dir.as_str().is_empty() && self.map.len() >= self.threshold {
            let mut taken: Vec<(String, u64)> = Vec::new();
            std::mem::swap(&mut taken, &mut self.map);
            if self.spill_counter < u64::MAX {
                self.spill_counter = self.spill_counter + 1;
            }
            let path = self.next_spill_path(self.spill_counter);
            self.spill_files.push(path.clone());
            let ghost b0 = self.batches@;
            self.batches = Ghost(b0.push(entry_pairs(taken@)));
            self.mem = Ghost(Seq::empty());
            proof {
                assert(self.batches@.drop_last() =~= b0);
                assert(flat(self.batches@) == flat(b0) + entry_pairs(taken@));
                assert forall|k: Seq<char>| #[trigger] entry_for(self.map@, k) <==> has_key(
                    self.mem@,
                    k,
                ) by {}
                assert(self.mem@ + flat(self.batches@) =~= flat(b0) + entry_pairs(taken@));
                assert forall|k: Seq<char>| #[trigger] sum_for(self.added@, k) == sum_for(
                    self.mem@ + flat(self.batches@),
                    k,
                ) by {
                    lemma_entry_pairs_sum(taken@, mem1, k);
                    lemma_sum_concat(flat(b0), entry_pairs(taken@), k);
                    lemma_sum_concat(mem1, flat(b0), k);
                }
                assert forall|k: Seq<char>| #[trigger] has_key(self.added@, k) <==> has_key(
                    self.mem@ + flat(self.batches@),
                    k,
                ) by {
                    lemma_entry_pairs_sum(taken@, mem1, k);
                    lemma_has_key_concat(flat(b0), entry_pairs(taken@), k);
                    lemma_has_key_concat(mem1, flat(b0), k);
                }
            }
            return Some(Spill { path, entries: taken });
        }
        None
    }

    /// The final two-column text: the in-memory sums merged with the
    /// entries read back from the spill files, sorted by key. It is the
    /// reduction of every pair added, however many spills happened.
    pub fn finalize(&self, spilled: &Vec<Vec<(String, u64)>>) -> (r: String)
        requires
            self.wf(),
            spilled@.len() == self.batches@.len(),
            forall|i: int|
                0 <= i < spilled@.len() ==> entry_pairs((#[trigger] spilled@[i])@)
                    == self.batches@[i],
        ensures
            r@ == two_column(reduction(self.added@)),
            exists|e: Seq<(String, u64)>|
                represents(e, self.added@) && r@ == two_column(entry_pairs(e)),
    {
        let mut all: Vec<(String, u64)> = Vec::new();
        let mut i: usize = 0;
        while i < self.map.len()
            invariant
                i <= self.map@.len(),
                entry_pairs(all@) == entry_pairs(self.map@.take(i as int)),
            decreases self.map@.len() - i,
        {
            let ghost before = all@;
            let x = (self.map[i].0.clone(), self.map[i].1);
            all.push(x);
            proof {
                assert(self.map@.take(i + 1) =~= self.map@.take(i as int).push(self.map@[i as int]));
                assert(entry_pairs(all@) =~= entry_pairs(before).push((x.0@, x.1 as nat)));
                assert(entry_pairs(self.map@.take(i + 1)) =~= entry_pairs(self.map@.take(i as int)).push(
                    (self.map@[i as int].0@, self.map@[i as int].1 as nat),
                ));
            }
            i += 1;
        }
        assert(self.map@.take(self.map@.len() as int) =~= self.map@);
        let ghost m0 = entry_pairs(self.map@);
        let mut b: usize = 0;
        assert(flat(self.batches@.take(0)) =~= Seq::<(Seq<char>, nat)>::empty());
        assert(m0 + Seq::<(Seq<char>, nat)>::empty() =~= m0);
        while b < spilled.len()
            invariant
                b <= spilled@.len(),
                spilled@.len() == self.batches@.len(),
                forall|i: int|
                    0 <= i < spilled@.len() ==> entry_pairs((#[trigger] spilled@[i])@)
                        == self.batches@[i],
                entry_pairs(all@) == m0 + flat(self.batches@.take(b as int)),
            decreases spilled@.len() - b,
        {
            let ghost a0 = entry_pairs(all@);
            let batch = &spilled[b];
            let mut j: usize = 0;
            while j < batch.len()
                invariant
                    j <= batch@.len(),
                    entry_pairs(all@) == a0 + entry_pairs(batch@.take(j as int)),
                decreases batch@.len() - j,
            {
                let ghost before = all@;
                let x = (batch[j].0.clone(), batch[j].1);
                all.push(x);
                proof {
                    assert(batch@.take(j + 1) =~= batch@.take(j as int).push(batch@[j as int]));
                    assert(entry_pairs(all@) =~= entry_pairs(before).push((x.0@, x.1 as nat)));
                    assert(entry_pairs(batch@.take(j + 1)) =~= entry_pairs(batch@.take(j as int)).push(
                        (batch@[j as int].0@, batch@[j as int].1 as nat),
                    ));
                    assert(a0 + entry_pairs(batch@.take(j + 1)) =~= (a0 + entry_pairs(
                        batch@.take(j as int),
                    )).push((x.0@, x.1 as nat)));
                }
                j += 1;
            }
            assert(batch@.take(batch@.len() as int) =~= batch@);
            assert(self.batches@.take(b + 1).drop_last() =~= self.batches@.take(b as int));
            b += 1;
        }
        assert(self.batches@.take(self.batches@.len() as int) =~= self.batches@);
        let ghost ap = entry_pairs(all@);
        proof {
            assert forall|k: Seq<char>| #[trigger] sum_for(ap, k) == sum_for(self.added@, k) by {
                lemma_sum_concat(m0, flat(self.batches@), k);
                lemma_sum_concat(self.mem@, flat(self.batches@), k);
                lemma_entry_pairs_sum(self.map@, self.mem@, k);
            }
            assert forall|k: Seq<char>| #[trigger] has_key(ap, k) <==> has_key(self.added@, k) by {
                lemma_has_key_concat(m0, flat(self.batches@), k);
                lemma_has_key_concat(self.mem@, flat(self.batches@), k);
                lemma_entry_pairs_sum(self.map@, self.mem@, k);
            }
        }
        let mut e: Vec<(String, u64)> = Vec::new();
        let mut i: usize = 0;
        assert(ap.take(0) =~= Seq::<(Seq<char>, nat)>::empty());
        proof {
            assert forall|k: Seq<char>| #[trigger] entry_for(e@, k) <==> has_key(ap.take(0), k) by {}
        }
        while i < all.len()
            invariant
                i <= all@.len(),
                ap == entry_pairs(all@),
                represents(e@, ap.take(i as int)),
                forall|k: Seq<char>| #[trigger] sum_for(ap, k) == sum_for(self.added@, k),
                sums_fit(self.added@),
            decreases all@.len() - i,
        {
            let k = all[i].0.clone();
            let v = all[i].1;
            proof {
                assert(ap.take(i + 1) =~= ap.take(i as int).push((k@, v as nat)));
                assert(ap =~= ap.take(i + 1) + ap.skip(i + 1));
                lemma_sum_concat(ap.take(i + 1), ap.skip(i + 1), k@);
                assert(ap.take(i + 1).drop_last() =~= ap.take(i as int));
                assert(sum_for(self.added@, k@) <= u64::MAX);
            }
            add_entry(&mut e, k, v, Ghost(ap.take(i as int)));
            i += 1;
        }
        proof {
            assert(ap.take(all@.len() as int) =~= ap);
            lemma_represents_transfer(e@, ap, self.added@);
            lemma_reduction(e@, self.added@);
        }
        two_column_text(&e)
    }
}

} // verus!
