//! The hash partitioner: records routed to `hash(key) mod n` buckets.
use vstd::prelude::*;
use vstd::std_specs::iter::IteratorSpec;
use crate::counts::{has_key, represents, sum_for, entry_for};
use crate::engine::{kv_pairs, total};
use crate::counts::{decimal, push_decimal};
use crate::text::{base_name, chars_of, string_from_chars};
use crate::value::Value;

verus! {

broadcast use vstd::std_specs::vec::group_vec_axioms;

pub const FNV_OFFSET: u64 = 0xcbf29ce484222325;

pub const FNV_PRIME: u64 = 0x100000001b3;

/// An FNV-1a style 64-bit hash over the code points of a text (each code
/// point, not each UTF-8 byte, is one step).
pub open spec fn fnv1a(s: Seq<char>) -> u64
    decreases s.len(),
{
    if s.len() == 0 {
        FNV_OFFSET
    } else {
        (((fnv1a(s.drop_last()) ^ (s.last() as u64)) as nat * FNV_PRIME as nat)
            % 0x10000000000000000) as u64
    }
}

/// The hash [`fnv1a`] of `key`.
pub fn hash_key(key: &str) -> (h: u64)
    ensures
        h == fnv1a(key@),
{
    let cs = chars_of(key);
    let mut h: u64 = FNV_OFFSET;
    let mut i: usize = 0;
    while i < cs.len()
        invariant
            i <= cs@.len(),
            h == fnv1a(cs@.take(i as int)),
        decreases cs@.len() - i,
    {
        assert(cs@.take(i + 1).drop_last() =~= cs@.take(i as int));
        let x: u64 = h ^ (cs[i] as u64);
        assert((x as nat) * (FNV_PRIME as nat) < 0x100000000000000000000000000000000) by (
        nonlinear_arith)
            requires
                x < 0x10000000000000000,
        ;
        let prod: u128 = (x as u128) * (FNV_PRIME as u128);
        h = (prod % 0x10000000000000000u128) as u64;
        i += 1;
    }
    assert(cs@.take(cs@.len() as int) =~= cs@);
    h
}

/// The partition of `key` among `n`.
pub open spec fn partition_of(key: Seq<char>, n: u32) -> nat {
    (fnv1a(key) as nat) % (n as nat)
}

/// The partition of `key` among `num_partitions`.
pub fn hash_key_to_partition(key: &str, num_partitions: u32) -> (r: u32)
    requires
        num_partitions > 0,
    ensures
        r == partition_of(key@, num_partitions),
        r < num_partitions,
{
    let h = hash_key(key);
    (h % (num_partitions as u64)) as u32
}

/// The shuffle key of a record: the string at `kf`, or the empty text.
pub open spec fn shuffle_key(r: Value, kf: Seq<char>) -> Seq<char> {
    match r.str_field(kf) {
        Some(k) => k,
        None => Seq::empty(),
    }
}

/// The records of `recs` that the shuffle routes to partition `p` of `n`,
/// in order.
pub open spec fn bucket(recs: Seq<Value>, kf: Seq<char>, n: u32, p: nat) -> Seq<Value>
    decreases recs.len(),
{
    if recs.len() == 0 {
        Seq::empty()
    } else if partition_of(shuffle_key(recs.last(), kf), n) == p {
        bucket(recs.drop_last(), kf, n, p).push(recs.last())
    } else {
        bucket(recs.drop_last(), kf, n, p)
    }
}

/// The shuffle: `n` buckets, bucket `p` holding, in order, the records
/// whose key hashes to `p` modulo `n`.
pub fn partition_records(input: Vec<Value>, key_field: &str, num_partitions: u32) -> (r: Vec<
    Vec<Value>,
>)
    requires
        num_partitions > 0,
    ensures
        r@.len() == num_partitions,
        forall|p: int|
            0 <= p < num_partitions ==> (#[trigger] r@[p])@ == bucket(
                input@,
                key_field@,
                num_partitions,
                p as nat,
            ),
{
    let ghost all = input@;
    let mut buckets: Vec<Vec<Value>> = Vec::new();
    let mut q: u32 = 0;
    while q < num_partitions
        invariant
            q <= num_partitions,
            buckets@.len() == q,
            forall|p: int| 0 <= p < q ==> (#[trigger] buckets@[p])@ == Seq::<Value>::empty(),
        decreases num_partitions - q,
    {
        buckets.push(Vec::new());
        q += 1;
    }
    proof {
        assert(all.take(0) =~= Seq::<Value>::empty());
    }
    for rec in it: input.into_iter()
        invariant
            it.seq() == all,
            buckets@.len() == num_partitions,
            num_partitions > 0,
            forall|p: int|
                0 <= p < num_partitions ==> (#[trigger] buckets@[p])@ == bucket(
                    all.take(it.index() as int),
                    key_field@,
                    num_partitions,
                    p as nat,
                ),
    {
        let ghost i = it.index() as int;
        proof {
            assert(all.take(i + 1).drop_last() =~= all.take(i));
            assert(all.take(i + 1).last() == rec);
        }
        let p = match rec.get(key_field) {
            Some(Value::Str(k)) => hash_key_to_partition(k.as_str(), num_partitions),
            _ => hash_key_to_partition("", num_partitions),
        };
        proof {
            if !(rec.str_field(key_field@) is Some) {
                assert(""@ =~= Seq::<char>::empty()) by {
                    reveal_strlit("");
                }
            }
        }
        let ghost b0 = buckets@;
        buckets[p as usize].push(rec);
        proof {
            assert forall|pp: int| 0 <= pp < num_partitions implies (#[trigger] buckets@[pp])@
                == bucket(all.take(i + 1), key_field@, num_partitions, pp as nat) by {
                if pp != p {
                    assert(buckets@[pp] == b0[pp]);
                }
            }
        }
    }
    proof {
        assert(all.take(all.len() as int) =~= all);
    }
    buckets
}

/// One shard of a shuffled dataset: a JSON-lines file.
pub struct Partition {
    pub id: u32,
    pub path: String,
}

/// The file of partition `i` of stage `stage` under `base`:
/// `<base>/<stage>/part-<i>.jsonl`.
pub open spec fn part_path(base: Seq<char>, stage: Seq<char>, i: nat) -> Seq<char> {
    base + seq!['/'] + stage + "/part-"@ + decimal(i) + ".jsonl"@
}

/// The partitions `0 .. num_partitions` of stage `stage_id` under
/// `base_dir`, sorted by id.
pub fn partition_paths(base_dir: &str, stage_id: &str, num_partitions: u32) -> (r: Vec<Partition>)
    ensures
        r@.len() == num_partitions,
        forall|i: int|
            0 <= i < num_partitions ==> (#[trigger] r@[i]).id == i && r@[i].path@ == part_path(
                base_dir@,
                stage_id@,
                i as nat,
            ),
{
    let mut out: Vec<Partition> = Vec::new();
    let mut i: u32 = 0;
    while i < num_partitions
        invariant
            i <= num_partitions,
            out@.len() == i,
            forall|k: int|
                0 <= k < i ==> (#[trigger] out@[k]).id == k && out@[k].path@ == part_path(
                    base_dir@,
                    stage_id@,
                    k as nat,
                ),
        decreases num_partitions - i,
    {
        let mut v = chars_of(base_dir);
        v.push('/');
        let mut st = chars_of(stage_id);
        v.append(&mut st);
        let mut a = chars_of("/part-");
        v.append(&mut a);
        push_decimal(&mut v, i as u64);
        let mut b = chars_of(".jsonl");
        v.append(&mut b);
        out.push(Partition { id: i, path: string_from_chars(&v) });
        i += 1;
    }
    out
}

/// The index of the last partition among the first `n` of `parts` with
/// id `id`.
pub open spec fn last_with_id(parts: Seq<Partition>, id: u32, n: int) -> Option<int>
    decreases n,
{
    if n <= 0 {
        None
    } else if parts[n - 1].id == id {
        Some(n - 1)
    } else {
        last_with_id(parts, id, n - 1)
    }
}

/// The pairs that a shuffled join reads together, as indices: each left
/// partition, in order, with the last right partition of the same id;
/// left partitions without one are left out.
pub open spec fn partition_pairs(left: Seq<Partition>, right: Seq<Partition>) -> Seq<(int, int)>
    decreases left.len(),
{
    if left.len() == 0 {
        Seq::empty()
    } else {
        let li = left.len() - 1;
        let prev = partition_pairs(left.drop_last(), right);
        match last_with_id(right, left[li].id, right.len() as int) {
            Some(ri) => prev.push((li, ri)),
            None => prev,
        }
    }
}

/// The partitions of two shuffles that a join pairs by id.
pub fn pair_partitions(left: &Vec<Partition>, right: &Vec<Partition>) -> (r: Vec<(usize, usize)>)
    ensures
        r@.len() == partition_pairs(left@, right@).len(),
        forall|k: int|
            0 <= k < r@.len() ==> (#[trigger] r@[k]).0 as int == partition_pairs(left@, right@)[k].0
                && r@[k].1 as int == partition_pairs(left@, right@)[k].1,
{
    let mut out: Vec<(usize, usize)> = Vec::new();
    let mut i: usize = 0;
    assert(left@.take(0) =~= Seq::<Partition>::empty());
    while i < left.len()
        invariant
            i <= left@.len(),
            out@.len() == partition_pairs(left@.take(i as int), right@).len(),
            forall|k: int|
                0 <= k < out@.len() ==> (#[trigger] out@[k]).0 as int == partition_pairs(
                    left@.take(i as int),
                    right@,
                )[k].0 && out@[k].1 as int == partition_pairs(left@.take(i as int), right@)[k].1,
        decreases left@.len() - i,
    {
        let ghost pre = partition_pairs(left@.take(i as int), right@);
        assert(left@.take(i + 1).drop_last() =~= left@.take(i as int));
        assert(left@.take(i + 1)[i as int] == left@[i as int]);
        let id = left[i].id;
        let mut j: usize = right.len();
        while j > 0 && right[j - 1].id != id
            invariant
                j <= right@.len(),
                last_with_id(right@, id, right@.len() as int) == last_with_id(right@, id, j as int),
            decreases j,
        {
            j -= 1;
        }
        if j > 0 {
            let ghost before = out@;
            out.push((i, j - 1));
            proof {
                assert forall|k: int| 0 <= k < out@.len() implies (#[trigger] out@[k]).0 as int
                    == partition_pairs(left@.take(i + 1), right@)[k].0 && out@[k].1 as int
                    == partition_pairs(left@.take(i + 1), right@)[k].1 by {
                    if k < before.len() {
                        assert(out@[k] == before[k]);
                    }
                }
            }
        }
        i += 1;
    }
    assert(left@.take(left@.len() as int) =~= left@);
    out
}

/// A stage id unique to one task of one input file:
/// `<prefix>_<file name>_<task id>`.
pub fn stage_id_for(prefix: &str, input_path: &str, task_id: &str) -> (r: String)
    ensures
        r@ == prefix@ + seq!['_'] + base_name(input_path@) + seq!['_'] + task_id@,
{
    let mut v = chars_of(prefix);
    v.push('_');
    let name = crate::text::file_name_of(input_path);
    let mut n = chars_of(name.as_str());
    v.append(&mut n);
    v.push('_');
    let mut t = chars_of(task_id);
    v.append(&mut t);
    string_from_chars(&v)
}

/// The directory that holds `path`: what precedes its last `/`.
pub open spec fn parent_of(path: Seq<char>) -> Seq<char> {
    path.take(path.len() - base_name(path).len())
}

proof fn lemma_base_name_suffix(p: Seq<char>)
    ensures
        base_name(p).len() <= p.len(),
        base_name(p) == p.skip(p.len() - base_name(p).len()),
    decreases p.len(),
{
    if p.len() > 0 {
        lemma_base_name_suffix(p.drop_last());
        if p.last() != '/' {
            assert(base_name(p) =~= p.skip(p.len() - base_name(p).len()));
        } else {
            assert(p.skip(p.len() as int) =~= Seq::<char>::empty());
        }
    }
}

/// The spill directory of a reduction over partitions whose first file is
/// `first_part`: `spill_reduce` beside it.
pub fn spill_dir_for(first_part: &str) -> (r: String)
    ensures
        r@ == parent_of(first_part@) + "spill_reduce"@,
{
    let p = chars_of(first_part);
    let name = chars_of(crate::text::file_name_of(first_part).as_str());
    proof {
        lemma_base_name_suffix(first_part@);
    }
    let keep = p.len() - name.len();
    let mut v: Vec<char> = Vec::new();
    let mut i: usize = 0;
    while i < keep
        invariant
            keep <= p@.len(),
            i <= keep,
            v@ == p@.take(i as int),
        decreases keep - i,
    {
        v.push(p[i]);
        i += 1;
        assert(v@ =~= p@.take(i as int));
    }
    let mut s = chars_of("spill_reduce");
    v.append(&mut s);
    string_from_chars(&v)
}

/// The pairs of `ps` whose key falls in partition `p` of `n`, in order.
pub open spec fn part_pairs(ps: Seq<(Seq<char>, nat)>, n: u32, p: nat) -> Seq<(Seq<char>, nat)>
    decreases ps.len(),
{
    if ps.len() == 0 {
        Seq::empty()
    } else if partition_of(ps.last().0, n) == p {
        part_pairs(ps.drop_last(), n, p).push(ps.last())
    } else {
        part_pairs(ps.drop_last(), n, p)
    }
}

/// The pairs of partitions `0 .. m`, partition after partition.
pub open spec fn flat_parts(ps: Seq<(Seq<char>, nat)>, n: u32, m: nat) -> Seq<(Seq<char>, nat)>
    decreases m,
{
    if m == 0 {
        Seq::empty()
    } else {
        flat_parts(ps, n, (m - 1) as nat) + part_pairs(ps, n, (m - 1) as nat)
    }
}

/// What a bucket contributes to `reduce_by_key` is the partition's share
/// of what the whole input contributes.
pub proof fn lemma_bucket_pairs(recs: Seq<Value>, kf: Seq<char>, vf: Seq<char>, n: u32, p: nat)
    ensures
        kv_pairs(bucket(recs, kf, n, p), kf, vf) == part_pairs(kv_pairs(recs, kf, vf), n, p),
    decreases recs.len(),
{
    if recs.len() > 0 {
        lemma_bucket_pairs(recs.drop_last(), kf, vf, n, p);
        let b = bucket(recs.drop_last(), kf, n, p);
        let r = recs.last();
        assert(b.push(r).drop_last() =~= b);
        let ps = kv_pairs(recs.drop_last(), kf, vf);
        if r.str_field(kf) is Some && r.u64_field(vf) is Some {
            let pr = (r.str_field(kf)->0, r.u64_field(vf)->0 as nat);
            assert(ps.push(pr).drop_last() =~= ps);
        }
    }
}

proof fn lemma_part_sum(ps: Seq<(Seq<char>, nat)>, n: u32, p: nat, k: Seq<char>)
    ensures
        sum_for(part_pairs(ps, n, p), k) == if partition_of(k, n) == p {
            sum_for(ps, k)
        } else {
            0
        },
        has_key(part_pairs(ps, n, p), k) <==> (has_key(ps, k) && partition_of(k, n) == p),
    decreases ps.len(),
{
    if ps.len() > 0 {
        let q = part_pairs(ps.drop_last(), n, p);
        lemma_part_sum(ps.drop_last(), n, p, k);
        assert(q.push(ps.last()).drop_last() =~= q);
        if has_key(part_pairs(ps, n, p), k) {
            let j = choose|j: int|
                0 <= j < part_pairs(ps, n, p).len() && part_pairs(ps, n, p)[j].0 == k;
            if j < q.len() {
                assert(q[j].0 == k);
                let i = choose|i: int| 0 <= i < ps.drop_last().len() && ps.drop_last()[i].0 == k;
                assert(ps[i].0 == k);
            }
        }
        if has_key(ps, k) && partition_of(k, n) == p {
            let i = choose|i: int| 0 <= i < ps.len() && ps[i].0 == k;
            if i < ps.len() - 1 {
                assert(ps.drop_last()[i].0 == k);
                let j = choose|j: int| 0 <= j < q.len() && q[j].0 == k;
                assert(part_pairs(ps, n, p)[j].0 == k);
            } else {
                let pp = part_pairs(ps, n, p);
                assert(pp[pp.len() - 1].0 == k);
            }
        }
    } else {
        assert(!has_key(ps, k));
    }
}

proof fn lemma_flat_sum(ps: Seq<(Seq<char>, nat)>, n: u32, m: nat, k: Seq<char>)
    requires
        n > 0,
    ensures
        sum_for(flat_parts(ps, n, m), k) == if partition_of(k, n) < m {
            sum_for(ps, k)
        } else {
            0
        },
        has_key(flat_parts(ps, n, m), k) <==> (has_key(ps, k) && partition_of(k, n) < m),
    decreases m,
{
    if m > 0 {
        let a = flat_parts(ps, n, (m - 1) as nat);
        let b = part_pairs(ps, n, (m - 1) as nat);
        lemma_flat_sum(ps, n, (m - 1) as nat, k);
        lemma_part_sum(ps, n, (m - 1) as nat, k);
        crate::counts::lemma_sum_concat(a, b, k);
        if has_key(a + b, k) {
            let j = choose|j: int| 0 <= j < (a + b).len() && (a + b)[j].0 == k;
            if j < a.len() {
                assert(a[j].0 == k);
            } else {
                assert(b[j - a.len()].0 == k);
            }
        }
        if has_key(a, k) {
            let j = choose|j: int| 0 <= j < a.len() && a[j].0 == k;
            assert((a + b)[j].0 == k);
        }
        if has_key(b, k) {
            let j = choose|j: int| 0 <= j < b.len() && b[j].0 == k;
            assert((a + b)[a.len() + j].0 == k);
        }
    } else {
        assert(!has_key(Seq::<(Seq<char>, nat)>::empty(), k));
    }
}

/// Reducing the partitions one after the other sums every key as reducing
/// the whole input does: entries that represent the pairs of all `n`
/// partitions represent the pairs of the input.
pub proof fn lemma_shuffle_preserves_sums(e: Seq<(String, u64)>, ps: Seq<(Seq<char>, nat)>, n: u32)
    requires
        n > 0,
        represents(e, flat_parts(ps, n, n as nat)),
    ensures
        represents(e, ps),
{
    assert forall|k: Seq<char>| #[trigger] entry_for(e, k) <==> has_key(ps, k) by {
        lemma_flat_sum(ps, n, n as nat, k);
    }
    assert forall|i: int| 0 <= i < e.len() implies #[trigger] e[i].1 == sum_for(ps, e[i].0@) by {
        lemma_flat_sum(ps, n, n as nat, e[i].0@);
    }
}

/// The pairs of `ps` in partitions below `m`, in order.
pub open spec fn below(ps: Seq<(Seq<char>, nat)>, n: u32, m: nat) -> Seq<(Seq<char>, nat)>
    decreases ps.len(),
{
    if ps.len() == 0 {
        Seq::empty()
    } else if partition_of(ps.last().0, n) < m {
        below(ps.drop_last(), n, m).push(ps.last())
    } else {
        below(ps.drop_last(), n, m)
    }
}

proof fn lemma_below_step(ps: Seq<(Seq<char>, nat)>, n: u32, m: nat)
    ensures
        total(below(ps, n, m + 1)) == total(below(ps, n, m)) + total(part_pairs(ps, n, m)),
        total(below(ps, n, m)) <= total(ps),
    decreases ps.len(),
{
    if ps.len() > 0 {
        lemma_below_step(ps.drop_last(), n, m);
        let x = ps.last();
        assert(below(ps.drop_last(), n, m + 1).push(x).drop_last() =~= below(ps.drop_last(), n, m + 1));
        assert(below(ps.drop_last(), n, m).push(x).drop_last() =~= below(ps.drop_last(), n, m));
        assert(part_pairs(ps.drop_last(), n, m).push(x).drop_last() =~= part_pairs(ps.drop_last(), n, m));
    }
}

pub proof fn lemma_total_concat(a: Seq<(Seq<char>, nat)>, b: Seq<(Seq<char>, nat)>)
    ensures
        total(a + b) == total(a) + total(b),
    decreases b.len(),
{
    if b.len() == 0 {
        assert(a + b =~= a);
    } else {
        assert((a + b).drop_last() =~= a + b.drop_last());
        lemma_total_concat(a, b.drop_last());
    }
}

/// The partitions below `m` hold, together, no more than the whole input.
pub proof fn lemma_flat_total(ps: Seq<(Seq<char>, nat)>, n: u32, m: nat)
    ensures
        total(flat_parts(ps, n, m)) == total(below(ps, n, m)),
        total(flat_parts(ps, n, m)) <= total(ps),
    decreases m,
{
    if m > 0 {
        lemma_flat_total(ps, n, (m - 1) as nat);
        lemma_total_concat(flat_parts(ps, n, (m - 1) as nat), part_pairs(ps, n, (m - 1) as nat));
        lemma_below_step(ps, n, (m - 1) as nat);
        lemma_below_step(ps, n, m);
    } else {
        lemma_below_step(ps, n, 0);
        assert(total(below(ps, n, 0)) == 0) by {
            lemma_below_zero(ps, n);
        }
    }
}

proof fn lemma_below_zero(ps: Seq<(Seq<char>, nat)>, n: u32)
    ensures
        below(ps, n, 0) == Seq::<(Seq<char>, nat)>::empty(),
    decreases ps.len(),
{
    if ps.len() > 0 {
        lemma_below_zero(ps.drop_last(), n);
    }
}

} // verus!
