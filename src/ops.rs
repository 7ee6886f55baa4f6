//! The order-preserving record operators `map`, `filter` and `flat_map`.
use vstd::prelude::*;
use vstd::std_specs::iter::IteratorSpec;
use crate::value::Value;

verus! {

broadcast use vstd::std_specs::vec::group_vec_axioms;

/// The elements of `s` whose flag in `keep` is set, in order.
pub open spec fn select(s: Seq<Value>, keep: Seq<bool>) -> Seq<Value>
    decreases s.len(),
{
    if s.len() == 0 || keep.len() != s.len() {
        Seq::empty()
    } else if keep.last() {
        select(s.drop_last(), keep.drop_last()).push(s.last())
    } else {
        select(s.drop_last(), keep.drop_last())
    }
}

/// The concatenation of the vectors of `vs`, in order.
pub open spec fn concat_all(vs: Seq<Vec<Value>>) -> Seq<Value>
    decreases vs.len(),
{
    if vs.len() == 0 {
        Seq::empty()
    } else {
        concat_all(vs.drop_last()) + vs.last()@
    }
}

/// `map`: `f` applied to every record, in order.
pub fn op_map<F: Fn(&Value) -> Value>(input: Vec<Value>, f: F) -> (r: Vec<Value>)
    requires
        forall|x: &Value| #[trigger] f.requires((x,)),
    ensures
        r@.len() == input@.len(),
        forall|i: int| 0 <= i < input@.len() ==> f.ensures((&input@[i],), #[trigger] r@[i]),
{
    let mut out: Vec<Value> = Vec::new();
    let mut i: usize = 0;
    while i < input.len()
        invariant
            i <= input@.len(),
            out@.len() == i,
            forall|x: &Value| #[trigger] f.requires((x,)),
            forall|k: int| 0 <= k < i ==> f.ensures((&input@[k],), #[trigger] out@[k]),
        decreases input@.len() - i,
    {
        let v = f(&input[i]);
        out.push(v);
        i += 1;
    }
    out
}

/// `filter`: the records on which `f` holds, in order.
pub fn op_filter<F: Fn(&Value) -> bool>(input: Vec<Value>, f: F) -> (r: Vec<Value>)
    requires
        forall|x: &Value| #[trigger] f.requires((x,)),
    ensures
        exists|keep: Seq<bool>|
            keep.len() == input@.len() && (forall|i: int|
                0 <= i < input@.len() ==> f.ensures((&input@[i],), #[trigger] keep[i])) && r@
                == select(input@, keep),
{
    let ghost all = input@;
    let ghost mut keep: Seq<bool> = Seq::empty();
    let mut out: Vec<Value> = Vec::new();
    for rec in it: input.into_iter()
        invariant
            it.seq() == all,
            forall|x: &Value| #[trigger] f.requires((x,)),
            keep.len() == it.index(),
            forall|i: int| 0 <= i < keep.len() ==> f.ensures((&all[i],), #[trigger] keep[i]),
            out@ == select(all.take(it.index() as int), keep),
    {
        let ghost i = it.index() as int;
        let b = f(&rec);
        proof {
            assert(all.take(i + 1).drop_last() =~= all.take(i));
            assert(all.take(i + 1).last() == rec);
            assert(keep.push(b).drop_last() =~= keep);
        }
        if b {
            out.push(rec);
        }
        proof {
            keep = keep.push(b);
        }
    }
    assert(all.take(all.len() as int) =~= all);
    out
}

/// `flat_map`: the records that `f` returns for each record, concatenated
/// in input order.
pub fn op_flat_map<F: Fn(&Value) -> Vec<Value>>(input: Vec<Value>, f: F) -> (r: Vec<Value>)
    requires
        forall|x: &Value| #[trigger] f.requires((x,)),
    ensures
        exists|outs: Seq<Vec<Value>>|
            outs.len() == input@.len() && (forall|i: int|
                0 <= i < input@.len() ==> f.ensures((&input@[i],), #[trigger] outs[i])) && r@
                == concat_all(outs),
{
    let ghost mut outs: Seq<Vec<Value>> = Seq::empty();
    let mut out: Vec<Value> = Vec::new();
    let mut i: usize = 0;
    while i < input.len()
        invariant
            i <= input@.len(),
            forall|x: &Value| #[trigger] f.requires((x,)),
            outs.len() == i,
            forall|k: int| 0 <= k < i ==> f.ensures((&input@[k],), #[trigger] outs[k]),
            out@ == concat_all(outs),
        decreases input@.len() - i,
    {
        let mut v = f(&input[i]);
        let ghost produced = v;
        let ghost before = out@;
        out.append(&mut v);
        proof {
            assert(outs.push(produced).drop_last() =~= outs);
            outs = outs.push(produced);
        }
        i += 1;
    }
    out
}

} // verus!
