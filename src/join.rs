//! The inner join of two record sequences on a key field.
use vstd::prelude::*;
use crate::text::{chars_of, owned, string_from_chars, text_eq};
use crate::value::{copy_fields, lemma_same_fields_index, same_value, Value};

verus! {

broadcast use vstd::std_specs::vec::group_vec_axioms;

/// Whether some field of `fs` is named `k`.
pub open spec fn has_name(fs: Seq<(String, Value)>, k: Seq<char>) -> bool {
    exists|i: int| 0 <= i < fs.len() && fs[i].0@ == k
}

/// The field names of a merge of `lf` with the right-hand fields `rf` on
/// key `kf`: the left names, then each right name but the key, prefixed
/// with `right_` when the merge already holds it.
pub open spec fn merged_names(lf: Seq<Seq<char>>, rf: Seq<Seq<char>>, kf: Seq<char>) -> Seq<Seq<char>>
    decreases rf.len(),
{
    if rf.len() == 0 {
        lf
    } else {
        let prev = merged_names(lf, rf.drop_last(), kf);
        let k = rf.last();
        if k == kf {
            prev
        } else if prev.contains(k) {
            prev.push("right_"@ + k)
        } else {
            prev.push(k)
        }
    }
}

/// The names of `fs`.
pub open spec fn names(fs: Seq<(String, Value)>) -> Seq<Seq<char>> {
    fs.map_values(|f: (String, Value)| f.0@)
}

/// The value that the right field at index `j` of `rf` lands with in a
/// merge, as the index of the merged field; `-1` for the key.
pub open spec fn merged_slot(lf: Seq<Seq<char>>, rf: Seq<Seq<char>>, kf: Seq<char>, j: int) -> int {
    if rf[j] == kf {
        -1
    } else {
        merged_names(lf, rf.take(j + 1), kf).len() - 1
    }
}

/// `m` merges `l` and `r` on `kf`: copies of the fields of `l` first, in
/// order, then copies of the right fields as [`merged_names`] names them.
pub open spec fn is_merge(m: Value, l: Seq<(String, Value)>, r: Seq<(String, Value)>, kf: Seq<char>) -> bool {
    match m {
        Value::Object(fs) => {
            &&& names(fs@) == merged_names(names(l), names(r), kf)
            &&& forall|i: int| 0 <= i < l.len() ==> same_value(#[trigger] fs@[i].1, l[i].1)
            &&& forall|j: int|
                0 <= j < r.len() && r[j].0@ != kf ==> same_value(
                    fs@[merged_slot(names(l), names(r), kf, j)].1,
                    (#[trigger] r[j]).1,
                )
        },
        _ => false,
    }
}

/// Whether some field of `fs` is named `k`.
fn has_field(fs: &Vec<(String, Value)>, k: &str) -> (r: bool)
    ensures
        r == names(fs@).contains(k@),
{
    let mut i: usize = 0;
    while i < fs.len()
        invariant
            i <= fs@.len(),
            forall|m: int| 0 <= m < i ==> fs@[m].0@ != k@,
        decreases fs@.len() - i,
    {
        if text_eq(fs[i].0.as_str(), k) {
            assert(names(fs@)[i as int] == k@);
            return true;
        }
        i += 1;
    }
    assert forall|m: int| 0 <= m < names(fs@).len() implies names(fs@)[m] != k@ by {
        assert(names(fs@)[m] == fs@[m].0@);
    }
    false
}

/// Merges two object records on `key_field`: every field of `left`, then
/// every field of `right` but the key, under `right_<name>` when the name
/// is already taken.
pub fn merge_records(left: &Value, right: &Value, key_field: &str) -> (m: Value)
    ensures
        left is Object && right is Object ==> is_merge(m, left->Object_0@, right->Object_0@, key_field@),
{
    let mut out: Vec<(String, Value)> = match left {
        Value::Object(fs) => copy_fields(fs),
        _ => Vec::new(),
    };
    match right {
        Value::Object(rf) => {
            let ghost lf = match left {
                Value::Object(fs) => fs@,
                _ => Seq::empty(),
            };
            let ghost ln = names(lf);
            let ghost rn = names(rf@);
            proof {
                if let Value::Object(fs) = left {
                    lemma_same_fields_index(out@, fs@);
                }
                assert(names(out@) =~= ln);
                assert(rn.take(0) =~= Seq::<Seq<char>>::empty());
            }
            let mut j: usize = 0;
            while j < rf.len()
                invariant
                    j <= rf@.len(),
                    rn == names(rf@),
                    names(out@) == merged_names(ln, rn.take(j as int), key_field@),
                    out@.len() >= lf.len(),
                    forall|i: int| 0 <= i < lf.len() ==> same_value(#[trigger] out@[i].1, lf[i].1),
                    forall|t: int|
                        0 <= t < j && rf@[t].0@ != key_field@ ==> same_value(
                            out@[merged_slot(ln, rn, key_field@, t)].1,
                            (#[trigger] rf@[t]).1,
                        ),
                    forall|t: int|
                        0 <= t < j && rf@[t].0@ != key_field@ ==> merged_slot(ln, rn, key_field@, t) < out@.len(),
                decreases rf@.len() - j,
            {
                proof {
                    assert(rn.take(j + 1).drop_last() =~= rn.take(j as int));
                    assert(rn.take(j + 1).last() == rf@[j as int].0@);
                }
                let k = rf[j].0.as_str();
                if !text_eq(k, key_field) {
                    let v = rf[j].1.copy();
                    let name = if has_field(&out, k) {
                        let mut c = chars_of("right_");
                        let mut kc = chars_of(k);
                        c.append(&mut kc);
                        string_from_chars(&c)
                    } else {
                        owned(k)
                    };
                    let ghost before = out@;
                    out.push((name, v));
                    proof {
                        assert(names(out@) =~= names(before).push(name@));
                        assert forall|t: int|
                            0 <= t < j + 1 && rf@[t].0@ != key_field@ implies merged_slot(ln, rn, key_field@, t) < out@.len() by {
                            if t == j {
                                assert(rn.take(t + 1) =~= rn.take(j + 1));
                            }
                        }
                        assert forall|t: int|
                            0 <= t < j + 1 && rf@[t].0@ != key_field@ implies same_value(
                                out@[merged_slot(ln, rn, key_field@, t)].1,
                                (#[trigger] rf@[t]).1,
                            ) by {
                            if t == j {
                                assert(rn.take(t + 1) =~= rn.take(j + 1));
                            } else {
                                assert(out@[merged_slot(ln, rn, key_field@, t)] == before[merged_slot(ln, rn, key_field@, t)]);
                            }
                        }
                    }
                }
                j += 1;
            }
            proof {
                assert(rn.take(rf@.len() as int) =~= rn);
            }
        },
        _ => {},
    }
    Value::Object(out)
}

/// The index pairs of an inner join on `kf`: for each left record with a
/// string key, in order, each right record with the same key, in order.
pub open spec fn join_pairs(left: Seq<Value>, right: Seq<Value>, kf: Seq<char>) -> Seq<(int, int)>
    decreases left.len(),
{
    if left.len() == 0 {
        Seq::empty()
    } else {
        let li = left.len() - 1;
        join_pairs(left.drop_last(), right, kf) + match left.last().str_field(kf) {
            Some(k) => matches_of(right, kf, k, right.len() as int).map_values(|ri: int| (li, ri)),
            None => Seq::empty(),
        }
    }
}

/// The indices below `n` of the right records whose key is `k`.
pub open spec fn matches_of(right: Seq<Value>, kf: Seq<char>, k: Seq<char>, n: int) -> Seq<int>
    decreases n,
{
    if n <= 0 {
        Seq::empty()
    } else if right[n - 1].str_field(kf) == Some(k) {
        matches_of(right, kf, k, n - 1).push(n - 1)
    } else {
        matches_of(right, kf, k, n - 1)
    }
}

/// Inner join on `key_field`: for each left record with a string key, in
/// order, the merge of it with each right record of the same key, in
/// order. Records without a string key are skipped.
pub fn op_join_by_key(left: Vec<Value>, right: Vec<Value>, key_field: &str) -> (r: Vec<Value>)
    ensures
        r@.len() == join_pairs(left@, right@, key_field@).len(),
        forall|t: int|
            0 <= t < r@.len() ==> {
                let p = join_pairs(left@, right@, key_field@)[t];
                let l = left@[p.0];
                let rr = right@[p.1];
                l is Object && rr is Object ==> is_merge(#[trigger] r@[t], l->Object_0@, rr->Object_0@, key_field@)
            },
{
    let mut out: Vec<Value> = Vec::new();
    let mut i: usize = 0;
    assert(left@.take(0) =~= Seq::<Value>::empty());
    while i < left.len()
        invariant
            i <= left@.len(),
            out@.len() == join_pairs(left@.take(i as int), right@, key_field@).len(),
            forall|t: int|
                0 <= t < out@.len() ==> {
                    let p = join_pairs(left@.take(i as int), right@, key_field@)[t];
                    let l = left@[p.0];
                    let rr = right@[p.1];
                    l is Object && rr is Object ==> is_merge(#[trigger] out@[t], l->Object_0@, rr->Object_0@, key_field@)
                },
        decreases left@.len() - i,
    {
        let ghost pre = join_pairs(left@.take(i as int), right@, key_field@);
        proof {
            assert(left@.take(i + 1).drop_last() =~= left@.take(i as int));
            assert(left@.take(i + 1).last() == left@[i as int]);
        }
        match left[i].get(key_field) {
            Some(Value::Str(k)) => {
                let ghost kv = k@;
                let mut j: usize = 0;
                while j < right.len()
                    invariant
                        i < left@.len(),
                        j <= right@.len(),
                        left@[i as int].str_field(key_field@) == Some(kv),
                        k@ == kv,
                        out@.len() == pre.len() + matches_of(right@, key_field@, kv, j as int).len(),
                        forall|t: int|
                            0 <= t < out@.len() ==> {
                                let p = (pre + matches_of(right@, key_field@, kv, j as int).map_values(
                                    |ri: int| (i as int, ri),
                                ))[t];
                                let l = left@[p.0];
                                let rr = right@[p.1];
                                l is Object && rr is Object ==> is_merge(
                                    #[trigger] out@[t],
                                    l->Object_0@,
                                    rr->Object_0@,
                                    key_field@,
                                )
                            },
                    decreases right@.len() - j,
                {
                    let ghost m0 = matches_of(right@, key_field@, kv, j as int);
                    let is_match = match right[j].get(key_field) {
                        Some(Value::Str(rk)) => text_eq(rk.as_str(), k.as_str()),
                        _ => false,
                    };
                    assert(is_match == (right@[j as int].str_field(key_field@) == Some(kv)));
                    assert(matches_of(right@, key_field@, kv, j + 1) == if right@[j as int].str_field(
                        key_field@,
                    ) == Some(kv) {
                        m0.push(j as int)
                    } else {
                        m0
                    });
                    if is_match {
                        let ghost before = out@;
                        let m = merge_records(&left[i], &right[j], key_field);
                        out.push(m);
                        proof {
                            let s0 = pre + m0.map_values(|ri: int| (i as int, ri));
                            let s1 = pre + matches_of(right@, key_field@, kv, j + 1).map_values(
                                |ri: int| (i as int, ri),
                            );
                            assert(s1 =~= s0.push((i as int, j as int)));
                            assert forall|t: int| 0 <= t < out@.len() implies {
                                let p = s1[t];
                                let l = left@[p.0];
                                let rr = right@[p.1];
                                l is Object && rr is Object ==> is_merge(
                                    #[trigger] out@[t],
                                    l->Object_0@,
                                    rr->Object_0@,
                                    key_field@,
                                )
                            } by {
                                if t < before.len() {
                                    assert(s1[t] == s0[t]);
                                    assert(out@[t] == before[t]);
                                }
                            }
                        }
                    } else {
                        proof {
                            assert(matches_of(right@, key_field@, kv, j + 1) == m0);
                        }
                    }
                    j += 1;
                }
                proof {
                    let s = pre + matches_of(right@, key_field@, kv, right@.len() as int).map_values(
                        |ri: int| (i as int, ri),
                    );
                    assert(join_pairs(left@.take(i + 1), right@, key_field@) =~= s);
                }
            },
            _ => {
                proof {
                    assert(join_pairs(left@.take(i + 1), right@, key_field@) =~= pre);
                }
            },
        }
        i += 1;
    }
    assert(left@.take(left@.len() as int) =~= left@);
    out
}

} // verus!
