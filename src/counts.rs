//! Key → sum accumulation kept sorted by key, and the two-column text that
//! the reducer writes.
use vstd::prelude::*;
use crate::text::{chars_of, chars_eq};

verus! {

/// Strict lexicographic order on texts, character by character (the order
/// of `str`'s `Ord`).
pub open spec fn lex_lt(a: Seq<char>, b: Seq<char>) -> bool
    decreases a.len(),
{
    if a.len() == 0 {
        b.len() > 0
    } else if b.len() == 0 {
        false
    } else if a[0] != b[0] {
        (a[0] as int) < (b[0] as int)
    } else {
        lex_lt(a.drop_first(), b.drop_first())
    }
}

pub proof fn lemma_lex_irreflexive(a: Seq<char>)
    ensures
        !lex_lt(a, a),
    decreases a.len(),
{
    if a.len() > 0 {
        lemma_lex_irreflexive(a.drop_first());
    }
}

pub proof fn lemma_lex_transitive(a: Seq<char>, b: Seq<char>, c: Seq<char>)
    requires
        lex_lt(a, b),
        lex_lt(b, c),
    ensures
        lex_lt(a, c),
    decreases a.len(),
{
    if a.len() > 0 && b.len() > 0 && c.len() > 0 && a[0] == b[0] && b[0] == c[0] {
        lemma_lex_transitive(a.drop_first(), b.drop_first(), c.drop_first());
    } else if a.len() > 0 && c.len() > 0 && a[0] == c[0] {
        // a[0] < b[0] < c[0] or similar contradicts a[0] == c[0]
        assert((a[0] as int) == (c[0] as int));
    }
}

pub proof fn lemma_lex_total(a: Seq<char>, b: Seq<char>)
    requires
        a != b,
    ensures
        lex_lt(a, b) || lex_lt(b, a),
    decreases a.len(),
{
    if a.len() > 0 && b.len() > 0 {
        if a[0] == b[0] {
            if a.drop_first() == b.drop_first() {
                assert(a =~= seq![a[0]] + a.drop_first());
                assert(b =~= seq![b[0]] + b.drop_first());
            }
            lemma_lex_total(a.drop_first(), b.drop_first());
        } else {
            assert((a[0] as int) != (b[0] as int));
        }
    } else if a.len() == 0 && b.len() == 0 {
        assert(a =~= b);
    }
}

pub proof fn lemma_lex_asymmetric(a: Seq<char>, b: Seq<char>)
    requires
        lex_lt(a, b),
    ensures
        !lex_lt(b, a),
{
    if lex_lt(b, a) {
        lemma_lex_transitive(a, b, a);
        lemma_lex_irreflexive(a);
    }
}

/// Whether `a` sorts strictly before `b`.
pub fn lex_less(a: &Vec<char>, b: &Vec<char>) -> (r: bool)
    ensures
        r == lex_lt(a@, b@),
{
    let mut i: usize = 0;
    assert(a@.skip(0) =~= a@);
    assert(b@.skip(0) =~= b@);
    while i < a.len() && i < b.len() && a[i] == b[i]
        invariant
            i <= a@.len(),
            i <= b@.len(),
            lex_lt(a@, b@) == lex_lt(a@.skip(i as int), b@.skip(i as int)),
        decreases a@.len() - i,
    {
        assert(a@.skip(i as int).drop_first() =~= a@.skip(i + 1));
        assert(b@.skip(i as int).drop_first() =~= b@.skip(i + 1));
        i += 1;
    }
    if i == a.len() {
        i < b.len()
    } else if i == b.len() {
        false
    } else {
        assert(a@.skip(i as int)[0] == a@[i as int]);
        assert(b@.skip(i as int)[0] == b@[i as int]);
        a[i] < b[i]
    }
}

/// How much the pairs of `ps` with key `k` add up to.
pub open spec fn sum_for(ps: Seq<(Seq<char>, nat)>, k: Seq<char>) -> nat
    decreases ps.len(),
{
    if ps.len() == 0 {
        0
    } else {
        sum_for(ps.drop_last(), k) + if ps.last().0 == k {
            ps.last().1
        } else {
            0nat
        }
    }
}

/// Whether some pair of `ps` has key `k`.
pub open spec fn has_key(ps: Seq<(Seq<char>, nat)>, k: Seq<char>) -> bool {
    exists|j: int| 0 <= j < ps.len() && ps[j].0 == k
}

/// The keys of `e` are strictly increasing.
pub open spec fn sorted_keys(e: Seq<(String, u64)>) -> bool {
    forall|i: int, j: int| 0 <= i < j < e.len() ==> lex_lt(e[i].0@, e[j].0@)
}

/// Whether some entry of `e` has key `k`.
pub open spec fn entry_for(e: Seq<(String, u64)>, k: Seq<char>) -> bool {
    exists|i: int| 0 <= i < e.len() && e[i].0@ == k
}

/// `e` holds, sorted by key and once per key, the sum of every key of `ps`.
pub open spec fn represents(e: Seq<(String, u64)>, ps: Seq<(Seq<char>, nat)>) -> bool {
    &&& sorted_keys(e)
    &&& forall|k: Seq<char>| #[trigger] entry_for(e, k) <==> has_key(ps, k)
    &&& forall|i: int| 0 <= i < e.len() ==> #[trigger] e[i].1 == sum_for(ps, e[i].0@)
}

/// The pairs that the entries of `e` stand for, one per entry.
pub open spec fn entry_pairs(e: Seq<(String, u64)>) -> Seq<(Seq<char>, nat)> {
    e.map_values(|x: (String, u64)| (x.0@, x.1 as nat))
}

pub proof fn lemma_sum_concat(a: Seq<(Seq<char>, nat)>, b: Seq<(Seq<char>, nat)>, k: Seq<char>)
    ensures
        sum_for(a + b, k) == sum_for(a, k) + sum_for(b, k),
    decreases b.len(),
{
    if b.len() == 0 {
        assert(a + b =~= a);
    } else {
        assert((a + b).drop_last() =~= a + b.drop_last());
        lemma_sum_concat(a, b.drop_last(), k);
    }
}

pub proof fn lemma_sum_absent(ps: Seq<(Seq<char>, nat)>, k: Seq<char>)
    requires
        !has_key(ps, k),
    ensures
        sum_for(ps, k) == 0,
    decreases ps.len(),
{
    if ps.len() > 0 {
        assert(!has_key(ps.drop_last(), k)) by {
            if has_key(ps.drop_last(), k) {
                let j = choose|j: int| 0 <= j < ps.drop_last().len() && ps.drop_last()[j].0 == k;
                assert(ps[j].0 == k);
            }
        }
        lemma_sum_absent(ps.drop_last(), k);
    }
}

/// Adds `v` to key `key` in the sorted entries `e`.
pub fn add_entry(e: &mut Vec<(String, u64)>, key: String, v: u64, Ghost(ps): Ghost<
    Seq<(Seq<char>, nat)>,
>)
    requires
        represents(old(e)@, ps),
        sum_for(ps, key@) + v <= u64::MAX,
    ensures
        represents(final(e)@, ps.push((key@, v as nat))),
        final(e)@.len() <= old(e)@.len() + 1,
        entry_for(old(e)@, key@) ==> final(e)@.len() == old(e)@.len(),
        !entry_for(old(e)@, key@) ==> final(e)@.len() == old(e)@.len() + 1,
{
    let ghost e0 = e@;
    let ghost ps1 = ps.push((key@, v as nat));
    let kc = chars_of(key.as_str());
    let mut i: usize = 0;
    while i < e.len()
        invariant
            e@ == e0,
            kc@ == key@,
            i <= e0.len(),
            forall|j: int| 0 <= j < i ==> lex_lt(#[trigger] e0[j].0@, key@),
        ensures
            i <= e0.len(),
            forall|j: int| 0 <= j < i ==> lex_lt(#[trigger] e0[j].0@, key@),
            i < e0.len() ==> !lex_lt(e0[i as int].0@, key@),
        decreases e0.len() - i,
    {
        let ec = chars_of(e[i].0.as_str());
        if !lex_less(&ec, &kc) {
            break;
        }
        i += 1;
    }
    assert(ps1.drop_last() =~= ps);
    let found = if i < e.len() {
        let ec = chars_of(e[i].0.as_str());
        chars_eq(&ec, &kc)
    } else {
        false
    };
    if found {
        let old_v = e[i].1;
        proof {
            assert(e0[i as int].1 == sum_for(ps, key@));
        }
        e.set(i, (key, old_v + v));
        proof {
            assert forall|k: Seq<char>| #[trigger] entry_for(e@, k) <==> has_key(ps1, k) by {
                if entry_for(e@, k) {
                    let m = choose|m: int| 0 <= m < e@.len() && e@[m].0@ == k;
                    assert(entry_for(e0, k));
                    let j = choose|j: int| 0 <= j < ps.len() && ps[j].0 == k;
                    assert(ps1[j].0 == k);
                }
                if has_key(ps1, k) {
                    let j = choose|j: int| 0 <= j < ps1.len() && ps1[j].0 == k;
                    if j < ps.len() {
                        assert(ps[j].0 == k);
                        assert(has_key(ps, k));
                        assert(entry_for(e0, k));
                        let m = choose|m: int| 0 <= m < e0.len() && e0[m].0@ == k;
                        assert(e@[m].0@ == k);
                    } else {
                        assert(e@[i as int].0@ == k);
                    }
                }
            }
        }
    } else {
        proof {
            if i < e0.len() {
                lemma_lex_total(e0[i as int].0@, key@);
            }
            assert(!entry_for(e0, key@)) by {
                if entry_for(e0, key@) {
                    let m = choose|m: int| 0 <= m < e0.len() && e0[m].0@ == key@;
                    if m < i {
                        lemma_lex_irreflexive(key@);
                    } else if m > i {
                        assert(lex_lt(e0[i as int].0@, e0[m].0@));
                        lemma_lex_transitive(key@, e0[i as int].0@, e0[m].0@);
                        lemma_lex_irreflexive(key@);
                    }
                }
            }
            assert(!has_key(ps, key@));
            lemma_sum_absent(ps, key@);
        }
        e.insert(i, (key, v));
        proof {
            assert forall|a: int, b: int| 0 <= a < b < e@.len() implies lex_lt(
                e@[a].0@,
                e@[b].0@,
            ) by {
                if b == i {
                    assert(lex_lt(e0[a].0@, key@));
                } else if a == i {
                    let bb = b - 1;
                    if bb > i {
                        assert(lex_lt(e0[i as int].0@, e0[bb].0@));
                        lemma_lex_transitive(key@, e0[i as int].0@, e0[bb].0@);
                    }
                } else {
                    let aa = if a < i {
                        a
                    } else {
                        a - 1
                    };
                    let bb = if b < i {
                        b
                    } else {
                        b - 1
                    };
                    assert(lex_lt(e0[aa].0@, e0[bb].0@));
                }
            }
            assert forall|k: Seq<char>| #[trigger] entry_for(e@, k) <==> has_key(ps1, k) by {
                if entry_for(e@, k) {
                    let m = choose|m: int| 0 <= m < e@.len() && e@[m].0@ == k;
                    if m == i {
                        assert(ps1[ps.len() as int].0 == k);
                    } else {
                        let mm = if m < i {
                            m
                        } else {
                            m - 1
                        };
                        assert(e0[mm].0@ == k);
                        assert(entry_for(e0, k));
                        let j = choose|j: int| 0 <= j < ps.len() && ps[j].0 == k;
                        assert(ps1[j].0 == k);
                    }
                }
                if has_key(ps1, k) {
                    let j = choose|j: int| 0 <= j < ps1.len() && ps1[j].0 == k;
                    if j < ps.len() {
                        assert(ps[j].0 == k);
                        assert(has_key(ps, k));
                        assert(entry_for(e0, k));
                        let m = choose|m: int| 0 <= m < e0.len() && e0[m].0@ == k;
                        let mm = if m < i {
                            m
                        } else {
                            m + 1
                        };
                        assert(e@[mm].0@ == k);
                    } else {
                        assert(e@[i as int].0@ == k);
                    }
                }
            }
            assert forall|m: int| 0 <= m < e@.len() implies #[trigger] e@[m].1 == sum_for(
                ps1,
                e@[m].0@,
            ) by {
                if m != i {
                    let mm = if m < i {
                        m
                    } else {
                        m - 1
                    };
                    assert(e@[m] == e0[mm]);
                    if e0[mm].0@ == key@ {
                        assert(entry_for(e0, key@));
                    }
                }
            }
        }
    }
}

/// Two strictly increasing key sequences with the same members are equal.
pub proof fn lemma_sorted_unique(a: Seq<Seq<char>>, b: Seq<Seq<char>>)
    requires
        forall|i: int, j: int| 0 <= i < j < a.len() ==> lex_lt(a[i], a[j]),
        forall|i: int, j: int| 0 <= i < j < b.len() ==> lex_lt(b[i], b[j]),
        forall|k: Seq<char>| a.contains(k) <==> b.contains(k),
    ensures
        a == b,
    decreases a.len() + b.len(),
{
    if a.len() == 0 {
        if b.len() > 0 {
            assert(b.contains(b[0]));
        }
        assert(a =~= b);
    } else if b.len() == 0 {
        assert(a.contains(a[0]));
    } else {
        assert(a.contains(a[0]));
        assert(b.contains(b[0]));
        let ia = choose|i: int| 0 <= i < a.len() && a[i] == b[0];
        let ib = choose|i: int| 0 <= i < b.len() && b[i] == a[0];
        if a[0] != b[0] {
            assert(ia > 0 && ib > 0);
            assert(lex_lt(a[0], a[ia]));
            assert(lex_lt(b[0], b[ib]));
            lemma_lex_asymmetric(a[0], b[0]);
        }
        let a1 = a.drop_first();
        let b1 = b.drop_first();
        assert forall|k: Seq<char>| a1.contains(k) <==> b1.contains(k) by {
            if a1.contains(k) {
                let i = choose|i: int| 0 <= i < a1.len() && a1[i] == k;
                assert(a[i + 1] == k);
                assert(lex_lt(a[0], a[i + 1]));
                assert(b.contains(k));
                let j = choose|j: int| 0 <= j < b.len() && b[j] == k;
                if j == 0 {
                    lemma_lex_irreflexive(k);
                }
                assert(b1[j - 1] == k);
            }
            if b1.contains(k) {
                let i = choose|i: int| 0 <= i < b1.len() && b1[i] == k;
                assert(b[i + 1] == k);
                assert(lex_lt(b[0], b[i + 1]));
                assert(a.contains(k));
                let j = choose|j: int| 0 <= j < a.len() && a[j] == k;
                if j == 0 {
                    lemma_lex_irreflexive(k);
                }
                assert(a1[j - 1] == k);
            }
        }
        lemma_sorted_unique(a1, b1);
        assert(a =~= seq![a[0]] + a1);
        assert(b =~= seq![b[0]] + b1);
    }
}

/// The keys of `e`.
pub open spec fn entry_keys(e: Seq<(String, u64)>) -> Seq<Seq<char>> {
    e.map_values(|x: (String, u64)| x.0@)
}

/// Entries that represent the same pairs stand for the same (key, sum)
/// sequence.
pub proof fn lemma_represents_unique(e1: Seq<(String, u64)>, e2: Seq<(String, u64)>, ps: Seq<(Seq<char>, nat)>)
    requires
        represents(e1, ps),
        represents(e2, ps),
    ensures
        entry_pairs(e1) == entry_pairs(e2),
{
    let a = entry_keys(e1);
    let b = entry_keys(e2);
    assert forall|k: Seq<char>| a.contains(k) <==> b.contains(k) by {
        if a.contains(k) {
            let i = choose|i: int| 0 <= i < a.len() && a[i] == k;
            assert(entry_for(e1, k));
            assert(entry_for(e2, k));
            let j = choose|j: int| 0 <= j < e2.len() && e2[j].0@ == k;
            assert(b[j] == k);
        }
        if b.contains(k) {
            let i = choose|i: int| 0 <= i < b.len() && b[i] == k;
            assert(entry_for(e2, k));
            assert(entry_for(e1, k));
            let j = choose|j: int| 0 <= j < e1.len() && e1[j].0@ == k;
            assert(a[j] == k);
        }
    }
    lemma_sorted_unique(a, b);
    assert(a.len() == b.len());
    assert forall|i: int| 0 <= i < e1.len() implies entry_pairs(e1)[i] == entry_pairs(e2)[i] by {
        assert(a[i] == b[i]);
        assert(e1[i].1 == sum_for(ps, e1[i].0@));
        assert(e2[i].1 == sum_for(ps, e2[i].0@));
    }
    assert(entry_pairs(e1) =~= entry_pairs(e2));
}

/// The reduction of `ps`: its keys in increasing order, each once, with
/// its sum.
pub open spec fn reduction(ps: Seq<(Seq<char>, nat)>) -> Seq<(Seq<char>, nat)> {
    let e = choose|e: Seq<(String, u64)>| represents(e, ps);
    entry_pairs(e)
}

pub proof fn lemma_reduction(e: Seq<(String, u64)>, ps: Seq<(Seq<char>, nat)>)
    requires
        represents(e, ps),
    ensures
        entry_pairs(e) == reduction(ps),
{
    let c = choose|e: Seq<(String, u64)>| represents(e, ps);
    lemma_represents_unique(e, c, ps);
}

/// Summing the entries of `e` as pairs gives, for every key, what summing
/// the pairs they represent gives.
pub proof fn lemma_entry_pairs_sum(e: Seq<(String, u64)>, ps: Seq<(Seq<char>, nat)>, k: Seq<char>)
    requires
        represents(e, ps),
    ensures
        sum_for(entry_pairs(e), k) == sum_for(ps, k),
        has_key(entry_pairs(e), k) <==> has_key(ps, k),
{
    lemma_entries_sum(e, k);
    if entry_for(e, k) {
        let i = choose|i: int| 0 <= i < e.len() && e[i].0@ == k;
        assert(entry_pairs(e)[i].0 == k);
    } else {
        lemma_sum_absent(ps, k);
    }
    if has_key(entry_pairs(e), k) {
        let j = choose|j: int| 0 <= j < entry_pairs(e).len() && entry_pairs(e)[j].0 == k;
        assert(e[j].0@ == k);
    }
}

proof fn lemma_entries_sum(e: Seq<(String, u64)>, k: Seq<char>)
    requires
        sorted_keys(e),
    ensures
        forall|i: int| 0 <= i < e.len() && e[i].0@ == k ==> sum_for(entry_pairs(e), k) == e[i].1,
        !entry_for(e, k) ==> sum_for(entry_pairs(e), k) == 0,
    decreases e.len(),
{
    if e.len() > 0 {
        let e1 = e.drop_last();
        lemma_entries_sum(e1, k);
        assert(entry_pairs(e).drop_last() =~= entry_pairs(e1));
        let n = e.len() - 1;
        if e[n].0@ == k {
            assert forall|i: int| 0 <= i < e1.len() implies e1[i].0@ != k by {
                assert(lex_lt(e[i].0@, e[n].0@));
                lemma_lex_irreflexive(k);
            }
        }
        if !entry_for(e, k) {
            assert(!entry_for(e1, k)) by {
                if entry_for(e1, k) {
                    let i = choose|i: int| 0 <= i < e1.len() && e1[i].0@ == k;
                    assert(e[i].0@ == k);
                }
            }
        }
        assert forall|i: int| 0 <= i < e.len() && e[i].0@ == k implies sum_for(entry_pairs(e), k)
            == e[i].1 by {
            if i < n {
                assert(e1[i].0@ == k);
                if e[n].0@ == k {
                    assert(lex_lt(e[i].0@, e[n].0@));
                    lemma_lex_irreflexive(k);
                }
            }
        }
    }
}

/// The character of decimal digit `d`.
pub open spec fn digit(d: nat) -> char {
    if d == 0 {
        '0'
    } else if d == 1 {
        '1'
    } else if d == 2 {
        '2'
    } else if d == 3 {
        '3'
    } else if d == 4 {
        '4'
    } else if d == 5 {
        '5'
    } else if d == 6 {
        '6'
    } else if d == 7 {
        '7'
    } else if d == 8 {
        '8'
    } else {
        '9'
    }
}

/// The decimal digits of `n`, most significant first, without leading
/// zeros.
pub open spec fn decimal(n: nat) -> Seq<char>
    decreases n,
{
    if n < 10 {
        seq![digit(n)]
    } else {
        decimal(n / 10).push(digit(n % 10))
    }
}

pub proof fn lemma_decimal_len(n: nat)
    ensures
        decimal(n).len() >= 1,
        n >= 10 ==> decimal(n).len() >= 2,
    decreases n,
{
    if n >= 10 {
        lemma_decimal_len(n / 10);
    }
}

/// Different numbers have different decimal texts.
pub proof fn lemma_decimal_injective(a: nat, b: nat)
    requires
        decimal(a) == decimal(b),
    ensures
        a == b,
    decreases a,
{
    lemma_decimal_len(a);
    lemma_decimal_len(b);
    if a < 10 && b < 10 {
        assert(decimal(a)[0] == digit(a));
        assert(decimal(b)[0] == digit(b));
    } else if a >= 10 && b >= 10 {
        let da = decimal(a / 10);
        let db = decimal(b / 10);
        assert(decimal(a) == da.push(digit(a % 10)));
        assert(decimal(b) == db.push(digit(b % 10)));
        assert(da.push(digit(a % 10)).last() == digit(a % 10));
        assert(db.push(digit(b % 10)).last() == digit(b % 10));
        assert(da.push(digit(a % 10)).drop_last() =~= da);
        assert(db.push(digit(b % 10)).drop_last() =~= db);
        lemma_decimal_injective(a / 10, b / 10);
        assert(a % 10 == b % 10);
    }
}

fn digit_char(d: u64) -> (r: char)
    requires
        d < 10,
    ensures
        r == digit(d as nat),
{
    if d == 0 {
        '0'
    } else if d == 1 {
        '1'
    } else if d == 2 {
        '2'
    } else if d == 3 {
        '3'
    } else if d == 4 {
        '4'
    } else if d == 5 {
        '5'
    } else if d == 6 {
        '6'
    } else if d == 7 {
        '7'
    } else if d == 8 {
        '8'
    } else {
        '9'
    }
}

/// Appends the decimal digits of `n` to `out`.
pub fn push_decimal(out: &mut Vec<char>, n: u64)
    ensures
        final(out)@ == old(out)@ + decimal(n as nat),
    decreases n,
{
    if n >= 10 {
        push_decimal(out, n / 10);
    }
    out.push(digit_char(n % 10));
    assert(final(out)@ =~= old(out)@ + decimal(n as nat)) by {
        if n >= 10 {
            assert(decimal(n as nat) == decimal((n / 10) as nat).push(digit((n % 10) as nat)));
        }
    }
}

/// One line of the two-column output: `<key>,<value>` and a newline.
pub open spec fn two_column_line(k: Seq<char>, v: nat) -> Seq<char> {
    k + seq![','] + decimal(v) + seq!['\n']
}

/// The two-column text of `e`, one line per entry, in order.
pub open spec fn two_column(e: Seq<(Seq<char>, nat)>) -> Seq<char>
    decreases e.len(),
{
    if e.len() == 0 {
        Seq::empty()
    } else {
        two_column(e.drop_last()) + two_column_line(e.last().0, e.last().1)
    }
}

/// The two-column text of the entries `e`.
pub fn two_column_text(e: &Vec<(String, u64)>) -> (r: String)
    ensures
        r@ == two_column(entry_pairs(e@)),
{
    let mut out: Vec<char> = Vec::new();
    let mut i: usize = 0;
    while i < e.len()
        invariant
            i <= e@.len(),
            out@ == two_column(entry_pairs(e@.take(i as int))),
        decreases e@.len() - i,
    {
        let ghost before = out@;
        let mut k = chars_of(e[i].0.as_str());
        out.append(&mut k);
        out.push(',');
        push_decimal(&mut out, e[i].1);
        out.push('\n');
        proof {
            let p = entry_pairs(e@.take(i + 1));
            assert(p.drop_last() =~= entry_pairs(e@.take(i as int)));
            assert(p.last() == (e@[i as int].0@, e@[i as int].1 as nat));
            assert(out@ =~= before + two_column_line(e@[i as int].0@, e@[i as int].1 as nat));
        }
        i += 1;
    }
    assert(e@.take(e@.len() as int) =~= e@);
    crate::text::string_from_chars(&out)
}

} // verus!
