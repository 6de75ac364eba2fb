//! Named entries: sequences of `(name, value)` pairs, the shape of a JSON object, of a
//! group's children and of `$extensions`. Lookups take the first entry with the name;
//! the library keeps names unique and, where it inserts, in [`name_lt`] order.

use vstd::prelude::*;

use crate::text::{name_lt, lemma_name_lt_asymmetric, lemma_name_lt_irreflexive, lemma_name_lt_total, lemma_name_lt_transitive};

verus! {

/// The value of the first entry named `k`.
pub open spec fn lookup<V>(s: Seq<(Seq<char>, V)>, k: Seq<char>) -> Option<V>
    decreases s.len(),
{
    if s.len() == 0 {
        None
    } else if s[0].0 == k {
        Some(s[0].1)
    } else {
        lookup(s.drop_first(), k)
    }
}

/// The position of the first entry named `k`, or `s.len()` when there is none.
pub open spec fn position<V>(s: Seq<(Seq<char>, V)>, k: Seq<char>) -> int
    decreases s.len(),
{
    if s.len() == 0 {
        0
    } else if s[0].0 == k {
        0
    } else {
        1 + position(s.drop_first(), k)
    }
}

/// Whether the names strictly increase: sorted, and no name twice.
pub open spec fn sorted<V>(s: Seq<(Seq<char>, V)>) -> bool {
    forall|i: int, j: int| 0 <= i < j < s.len() ==> name_lt(#[trigger] s[i].0, #[trigger] s[j].0)
}

/// `s` with `(k, v)` put in name order: it replaces the entry named `k` if the first
/// entry not before `k` has that name, and goes before that entry otherwise.
pub open spec fn insert_sorted<V>(s: Seq<(Seq<char>, V)>, k: Seq<char>, v: V) -> Seq<(Seq<char>, V)>
    decreases s.len(),
{
    if s.len() == 0 {
        seq![(k, v)]
    } else if s[0].0 == k {
        seq![(k, v)] + s.drop_first()
    } else if name_lt(k, s[0].0) {
        seq![(k, v)] + s
    } else {
        seq![s[0]] + insert_sorted(s.drop_first(), k, v)
    }
}

/// `s` without its first entry named `k`.
pub open spec fn remove_first<V>(s: Seq<(Seq<char>, V)>, k: Seq<char>) -> Seq<(Seq<char>, V)>
    decreases s.len(),
{
    if s.len() == 0 {
        s
    } else if s[0].0 == k {
        s.drop_first()
    } else {
        seq![s[0]] + remove_first(s.drop_first(), k)
    }
}

/// The first entry named `k` is at [`position`], and no earlier entry has that name.
pub proof fn lemma_position<V>(s: Seq<(Seq<char>, V)>, k: Seq<char>)
    ensures
        0 <= position(s, k) <= s.len(),
        forall|j: int| 0 <= j < position(s, k) ==> s[j].0 != k,
        position(s, k) < s.len() ==> s[position(s, k)].0 == k,
        lookup(s, k) == (if position(s, k) < s.len() {
            Some(s[position(s, k)].1)
        } else {
            None
        }),
        remove_first(s, k) == (if position(s, k) < s.len() {
            s.remove(position(s, k))
        } else {
            s
        }),
    decreases s.len(),
{
    if s.len() > 0 && s[0].0 != k {
        let t = s.drop_first();
        lemma_position(t, k);
        assert forall|j: int| 0 <= j < position(s, k) implies s[j].0 != k by {
            if j > 0 {
                assert(s[j] == t[j - 1]);
            }
        }
        if position(t, k) < t.len() {
            assert(seq![s[0]] + t.remove(position(t, k)) =~= s.remove(position(s, k)));
        }
    } else if s.len() > 0 {
        assert(s.drop_first() =~= s.remove(0));
    }
}

/// The position of `k` is found by comparing names one by one.
pub proof fn lemma_position_at<V>(s: Seq<(Seq<char>, V)>, k: Seq<char>, i: int)
    requires
        0 <= i <= s.len(),
        forall|j: int| 0 <= j < i ==> s[j].0 != k,
        i < s.len() ==> s[i].0 == k,
    ensures
        position(s, k) == i,
{
    lemma_position(s, k);
    if position(s, k) < i {
        assert(s[position(s, k)].0 != k);
    }
}

/// Where [`insert_sorted`] puts the entry: after every entry before `k`.
pub proof fn lemma_insert_sorted_at<V>(s: Seq<(Seq<char>, V)>, k: Seq<char>, v: V, i: int)
    requires
        0 <= i <= s.len(),
        forall|j: int| 0 <= j < i ==> name_lt(#[trigger] s[j].0, k),
        i < s.len() ==> !name_lt(s[i].0, k),
    ensures
        insert_sorted(s, k, v) == (if i < s.len() && s[i].0 == k {
            s.take(i) + seq![(k, v)] + s.skip(i + 1)
        } else {
            s.take(i) + seq![(k, v)] + s.skip(i)
        }),
    decreases i,
{
    if i == 0 {
        assert(s.take(0) + seq![(k, v)] + s.skip(1) =~= seq![(k, v)] + s.drop_first());
        assert(s.take(0) + seq![(k, v)] + s.skip(0) =~= seq![(k, v)] + s);
        if s.len() > 0 && s[0].0 != k {
            lemma_name_lt_total(s[0].0, k);
        }
    } else {
        let t = s.drop_first();
        lemma_name_lt_irreflexive(k);
        assert(name_lt(s[0].0, k));
        assert(s[0].0 != k);
        lemma_name_lt_asymmetric(s[0].0, k);
        assert forall|j: int| 0 <= j < i - 1 implies name_lt(#[trigger] t[j].0, k) by {
            assert(t[j] == s[j + 1]);
        }
        lemma_insert_sorted_at(t, k, v, i - 1);
        if i < s.len() && s[i].0 == k {
            assert(seq![s[0]] + (t.take(i - 1) + seq![(k, v)] + t.skip(i)) =~= s.take(i) + seq![(k, v)] + s.skip(i + 1));
        } else {
            assert(seq![s[0]] + (t.take(i - 1) + seq![(k, v)] + t.skip(i - 1)) =~= s.take(i) + seq![(k, v)] + s.skip(i));
        }
    }
}

/// Inserting keeps a sorted sequence sorted, gives `k` the value `v`, and leaves every
/// other name's value as it was.
pub proof fn lemma_insert_sorted<V>(s: Seq<(Seq<char>, V)>, k: Seq<char>, v: V)
    requires
        sorted(s),
    ensures
        sorted(insert_sorted(s, k, v)),
        lookup(insert_sorted(s, k, v), k) == Some(v),
        forall|n: Seq<char>| n != k ==> lookup(#[trigger] insert_sorted(s, k, v), n) == lookup(s, n),
        lookup(s, k) is None ==> insert_sorted(s, k, v).len() == s.len() + 1,
        lookup(s, k) is Some ==> insert_sorted(s, k, v).len() == s.len(),
    decreases s.len(),
{
    let r = insert_sorted(s, k, v);
    if s.len() == 0 {
        assert(r.drop_first() =~= s);
    } else if s[0].0 == k {
        let t = s.drop_first();
        assert forall|i: int, j: int| 0 <= i < j < r.len() implies name_lt(#[trigger] r[i].0, #[trigger] r[j].0) by {
            if i > 0 {
                assert(r[i] == s[i] && r[j] == s[j]);
            } else {
                assert(r[j] == s[j]);
                assert(name_lt(s[0].0, s[j].0));
            }
        }
        assert forall|n: Seq<char>| n != k implies lookup(#[trigger] insert_sorted(s, k, v), n) == lookup(s, n) by {
            assert(r.drop_first() =~= t);
        }
        lemma_sorted_lookup_absent(t, k);
    } else if name_lt(k, s[0].0) {
        assert forall|i: int, j: int| 0 <= i < j < r.len() implies name_lt(#[trigger] r[i].0, #[trigger] r[j].0) by {
            if i > 0 {
                assert(r[i] == s[i - 1] && r[j] == s[j - 1]);
            } else {
                assert(r[j] == s[j - 1]);
                if j > 1 {
                    lemma_name_lt_transitive(k, s[0].0, s[j - 1].0);
                }
            }
        }
        assert forall|n: Seq<char>| n != k implies lookup(#[trigger] insert_sorted(s, k, v), n) == lookup(s, n) by {
            assert(r.drop_first() =~= s);
        }
        lemma_sorted_lookup_absent(s, k);
    } else {
        let t = s.drop_first();
        assert(sorted(t)) by {
            assert forall|i: int, j: int| 0 <= i < j < t.len() implies name_lt(#[trigger] t[i].0, #[trigger] t[j].0) by {
                assert(t[i] == s[i + 1] && t[j] == s[j + 1]);
            }
        }
        lemma_insert_sorted(t, k, v);
        let rt = insert_sorted(t, k, v);
        assert(r == seq![s[0]] + rt);
        lemma_name_lt_total(s[0].0, k);
        assert forall|i: int, j: int| 0 <= i < j < r.len() implies name_lt(#[trigger] r[i].0, #[trigger] r[j].0) by {
            if i > 0 {
                assert(r[i] == rt[i - 1] && r[j] == rt[j - 1]);
            } else {
                assert(r[j] == rt[j - 1]);
                lemma_insert_sorted_members(t, k, v, j - 1);
                if rt[j - 1].0 == k {
                } else {
                    let m = choose|m: int| 0 <= m < t.len() && t[m] == rt[j - 1];
                    assert(t[m] == s[m + 1]);
                }
            }
        }
        assert forall|n: Seq<char>| n != k implies lookup(#[trigger] insert_sorted(s, k, v), n) == lookup(s, n) by {
            assert(r.drop_first() =~= rt);
            assert(r[0] == s[0]);
            assert(lookup(rt, n) == lookup(t, n));
        }
        assert(r.drop_first() =~= rt);
    }
}

/// Every entry of an insertion is the new one or an old one.
pub proof fn lemma_insert_sorted_members<V>(s: Seq<(Seq<char>, V)>, k: Seq<char>, v: V, i: int)
    requires
        0 <= i < insert_sorted(s, k, v).len(),
    ensures
        insert_sorted(s, k, v)[i] == (k, v) || exists|m: int| 0 <= m < s.len() && s[m] == insert_sorted(s, k, v)[i],
    decreases s.len(),
{
    let r = insert_sorted(s, k, v);
    if s.len() == 0 {
    } else if s[0].0 == k {
        if i > 0 {
            assert(r[i] == s[i]);
        }
    } else if name_lt(k, s[0].0) {
        if i > 0 {
            assert(r[i] == s[i - 1]);
        }
    } else {
        if i == 0 {
            assert(r[0] == s[0]);
        } else {
            let t = s.drop_first();
            lemma_insert_sorted_members(t, k, v, i - 1);
            assert(r[i] == insert_sorted(t, k, v)[i - 1]);
            if insert_sorted(t, k, v)[i - 1] != (k, v) {
                let m = choose|m: int| 0 <= m < t.len() && t[m] == insert_sorted(t, k, v)[i - 1];
                assert(s[m + 1] == t[m]);
            }
        }
    }
}

/// In a sorted sequence whose first name comes after `k` (or is missing), `k` is absent.
pub proof fn lemma_sorted_lookup_absent<V>(s: Seq<(Seq<char>, V)>, k: Seq<char>)
    requires
        sorted(s),
        s.len() > 0 ==> name_lt(k, s[0].0),
    ensures
        lookup(s, k) is None,
    decreases s.len(),
{
    if s.len() > 0 {
        lemma_name_lt_irreflexive(k);
        let t = s.drop_first();
        assert(sorted(t)) by {
            assert forall|i: int, j: int| 0 <= i < j < t.len() implies name_lt(#[trigger] t[i].0, #[trigger] t[j].0) by {
                assert(t[i] == s[i + 1] && t[j] == s[j + 1]);
            }
        }
        if t.len() > 0 {
            assert(name_lt(s[0].0, s[1].0));
            lemma_name_lt_transitive(k, s[0].0, t[0].0);
        }
        lemma_sorted_lookup_absent(t, k);
    }
}

/// Whatever the order of `s`, the inserted entry is the first named `k`.
pub proof fn lemma_insert_sorted_lookup<V>(s: Seq<(Seq<char>, V)>, k: Seq<char>, v: V)
    ensures
        lookup(insert_sorted(s, k, v), k) == Some(v),
    decreases s.len(),
{
    let r = insert_sorted(s, k, v);
    if s.len() > 0 && s[0].0 != k && !name_lt(k, s[0].0) {
        lemma_insert_sorted_lookup(s.drop_first(), k, v);
        assert(r.drop_first() =~= insert_sorted(s.drop_first(), k, v));
    }
}

/// Putting `(k, v)` in changes no lookup of another name.
pub proof fn lemma_insert_sorted_other<V>(s: Seq<(Seq<char>, V)>, k: Seq<char>, v: V, n: Seq<char>)
    requires
        n != k,
    ensures
        lookup(insert_sorted(s, k, v), n) == lookup(s, n),
    decreases s.len(),
{
    let r = insert_sorted(s, k, v);
    if s.len() == 0 {
        assert(r.drop_first() =~= s);
    } else {
        if s[0].0 == k {
            assert(r.drop_first() =~= s.drop_first());
        } else if name_lt(k, s[0].0) {
            assert(r.drop_first() =~= s);
        } else {
            lemma_insert_sorted_other(s.drop_first(), k, v, n);
            assert(r.drop_first() =~= insert_sorted(s.drop_first(), k, v));
        }
    }
}

/// Taking out the first entry named `k` changes no lookup of another name.
pub proof fn lemma_remove_first_other<V>(s: Seq<(Seq<char>, V)>, k: Seq<char>, n: Seq<char>)
    requires
        n != k,
    ensures
        lookup(remove_first(s, k), n) == lookup(s, n),
    decreases s.len(),
{
    if s.len() > 0 && s[0].0 != k {
        let r = remove_first(s, k);
        lemma_remove_first_other(s.drop_first(), k, n);
        assert(r.drop_first() =~= remove_first(s.drop_first(), k));
    }
}

} // verus!
