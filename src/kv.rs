use vstd::prelude::*;

verus! {

/// A persisted key-value set, as character sequences, in file order.
pub type KvModel = Seq<(Seq<char>, Seq<char>)>;

/// The model of a vector of key-value pairs.
pub open spec fn kv_view(kv: Seq<(String, String)>) -> KvModel {
    kv.map_values(|p: (String, String)| (p.0@, p.1@))
}

/// The keys of a key-value set, in order.
pub open spec fn keys_of(kv: KvModel) -> Seq<Seq<char>> {
    kv.map_values(|p: (Seq<char>, Seq<char>)| p.0)
}

/// Index of the first occurrence of `x` in `s`, or -1.
pub open spec fn first_index(s: Seq<Seq<char>>, x: Seq<char>) -> int
    decreases s.len(),
{
    if s.len() == 0 {
        -1
    } else {
        let p = first_index(s.drop_last(), x);
        if p >= 0 {
            p
        } else if s.last() == x {
            s.len() - 1
        } else {
            -1
        }
    }
}

/// The value of the first pair with key `k`.
pub open spec fn lookup(kv: KvModel, k: Seq<char>) -> Option<Seq<char>> {
    let p = first_index(keys_of(kv), k);
    if p >= 0 {
        Some(kv[p].1)
    } else {
        None
    }
}

/// Sets the value of the first pair with key `k`, in place; appends the
/// pair when no key matches.
pub open spec fn upsert(kv: KvModel, k: Seq<char>, v: Seq<char>) -> KvModel {
    let p = first_index(keys_of(kv), k);
    if p >= 0 {
        kv.update(p, (k, v))
    } else {
        kv.push((k, v))
    }
}

/// Removes every pair with key `k`, keeping the order of the others.
pub open spec fn remove_key(kv: KvModel, k: Seq<char>) -> KvModel
    decreases kv.len(),
{
    if kv.len() == 0 {
        kv
    } else {
        let r = remove_key(kv.drop_last(), k);
        if kv.last().0 == k {
            r
        } else {
            r.push(kv.last())
        }
    }
}

/// Upserts each key of `ks`, in order, with value `v`.
pub open spec fn upsert_all(kv: KvModel, ks: Seq<Seq<char>>, v: Seq<char>) -> KvModel
    decreases ks.len(),
{
    if ks.len() == 0 {
        kv
    } else {
        upsert(upsert_all(kv, ks.drop_last(), v), ks.last(), v)
    }
}

/// `first_index` finds the first occurrence, and only when there is one.
pub proof fn lemma_first_index(s: Seq<Seq<char>>, x: Seq<char>)
    ensures
        -1 <= first_index(s, x) < s.len(),
        first_index(s, x) >= 0 ==> s[first_index(s, x)] == x,
        forall|i: int| 0 <= i < s.len() && i < first_index(s, x) ==> s[i] != x,
        first_index(s, x) == -1 ==> forall|i: int| 0 <= i < s.len() ==> s[i] != x,
    decreases s.len(),
{
    if s.len() > 0 {
        lemma_first_index(s.drop_last(), x);
        assert forall|i: int| 0 <= i < s.len() - 1 implies s[i] == s.drop_last()[i] by {}
    }
}

/// An index holding `x` with no `x` before it is the first index.
pub proof fn lemma_first_index_is(s: Seq<Seq<char>>, x: Seq<char>, q: int)
    requires
        0 <= q < s.len(),
        s[q] == x,
        forall|i: int| 0 <= i < q ==> s[i] != x,
    ensures
        first_index(s, x) == q,
{
    lemma_first_index(s, x);
    let p = first_index(s, x);
    if p == -1 {
        assert(s[q] != x);
    } else if p < q {
        assert(s[p] != x);
    } else if p > q {
        assert(s[q] != x);
    }
}

/// After an upsert, key `k` holds `v` and every other key keeps its value.
pub proof fn lemma_upsert_lookup(kv: KvModel, k: Seq<char>, v: Seq<char>, d: Seq<char>)
    ensures
        lookup(upsert(kv, k, v), d) == if d == k { Some(v) } else { lookup(kv, d) },
{
    let ks = keys_of(kv);
    let u = upsert(kv, k, v);
    let us = keys_of(u);
    lemma_first_index(ks, k);
    lemma_first_index(ks, d);
    let p = first_index(ks, k);
    let q = first_index(ks, d);
    if p >= 0 {
        assert(us =~= ks);
        assert(u[p] == (k, v));
        if d == k {
        } else if q >= 0 {
            assert(u[q] == kv[q]);
        }
    } else {
        assert(us =~= ks.push(k));
        if d == k {
            lemma_first_index_is(us, k, ks.len() as int);
        } else if q >= 0 {
            lemma_first_index_is(us, d, q);
        } else {
            lemma_first_index(us, d);
            if first_index(us, d) >= 0 {
                assert(us[first_index(us, d)] == d);
            }
        }
    }
}

/// Removing key `k` leaves no pair with that key and every other key with
/// its value.
pub proof fn lemma_remove_lookup(kv: KvModel, k: Seq<char>, d: Seq<char>)
    ensures
        lookup(remove_key(kv, k), d) == if d == k { None } else { lookup(kv, d) },
    decreases kv.len(),
{
    if kv.len() > 0 {
        let k0 = kv.drop_last();
        let r0 = remove_key(k0, k);
        lemma_remove_lookup(k0, k, d);
        assert(keys_of(kv).drop_last() =~= keys_of(k0));
        lemma_first_index(keys_of(k0), d);
        lemma_first_index(keys_of(r0), d);
        if kv.last().0 != k {
            let r = r0.push(kv.last());
            assert(keys_of(r).drop_last() =~= keys_of(r0));
            lemma_first_index(keys_of(r), d);
        }
    }
}

/// Upserting the same pair twice gives what upserting it once gives.
pub proof fn lemma_upsert_twice(kv: KvModel, k: Seq<char>, v: Seq<char>)
    ensures
        upsert(upsert(kv, k, v), k, v) == upsert(kv, k, v),
{
    let ks = keys_of(kv);
    let u = upsert(kv, k, v);
    lemma_first_index(ks, k);
    let p = first_index(ks, k);
    if p >= 0 {
        assert(keys_of(u) =~= ks);
        assert(u.update(p, (k, v)) =~= u);
    } else {
        assert(keys_of(u) =~= ks.push(k));
        lemma_first_index_is(keys_of(u), k, ks.len() as int);
        assert(u.update(ks.len() as int, (k, v)) =~= u);
    }
}

/// Index of the first pair with key `k`.
pub fn find_key(kv: &Vec<(String, String)>, k: &String) -> (r: Option<usize>)
    ensures
        r matches Some(p) ==> p == first_index(keys_of(kv_view(kv@)), k@),
        r is None ==> first_index(keys_of(kv_view(kv@)), k@) == -1,
{
    let ghost ks = keys_of(kv_view(kv@));
    let mut i: usize = 0;
    while i < kv.len()
        invariant
            i <= kv@.len(),
            ks == keys_of(kv_view(kv@)),
            forall|t: int| 0 <= t < i ==> ks[t] != k@,
        decreases kv@.len() - i,
    {
        if kv[i].0 == *k {
            proof {
                assert(ks[i as int] == k@);
                lemma_first_index_is(ks, k@, i as int);
            }
            return Some(i);
        }
        assert(ks[i as int] == kv@[i as int].0@);
        i = i + 1;
    }
    proof {
        lemma_first_index(ks, k@);
        if first_index(ks, k@) >= 0 {
            assert(ks[first_index(ks, k@)] == k@);
        }
    }
    None
}

/// Sets the value of the first pair with key `k`, or appends the pair.
pub fn upsert_pair(kv: &mut Vec<(String, String)>, k: &String, v: String)
    ensures
        kv_view(final(kv)@) == upsert(kv_view(old(kv)@), k@, v@),
{
    proof {
        lemma_first_index(keys_of(kv_view(kv@)), k@);
    }
    match find_key(kv, k) {
        Some(p) => {
            kv.set(p, (k.clone(), v));
        },
        None => {
            kv.push((k.clone(), v));
        },
    }
    assert(kv_view(kv@) =~= upsert(kv_view(old(kv)@), k@, v@));
}

/// Removes every pair with key `k`.
pub fn remove_pairs(kv: &mut Vec<(String, String)>, k: &String)
    ensures
        kv_view(final(kv)@) == remove_key(kv_view(old(kv)@), k@),
{
    let mut kept: Vec<(String, String)> = Vec::new();
    let mut i: usize = 0;
    while i < kv.len()
        invariant
            i <= kv@.len(),
            kv@ == old(kv)@,
            kv_view(kept@) == remove_key(kv_view(kv@).take(i as int), k@),
        decreases kv@.len() - i,
    {
        let ghost before = kept@;
        assert(kv_view(kv@).take(i + 1).drop_last() =~= kv_view(kv@).take(i as int));
        if kv[i].0 != *k {
            kept.push((kv[i].0.clone(), kv[i].1.clone()));
            assert(kv_view(kept@) =~= kv_view(before).push(kv_view(kv@)[i as int]));
        }
        i = i + 1;
    }
    assert(kv_view(kv@).take(i as int) =~= kv_view(kv@));
    *kv = kept;
}

} // verus!
