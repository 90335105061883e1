//! Finite maps kept as sequences of key-value pairs with distinct keys,
//! the mathematical model of the SFU's small lookup tables.
use vstd::prelude::*;

verus! {

/// No key occurs twice.
pub open spec fn keys_distinct<K, V>(s: Seq<(K, V)>) -> bool {
    forall|i: int, j: int| 0 <= i < s.len() && 0 <= j < s.len() && i != j ==> s[i].0 != s[j].0
}

/// Some pair has key `k`.
pub open spec fn has_key<K, V>(s: Seq<(K, V)>, k: K) -> bool {
    exists|i: int| 0 <= i < s.len() && s[i].0 == k
}

/// The position of the pair with key `k` (meaningful where there is one).
pub open spec fn key_pos<K, V>(s: Seq<(K, V)>, k: K) -> int {
    choose|i: int| 0 <= i < s.len() && s[i].0 == k
}

/// The value under `k`, if any.
pub open spec fn lookup<K, V>(s: Seq<(K, V)>, k: K) -> Option<V> {
    if has_key(s, k) {
        Some(s[key_pos(s, k)].1)
    } else {
        None
    }
}

/// `s` with `k` mapped to `v`: the old pair is replaced in place, or the
/// new pair goes last.
pub open spec fn map_insert<K, V>(s: Seq<(K, V)>, k: K, v: V) -> Seq<(K, V)> {
    if has_key(s, k) {
        s.update(key_pos(s, k), (k, v))
    } else {
        s.push((k, v))
    }
}

/// Where keys are distinct, the position of a key is the one index that
/// holds it.
pub proof fn lemma_key_pos_unique<K, V>(s: Seq<(K, V)>, k: K, i: int)
    requires
        keys_distinct(s),
        0 <= i < s.len(),
        s[i].0 == k,
    ensures
        key_pos(s, k) == i,
        lookup(s, k) == Some(s[i].1),
{
    let p = key_pos(s, k);
    assert(0 <= p < s.len() && s[p].0 == k);
}

/// Inserting keeps keys distinct, maps the key to the new value and
/// leaves every other key as it was.
pub proof fn lemma_map_insert<K, V>(s: Seq<(K, V)>, k: K, v: V)
    requires
        keys_distinct(s),
    ensures
        keys_distinct(map_insert(s, k, v)),
        lookup(map_insert(s, k, v), k) == Some(v),
        forall|q: K| q != k ==> lookup(#[trigger] map_insert(s, k, v), q) == lookup(s, q),
        forall|q: K| has_key(map_insert(s, k, v), q) <==> (q == k || has_key(s, q)),
{
    let r = map_insert(s, k, v);
    if has_key(s, k) {
        let p = key_pos(s, k);
        assert forall|i: int, j: int| 0 <= i < r.len() && 0 <= j < r.len() && i != j implies r[i].0
            != r[j].0 by {
            if i != p && j != p {
                assert(r[i] == s[i] && r[j] == s[j]);
            } else if i == p {
                assert(r[j] == s[j]);
            } else {
                assert(r[i] == s[i]);
            }
        }
        lemma_key_pos_unique(r, k, p);
        assert forall|q: K| q != k implies lookup(map_insert(s, k, v), q) == lookup(s, q) by {
            if has_key(s, q) {
                let i = key_pos(s, q);
                assert(i != p);
                assert(r[i] == s[i]);
                lemma_key_pos_unique(r, q, i);
            }
            if has_key(r, q) {
                let i = key_pos(r, q);
                assert(i != p);
                assert(r[i] == s[i]);
            }
        }
        assert forall|q: K| has_key(r, q) <==> (q == k || has_key(s, q)) by {
            if has_key(s, q) && q != k {
                let i = key_pos(s, q);
                assert(r[i] == s[i]);
            }
            if has_key(r, q) && q != k {
                let i = key_pos(r, q);
                assert(r[i] == s[i]);
            }
        }
    } else {
        let p = s.len() as int;
        assert forall|i: int, j: int| 0 <= i < r.len() && 0 <= j < r.len() && i != j implies r[i].0
            != r[j].0 by {
            if i != p && j != p {
                assert(r[i] == s[i] && r[j] == s[j]);
            } else if i == p {
                assert(r[j] == s[j]);
            } else {
                assert(r[i] == s[i]);
            }
        }
        lemma_key_pos_unique(r, k, p);
        assert forall|q: K| q != k implies lookup(map_insert(s, k, v), q) == lookup(s, q) by {
            if has_key(s, q) {
                let i = key_pos(s, q);
                assert(r[i] == s[i]);
                lemma_key_pos_unique(r, q, i);
            }
            if has_key(r, q) {
                let i = key_pos(r, q);
                assert(i != p);
                assert(r[i] == s[i]);
            }
        }
        assert forall|q: K| has_key(r, q) <==> (q == k || has_key(s, q)) by {
            if has_key(s, q) && q != k {
                let i = key_pos(s, q);
                assert(r[i] == s[i]);
            }
            if has_key(r, q) && q != k {
                let i = key_pos(r, q);
                assert(r[i] == s[i]);
            }
        }
    }
}

/// Keeping only some pairs keeps keys distinct.
pub proof fn lemma_filter_keys_distinct<K, V>(s: Seq<(K, V)>, pred: spec_fn((K, V)) -> bool)
    requires
        keys_distinct(s),
    ensures
        keys_distinct(s.filter(pred)),
    decreases s.len(),
{
    reveal(Seq::filter);
    if s.len() > 0 {
        let init = s.drop_last();
        assert forall|i: int, j: int|
            0 <= i < init.len() && 0 <= j < init.len() && i != j implies init[i].0 != init[j].0 by {
            assert(init[i] == s[i] && init[j] == s[j]);
        }
        lemma_filter_keys_distinct(init, pred);
        let fi = init.filter(pred);
        if pred(s.last()) {
            let r = s.filter(pred);
            assert(r == fi.push(s.last()));
            assert forall|i: int| 0 <= i < fi.len() implies fi[i].0 != s.last().0 by {
                assert(fi.contains(fi[i]));
                init.lemma_filter_contains_rev(pred, fi[i]);
                assert(init.contains(fi[i]));
                let k = choose|k: int| 0 <= k < init.len() && init[k] == fi[i];
                assert(s[k] == init[k]);
                assert(s.last() == s[s.len() - 1]);
            }
            assert forall|i: int, j: int| 0 <= i < r.len() && 0 <= j < r.len() && i != j implies r[i].0
                != r[j].0 by {
                if i < fi.len() && j < fi.len() {
                    assert(r[i] == fi[i] && r[j] == fi[j]);
                } else if i < fi.len() {
                    assert(r[i] == fi[i]);
                } else {
                    assert(r[j] == fi[j]);
                }
            }
        }
    }
}

/// Removing a pair keeps keys distinct.
pub proof fn lemma_remove_keys_distinct<K, V>(s: Seq<(K, V)>, i: int)
    requires
        keys_distinct(s),
        0 <= i < s.len(),
    ensures
        keys_distinct(s.remove(i)),
{
    let r = s.remove(i);
    assert forall|a: int, b: int| 0 <= a < r.len() && 0 <= b < r.len() && a != b implies r[a].0 != r[b].0 by {
        let a2 = if a < i { a } else { a + 1 };
        let b2 = if b < i { b } else { b + 1 };
        assert(r[a] == s[a2]);
        assert(r[b] == s[b2]);
    }
}

/// `s` without the pair of key `k`.
pub open spec fn map_remove<K, V>(s: Seq<(K, V)>, k: K) -> Seq<(K, V)>
    decreases s.len(),
{
    if s.len() == 0 {
        s
    } else {
        let r = map_remove(s.drop_last(), k);
        if s.last().0 == k {
            r
        } else {
            r.push(s.last())
        }
    }
}

/// Removing a key keeps the other pairs, in order, and keys distinct.
pub proof fn lemma_map_remove<K, V>(s: Seq<(K, V)>, k: K)
    requires
        keys_distinct(s),
    ensures
        keys_distinct(map_remove(s, k)),
        !has_key(map_remove(s, k), k),
        forall|q: K| q != k ==> lookup(#[trigger] map_remove(s, k), q) == lookup(s, q),
        forall|i: int| 0 <= i < map_remove(s, k).len() ==> s.contains(#[trigger] map_remove(s, k)[i]),
    decreases s.len(),
{
    if s.len() > 0 {
        let init = s.drop_last();
        assert forall|i: int, j: int|
            0 <= i < init.len() && 0 <= j < init.len() && i != j implies init[i].0 != init[j].0 by {
            assert(init[i] == s[i] && init[j] == s[j]);
        }
        lemma_map_remove(init, k);
        let rest = map_remove(init, k);
        let r = map_remove(s, k);
        let last = s.len() - 1;
        assert(s[last] == s.last());
        assert forall|i: int| 0 <= i < rest.len() implies s.contains(#[trigger] rest[i]) by {
            let x = choose|x: int| 0 <= x < init.len() && init[x] == rest[i];
            assert(s[x] == init[x]);
        }
        assert forall|i: int| 0 <= i < rest.len() implies rest[i].0 != s.last().0 by {
            let x = choose|x: int| 0 <= x < init.len() && init[x] == rest[i];
            assert(s[x] == init[x]);
        }
        if s.last().0 != k {
            assert(r == rest.push(s.last()));
            assert forall|i: int, j: int| 0 <= i < r.len() && 0 <= j < r.len() && i != j implies r[i].0
                != r[j].0 by {
                if i < rest.len() && j < rest.len() {
                    assert(r[i] == rest[i] && r[j] == rest[j]);
                } else if i < rest.len() {
                    assert(r[i] == rest[i]);
                } else {
                    assert(r[j] == rest[j]);
                }
            }
            assert forall|i: int| 0 <= i < r.len() implies s.contains(#[trigger] r[i]) by {
                if i < rest.len() {
                    assert(r[i] == rest[i]);
                } else {
                    assert(s[last] == r[i]);
                }
            }
            assert(!has_key(r, k)) by {
                if has_key(r, k) {
                    let i = key_pos(r, k);
                    if i < rest.len() {
                        assert(r[i] == rest[i]);
                    }
                }
            }
        }
        assert forall|q: K| q != k implies lookup(#[trigger] map_remove(s, k), q) == lookup(s, q) by {
            if has_key(s, q) {
                let i = key_pos(s, q);
                if i == last {
                    assert(r[r.len() - 1] == s.last());
                    lemma_key_pos_unique(r, q, r.len() - 1);
                } else {
                    assert(init[i] == s[i]);
                    lemma_key_pos_unique(init, q, i);
                    let ri = key_pos(rest, q);
                    assert(rest[ri].0 == q);
                    if s.last().0 != k {
                        assert(r[ri] == rest[ri]);
                    }
                    lemma_key_pos_unique(r, q, ri);
                    let x = choose|x: int| 0 <= x < init.len() && init[x] == rest[ri];
                    lemma_key_pos_unique(init, q, x);
                }
            } else {
                if has_key(r, q) {
                    let i = key_pos(r, q);
                    assert(s.contains(r[i]));
                    let x = choose|x: int| 0 <= x < s.len() && s[x] == r[i];
                }
            }
        }
    }
}

} // verus!
