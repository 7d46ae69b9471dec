//! The order in which the keys of an object are listed: lexicographic by
//! their characters.

use vstd::prelude::*;

verus! {

/// The key `a` comes strictly before the key `b` in lexicographic order: at
/// the first place where they differ `a` has the smaller character, or `a`
/// ends there and `b` does not.
pub open spec fn key_lt(a: Seq<char>, b: Seq<char>) -> bool
    decreases a.len(),
{
    if b.len() == 0 {
        false
    } else if a.len() == 0 {
        true
    } else if a[0] != b[0] {
        a[0] < b[0]
    } else {
        key_lt(a.drop_first(), b.drop_first())
    }
}

/// No key comes before itself.
pub proof fn lemma_key_lt_irreflexive(a: Seq<char>)
    ensures
        !key_lt(a, a),
    decreases a.len(),
{
    if a.len() > 0 {
        lemma_key_lt_irreflexive(a.drop_first());
    }
}

/// The order on keys is transitive.
pub proof fn lemma_key_lt_transitive(a: Seq<char>, b: Seq<char>, c: Seq<char>)
    requires
        key_lt(a, b),
        key_lt(b, c),
    ensures
        key_lt(a, c),
    decreases a.len(),
{
    if a.len() > 0 && a[0] == b[0] && b[0] == c[0] {
        lemma_key_lt_transitive(a.drop_first(), b.drop_first(), c.drop_first());
    }
}

/// Of two different keys one comes before the other.
pub proof fn lemma_key_lt_connected(a: Seq<char>, b: Seq<char>)
    requires
        !key_lt(a, b),
        !key_lt(b, a),
    ensures
        a == b,
    decreases a.len(),
{
    if a.len() > 0 {
        lemma_key_lt_connected(a.drop_first(), b.drop_first());
        assert(a =~= seq![a[0]] + a.drop_first());
        assert(b =~= seq![b[0]] + b.drop_first());
    } else {
        assert(a =~= b);
    }
}

/// The keys stand in strictly ascending order.
pub open spec fn ascending(keys: Seq<Seq<char>>) -> bool {
    forall|i: int, j: int|
        0 <= i < j < keys.len() ==> key_lt(#[trigger] keys[i], #[trigger] keys[j])
}

/// The members of the finite set `s`, each once, in ascending order.
pub open spec fn ascending_keys(s: Set<Seq<char>>) -> Seq<Seq<char>> {
    choose|keys: Seq<Seq<char>>| ascending(keys) && keys.to_set() == s
}

/// In an ascending sequence no key occurs twice, so it is as long as the set
/// of its keys is large.
pub proof fn lemma_ascending_distinct(keys: Seq<Seq<char>>)
    requires
        ascending(keys),
    ensures
        keys.no_duplicates(),
        keys.to_set().finite(),
        keys.to_set().len() == keys.len(),
{
    assert forall|i: int, j: int| 0 <= i < keys.len() && 0 <= j < keys.len() && i != j implies keys[i]
        != keys[j] by {
        lemma_key_lt_irreflexive(keys[i]);
    }
    keys.unique_seq_to_set();
}

/// Two ascending sequences that hold the same keys are equal.
pub proof fn lemma_ascending_unique(a: Seq<Seq<char>>, b: Seq<Seq<char>>)
    requires
        ascending(a),
        ascending(b),
        a.to_set() == b.to_set(),
    ensures
        a == b,
    decreases a.len(),
{
    if a.len() == 0 {
        if b.len() > 0 {
            assert(b.to_set().contains(b[0]));
            assert(a.contains(b[0]));
        }
        assert(a =~= b);
    } else {
        assert(a.to_set().contains(a[0]));
        assert(b.contains(a[0]));
        let j = choose|j: int| 0 <= j < b.len() && b[j] == a[0];
        assert(b.to_set().contains(b[0]));
        assert(a.contains(b[0]));
        let i = choose|i: int| 0 <= i < a.len() && a[i] == b[0];
        if i > 0 {
            // a[0] < a[i] == b[0] <= b[j] == a[0]
            if j > 0 {
                lemma_key_lt_transitive(a[0], b[0], b[j]);
            }
            lemma_key_lt_irreflexive(a[0]);
        }
        let ra = a.drop_first();
        let rb = b.drop_first();
        assert forall|k: Seq<char>| ra.to_set().contains(k) <==> rb.to_set().contains(k) by {
            if ra.contains(k) {
                let m = choose|m: int| 0 <= m < ra.len() && ra[m] == k;
                assert(a[m + 1] == k);
                assert(a.to_set().contains(k));
                assert(b.contains(k));
                let n = choose|n: int| 0 <= n < b.len() && b[n] == k;
                if n == 0 {
                    lemma_key_lt_irreflexive(a[0]);
                }
                assert(rb[n - 1] == k);
            }
            if rb.contains(k) {
                let m = choose|m: int| 0 <= m < rb.len() && rb[m] == k;
                assert(b[m + 1] == k);
                assert(b.to_set().contains(k));
                assert(a.contains(k));
                let n = choose|n: int| 0 <= n < a.len() && a[n] == k;
                if n == 0 {
                    lemma_key_lt_irreflexive(b[0]);
                }
                assert(ra[n - 1] == k);
            }
        }
        assert(ra.to_set() =~= rb.to_set());
        assert(ascending(ra)) by {
            assert forall|p: int, q: int| 0 <= p < q < ra.len() implies key_lt(
                #[trigger] ra[p],
                #[trigger] ra[q],
            ) by {
                assert(key_lt(a[p + 1], a[q + 1]));
            }
        }
        assert(ascending(rb)) by {
            assert forall|p: int, q: int| 0 <= p < q < rb.len() implies key_lt(
                #[trigger] rb[p],
                #[trigger] rb[q],
            ) by {
                assert(key_lt(b[p + 1], b[q + 1]));
            }
        }
        lemma_ascending_unique(ra, rb);
        assert(a =~= seq![a[0]] + ra);
        assert(b =~= seq![b[0]] + rb);
    }
}

/// Putting a key between the keys that come before it and those that come
/// after it keeps the sequence ascending and adds just that key.
pub proof fn lemma_insert_keeps_ascending(keys: Seq<Seq<char>>, at: int, key: Seq<char>)
    requires
        ascending(keys),
        0 <= at <= keys.len(),
        forall|i: int| 0 <= i < at ==> key_lt(#[trigger] keys[i], key),
        forall|i: int| at <= i < keys.len() ==> key_lt(key, #[trigger] keys[i]),
    ensures
        ascending(keys.insert(at, key)),
        keys.insert(at, key).to_set() == keys.to_set().insert(key),
{
    let longer = keys.insert(at, key);
    assert forall|i: int, j: int| 0 <= i < j < longer.len() implies key_lt(
        #[trigger] longer[i],
        #[trigger] longer[j],
    ) by {
        if j < at {
            assert(key_lt(keys[i], keys[j]));
        } else if j == at {
            assert(key_lt(keys[i], key));
        } else if i < at {
            assert(key_lt(keys[i], keys[j - 1]));
        } else if i == at {
            assert(key_lt(key, keys[j - 1]));
        } else {
            assert(key_lt(keys[i - 1], keys[j - 1]));
        }
    }
    assert forall|k: Seq<char>| longer.to_set().contains(k) <==> keys.to_set().insert(
        key,
    ).contains(k) by {
        if longer.contains(k) {
            let m = choose|m: int| 0 <= m < longer.len() && longer[m] == k;
            if m < at {
                assert(keys[m] == k);
            } else if m > at {
                assert(keys[m - 1] == k);
            }
        }
        if keys.contains(k) {
            let m = choose|m: int| 0 <= m < keys.len() && keys[m] == k;
            if m < at {
                assert(longer[m] == k);
            } else {
                assert(longer[m + 1] == k);
            }
        }
        if k == key {
            assert(longer[at] == k);
        }
    }
    assert(longer.to_set() =~= keys.to_set().insert(key));
}

/// Where a key that an ascending sequence does not hold belongs in it.
proof fn lemma_insertion_point(keys: Seq<Seq<char>>, key: Seq<char>) -> (at: int)
    requires
        ascending(keys),
        !keys.contains(key),
    ensures
        0 <= at <= keys.len(),
        forall|i: int| 0 <= i < at ==> key_lt(#[trigger] keys[i], key),
        forall|i: int| at <= i < keys.len() ==> key_lt(key, #[trigger] keys[i]),
    decreases keys.len(),
{
    if keys.len() == 0 {
        0
    } else {
        let last = keys.last();
        if key_lt(last, key) {
            assert forall|i: int| 0 <= i < keys.len() implies key_lt(#[trigger] keys[i], key) by {
                if i < keys.len() - 1 {
                    assert(key_lt(keys[i], keys[keys.len() - 1]));
                    lemma_key_lt_transitive(keys[i], last, key);
                }
            }
            keys.len() as int
        } else {
            assert(keys.contains(last));
            if !key_lt(key, last) {
                lemma_key_lt_connected(key, last);
            }
            let front = keys.drop_last();
            assert(ascending(front)) by {
                assert forall|p: int, q: int| 0 <= p < q < front.len() implies key_lt(
                    #[trigger] front[p],
                    #[trigger] front[q],
                ) by {
                    assert(key_lt(keys[p], keys[q]));
                }
            }
            assert(!front.contains(key)) by {
                if front.contains(key) {
                    let m = choose|m: int| 0 <= m < front.len() && front[m] == key;
                    assert(keys[m] == key);
                }
            }
            let at = lemma_insertion_point(front, key);
            assert forall|i: int| 0 <= i < at implies key_lt(#[trigger] keys[i], key) by {
                assert(keys[i] == front[i]);
            }
            assert forall|i: int| at <= i < keys.len() implies key_lt(key, #[trigger] keys[i]) by {
                if i < keys.len() - 1 {
                    assert(keys[i] == front[i]);
                }
            }
            at
        }
    }
}

/// Every finite set of keys can be listed in ascending order.
proof fn lemma_ascending_exists(s: Set<Seq<char>>) -> (keys: Seq<Seq<char>>)
    requires
        s.finite(),
    ensures
        ascending(keys),
        keys.to_set() == s,
    decreases s.len(),
{
    if s.len() == 0 {
        let keys = Seq::<Seq<char>>::empty();
        assert(keys.to_set() =~= s);
        keys
    } else {
        let key = s.choose();
        let rest = lemma_ascending_exists(s.remove(key));
        assert(!rest.contains(key)) by {
            if rest.contains(key) {
                assert(rest.to_set().contains(key));
            }
        }
        let at = lemma_insertion_point(rest, key);
        lemma_insert_keeps_ascending(rest, at, key);
        assert(s.remove(key).insert(key) =~= s);
        rest.insert(at, key)
    }
}

/// The ascending listing of a finite set holds exactly the members of the
/// set, each once, every key before all the keys that are greater.
pub proof fn lemma_ascending_keys(s: Set<Seq<char>>)
    requires
        s.finite(),
    ensures
        ascending(ascending_keys(s)),
        ascending_keys(s).to_set() == s,
        ascending_keys(s).no_duplicates(),
        ascending_keys(s).len() == s.len(),
{
    let listing = lemma_ascending_exists(s);
    assert(ascending(listing) && listing.to_set() == s);
    lemma_ascending_distinct(ascending_keys(s));
}

/// An ascending sequence is the ascending listing of the set of its keys.
pub proof fn lemma_ascending_is_listing(keys: Seq<Seq<char>>)
    requires
        ascending(keys),
    ensures
        ascending_keys(keys.to_set()) == keys,
{
    lemma_ascending_unique(ascending_keys(keys.to_set()), keys);
}

} // verus!
