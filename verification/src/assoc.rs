//! Association lists: sequences of key/value pairs with distinct keys,
//! read as finite maps. Tables keyed by names are kept this way.

use vstd::prelude::*;

verus! {

/// The map an association list stands for; a later entry for a key wins.
pub open spec fn assoc_map<K, V>(s: Seq<(K, V)>) -> Map<K, V>
    decreases s.len(),
{
    if s.len() == 0 {
        Map::empty()
    } else {
        assoc_map(s.drop_last()).insert(s.last().0, s.last().1)
    }
}

/// No key occurs twice.
pub open spec fn keys_distinct<K, V>(s: Seq<(K, V)>) -> bool {
    forall|i: int, j: int| 0 <= i < j < s.len() ==> #[trigger] s[i].0 != #[trigger] s[j].0
}

/// Every entry is in the map, with its value.
pub proof fn lemma_assoc_lookup<K, V>(s: Seq<(K, V)>, i: int)
    requires
        keys_distinct(s),
        0 <= i < s.len(),
    ensures
        assoc_map(s).contains_key(s[i].0),
        assoc_map(s)[s[i].0] == s[i].1,
    decreases s.len(),
{
    if i < s.len() - 1 {
        lemma_assoc_lookup(s.drop_last(), i);
    }
}

/// A key with no entry is not in the map.
pub proof fn lemma_assoc_absent<K, V>(s: Seq<(K, V)>, k: K)
    requires
        forall|i: int| 0 <= i < s.len() ==> s[i].0 != k,
    ensures
        !assoc_map(s).contains_key(k),
    decreases s.len(),
{
    if s.len() > 0 {
        lemma_assoc_absent(s.drop_last(), k);
    }
}

/// The keys of the map are the keys of the entries.
pub proof fn lemma_assoc_dom<K, V>(s: Seq<(K, V)>, k: K)
    requires
        keys_distinct(s),
    ensures
        assoc_map(s).contains_key(k) <==> exists|i: int| 0 <= i < s.len() && s[i].0 == k,
{
    if exists|i: int| 0 <= i < s.len() && s[i].0 == k {
        let i = choose|i: int| 0 <= i < s.len() && s[i].0 == k;
        lemma_assoc_lookup(s, i);
    } else {
        lemma_assoc_absent(s, k);
    }
}

/// Replacing the value of an entry updates the map at its key.
pub proof fn lemma_assoc_update<K, V>(s: Seq<(K, V)>, i: int, v: V)
    requires
        keys_distinct(s),
        0 <= i < s.len(),
    ensures
        keys_distinct(s.update(i, (s[i].0, v))),
        assoc_map(s.update(i, (s[i].0, v))) == assoc_map(s).insert(s[i].0, v),
    decreases s.len(),
{
    let t = s.update(i, (s[i].0, v));
    assert forall|a: int, b: int| 0 <= a < b < t.len() implies #[trigger] t[a].0 != #[trigger] t[b].0 by {
        assert(t[a].0 == s[a].0 && t[b].0 == s[b].0);
    }
    if i == s.len() - 1 {
        assert(t.drop_last() =~= s.drop_last());
        assert(!assoc_map(s.drop_last()).contains_key(s[i].0)) by {
            lemma_assoc_absent(s.drop_last(), s[i].0);
        }
        assert(assoc_map(t) =~= assoc_map(s).insert(s[i].0, v));
    } else {
        lemma_assoc_update(s.drop_last(), i, v);
        assert(t.drop_last() =~= s.drop_last().update(i, (s[i].0, v)));
        assert(assoc_map(t) =~= assoc_map(s).insert(s[i].0, v));
    }
}

/// Appending an entry for a new key inserts it.
pub proof fn lemma_assoc_push<K, V>(s: Seq<(K, V)>, k: K, v: V)
    requires
        keys_distinct(s),
        forall|i: int| 0 <= i < s.len() ==> s[i].0 != k,
    ensures
        keys_distinct(s.push((k, v))),
        assoc_map(s.push((k, v))) == assoc_map(s).insert(k, v),
{
    let t = s.push((k, v));
    assert(t.drop_last() =~= s);
    assert forall|a: int, b: int| 0 <= a < b < t.len() implies #[trigger] t[a].0 != #[trigger] t[b].0 by {
        if b == s.len() {
            assert(t[a].0 == s[a].0);
        } else {
            assert(t[a].0 == s[a].0 && t[b].0 == s[b].0);
        }
    }
}

/// Removing an entry removes its key.
pub proof fn lemma_assoc_remove<K, V>(s: Seq<(K, V)>, i: int)
    requires
        keys_distinct(s),
        0 <= i < s.len(),
    ensures
        keys_distinct(s.remove(i)),
        assoc_map(s.remove(i)) == assoc_map(s).remove(s[i].0),
    decreases s.len(),
{
    let t = s.remove(i);
    assert forall|a: int, b: int| 0 <= a < b < t.len() implies #[trigger] t[a].0 != #[trigger] t[b].0 by {
        let a2 = if a < i { a } else { a + 1 };
        let b2 = if b < i { b } else { b + 1 };
        assert(t[a] == s[a2] && t[b] == s[b2]);
    }
    if i == s.len() - 1 {
        assert(t =~= s.drop_last());
        lemma_assoc_absent(s.drop_last(), s[i].0);
        assert(assoc_map(t) =~= assoc_map(s).remove(s[i].0));
    } else {
        lemma_assoc_remove(s.drop_last(), i);
        assert(t.drop_last() =~= s.drop_last().remove(i));
        assert(t.last() == s.last());
        assert(s.last().0 != s[i].0);
        assert(assoc_map(t) =~= assoc_map(s).remove(s[i].0));
    }
}

/// The map of an association list has one key per entry.
pub proof fn lemma_assoc_len<K, V>(s: Seq<(K, V)>)
    requires
        keys_distinct(s),
    ensures
        assoc_map(s).dom().finite(),
        assoc_map(s).len() == s.len(),
    decreases s.len(),
{
    if s.len() > 0 {
        lemma_assoc_len(s.drop_last());
        lemma_assoc_absent(s.drop_last(), s.last().0);
    }
}


/// The position of the first entry whose name is `k`.
pub fn find_name<V>(v: &Vec<(String, V)>, k: &str) -> (r: Option<usize>)
    ensures
        match r {
            Some(i) => i < v@.len() && v@[i as int].0@ == k@ && forall|j: int|
                0 <= j < i ==> v@[j].0@ != k@,
            None => forall|j: int| 0 <= j < v@.len() ==> v@[j].0@ != k@,
        },
{
    let mut i: usize = 0;
    while i < v.len()
        invariant
            i <= v@.len(),
            forall|j: int| 0 <= j < i ==> v@[j].0@ != k@,
        decreases v@.len() - i,
    {
        if crate::text::str_eq(v[i].0.as_str(), k) {
            return Some(i);
        }
        i = i + 1;
    }
    None
}


/// The entries of a table keyed by strings, with the keys as text.
pub open spec fn named_entries<V>(v: Seq<(String, V)>) -> Seq<(Seq<char>, V)> {
    v.map_values(|e: (String, V)| (e.0@, e.1))
}

/// The map a table keyed by strings stands for.
pub open spec fn named_map<V>(v: Seq<(String, V)>) -> Map<Seq<char>, V> {
    assoc_map(named_entries(v))
}

/// Stores `x` under `k`: replaces the entry for `k`, or appends one.
pub fn named_put<V>(v: &mut Vec<(String, V)>, k: String, x: V)
    requires
        keys_distinct(named_entries(old(v)@)),
    ensures
        keys_distinct(named_entries(final(v)@)),
        named_map(final(v)@) == named_map(old(v)@).insert(k@, x),
{
    let ghost e = named_entries(v@);
    let ghost kv = k@;
    match find_name(v, k.as_str()) {
        Some(i) => {
            proof {
                lemma_assoc_update(e, i as int, x);
            }
            v.set(i, (k, x));
            proof {
                assert(named_entries(v@) =~= e.update(i as int, (e[i as int].0, x)));
            }
        },
        None => {
            proof {
                lemma_assoc_push(e, kv, x);
            }
            v.push((k, x));
            proof {
                assert(named_entries(v@) =~= e.push((kv, x)));
            }
        },
    }
}

/// The value stored under `k`, if any.
pub fn named_get<'a, V>(v: &'a Vec<(String, V)>, k: &str) -> (r: Option<&'a V>)
    requires
        keys_distinct(named_entries(v@)),
    ensures
        match r {
            Some(x) => named_map(v@).contains_key(k@) && *x == named_map(v@)[k@],
            None => !named_map(v@).contains_key(k@),
        },
{
    let ghost e = named_entries(v@);
    match find_name(v, k) {
        Some(i) => {
            proof {
                lemma_assoc_lookup(e, i as int);
            }
            Some(&v[i].1)
        },
        None => {
            proof {
                assert forall|j: int| 0 <= j < e.len() implies e[j].0 != k@ by {
                    assert(e[j].0 == v@[j].0@);
                }
                lemma_assoc_absent(e, k@);
            }
            None
        },
    }
}

/// A mutable reference to the value stored under `k`, if any.
pub fn named_get_mut<'a, V>(v: &'a mut Vec<(String, V)>, k: &str) -> (r: Option<&'a mut V>)
    requires
        keys_distinct(named_entries(old(v)@)),
    ensures
        r is None ==> !named_map(old(v)@).contains_key(k@) && final(v)@ == old(v)@,
        r matches Some(x) ==> named_map(old(v)@).contains_key(k@) && *x == named_map(old(v)@)[k@],
        r matches Some(x) ==> keys_distinct(named_entries(final(v)@)) && named_map(final(v)@) == named_map(
            old(v)@,
        ).insert(k@, *final(x)),
{
    let ghost e = named_entries(v@);
    match find_name(v, k) {
        Some(i) => {
            proof {
                lemma_assoc_lookup(e, i as int);
                assert forall|y: V| #![trigger old(v)@.update(i as int, (old(v)@[i as int].0, y))]
                    true implies keys_distinct(named_entries(old(v)@.update(i as int, (old(v)@[i as int].0, y))))
                    && named_map(old(v)@.update(i as int, (old(v)@[i as int].0, y))) == named_map(old(v)@).insert(k@, y) by {
                    lemma_assoc_update(e, i as int, y);
                    assert(named_entries(old(v)@.update(i as int, (old(v)@[i as int].0, y))) =~= e.update(
                        i as int,
                        (e[i as int].0, y),
                    ));
                }
            }
            Some(&mut v[i].1)
        },
        None => {
            proof {
                assert forall|j: int| 0 <= j < e.len() implies e[j].0 != k@ by {
                    assert(e[j].0 == v@[j].0@);
                }
                lemma_assoc_absent(e, k@);
            }
            None
        },
    }
}

/// Removes the entry for `k`, if any, returning its value.
pub fn named_remove<V>(v: &mut Vec<(String, V)>, k: &str) -> (r: Option<V>)
    requires
        keys_distinct(named_entries(old(v)@)),
    ensures
        keys_distinct(named_entries(final(v)@)),
        named_map(final(v)@) == named_map(old(v)@).remove(k@),
        match r {
            Some(x) => named_map(old(v)@).contains_key(k@) && x == named_map(old(v)@)[k@],
            None => !named_map(old(v)@).contains_key(k@),
        },
{
    let ghost e = named_entries(v@);
    match find_name(v, k) {
        Some(i) => {
            proof {
                lemma_assoc_lookup(e, i as int);
                lemma_assoc_remove(e, i as int);
            }
            let (_, x) = v.remove(i);
            proof {
                assert(named_entries(v@) =~= e.remove(i as int));
            }
            Some(x)
        },
        None => {
            proof {
                assert forall|j: int| 0 <= j < e.len() implies e[j].0 != k@ by {
                    assert(e[j].0 == v@[j].0@);
                }
                lemma_assoc_absent(e, k@);
                assert(assoc_map(e).remove(k@) =~= assoc_map(e));
            }
            None
        },
    }
}

/// The keys of a table keyed by strings, in order.
pub fn named_keys<'a, V>(v: &'a Vec<(String, V)>) -> (r: Vec<&'a str>)
    ensures
        r@.len() == v@.len(),
        forall|i: int| 0 <= i < v@.len() ==> (#[trigger] r@[i])@ == v@[i].0@,
{
    let mut out: Vec<&'a str> = Vec::new();
    let mut i: usize = 0;
    while i < v.len()
        invariant
            i <= v@.len(),
            out@.len() == i,
            forall|j: int| 0 <= j < i ==> (#[trigger] out@[j])@ == v@[j].0@,
        decreases v@.len() - i,
    {
        out.push(v[i].0.as_str());
        i = i + 1;
    }
    out
}

/// The position of the first entry from `j` on whose key is `k`.
pub open spec fn first_key_from<K, V>(s: Seq<(K, V)>, k: K, j: int) -> Option<int>
    decreases s.len() - j,
{
    if 0 <= j < s.len() {
        if s[j].0 == k {
            Some(j)
        } else {
            first_key_from(s, k, j + 1)
        }
    } else {
        None
    }
}

/// `s` with `v` stored under `k`: in the first entry for `k`, or in a new
/// entry at the end.
pub open spec fn put_first<K, V>(s: Seq<(K, V)>, k: K, v: V) -> Seq<(K, V)> {
    match first_key_from(s, k, 0) {
        Some(i) => s.update(i, (k, v)),
        None => s.push((k, v)),
    }
}

/// The value of the first entry for `k`.
pub open spec fn get_first<K, V>(s: Seq<(K, V)>, k: K) -> Option<V> {
    match first_key_from(s, k, 0) {
        Some(i) => Some(s[i].1),
        None => None,
    }
}

pub proof fn lemma_first_key_found<K, V>(s: Seq<(K, V)>, k: K, j: int, i: int)
    requires
        0 <= j <= i < s.len(),
        s[i].0 == k,
        forall|q: int| j <= q < i ==> s[q].0 != k,
    ensures
        first_key_from(s, k, j) == Some(i),
    decreases i - j,
{
    if j < i {
        lemma_first_key_found(s, k, j + 1, i);
    }
}

pub proof fn lemma_first_key_none<K, V>(s: Seq<(K, V)>, k: K, j: int)
    requires
        0 <= j,
        forall|q: int| j <= q < s.len() ==> s[q].0 != k,
    ensures
        first_key_from(s, k, j) is None,
    decreases s.len() - j,
{
    if j < s.len() {
        lemma_first_key_none(s, k, j + 1);
    }
}

/// The entries of a table of strings, as text.
pub open spec fn text_pairs(v: Seq<(String, String)>) -> Seq<(Seq<char>, Seq<char>)> {
    v.map_values(|e: (String, String)| (e.0@, e.1@))
}

/// Stores `x` under `k`, as a map insert does: the first entry for `k` is
/// replaced, else an entry is appended.
pub fn put_text(v: &mut Vec<(String, String)>, k: &str, x: &str)
    ensures
        text_pairs(final(v)@) == put_first(text_pairs(old(v)@), k@, x@),
{
    let ghost e = text_pairs(v@);
    match find_name(v, k) {
        Some(i) => {
            proof {
                lemma_first_key_found(e, k@, 0, i as int);
            }
            v.set(i, (crate::text::owned(k), crate::text::owned(x)));
            proof {
                assert(text_pairs(v@) =~= e.update(i as int, (k@, x@)));
            }
        },
        None => {
            proof {
                lemma_first_key_none(e, k@, 0);
            }
            v.push((crate::text::owned(k), crate::text::owned(x)));
            proof {
                assert(text_pairs(v@) =~= e.push((k@, x@)));
            }
        },
    }
}

/// Stores `x` under `k`, as a map insert does: the first entry for `k` is
/// replaced, else an entry is appended.
pub fn put_named_first<V>(v: &mut Vec<(String, V)>, k: &str, x: V)
    ensures
        named_entries(final(v)@) == put_first(named_entries(old(v)@), k@, x),
{
    let ghost e = named_entries(v@);
    match find_name(v, k) {
        Some(i) => {
            proof {
                lemma_first_key_found(e, k@, 0, i as int);
            }
            v.set(i, (crate::text::owned(k), x));
            proof {
                assert(named_entries(v@) =~= e.update(i as int, (k@, x)));
            }
        },
        None => {
            proof {
                lemma_first_key_none(e, k@, 0);
            }
            v.push((crate::text::owned(k), x));
            proof {
                assert(named_entries(v@) =~= e.push((k@, x)));
            }
        },
    }
}

/// The value of the first entry for `k`.
pub fn get_named_first<V: Copy>(v: &Vec<(String, V)>, k: &str) -> (r: Option<V>)
    ensures
        r == get_first(named_entries(v@), k@),
{
    let ghost e = named_entries(v@);
    match find_name(v, k) {
        Some(i) => {
            proof {
                lemma_first_key_found(e, k@, 0, i as int);
            }
            Some(v[i].1)
        },
        None => {
            proof {
                lemma_first_key_none(e, k@, 0);
            }
            None
        },
    }
}

} // verus!
