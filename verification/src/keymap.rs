//! Binary search over strictly sorted keys, the lookup structure behind the
//! library's ordered maps and sets.

use vstd::prelude::*;

use crate::order::{compare_text, lemma_lex_asymmetric, lemma_lex_irreflexive, lemma_lex_total,
    lemma_lex_transitive, lex_le, lex_lt, views, SortKey};

verus! {

broadcast use vstd::seq_lib::group_to_multiset_ensures, vstd::multiset::group_multiset_axioms;

/// A key type whose order is total and antisymmetric on views.
pub trait StrictKey: SortKey {
    proof fn lemma_key_antisymmetric(a: Self::V, b: Self::V)
        requires
            Self::key_le(a, b),
            Self::key_le(b, a),
        ensures
            a == b,
    ;
}

/// `a` comes strictly before `b`.
pub open spec fn key_lt<K: StrictKey>(a: K::V, b: K::V) -> bool {
    K::key_le(a, b) && a != b
}

/// Keys in strictly increasing order (so each occurs once).
pub open spec fn strictly_ordered<K: StrictKey>(keys: Seq<K::V>) -> bool {
    forall|i: int, j: int| 0 <= i < j < keys.len() ==> key_lt::<K>(#[trigger] keys[i], #[trigger] keys[j])
}

pub proof fn lemma_key_lt_transitive<K: StrictKey>(a: K::V, b: K::V, c: K::V)
    requires
        key_lt::<K>(a, b),
        key_lt::<K>(b, c),
    ensures
        key_lt::<K>(a, c),
{
    K::lemma_key_transitive(a, b, c);
    if a == c {
        K::lemma_key_antisymmetric(a, b);
    }
}

/// Finds a key among strictly ordered keys: `Ok(i)` where it is, or
/// `Err(p)` with the position where it would go.
pub fn search_key<K: StrictKey>(keys: &Vec<K>, key: &K) -> (r: Result<usize, usize>)
    requires
        strictly_ordered::<K>(views(keys@)),
    ensures
        match r {
            Ok(i) => i < keys.len() && keys@[i as int]@ == key@,
            Err(p) => p <= keys.len() && (forall|j: int|
                0 <= j < p ==> key_lt::<K>(#[trigger] keys@[j]@, key@)) && (forall|j: int|
                p <= j < keys.len() ==> key_lt::<K>(key@, #[trigger] keys@[j]@)),
        },
{
    let mut lo: usize = 0;
    let mut hi: usize = keys.len();
    while lo < hi
        invariant
            lo <= hi <= keys.len(),
            strictly_ordered::<K>(views(keys@)),
            forall|j: int| 0 <= j < lo ==> key_lt::<K>(#[trigger] keys@[j]@, key@),
            forall|j: int| hi <= j < keys.len() ==> key_lt::<K>(key@, #[trigger] keys@[j]@),
        decreases hi - lo,
    {
        let mid = lo + (hi - lo) / 2;
        let le_mid = key.key_le_exec(&keys[mid]);
        let mid_le = keys[mid].key_le_exec(key);
        if le_mid && mid_le {
            proof {
                K::lemma_key_antisymmetric(key@, keys@[mid as int]@);
            }
            return Ok(mid);
        } else if mid_le {
            proof {
                assert(keys@[mid as int]@ != key@) by {
                    if keys@[mid as int]@ == key@ {
                        K::lemma_key_total(key@, key@);
                    }
                }
                assert forall|j: int| 0 <= j <= mid implies key_lt::<K>(#[trigger] keys@[j]@, key@) by {
                    if j < mid {
                        assert(views(keys@)[j] == keys@[j]@);
                        assert(views(keys@)[mid as int] == keys@[mid as int]@);
                        lemma_key_lt_transitive::<K>(keys@[j]@, keys@[mid as int]@, key@);
                    }
                }
            }
            lo = mid + 1;
        } else {
            proof {
                K::lemma_key_total(key@, keys@[mid as int]@);
                assert(keys@[mid as int]@ != key@) by {
                    if keys@[mid as int]@ == key@ {
                        K::lemma_key_total(key@, key@);
                    }
                }
                assert forall|j: int| mid <= j < keys.len() implies key_lt::<K>(key@, #[trigger] keys@[j]@) by {
                    if j > mid {
                        assert(views(keys@)[j] == keys@[j]@);
                        assert(views(keys@)[mid as int] == keys@[mid as int]@);
                        lemma_key_lt_transitive::<K>(key@, keys@[mid as int]@, keys@[j]@);
                    }
                }
            }
            hi = mid;
        }
    }
    Err(lo)
}

/// Inserting a key at its search position keeps the keys strictly ordered.
pub proof fn lemma_insert_ordered<K: StrictKey>(keys: Seq<K>, p: int, key: K)
    requires
        strictly_ordered::<K>(views(keys)),
        0 <= p <= keys.len(),
        forall|j: int| 0 <= j < p ==> key_lt::<K>(#[trigger] keys[j]@, key@),
        forall|j: int| p <= j < keys.len() ==> key_lt::<K>(key@, #[trigger] keys[j]@),
    ensures
        strictly_ordered::<K>(views(keys.insert(p, key))),
        views(keys.insert(p, key)) == views(keys).insert(p, key@),
{
    let n = keys.insert(p, key);
    assert(views(n) =~= views(keys).insert(p, key@));
    assert forall|i: int, j: int| 0 <= i < j < views(n).len() implies key_lt::<K>(
        #[trigger] views(n)[i],
        #[trigger] views(n)[j],
    ) by {
        if j < p {
            assert(views(n)[i] == views(keys)[i]);
            assert(views(n)[j] == views(keys)[j]);
        } else if j == p {
            assert(views(n)[i] == keys[i]@);
        } else if i == p {
            assert(views(n)[j] == keys[j - 1]@);
        } else if i < p {
            assert(views(n)[i] == views(keys)[i]);
            assert(views(n)[j] == views(keys)[j - 1]);
        } else {
            assert(views(n)[i] == views(keys)[i - 1]);
            assert(views(n)[j] == views(keys)[j - 1]);
        }
    }
}

/// The position of a key among strictly ordered string keys.
pub open spec fn key_position(keys: Seq<String>, key: Seq<char>) -> Option<int> {
    if exists|i: int| 0 <= i < keys.len() && #[trigger] keys[i]@ == key {
        Some(choose|i: int| 0 <= i < keys.len() && #[trigger] keys[i]@ == key)
    } else {
        None
    }
}

/// In strictly ordered keys a key occurs at one position only.
pub proof fn lemma_key_position_unique(keys: Seq<String>, key: Seq<char>, i: int)
    requires
        strictly_ordered::<String>(views(keys)),
        0 <= i < keys.len(),
        keys[i]@ == key,
    ensures
        key_position(keys, key) == Some(i),
{
    assert(exists|j: int| 0 <= j < keys.len() && #[trigger] keys[j]@ == key) by {
        assert(keys[i]@ == key);
    }
    let j = key_position(keys, key)->0;
    assert(0 <= j < keys.len() && keys[j]@ == key);
    if j != i {
        assert(views(keys)[i] == keys[i]@);
        assert(views(keys)[j] == keys[j]@);
        if i < j {
            assert(key_lt::<String>(views(keys)[i], views(keys)[j]));
        } else {
            assert(key_lt::<String>(views(keys)[j], views(keys)[i]));
        }
    }
}

/// Looks a text up among strictly ordered string keys.
pub fn find_text(keys: &Vec<String>, key: &String) -> (r: Option<usize>)
    requires
        strictly_ordered::<String>(views(keys@)),
    ensures
        match r {
            Some(i) => key_position(keys@, key@) == Some(i as int) && i < keys.len(),
            None => key_position(keys@, key@) is None,
        },
{
    match search_key(keys, key) {
        Ok(i) => {
            proof {
                lemma_key_position_unique(keys@, key@, i as int);
            }
            Some(i)
        },
        Err(p) => {
            proof {
                assert forall|i: int| 0 <= i < keys.len() implies #[trigger] keys@[i]@ != key@ by {
                    if i < p {
                        assert(key_lt::<String>(keys@[i]@, key@));
                    } else {
                        assert(key_lt::<String>(key@, keys@[i]@));
                    }
                }
            }
            None
        },
    }
}

impl StrictKey for String {
    proof fn lemma_key_antisymmetric(a: Seq<char>, b: Seq<char>) {
        lemma_lex_asymmetric(a, b);
    }
}

/// A pair of texts, ordered by the first and then the second.
pub struct TextPair {
    pub first: String,
    pub second: String,
}

impl View for TextPair {
    type V = (Seq<char>, Seq<char>);

    open spec fn view(&self) -> (Seq<char>, Seq<char>) {
        (self.first@, self.second@)
    }
}

impl SortKey for TextPair {
    open spec fn key_le(a: (Seq<char>, Seq<char>), b: (Seq<char>, Seq<char>)) -> bool {
        lex_lt(a.0, b.0) || (a.0 == b.0 && lex_le(a.1, b.1))
    }

    proof fn lemma_key_total(a: (Seq<char>, Seq<char>), b: (Seq<char>, Seq<char>)) {
        lemma_lex_total(a.0, b.0);
        lemma_lex_total(a.1, b.1);
    }

    proof fn lemma_key_transitive(
        a: (Seq<char>, Seq<char>),
        b: (Seq<char>, Seq<char>),
        c: (Seq<char>, Seq<char>),
    ) {
        if lex_lt(a.0, b.0) && lex_lt(b.0, c.0) {
            lemma_lex_transitive(a.0, b.0, c.0);
        }
        if lex_lt(a.1, b.1) && lex_lt(b.1, c.1) {
            lemma_lex_transitive(a.1, b.1, c.1);
        }
    }

    fn key_le_exec(&self, other: &Self) -> (r: bool) {
        let c = compare_text(self.first.as_str(), other.first.as_str());
        if c != 0 {
            c < 0
        } else {
            compare_text(self.second.as_str(), other.second.as_str()) <= 0
        }
    }
}

impl StrictKey for TextPair {
    proof fn lemma_key_antisymmetric(a: (Seq<char>, Seq<char>), b: (Seq<char>, Seq<char>)) {
        lemma_lex_asymmetric(a.0, b.0);
        lemma_lex_asymmetric(a.1, b.1);
        lemma_lex_irreflexive(a.0);
    }
}

/// A key type whose values can be copied with their view.
pub trait CopyKey: StrictKey {
    fn copy_key(&self) -> (r: Self)
        ensures
            r@ == self@,
    ;
}

impl CopyKey for String {
    fn copy_key(&self) -> (r: Self) {
        self.clone()
    }
}

impl CopyKey for TextPair {
    fn copy_key(&self) -> (r: Self) {
        TextPair { first: self.first.clone(), second: self.second.clone() }
    }
}

/// The distinct keys of `items` in increasing order, each with the number
/// of times it occurs.
pub fn tally_keys<K: CopyKey>(items: &Vec<K>) -> (r: (Vec<K>, Vec<usize>))
    ensures
        r.0.len() == r.1.len(),
        strictly_ordered::<K>(views(r.0@)),
        forall|x: K::V| views(r.0@).contains(x) <==> views(items@).contains(x),
        forall|k: int|
            0 <= k < r.1.len() ==> r.1@[k] == views(items@).to_multiset().count(#[trigger] r.0@[k]@),
{
    let mut keys: Vec<K> = Vec::new();
    let mut counts: Vec<usize> = Vec::new();
    let mut i: usize = 0;
    while i < items.len()
        invariant
            i <= items.len(),
            keys.len() == counts.len(),
            strictly_ordered::<K>(views(keys@)),
            forall|x: K::V| views(keys@).contains(x) <==> views(items@).take(i as int).contains(x),
            forall|k: int|
                0 <= k < counts.len() ==> counts@[k] == views(items@).take(i as int).to_multiset().count(
                    #[trigger] keys@[k]@,
                ),
        decreases items.len() - i,
    {
        let ghost prefix = views(items@).take(i as int);
        let ghost next = views(items@).take(i + 1);
        let x = &items[i];
        proof {
            assert(next =~= prefix.push(x@));
            assert forall|y: K::V| #[trigger] next.to_multiset().count(y) == prefix.to_multiset().count(y) + if y
                == x@ {
                1nat
            } else {
                0nat
            } by {
                assert(next.to_multiset() =~= prefix.to_multiset().insert(x@));
            }
            assert forall|y: K::V| #[trigger] next.contains(y) <==> (prefix.contains(y) || y == x@) by {
                if next.contains(y) && y != x@ {
                    let j = choose|j: int| 0 <= j < next.len() && next[j] == y;
                    assert(prefix[j] == y);
                }
                if prefix.contains(y) {
                    let j = choose|j: int| 0 <= j < prefix.len() && prefix[j] == y;
                    assert(next[j] == y);
                }
                if y == x@ {
                    assert(next[i as int] == y);
                }
            }
            assert(prefix.to_multiset().len() == i) by {
                vstd::seq_lib::to_multiset_len(prefix);
            }
        }
        match search_key(&keys, x) {
            Ok(k) => {
                proof {
                    assert(prefix.to_multiset().count(x@) <= prefix.to_multiset().len());
                }
                let c = counts[k];
                let ghost old_counts = counts@;
                counts.set(k, c + 1);
                proof {
                    assert forall|j: int| 0 <= j < counts.len() implies counts@[j] == next.to_multiset().count(
                        #[trigger] keys@[j]@,
                    ) by {
                        if j != k {
                            assert(counts@[j] == old_counts[j]);
                            assert(views(keys@)[j] == keys@[j]@);
                            assert(views(keys@)[k as int] == keys@[k as int]@);
                            if j < k {
                                assert(key_lt::<K>(views(keys@)[j], views(keys@)[k as int]));
                            } else {
                                assert(key_lt::<K>(views(keys@)[k as int], views(keys@)[j]));
                            }
                        }
                    }
                    assert forall|y: K::V| views(keys@).contains(y) <==> next.contains(y) by {
                        if y == x@ {
                            assert(views(keys@)[k as int] == y);
                        }
                    }
                }
            },
            Err(p) => {
                proof {
                    assert(!views(keys@).contains(x@)) by {
                        if views(keys@).contains(x@) {
                            let q = choose|q: int| 0 <= q < views(keys@).len() && views(keys@)[q] == x@;
                            assert(views(keys@)[q] == keys@[q]@);
                        }
                    }
                    assert(!prefix.contains(x@));
                    assert(prefix.to_multiset().count(x@) == 0);
                    lemma_insert_ordered::<K>(keys@, p as int, *x);
                }
                let ghost old_keys = keys@;
                let ghost old_counts = counts@;
                keys.insert(p, x.copy_key());
                counts.insert(p, 1);
                proof {
                    assert(views(keys@) =~= views(old_keys).insert(p as int, x@));
                    assert forall|j: int| 0 <= j < counts.len() implies counts@[j] == next.to_multiset().count(
                        #[trigger] keys@[j]@,
                    ) by {
                        if j < p {
                            assert(keys@[j] == old_keys[j]);
                            assert(counts@[j] == old_counts[j]);
                            assert(views(old_keys)[j] == old_keys[j]@);
                            assert(views(old_keys).contains(old_keys[j]@));
                        } else if j > p {
                            assert(keys@[j] == old_keys[j - 1]);
                            assert(counts@[j] == old_counts[j - 1]);
                            assert(views(old_keys)[j - 1] == old_keys[j - 1]@);
                            assert(views(old_keys).contains(old_keys[j - 1]@));
                        }
                    }
                    assert forall|y: K::V| views(keys@).contains(y) <==> next.contains(y) by {
                        if views(keys@).contains(y) {
                            let q = choose|q: int| 0 <= q < views(keys@).len() && views(keys@)[q] == y;
                            if q < p {
                                assert(views(old_keys)[q] == y);
                            } else if q > p {
                                assert(views(old_keys)[q - 1] == y);
                            }
                        }
                        if views(old_keys).contains(y) {
                            let q = choose|q: int| 0 <= q < views(old_keys).len() && views(old_keys)[q] == y;
                            if q < p {
                                assert(views(keys@)[q] == y);
                            } else {
                                assert(views(keys@)[q + 1] == y);
                            }
                        }
                        if y == x@ {
                            assert(views(keys@)[p as int] == y);
                        }
                    }
                }
            },
        }
        i = i + 1;
    }
    proof {
        assert(views(items@).take(items.len() as int) =~= views(items@));
    }
    (keys, counts)
}

/// Two strictly ordered sequences with the same items are equal.
pub proof fn lemma_strictly_ordered_unique<K: StrictKey>(a: Seq<K::V>, b: Seq<K::V>)
    requires
        strictly_ordered::<K>(a),
        strictly_ordered::<K>(b),
        forall|x: K::V| a.contains(x) <==> b.contains(x),
    ensures
        a == b,
    decreases a.len() + b.len(),
{
    if a.len() == 0 {
        if b.len() > 0 {
            assert(b.contains(b[0]));
        }
        assert(a =~= b);
    } else if b.len() == 0 {
        assert(a.contains(a[0]));
    } else {
        assert(a.contains(a[0]));
        assert(b.contains(b[0]));
        let i = choose|i: int| 0 <= i < a.len() && a[i] == b[0];
        let j = choose|j: int| 0 <= j < b.len() && b[j] == a[0];
        if a[0] != b[0] {
            assert(i > 0 && j > 0);
            assert(key_lt::<K>(a[0], a[i]));
            assert(key_lt::<K>(b[0], b[j]));
            K::lemma_key_antisymmetric(a[0], b[0]);
        }
        let (x, y) = (a.drop_first(), b.drop_first());
        assert forall|v: K::V| x.contains(v) <==> y.contains(v) by {
            if x.contains(v) {
                let k = choose|k: int| 0 <= k < x.len() && x[k] == v;
                assert(a[k + 1] == v);
                assert(key_lt::<K>(a[0], a[k + 1]));
                assert(b.contains(v));
                let l = choose|l: int| 0 <= l < b.len() && b[l] == v;
                assert(l != 0);
                assert(y[l - 1] == v);
            }
            if y.contains(v) {
                let k = choose|k: int| 0 <= k < y.len() && y[k] == v;
                assert(b[k + 1] == v);
                assert(key_lt::<K>(b[0], b[k + 1]));
                assert(a.contains(v));
                let l = choose|l: int| 0 <= l < a.len() && a[l] == v;
                assert(l != 0);
                assert(x[l - 1] == v);
            }
        }
        assert forall|p: int, q: int| 0 <= p < q < x.len() implies key_lt::<K>(#[trigger] x[p], #[trigger] x[q]) by {
            assert(x[p] == a[p + 1] && x[q] == a[q + 1]);
        }
        assert forall|p: int, q: int| 0 <= p < q < y.len() implies key_lt::<K>(#[trigger] y[p], #[trigger] y[q]) by {
            assert(y[p] == b[p + 1] && y[q] == b[q + 1]);
        }
        lemma_strictly_ordered_unique::<K>(x, y);
        assert(a[0] == b[0]);
        assert(a.len() == b.len());
        assert forall|k: int| 0 <= k < a.len() implies a[k] == b[k] by {
            if k > 0 {
                assert(a[k] == x[k - 1]);
                assert(b[k] == y[k - 1]);
            }
        }
        assert(a =~= b);
    }
}

} // verus!
