//! Counting and collecting distinct texts.

use vstd::prelude::*;

use crate::keymap::{key_lt, lemma_insert_ordered, search_key, strictly_ordered};
use crate::order::views;

verus! {

/// The number of elements that satisfy a predicate.
pub open spec fn count_where<T>(s: Seq<T>, p: spec_fn(T) -> bool) -> nat
    decreases s.len(),
{
    if s.len() == 0 {
        0
    } else {
        count_where(s.drop_last(), p) + if p(s.last()) {
            1nat
        } else {
            0nat
        }
    }
}

pub proof fn lemma_count_where_step<T>(s: Seq<T>, i: int, p: spec_fn(T) -> bool)
    requires
        0 <= i < s.len(),
    ensures
        count_where(s.take(i + 1), p) == count_where(s.take(i), p) + if p(s[i]) {
            1nat
        } else {
            0nat
        },
{
    assert(s.take(i + 1).drop_last() =~= s.take(i));
    assert(s.take(i + 1).last() == s[i]);
}

pub proof fn lemma_count_where_bound<T>(s: Seq<T>, p: spec_fn(T) -> bool)
    ensures
        count_where(s, p) <= s.len(),
    decreases s.len(),
{
    if s.len() > 0 {
        lemma_count_where_bound(s.drop_last(), p);
    }
}

/// The sum of a numeric measure over a sequence.
pub open spec fn sum_of<T>(s: Seq<T>, f: spec_fn(T) -> nat) -> nat
    decreases s.len(),
{
    if s.len() == 0 {
        0
    } else {
        sum_of(s.drop_last(), f) + f(s.last())
    }
}

pub proof fn lemma_sum_of_step<T>(s: Seq<T>, i: int, f: spec_fn(T) -> nat)
    requires
        0 <= i < s.len(),
    ensures
        sum_of(s.take(i + 1), f) == sum_of(s.take(i), f) + f(s[i]),
{
    assert(s.take(i + 1).drop_last() =~= s.take(i));
    assert(s.take(i + 1).last() == s[i]);
}

pub proof fn lemma_sum_of_prefix_le<T>(s: Seq<T>, i: int, f: spec_fn(T) -> nat)
    requires
        0 <= i <= s.len(),
    ensures
        sum_of(s.take(i), f) <= sum_of(s, f),
    decreases s.len() - i,
{
    if i < s.len() {
        lemma_sum_of_step(s, i, f);
        lemma_sum_of_prefix_le(s, i + 1, f);
    } else {
        assert(s.take(i) =~= s);
    }
}

proof fn lemma_take_contains<T>(s: Seq<T>, i: int)
    requires
        0 <= i < s.len(),
    ensures
        forall|x: T| #[trigger] s.take(i + 1).contains(x) <==> (s.take(i).contains(x) || x == s[i]),
{
    assert(s.take(i + 1) =~= s.take(i).push(s[i]));
    assert forall|x: T| #[trigger] s.take(i + 1).contains(x) <==> (s.take(i).contains(x) || x == s[i]) by {
        let t = s.take(i);
        let u = s.take(i + 1);
        if u.contains(x) && x != s[i] {
            let j = choose|j: int| 0 <= j < u.len() && u[j] == x;
            assert(t[j] == x);
        }
        if t.contains(x) {
            let j = choose|j: int| 0 <= j < t.len() && t[j] == x;
            assert(s.take(i + 1)[j] == x);
        }
        if x == s[i] {
            assert(s.take(i + 1)[i] == x);
        }
    }
}

/// Collects the distinct texts of a list in increasing order.
pub fn distinct_texts(texts: &Vec<String>) -> (r: Vec<String>)
    ensures
        strictly_ordered::<String>(views(r@)),
        views(r@).to_set() == views(texts@).to_set(),
        views(r@).no_duplicates(),
        r.len() == views(texts@).to_set().len(),
{
    let mut out: Vec<String> = Vec::new();
    let mut i: usize = 0;
    while i < texts.len()
        invariant
            i <= texts.len(),
            strictly_ordered::<String>(views(out@)),
            forall|x: Seq<char>| views(out@).contains(x) <==> views(texts@).take(i as int).contains(x),
        decreases texts.len() - i,
    {
        let ghost before = out@;
        proof {
            lemma_take_contains(views(texts@), i as int);
            assert(views(texts@)[i as int] == texts@[i as int]@);
            assert(views(texts@).take(i + 1) =~= views(texts@).take(i as int).push(texts@[i as int]@));
        }
        match search_key(&out, &texts[i]) {
            Ok(k) => {
                proof {
                    assert(views(out@)[k as int] == texts@[i as int]@);
                    assert(views(out@).contains(texts@[i as int]@));
                }
            },
            Err(p) => {
                proof {
                    lemma_insert_ordered::<String>(out@, p as int, texts@[i as int]);
                }
                out.insert(p, texts[i].clone());
                proof {
                    assert(views(out@) == views(before).insert(p as int, texts@[i as int]@));
                    assert forall|x: Seq<char>| views(out@).contains(x) <==> (views(before).contains(x)
                        || x == texts@[i as int]@) by {
                        let n = views(out@);
                        if n.contains(x) {
                            let k = choose|k: int| 0 <= k < n.len() && n[k] == x;
                            if k < p {
                                assert(views(before)[k] == x);
                            } else if k > p {
                                assert(views(before)[k - 1] == x);
                            }
                        }
                        if views(before).contains(x) {
                            let k = choose|k: int| 0 <= k < views(before).len() && views(before)[k] == x;
                            if k < p {
                                assert(n[k] == x);
                            } else {
                                assert(n[k + 1] == x);
                            }
                        }
                        if x == texts@[i as int]@ {
                            assert(n[p as int] == x);
                        }
                    }
                }
            },
        }
        proof {
            assert forall|x: Seq<char>| views(out@).contains(x) <==> views(texts@).take(i + 1).contains(
                x,
            ) by {
                assert(views(texts@).take(i + 1).contains(x) <==> (views(texts@).take(i as int).contains(x)
                    || x == views(texts@)[i as int]));
                assert(views(before).contains(x) <==> views(texts@).take(i as int).contains(x));
                assert(views(out@).contains(x) <==> (views(before).contains(x) || x == texts@[i as int]@));
            }
        }
        i = i + 1;
    }
    proof {
        assert(views(texts@).take(texts.len() as int) =~= views(texts@));
        assert(views(out@).to_set() =~= views(texts@).to_set());
        let o = views(out@);
        assert(o.no_duplicates()) by {
            assert forall|a: int, b: int| 0 <= a < o.len() && 0 <= b < o.len() && a != b implies o[a] != o[b] by {
                if a < b {
                    assert(key_lt::<String>(o[a], o[b]));
                } else {
                    assert(key_lt::<String>(o[b], o[a]));
                }
            }
        }
        o.unique_seq_to_set();
    }
    out
}

/// Counting over two sequences whose items agree on the property gives the
/// same number.
pub proof fn lemma_count_where_agree<T>(a: Seq<T>, b: Seq<T>, p: spec_fn(T) -> bool)
    requires
        a.len() == b.len(),
        forall|k: int| 0 <= k < a.len() ==> p(#[trigger] a[k]) == p(b[k]),
    ensures
        count_where(a, p) == count_where(b, p),
    decreases a.len(),
{
    if a.len() > 0 {
        let (x, y) = (a.drop_last(), b.drop_last());
        assert forall|k: int| 0 <= k < x.len() implies p(#[trigger] x[k]) == p(y[k]) by {
            assert(x[k] == a[k]);
            assert(y[k] == b[k]);
        }
        lemma_count_where_agree(x, y, p);
        assert(p(a[a.len() - 1]) == p(b[a.len() - 1]));
    }
}

/// Summing over two sequences whose items agree on the value gives the
/// same total.
pub proof fn lemma_sum_of_agree<T>(a: Seq<T>, b: Seq<T>, f: spec_fn(T) -> nat)
    requires
        a.len() == b.len(),
        forall|k: int| 0 <= k < a.len() ==> f(#[trigger] a[k]) == f(b[k]),
    ensures
        sum_of(a, f) == sum_of(b, f),
    decreases a.len(),
{
    if a.len() > 0 {
        let (x, y) = (a.drop_last(), b.drop_last());
        assert forall|k: int| 0 <= k < x.len() implies f(#[trigger] x[k]) == f(y[k]) by {
            assert(x[k] == a[k]);
            assert(y[k] == b[k]);
        }
        lemma_sum_of_agree(x, y, f);
        assert(f(a[a.len() - 1]) == f(b[a.len() - 1]));
    }
}

} // verus!
