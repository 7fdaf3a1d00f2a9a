//! Orders on text and a verified stable merge sort.
//!
//! Strings are ordered lexicographically by characters (`lex_lt`); for UTF-8
//! text this is the same order as `String`'s byte-wise order.

use vstd::prelude::*;
use vstd::multiset::Multiset;

verus! {

broadcast use vstd::seq_lib::group_to_multiset_ensures, vstd::multiset::group_multiset_axioms,
    vstd::seq_lib::lemma_multiset_commutative;

/// Strict lexicographic order on character sequences.
pub open spec fn lex_lt(a: Seq<char>, b: Seq<char>) -> bool
    decreases a.len(),
{
    if a.len() == 0 {
        b.len() > 0
    } else if b.len() == 0 {
        false
    } else if a[0] == b[0] {
        lex_lt(a.drop_first(), b.drop_first())
    } else {
        a[0] < b[0]
    }
}

/// Lexicographic order, including equality.
pub open spec fn lex_le(a: Seq<char>, b: Seq<char>) -> bool {
    a == b || lex_lt(a, b)
}

pub proof fn lemma_lex_irreflexive(a: Seq<char>)
    ensures
        !lex_lt(a, a),
    decreases a.len(),
{
    if a.len() > 0 {
        lemma_lex_irreflexive(a.drop_first());
    }
}

pub proof fn lemma_lex_total(a: Seq<char>, b: Seq<char>)
    ensures
        a == b || lex_lt(a, b) || lex_lt(b, a),
    decreases a.len(),
{
    if a.len() > 0 && b.len() > 0 {
        if a[0] == b[0] {
            lemma_lex_total(a.drop_first(), b.drop_first());
            if a.drop_first() == b.drop_first() {
                assert(a =~= seq![a[0]] + a.drop_first());
                assert(b =~= seq![b[0]] + b.drop_first());
            }
        }
    } else if a.len() == 0 && b.len() == 0 {
        assert(a =~= b);
    }
}

pub proof fn lemma_lex_asymmetric(a: Seq<char>, b: Seq<char>)
    ensures
        !(lex_lt(a, b) && lex_lt(b, a)),
    decreases a.len(),
{
    if a.len() > 0 && b.len() > 0 && a[0] == b[0] {
        lemma_lex_asymmetric(a.drop_first(), b.drop_first());
    }
}

pub proof fn lemma_lex_transitive(a: Seq<char>, b: Seq<char>, c: Seq<char>)
    requires
        lex_lt(a, b),
        lex_lt(b, c),
    ensures
        lex_lt(a, c),
    decreases a.len(),
{
    if a.len() > 0 && b.len() > 0 && c.len() > 0 {
        if a[0] == b[0] && b[0] == c[0] {
            lemma_lex_transitive(a.drop_first(), b.drop_first(), c.drop_first());
        }
    }
}

/// Three-way comparison of character sequences.
pub fn compare_chars(a: &[char], b: &[char]) -> (r: i8)
    ensures
        r == -1 <==> lex_lt(a@, b@),
        r == 0 <==> a@ == b@,
        r == 1 <==> lex_lt(b@, a@),
        -1 <= r <= 1,
{
    let mut i: usize = 0;
    while i < a.len() && i < b.len() && a[i] == b[i]
        invariant
            i <= a.len(),
            i <= b.len(),
            a@.take(i as int) == b@.take(i as int),
        decreases a.len() - i,
    {
        assert(a@.take(i + 1) =~= a@.take(i as int).push(a@[i as int]));
        assert(b@.take(i + 1) =~= b@.take(i as int).push(b@[i as int]));
        i = i + 1;
    }
    proof {
        lemma_lex_skip_common(a@, b@, i as int);
        lemma_lex_asymmetric(a@, b@);
        lemma_lex_irreflexive(a@);
    }
    if i < a.len() && i < b.len() {
        if a[i] < b[i] {
            -1
        } else {
            proof {
                assert(a@ != b@) by {
                    assert(a@[i as int] != b@[i as int]);
                }
            }
            1
        }
    } else if i < b.len() {
        proof {
            assert(a@ != b@) by {
                assert(a@.len() != b@.len());
            }
        }
        -1
    } else if i < a.len() {
        assert(a@.len() != b@.len());
        1
    } else {
        assert(a@ =~= a@.take(i as int));
        assert(b@ =~= b@.take(i as int));
        0
    }
}

/// Comparing two sequences that share a prefix compares what follows it.
proof fn lemma_lex_skip_common(a: Seq<char>, b: Seq<char>, i: int)
    requires
        0 <= i <= a.len(),
        i <= b.len(),
        a.take(i) == b.take(i),
    ensures
        lex_lt(a, b) == lex_lt(a.skip(i), b.skip(i)),
        lex_lt(b, a) == lex_lt(b.skip(i), a.skip(i)),
    decreases i,
{
    if i > 0 {
        assert(a[0] == a.take(i)[0]);
        assert(b[0] == b.take(i)[0]);
        assert(a.drop_first().take(i - 1) =~= a.take(i).drop_first());
        assert(b.drop_first().take(i - 1) =~= b.take(i).drop_first());
        lemma_lex_skip_common(a.drop_first(), b.drop_first(), i - 1);
        assert(a.drop_first().skip(i - 1) =~= a.skip(i));
        assert(b.drop_first().skip(i - 1) =~= b.skip(i));
    } else {
        assert(a.skip(0) =~= a);
        assert(b.skip(0) =~= b);
    }
}

/// Three-way comparison of two strings.
pub fn compare_text(a: &str, b: &str) -> (r: i8)
    ensures
        r == -1 <==> lex_lt(a@, b@),
        r == 0 <==> a@ == b@,
        r == 1 <==> lex_lt(b@, a@),
        -1 <= r <= 1,
{
    let av = crate::text::chars_of(a);
    let bv = crate::text::chars_of(b);
    compare_chars(&av, &bv)
}

/// The order on optional text that `Option<String>` has: `None` first.
pub open spec fn opt_lex_lt(a: Option<Seq<char>>, b: Option<Seq<char>>) -> bool {
    match (a, b) {
        (None, Some(_)) => true,
        (Some(x), Some(y)) => lex_lt(x, y),
        _ => false,
    }
}

pub open spec fn opt_view(a: Option<String>) -> Option<Seq<char>> {
    match a {
        Some(s) => Some(s@),
        None => None,
    }
}

pub proof fn lemma_opt_lex_facts(a: Option<Seq<char>>, b: Option<Seq<char>>, c: Option<Seq<char>>)
    ensures
        !opt_lex_lt(a, a),
        a == b || opt_lex_lt(a, b) || opt_lex_lt(b, a),
        !(opt_lex_lt(a, b) && opt_lex_lt(b, a)),
        opt_lex_lt(a, b) && opt_lex_lt(b, c) ==> opt_lex_lt(a, c),
{
    match (a, b, c) {
        (Some(x), Some(y), Some(z)) => {
            lemma_lex_irreflexive(x);
            lemma_lex_total(x, y);
            lemma_lex_asymmetric(x, y);
            if lex_lt(x, y) && lex_lt(y, z) {
                lemma_lex_transitive(x, y, z);
            }
        },
        (Some(x), Some(y), None) => {
            lemma_lex_irreflexive(x);
            lemma_lex_total(x, y);
            lemma_lex_asymmetric(x, y);
        },
        (Some(x), _, _) => {
            lemma_lex_irreflexive(x);
        },
        _ => {},
    }
}

/// Three-way comparison of optional strings, `None` first.
pub fn compare_opt_text(a: &Option<String>, b: &Option<String>) -> (r: i8)
    ensures
        r == -1 <==> opt_lex_lt(opt_view(*a), opt_view(*b)),
        r == 0 <==> opt_view(*a) == opt_view(*b),
        r == 1 <==> opt_lex_lt(opt_view(*b), opt_view(*a)),
        -1 <= r <= 1,
{
    match (a, b) {
        (None, None) => 0,
        (None, Some(_)) => -1,
        (Some(_), None) => 1,
        (Some(x), Some(y)) => compare_text(x.as_str(), y.as_str()),
    }
}

// ---------------------------------------------------------------------------
// Sorting
// ---------------------------------------------------------------------------

/// An element type with a total preorder on its view, used for sorting.
pub trait SortKey: View + Sized {
    spec fn key_le(a: Self::V, b: Self::V) -> bool;

    proof fn lemma_key_total(a: Self::V, b: Self::V)
        ensures
            Self::key_le(a, b) || Self::key_le(b, a),
    ;

    proof fn lemma_key_transitive(a: Self::V, b: Self::V, c: Self::V)
        requires
            Self::key_le(a, b),
            Self::key_le(b, c),
        ensures
            Self::key_le(a, c),
    ;

    fn key_le_exec(&self, other: &Self) -> (r: bool)
        ensures
            r == Self::key_le(self@, other@),
    ;
}

/// The views of a sequence of values.
pub open spec fn views<T: View>(s: Seq<T>) -> Seq<T::V> {
    s.map_values(|t: T| t@)
}

/// A sequence of views in non-decreasing key order.
pub open spec fn sorted_by_key<T: SortKey>(s: Seq<T::V>) -> bool {
    forall|i: int, j: int| 0 <= i < j < s.len() ==> T::key_le(#[trigger] s[i], #[trigger] s[j])
}

proof fn lemma_views_push<T: View>(s: Seq<T>, x: T)
    ensures
        views(s.push(x)) == views(s).push(x@),
{
    assert(views(s.push(x)) =~= views(s).push(x@));
}

proof fn lemma_views_add<T: View>(a: Seq<T>, b: Seq<T>)
    ensures
        views(a + b) == views(a) + views(b),
{
    assert(views(a + b) =~= views(a) + views(b));
}

/// Moves the elements of `v` into a new vector in reverse order.
fn reverse_vec<T: View>(v: Vec<T>) -> (r: Vec<T>)
    ensures
        r.len() == v.len(),
        forall|i: int| 0 <= i < v.len() ==> #[trigger] r@[i] == v@[v.len() - 1 - i],
{
    let mut src = v;
    let ghost orig = src@;
    let mut r: Vec<T> = Vec::new();
    while src.len() > 0
        invariant
            src@ == orig.take(src.len() as int),
            r.len() + src.len() == orig.len(),
            forall|i: int| 0 <= i < r.len() ==> #[trigger] r@[i] == orig[orig.len() - 1 - i],
        decreases src.len(),
    {
        let x = src.pop().unwrap();
        r.push(x);
        assert(src@ =~= orig.take(src.len() as int));
    }
    r
}

proof fn lemma_reverse_multiset<T: View>(v: Seq<T>, r: Seq<T>)
    requires
        r.len() == v.len(),
        forall|i: int| 0 <= i < v.len() ==> #[trigger] r[i] == v[v.len() - 1 - i],
    ensures
        views(r).to_multiset() == views(v).to_multiset(),
{
    assert(views(r) =~= views(v).reverse());
    views(v).lemma_reverse_to_multiset();
}

/// Merges two sorted vectors into one sorted vector holding both.
fn merge_sorted<T: SortKey>(a: Vec<T>, b: Vec<T>) -> (r: Vec<T>)
    requires
        sorted_by_key::<T>(views(a@)),
        sorted_by_key::<T>(views(b@)),
    ensures
        r.len() == a.len() + b.len(),
        sorted_by_key::<T>(views(r@)),
        views(r@).to_multiset() == views(a@).to_multiset().add(views(b@).to_multiset()),
{
    let ghost total = views(a@).to_multiset().add(views(b@).to_multiset());
    let ghost total_len = a.len() + b.len();
    let mut a = a;
    let mut b = b;
    let mut out: Vec<T> = Vec::new();
    while a.len() > 0 || b.len() > 0
        invariant
            sorted_by_key::<T>(views(a@)),
            sorted_by_key::<T>(views(b@)),
            out.len() + a.len() + b.len() == total_len,
            // `out` holds the largest elements, in non-increasing order
            forall|i: int, j: int|
                0 <= i < j < out.len() ==> T::key_le(#[trigger] out@[j]@, #[trigger] out@[i]@),
            forall|i: int, j: int|
                0 <= i < out.len() && 0 <= j < a.len() ==> T::key_le(
                    #[trigger] a@[j]@,
                    #[trigger] out@[i]@,
                ),
            forall|i: int, j: int|
                0 <= i < out.len() && 0 <= j < b.len() ==> T::key_le(
                    #[trigger] b@[j]@,
                    #[trigger] out@[i]@,
                ),
            views(out@).to_multiset().add(views(a@).to_multiset()).add(views(b@).to_multiset())
                == total,
        decreases a.len() + b.len(),
    {
        let take_a = if a.len() == 0 {
            false
        } else if b.len() == 0 {
            true
        } else {
            !a[a.len() - 1].key_le_exec(&b[b.len() - 1])
        };
        let ghost old_a = a@;
        let ghost old_b = b@;
        let ghost old_out = out@;
        if take_a {
            let x = a.pop().unwrap();
            proof {
                assert(old_a =~= a@.push(x));
                lemma_views_push(a@, x);
                lemma_views_push(old_out, x);
                if b.len() > 0 {
                    T::lemma_key_total(b@[b.len() - 1]@, x@);
                }
                assert forall|j: int| 0 <= j < b.len() implies T::key_le(#[trigger] b@[j]@, x@) by {
                    if j < b.len() - 1 {
                        assert(views(b@)[j] == b@[j]@);
                        assert(views(b@)[b.len() - 1] == b@[b.len() - 1]@);
                        T::lemma_key_transitive(b@[j]@, b@[b.len() - 1]@, x@);
                    }
                }
                assert forall|j: int| 0 <= j < a.len() implies T::key_le(#[trigger] a@[j]@, x@) by {
                    assert(views(old_a)[j] == a@[j]@);
                    assert(views(old_a)[old_a.len() - 1] == x@);
                }
            }
            out.push(x);
        } else {
            let x = b.pop().unwrap();
            proof {
                assert(old_b =~= b@.push(x));
                lemma_views_push(b@, x);
                lemma_views_push(old_out, x);
                assert forall|j: int| 0 <= j < a.len() implies T::key_le(#[trigger] a@[j]@, x@) by {
                    if j < a.len() - 1 {
                        assert(views(old_a)[j] == a@[j]@);
                        assert(views(old_a)[a.len() - 1] == a@[a.len() - 1]@);
                        T::lemma_key_transitive(a@[j]@, a@[a.len() - 1]@, x@);
                    }
                }
                assert forall|j: int| 0 <= j < b.len() implies T::key_le(#[trigger] b@[j]@, x@) by {
                    assert(views(old_b)[j] == b@[j]@);
                    assert(views(old_b)[old_b.len() - 1] == x@);
                }
            }
            out.push(x);
        }
        proof {
            assert(sorted_by_key::<T>(views(a@))) by {
                assert forall|i: int, j: int| 0 <= i < j < views(a@).len() implies T::key_le(
                    #[trigger] views(a@)[i],
                    #[trigger] views(a@)[j],
                ) by {
                    assert(views(a@)[i] == views(old_a)[i]);
                    assert(views(a@)[j] == views(old_a)[j]);
                }
            }
            assert(sorted_by_key::<T>(views(b@))) by {
                assert forall|i: int, j: int| 0 <= i < j < views(b@).len() implies T::key_le(
                    #[trigger] views(b@)[i],
                    #[trigger] views(b@)[j],
                ) by {
                    assert(views(b@)[i] == views(old_b)[i]);
                    assert(views(b@)[j] == views(old_b)[j]);
                }
            }
        }
    }
    let r = reverse_vec(out);
    proof {
        lemma_reverse_multiset(out@, r@);
        assert(views(a@).to_multiset() =~= Multiset::empty());
        assert(views(b@).to_multiset() =~= Multiset::empty());
        assert forall|i: int, j: int| 0 <= i < j < views(r@).len() implies T::key_le(
            #[trigger] views(r@)[i],
            #[trigger] views(r@)[j],
        ) by {
            assert(views(r@)[i] == out@[out.len() - 1 - i]@);
            assert(views(r@)[j] == out@[out.len() - 1 - j]@);
        }
    }
    r
}

/// Sorts a vector by key. The result is sorted and holds the same views.
pub fn sort_by_key<T: SortKey>(v: Vec<T>) -> (r: Vec<T>)
    ensures
        r.len() == v.len(),
        sorted_by_key::<T>(views(r@)),
        views(r@).to_multiset() == views(v@).to_multiset(),
    decreases v.len(),
{
    let mut v = v;
    let ghost orig = v@;
    if v.len() <= 1 {
        proof {
            assert forall|i: int, j: int| 0 <= i < j < views(v@).len() implies T::key_le(
                #[trigger] views(v@)[i],
                #[trigger] views(v@)[j],
            ) by {}
        }
        return v;
    }
    let mid = v.len() / 2;
    let right = v.split_off(mid);
    proof {
        assert(orig =~= v@ + right@);
        lemma_views_add(v@, right@);
    }
    let left = sort_by_key(v);
    let right = sort_by_key(right);
    merge_sorted(left, right)
}

/// Strings sort by their characters.
impl SortKey for String {
    open spec fn key_le(a: Seq<char>, b: Seq<char>) -> bool {
        lex_le(a, b)
    }

    proof fn lemma_key_total(a: Seq<char>, b: Seq<char>) {
        lemma_lex_total(a, b);
    }

    proof fn lemma_key_transitive(a: Seq<char>, b: Seq<char>, c: Seq<char>) {
        if lex_lt(a, b) && lex_lt(b, c) {
            lemma_lex_transitive(a, b, c);
        }
    }

    fn key_le_exec(&self, other: &Self) -> (r: bool) {
        compare_text(self.as_str(), other.as_str()) <= 0
    }
}

/// Strictly increasing in lexicographic order: sorted and without duplicates.
pub open spec fn strictly_sorted(s: Seq<Seq<char>>) -> bool {
    forall|i: int, j: int| 0 <= i < j < s.len() ==> lex_lt(#[trigger] s[i], #[trigger] s[j])
}

/// Sorts strings and removes duplicates (`sort` followed by `dedup`).
pub fn sort_dedup_strings(v: Vec<String>) -> (r: Vec<String>)
    ensures
        strictly_sorted(views(r@)),
        views(r@).to_set() == views(v@).to_set(),
{
    let sorted = sort_by_key(v);
    let ghost sv = views(sorted@);
    proof {
        assert forall|x: Seq<char>| sv.contains(x) <==> views(v@).contains(x) by {
            assert(sv.to_multiset().count(x) == views(v@).to_multiset().count(x));
        }
    }
    let mut out: Vec<String> = Vec::new();
    let mut i: usize = 0;
    while i < sorted.len()
        invariant
            sv == views(sorted@),
            sorted_by_key::<String>(sv),
            i <= sorted.len(),
            strictly_sorted(views(out@)),
            forall|x: Seq<char>| views(out@).contains(x) <==> sv.take(i as int).contains(x),
            out.len() > 0 ==> i > 0 && out@[out.len() - 1]@ == sv[i - 1],
            out.len() == 0 ==> i == 0,
        decreases sorted.len() - i,
    {
        let ghost old_out = out@;
        assert(sv[i as int] == sorted@[i as int]@);
        if out.len() == 0 || !text_eq_string(&out[out.len() - 1], &sorted[i]) {
            let s = crate::text::text_copy(sorted[i].as_str());
            proof {
                lemma_views_push(old_out, s);
                if out.len() > 0 {
                    assert(String::key_le(sv[i - 1], sv[i as int]));
                    assert forall|k: int| 0 <= k < out.len() implies lex_lt(
                        #[trigger] views(out@)[k],
                        s@,
                    ) by {
                        assert(views(out@)[k] == out@[k]@);
                        if k < out.len() - 1 {
                            assert(lex_lt(views(out@)[k], views(out@)[out.len() - 1]));
                            lemma_lex_transitive(views(out@)[k], sv[i - 1], s@);
                        }
                    }
                }
            }
            out.push(s);
            proof {
                assert forall|a: int, b: int| 0 <= a < b < views(out@).len() implies lex_lt(
                    #[trigger] views(out@)[a],
                    #[trigger] views(out@)[b],
                ) by {
                    if b < old_out.len() {
                        assert(views(out@)[a] == views(old_out)[a]);
                        assert(views(out@)[b] == views(old_out)[b]);
                    } else {
                        assert(views(out@)[a] == views(old_out)[a]);
                    }
                }
            }
        }
        proof {
            assert(sv.take(i + 1) =~= sv.take(i as int).push(sv[i as int]));
            broadcast use vstd::seq_lib::group_seq_properties;

            assert(views(out@).last() == sv[i as int]) by {
                assert(views(out@)[views(out@).len() - 1] == out@[out.len() - 1]@);
            }
            assert forall|x: Seq<char>| views(out@).contains(x) <==> sv.take(i + 1).contains(x) by {
                if x == sv[i as int] {
                    assert(views(out@)[views(out@).len() - 1] == x);
                }
                if views(out@).len() > old_out.len() {
                    assert(views(out@) =~= views(old_out).push(sv[i as int]));
                } else {
                    assert(views(out@) =~= views(old_out));
                }
            }
        }
        i = i + 1;
    }
    proof {
        assert(sv.take(i as int) =~= sv);
        assert(views(out@).to_set() =~= views(v@).to_set());
    }
    out
}

/// Whether two strings hold the same characters.
pub fn text_eq_string(a: &String, b: &String) -> (r: bool)
    ensures
        r == (a@ == b@),
{
    crate::text::text_eq(a.as_str(), b.as_str())
}

/// The texts in lexicographic order (the result of `sort` on strings).
pub open spec fn sort_texts(s: Seq<Seq<char>>) -> Seq<Seq<char>> {
    s.sort_by(|a: Seq<char>, b: Seq<char>| lex_le(a, b))
}

pub open spec fn lex_sorted(s: Seq<Seq<char>>) -> bool {
    forall|i: int, j: int| 0 <= i < j < s.len() ==> lex_le(#[trigger] s[i], #[trigger] s[j])
}

proof fn lemma_lex_le_total_ordering()
    ensures
        vstd::relations::total_ordering(|a: Seq<char>, b: Seq<char>| lex_le(a, b)),
{
    let leq = |a: Seq<char>, b: Seq<char>| lex_le(a, b);
    assert forall|a: Seq<char>| #[trigger] leq(a, a) by {}
    assert forall|a: Seq<char>, b: Seq<char>| #[trigger] leq(a, b) && #[trigger] leq(b, a) implies a
        == b by {
        lemma_lex_asymmetric(a, b);
    }
    assert forall|a: Seq<char>, b: Seq<char>, c: Seq<char>| #[trigger] leq(a, b) && #[trigger] leq(
        b,
        c,
    ) implies leq(a, c) by {
        if lex_lt(a, b) && lex_lt(b, c) {
            lemma_lex_transitive(a, b, c);
        }
    }
    assert forall|a: Seq<char>, b: Seq<char>| #[trigger] leq(a, b) || leq(b, a) by {
        lemma_lex_total(a, b);
    }
}

/// Two lexicographically sorted sequences with the same elements are equal.
pub proof fn lemma_lex_sorted_unique(a: Seq<Seq<char>>, b: Seq<Seq<char>>)
    requires
        lex_sorted(a),
        lex_sorted(b),
        a.to_multiset() == b.to_multiset(),
    ensures
        a == b,
    decreases a.len(),
{
    assert(a.len() == b.len()) by {
        vstd::seq_lib::to_multiset_len(a);
        vstd::seq_lib::to_multiset_len(b);
    }
    if a.len() > 0 {
        assert(b.to_multiset().count(a[0]) > 0);
        assert(b.contains(a[0]));
        let j = choose|j: int| 0 <= j < b.len() && b[j] == a[0];
        assert(a.to_multiset().count(b[0]) > 0);
        assert(a.contains(b[0]));
        let k = choose|k: int| 0 <= k < a.len() && a[k] == b[0];
        if j > 0 {
            assert(lex_le(b[0], b[j]));
        }
        if k > 0 {
            assert(lex_le(a[0], a[k]));
        }
        lemma_lex_asymmetric(a[0], b[0]);
        assert(a[0] == b[0]);
        assert(a.remove(0) =~= a.drop_first());
        assert(b.remove(0) =~= b.drop_first());
        assert(a.drop_first().to_multiset() == b.drop_first().to_multiset());
        assert(lex_sorted(a.drop_first())) by {
            assert forall|i: int, j: int| 0 <= i < j < a.drop_first().len() implies lex_le(
                #[trigger] a.drop_first()[i],
                #[trigger] a.drop_first()[j],
            ) by {
                assert(lex_le(a[i + 1], a[j + 1]));
            }
        }
        assert(lex_sorted(b.drop_first())) by {
            assert forall|i: int, j: int| 0 <= i < j < b.drop_first().len() implies lex_le(
                #[trigger] b.drop_first()[i],
                #[trigger] b.drop_first()[j],
            ) by {
                assert(lex_le(b[i + 1], b[j + 1]));
            }
        }
        lemma_lex_sorted_unique(a.drop_first(), b.drop_first());
        assert forall|i: int| 0 <= i < a.len() implies a[i] == b[i] by {
            if i > 0 {
                assert(a[i] == a.drop_first()[i - 1]);
                assert(b[i] == b.drop_first()[i - 1]);
            }
        }
        assert(a =~= b);
    } else {
        assert(a =~= b);
    }
}

/// A lexicographically sorted arrangement of the elements of `s` is `sort_texts(s)`.
pub proof fn lemma_sort_texts_unique(t: Seq<Seq<char>>, s: Seq<Seq<char>>)
    requires
        lex_sorted(t),
        t.to_multiset() == s.to_multiset(),
    ensures
        t == sort_texts(s),
{
    lemma_lex_le_total_ordering();
    s.lemma_sort_by_ensures(|a: Seq<char>, b: Seq<char>| lex_le(a, b));
    let u = sort_texts(s);
    assert(lex_sorted(u)) by {
        assert forall|i: int, j: int| 0 <= i < j < u.len() implies lex_le(
            #[trigger] u[i],
            #[trigger] u[j],
        ) by {
            assert((|a: Seq<char>, b: Seq<char>| lex_le(a, b))(u[i], u[j]));
        }
    }
    lemma_lex_sorted_unique(t, u);
}

/// Sorts strings lexicographically (`sort` on a vector of strings).
pub fn sort_strings(v: Vec<String>) -> (r: Vec<String>)
    ensures
        views(r@) == sort_texts(views(v@)),
{
    let r = sort_by_key(v);
    proof {
        assert(lex_sorted(views(r@))) by {
            assert forall|i: int, j: int| 0 <= i < j < views(r@).len() implies lex_le(
                #[trigger] views(r@)[i],
                #[trigger] views(r@)[j],
            ) by {
                assert(String::key_le(views(r@)[i], views(r@)[j]));
            }
        }
        lemma_sort_texts_unique(views(r@), views(v@));
    }
    r
}

} // verus!
