//! CKAN-ish version ordering.
//!
//! A version text is read as an optional numeric epoch before the first `:`,
//! an optional leading `v` or `V`, and then runs of ASCII digits and ASCII
//! letters. Digit runs compare as numbers, letter runs compare
//! case-insensitively, a number sorts after a word, and missing trailing runs
//! count as zero.

use vstd::prelude::*;
use std::cmp::Ordering;

use crate::order::{compare_chars, lex_lt};
use crate::text::{
    ascii_lower_seq, char_is_ascii_alphanumeric, char_is_ascii_digit, char_to_ascii_lowercase,
    chars_of, decimal_spec, is_ascii_alphanumeric, is_ascii_digit, lemma_decimal_nonempty, lemma_decimal_value,
    parse_u64, parse_u64_spec, string_from_chars,
};

verus! {

/// One run of a version text.
pub enum VersionPart {
    Number(u64),
    Text(String),
}

/// A version text read for comparison.
pub struct VersionKey {
    pub epoch: u64,
    pub parts: Vec<VersionPart>,
}

/// The mathematical form of a version run.
pub enum PartView {
    Number(u64),
    Text(Seq<char>),
}

impl View for VersionPart {
    type V = PartView;

    open spec fn view(&self) -> PartView {
        match self {
            VersionPart::Number(n) => PartView::Number(*n),
            VersionPart::Text(t) => PartView::Text(t@),
        }
    }
}

pub open spec fn parts_view(parts: Seq<VersionPart>) -> Seq<PartView> {
    parts.map_values(|p: VersionPart| p@)
}

// ---------------------------------------------------------------------------
// Reading a version text
// ---------------------------------------------------------------------------

/// The maximal runs of ASCII digits and of ASCII letters in a text, in order.
/// A character continues the run before it when both are ASCII alphanumeric
/// of the same kind (digit or not).
pub open spec fn version_runs(s: Seq<char>) -> Seq<Seq<char>>
    decreases s.len(),
{
    if s.len() == 0 {
        Seq::empty()
    } else {
        let runs = version_runs(s.drop_last());
        let c = s.last();
        if !is_ascii_alphanumeric(c) {
            runs
        } else if s.len() >= 2 && is_ascii_alphanumeric(s[s.len() - 2]) && is_ascii_digit(
            s[s.len() - 2],
        ) == is_ascii_digit(c) {
            runs.update(runs.len() - 1, runs.last().push(c))
        } else {
            runs.push(seq![c])
        }
    }
}

/// A digit run reads as its number (0 when it does not fit in a `u64`); a
/// letter run reads as its lowercase text.
pub open spec fn run_part(run: Seq<char>) -> PartView {
    if run.len() > 0 && is_ascii_digit(run[0]) {
        PartView::Number(
            match parse_u64_spec(run) {
                Some(n) => n,
                None => 0,
            },
        )
    } else {
        PartView::Text(ascii_lower_seq(run))
    }
}

pub open spec fn version_parts_spec(s: Seq<char>) -> Seq<PartView> {
    version_runs(s).map_values(|run: Seq<char>| run_part(run))
}

/// The position of the first `:`, if any.
pub open spec fn first_colon(s: Seq<char>) -> Option<int>
    decreases s.len(),
{
    if s.len() == 0 {
        None
    } else {
        match first_colon(s.drop_last()) {
            Some(i) => Some(i),
            None => if s.last() == ':' {
                Some(s.len() - 1)
            } else {
                None
            },
        }
    }
}

/// The epoch and the rest of a version text: a `u64` before the first `:`, or
/// 0 and the whole text when there is no such number.
pub open spec fn split_epoch(s: Seq<char>) -> (u64, Seq<char>) {
    match first_colon(s) {
        Some(i) => match parse_u64_spec(s.take(i)) {
            Some(epoch) => (epoch, s.skip(i + 1)),
            None => (0, s),
        },
        None => (0, s),
    }
}

/// The text without one leading `v` or `V`.
pub open spec fn strip_v(s: Seq<char>) -> Seq<char> {
    if s.len() > 0 && (s[0] == 'v' || s[0] == 'V') {
        s.drop_first()
    } else {
        s
    }
}

/// The comparison key of an optional version text (none reads as empty).
pub open spec fn version_key_spec(version: Option<Seq<char>>) -> (u64, Seq<PartView>) {
    let text = match version {
        Some(t) => t,
        None => Seq::empty(),
    };
    let (epoch, rest) = split_epoch(text);
    (epoch, version_parts_spec(strip_v(rest)))
}

fn flush_run(parts: &mut Vec<VersionPart>, current: &mut Vec<char>)
    requires
        old(current)@.len() > 0 ==> (forall|m: int|
            0 <= m < old(current)@.len() ==> is_ascii_digit(#[trigger] old(current)@[m])
                == is_ascii_digit(old(current)@[0])),
    ensures
        final(current)@.len() == 0,
        parts_view(final(parts)@) == if old(current)@.len() > 0 {
            parts_view(old(parts)@).push(run_part(old(current)@))
        } else {
            parts_view(old(parts)@)
        },
{
    if current.len() == 0 {
        return;
    }
    let ghost old_parts = parts@;
    let part = if char_is_ascii_digit(current[0]) {
        let text = string_from_chars(current.as_slice());
        match parse_u64(text.as_str()) {
            Some(n) => VersionPart::Number(n),
            None => VersionPart::Number(0),
        }
    } else {
        let mut lower: Vec<char> = Vec::new();
        let mut i: usize = 0;
        while i < current.len()
            invariant
                i <= current.len(),
                lower@ == ascii_lower_seq(current@.take(i as int)),
            decreases current.len() - i,
        {
            lower.push(char_to_ascii_lowercase(current[i]));
            assert(ascii_lower_seq(current@.take(i + 1)) =~= ascii_lower_seq(
                current@.take(i as int),
            ).push(crate::text::ascii_lower(current@[i as int])));
            i = i + 1;
        }
        assert(current@.take(current.len() as int) =~= current@);
        VersionPart::Text(string_from_chars(lower.as_slice()))
    };
    assert(part@ == run_part(current@));
    parts.push(part);
    assert(parts_view(parts@) =~= parts_view(old_parts).push(part@));
    current.clear();
}

/// The runs of a version text, read as numbers and lowercase words.
pub fn version_parts(version: &str) -> (r: Vec<VersionPart>)
    ensures
        parts_view(r@) == version_parts_spec(version@),
{
    let v = chars_of(version);
    let mut parts: Vec<VersionPart> = Vec::new();
    let mut current: Vec<char> = Vec::new();
    let mut current_is_digit: Option<bool> = None;
    let ghost mut done: Seq<Seq<char>> = Seq::empty();
    let mut i: usize = 0;
    proof {
        assert(version@.take(0) =~= Seq::<char>::empty());
    }
    while i < v.len()
        invariant
            v@ == version@,
            i <= v.len(),
            current_is_digit is Some <==> current@.len() > 0,
            current@.len() > 0 ==> {
                &&& i > 0
                &&& is_ascii_alphanumeric(version@[i - 1])
                &&& current_is_digit == Some(is_ascii_digit(version@[i - 1]))
                &&& is_ascii_digit(current@[0]) == is_ascii_digit(version@[i - 1])
            },
            current@.len() == 0 ==> (i == 0 || !is_ascii_alphanumeric(version@[i - 1])),
            forall|m: int|
                0 <= m < current@.len() ==> is_ascii_digit(#[trigger] current@[m])
                    == is_ascii_digit(current@[0]),
            version_runs(version@.take(i as int)) == (if current@.len() > 0 {
                done.push(current@)
            } else {
                done
            }),
            parts_view(parts@) == done.map_values(|run: Seq<char>| run_part(run)),
        decreases v.len() - i,
    {
        let ch = v[i];
        let ghost prefix = version@.take(i as int);
        let ghost next = version@.take(i + 1);
        proof {
            assert(next.drop_last() =~= prefix);
            assert(next.last() == ch);
            if i > 0 {
                assert(next[next.len() - 2] == version@[i - 1]);
            }
        }
        if !char_is_ascii_alphanumeric(ch) {
            let ghost old_current = current@;
            flush_run(&mut parts, &mut current);
            current_is_digit = None;
            proof {
                if old_current.len() > 0 {
                    assert(done.push(old_current).map_values(|run: Seq<char>| run_part(run))
                        =~= done.map_values(|run: Seq<char>| run_part(run)).push(
                        run_part(old_current),
                    ));
                    done = done.push(old_current);
                }
            }
        } else {
            let is_digit = char_is_ascii_digit(ch);
            let continues = match current_is_digit {
                Some(d) => d == is_digit,
                None => false,
            };
            if !continues {
                let ghost old_current = current@;
                flush_run(&mut parts, &mut current);
                proof {
                    if old_current.len() > 0 {
                        assert(done.push(old_current).map_values(|run: Seq<char>| run_part(run))
                            =~= done.map_values(|run: Seq<char>| run_part(run)).push(
                            run_part(old_current),
                        ));
                        done = done.push(old_current);
                    }
                }
            }
            current_is_digit = Some(is_digit);
            let ghost before = current@;
            current.push(ch);
            proof {
                if continues {
                    assert(version_runs(next) =~= done.push(before.push(ch)));
                } else {
                    assert(version_runs(next) =~= done.push(seq![ch]));
                    assert(current@ =~= seq![ch]);
                }
            }
        }
        i = i + 1;
    }
    let ghost old_current = current@;
    flush_run(&mut parts, &mut current);
    proof {
        assert(version@.take(v.len() as int) =~= version@);
        if old_current.len() > 0 {
            assert(done.push(old_current).map_values(|run: Seq<char>| run_part(run))
                =~= done.map_values(|run: Seq<char>| run_part(run)).push(run_part(old_current)));
        }
    }
    parts
}

/// Finds the first `:` of a text.
fn find_colon(v: &[char]) -> (r: Option<usize>)
    ensures
        match r {
            Some(i) => first_colon(v@) == Some(i as int) && i < v.len(),
            None => first_colon(v@) is None,
        },
{
    let mut i: usize = 0;
    while i < v.len()
        invariant
            i <= v.len(),
            first_colon(v@.take(i as int)) is None,
        decreases v.len() - i,
    {
        proof {
            assert(v@.take(i + 1).drop_last() =~= v@.take(i as int));
        }
        if v[i] == ':' {
            proof {
                lemma_first_colon_at(v@, i as int);
            }
            return Some(i);
        }
        i = i + 1;
    }
    assert(v@.take(v.len() as int) =~= v@);
    None
}

proof fn lemma_first_colon_at(s: Seq<char>, i: int)
    requires
        0 <= i < s.len(),
        s[i] == ':',
        first_colon(s.take(i)) is None,
    ensures
        first_colon(s) == Some(i),
    decreases s.len() - i,
{
    if i == s.len() - 1 {
        assert(s.drop_last() =~= s.take(i));
    } else {
        assert(s.drop_last().take(i) =~= s.take(i));
        lemma_first_colon_at(s.drop_last(), i);
    }
}

/// Reads a version text for comparison.
pub fn version_key(version: Option<&str>) -> (r: VersionKey)
    ensures
        (r.epoch, parts_view(r.parts@)) == version_key_spec(
            match version {
                Some(t) => Some(t@),
                None => None,
            },
        ),
{
    let text: Vec<char> = match version {
        Some(t) => chars_of(t),
        None => Vec::new(),
    };
    let ghost s = text@;
    let (epoch, rest_from): (u64, usize) = match find_colon(&text) {
        Some(i) => {
            let prefix = crate::text::string_from_range(&text, 0, i);
            assert(prefix@ =~= s.take(i as int));
            match parse_u64(prefix.as_str()) {
                Some(e) => (e, i + 1),
                None => (0, 0),
            }
        },
        None => (0, 0),
    };
    proof {
        assert(s.skip(0) =~= s);
        assert(split_epoch(s) == (epoch, s.skip(rest_from as int)));
    }
    let start: usize = if rest_from < text.len() && (text[rest_from] == 'v' || text[rest_from]
        == 'V') {
        rest_from + 1
    } else {
        rest_from
    };
    let raw = crate::text::string_from_range(&text, start, text.len());
    proof {
        let rest = s.skip(rest_from as int);
        assert(strip_v(rest) =~= s.subrange(start as int, s.len() as int));
    }
    VersionKey { epoch, parts: version_parts(raw.as_str()) }
}

// ---------------------------------------------------------------------------
// Comparing versions
// ---------------------------------------------------------------------------

/// Three-way comparison (-1, 0, 1) of two runs: numbers by value, texts in
/// lexicographic order, and any text before any number.
pub open spec fn compare_part(a: PartView, b: PartView) -> int {
    match (a, b) {
        (PartView::Number(x), PartView::Number(y)) => if x < y {
            -1
        } else if x > y {
            1
        } else {
            0
        },
        (PartView::Text(x), PartView::Text(y)) => if lex_lt(x, y) {
            -1
        } else if lex_lt(y, x) {
            1
        } else {
            0
        },
        (PartView::Number(_), PartView::Text(_)) => 1,
        (PartView::Text(_), PartView::Number(_)) => -1,
    }
}

/// The first run, a zero where there is none.
pub open spec fn head_part(s: Seq<PartView>) -> PartView {
    if s.len() > 0 {
        s[0]
    } else {
        PartView::Number(0)
    }
}

/// The runs after the first.
pub open spec fn tail_parts(s: Seq<PartView>) -> Seq<PartView> {
    if s.len() > 0 {
        s.drop_first()
    } else {
        s
    }
}

/// Three-way comparison (-1, 0, 1) of the runs of two versions, run by run,
/// the shorter padded with zeros.
pub open spec fn compare_parts_spec(l: Seq<PartView>, r: Seq<PartView>) -> int
    decreases l.len() + r.len(),
{
    if l.len() == 0 && r.len() == 0 {
        0
    } else {
        let c = compare_part(head_part(l), head_part(r));
        if c != 0 {
            c
        } else {
            compare_parts_spec(tail_parts(l), tail_parts(r))
        }
    }
}

/// Three-way comparison of two version keys: epoch first, then runs.
pub open spec fn compare_keys_spec(a: (u64, Seq<PartView>), b: (u64, Seq<PartView>)) -> int {
    if a.0 < b.0 {
        -1
    } else if a.0 > b.0 {
        1
    } else {
        compare_parts_spec(a.1, b.1)
    }
}

/// Three-way comparison of two optional version texts.
pub open spec fn compare_versions_spec(a: Option<Seq<char>>, b: Option<Seq<char>>) -> int {
    compare_keys_spec(version_key_spec(a), version_key_spec(b))
}

/// The runs from position `i` on (none past the end).
pub open spec fn parts_from(s: Seq<PartView>, i: int) -> Seq<PartView> {
    if i <= s.len() {
        s.skip(i)
    } else {
        Seq::empty()
    }
}

/// Three-way comparison of the runs of two versions.
pub fn compare_version_parts(left: &[VersionPart], right: &[VersionPart]) -> (r: i8)
    ensures
        r == compare_parts_spec(parts_view(left@), parts_view(right@)),
{
    let ghost lv = parts_view(left@);
    let ghost rv = parts_view(right@);
    let n = if left.len() > right.len() {
        left.len()
    } else {
        right.len()
    };
    let mut index: usize = 0;
    proof {
        assert(lv.skip(0) =~= lv);
        assert(rv.skip(0) =~= rv);
    }
    while index < n
        invariant
            lv == parts_view(left@),
            rv == parts_view(right@),
            n == if left.len() > right.len() {
                left.len()
            } else {
                right.len()
            },
            index <= n,
            compare_parts_spec(lv, rv) == compare_parts_spec(
                parts_from(lv, index as int),
                parts_from(rv, index as int),
            ),
        decreases n - index,
    {
        let ghost ls = parts_from(lv, index as int);
        let ghost rs = parts_from(rv, index as int);
        proof {
            if index < left.len() {
                assert(ls.drop_first() =~= parts_from(lv, index + 1));
                assert(ls[0] == left@[index as int]@);
            } else {
                assert(ls.len() == 0);
                assert(parts_from(lv, index + 1) =~= ls);
            }
            if index < right.len() {
                assert(rs.drop_first() =~= parts_from(rv, index + 1));
                assert(rs[0] == right@[index as int]@);
            } else {
                assert(rs.len() == 0);
                assert(parts_from(rv, index + 1) =~= rs);
            }
        }
        if index < left.len() && index < right.len() {
            match (&left[index], &right[index]) {
                (VersionPart::Number(a), VersionPart::Number(b)) => {
                    if *a < *b {
                        return -1;
                    }
                    if *a > *b {
                        return 1;
                    }
                },
                (VersionPart::Text(a), VersionPart::Text(b)) => {
                    let av = chars_of(a.as_str());
                    let bv = chars_of(b.as_str());
                    let c = compare_chars(&av, &bv);
                    if c != 0 {
                        return c;
                    }
                },
                (VersionPart::Number(_), VersionPart::Text(_)) => {
                    return 1;
                },
                (VersionPart::Text(_), VersionPart::Number(_)) => {
                    return -1;
                },
            }
        } else if index < left.len() {
            match &left[index] {
                VersionPart::Number(a) => {
                    if *a != 0 {
                        return 1;
                    }
                },
                _ => {
                    return -1;
                },
            }
        } else {
            match &right[index] {
                VersionPart::Number(b) => {
                    if *b != 0 {
                        return -1;
                    }
                },
                _ => {
                    return 1;
                },
            }
        }
        index = index + 1;
    }
    proof {
        assert(parts_from(lv, index as int).len() == 0);
        assert(parts_from(rv, index as int).len() == 0);
    }
    0
}

/// Three-way comparison of two version texts (-1, 0, 1).
pub fn compare_versions(left: &Option<String>, right: &Option<String>) -> (r: i8)
    ensures
        r == compare_versions_spec(crate::order::opt_view(*left), crate::order::opt_view(*right)),
{
    let lk = match left {
        Some(t) => version_key(Some(t.as_str())),
        None => version_key(None),
    };
    let rk = match right {
        Some(t) => version_key(Some(t.as_str())),
        None => version_key(None),
    };
    if lk.epoch < rk.epoch {
        -1
    } else if lk.epoch > rk.epoch {
        1
    } else {
        compare_version_parts(lk.parts.as_slice(), rk.parts.as_slice())
    }
}

/// The `Ordering` that a three-way comparison stands for.
pub open spec fn ordering_of(c: int) -> Ordering {
    if c < 0 {
        Ordering::Less
    } else if c == 0 {
        Ordering::Equal
    } else {
        Ordering::Greater
    }
}

/// `Ordering::reverse`.
pub open spec fn reverse_ordering(o: Ordering) -> Ordering {
    match o {
        Ordering::Less => Ordering::Greater,
        Ordering::Equal => Ordering::Equal,
        Ordering::Greater => Ordering::Less,
    }
}

/// Compares two optional version texts in CKAN-ish version order: epoch
/// first, then run by run, a missing run counting as zero and any text run
/// coming before any number.
pub fn compare_version_text(left: &Option<String>, right: &Option<String>) -> (r: Ordering)
    ensures
        r == ordering_of(
            compare_versions_spec(crate::order::opt_view(*left), crate::order::opt_view(*right)),
        ),
{
    let c = compare_versions(left, right);
    if c < 0 {
        Ordering::Less
    } else if c == 0 {
        Ordering::Equal
    } else {
        Ordering::Greater
    }
}

// ---------------------------------------------------------------------------
// Laws of the version order
// ---------------------------------------------------------------------------

proof fn lemma_compare_part_facts(a: PartView, b: PartView, c: PartView)
    ensures
        compare_part(a, a) == 0,
        compare_part(a, b) == -compare_part(b, a),
        compare_part(a, b) == 0 ==> a == b,
        compare_part(a, b) <= 0 && compare_part(b, c) <= 0 ==> compare_part(a, c) <= 0,
        -1 <= compare_part(a, b) <= 1,
{
    match (a, b, c) {
        (PartView::Text(x), PartView::Text(y), PartView::Text(z)) => {
            crate::order::lemma_lex_irreflexive(x);
            crate::order::lemma_lex_asymmetric(x, y);
            crate::order::lemma_lex_total(x, y);
            crate::order::lemma_lex_total(y, z);
            crate::order::lemma_lex_total(x, z);
            if lex_lt(x, y) && lex_lt(y, z) {
                crate::order::lemma_lex_transitive(x, y, z);
            }
        },
        (PartView::Text(x), PartView::Text(y), _) => {
            crate::order::lemma_lex_irreflexive(x);
            crate::order::lemma_lex_asymmetric(x, y);
            crate::order::lemma_lex_total(x, y);
        },
        (PartView::Text(x), _, _) => {
            crate::order::lemma_lex_irreflexive(x);
        },
        (_, PartView::Text(y), PartView::Text(z)) => {
            crate::order::lemma_lex_total(y, z);
        },
        _ => {},
    }
}

proof fn lemma_compare_parts_reflexive(p: Seq<PartView>)
    ensures
        compare_parts_spec(p, p) == 0,
    decreases p.len(),
{
    if p.len() > 0 {
        lemma_compare_parts_reflexive(p.drop_first());
        lemma_compare_part_facts(p[0], p[0], p[0]);
    }
}

proof fn lemma_compare_parts_antisymmetric(l: Seq<PartView>, r: Seq<PartView>)
    ensures
        compare_parts_spec(l, r) == -compare_parts_spec(r, l),
        -1 <= compare_parts_spec(l, r) <= 1,
    decreases l.len() + r.len(),
{
    if l.len() > 0 || r.len() > 0 {
        lemma_compare_parts_antisymmetric(tail_parts(l), tail_parts(r));
        lemma_compare_part_facts(head_part(l), head_part(r), head_part(r));
    }
}

proof fn lemma_compare_parts_transitive(a: Seq<PartView>, b: Seq<PartView>, c: Seq<PartView>)
    requires
        compare_parts_spec(a, b) <= 0,
        compare_parts_spec(b, c) <= 0,
    ensures
        compare_parts_spec(a, c) <= 0,
    decreases a.len() + b.len() + c.len(),
{
    if a.len() == 0 && b.len() == 0 {
        assert(a =~= b);
    } else if b.len() == 0 && c.len() == 0 {
        assert(b =~= c);
    } else if a.len() == 0 && c.len() == 0 {
    } else {
        let (ha, hb, hc) = (head_part(a), head_part(b), head_part(c));
        lemma_compare_part_facts(ha, hb, hc);
        lemma_compare_part_facts(ha, hc, hb);
        lemma_compare_part_facts(hb, hc, ha);
        if compare_part(ha, hc) == 0 {
            assert(ha == hc);
            assert(compare_part(ha, hb) == 0 && compare_part(hb, hc) == 0);
            lemma_compare_parts_transitive(tail_parts(a), tail_parts(b), tail_parts(c));
        }
    }
}

/// Every version compares equal to itself.
pub proof fn lemma_compare_version_reflexive(version: Option<Seq<char>>)
    ensures
        compare_versions_spec(version, version) == 0,
{
    lemma_compare_parts_reflexive(version_key_spec(version).1);
}

/// Swapping the two versions reverses the comparison.
pub proof fn lemma_compare_version_antisymmetric(a: Option<Seq<char>>, b: Option<Seq<char>>)
    ensures
        compare_versions_spec(a, b) == -compare_versions_spec(b, a),
        ordering_of(compare_versions_spec(a, b)) == reverse_ordering(
            ordering_of(compare_versions_spec(b, a)),
        ),
{
    lemma_compare_parts_antisymmetric(version_key_spec(a).1, version_key_spec(b).1);
}

/// The version order is transitive: a version no greater than a second,
/// which is no greater than a third, is no greater than the third. With
/// the two laws above, it is a total preorder.
pub proof fn lemma_compare_version_transitive(a: Option<Seq<char>>, b: Option<Seq<char>>, c: Option<Seq<char>>)
    requires
        compare_versions_spec(a, b) <= 0,
        compare_versions_spec(b, c) <= 0,
    ensures
        compare_versions_spec(a, c) <= 0,
{
    let (ka, kb, kc) = (version_key_spec(a), version_key_spec(b), version_key_spec(c));
    if ka.0 == kb.0 && kb.0 == kc.0 {
        lemma_compare_parts_transitive(ka.1, kb.1, kc.1);
    }
}

proof fn lemma_first_colon_none(s: Seq<char>)
    requires
        forall|k: int| 0 <= k < s.len() ==> s[k] != ':',
    ensures
        first_colon(s) is None,
    decreases s.len(),
{
    if s.len() > 0 {
        let p = s.drop_last();
        assert forall|k: int| 0 <= k < p.len() implies p[k] != ':' by {
            assert(p[k] == s[k]);
        }
        lemma_first_colon_none(p);
        assert(s.last() == s[s.len() - 1]);
    }
}

/// A version written `E:R` with `E` the decimal of a `u64` has epoch `E`
/// and the rest `R`.
proof fn lemma_epoch_text(e: u64, rest: Seq<char>)
    ensures
        split_epoch(decimal_spec(e as nat) + ":"@ + rest) == (e, rest),
{
    reveal_strlit(":");
    let d = decimal_spec(e as nat);
    let s = d + ":"@ + rest;
    lemma_decimal_value(e as nat);
    lemma_decimal_nonempty(e as nat);
    assert forall|k: int| 0 <= k < d.len() implies d[k] != ':' by {
        assert(is_ascii_digit(d[k]));
    }
    assert(s.take(d.len() as int) =~= d);
    lemma_first_colon_none(d);
    assert(s[d.len() as int] == ':');
    lemma_first_colon_at(s, d.len() as int);
    assert(is_ascii_digit(d[0]));
    assert(parse_u64_spec(d) == Some(e));
    assert(s.skip(d.len() + 1int) =~= rest);
}

/// A version with the greater epoch is the greater version, whatever
/// follows the epochs: `E1:R1` is above `E2:R2` when `E1 > E2`.
pub proof fn lemma_greater_epoch_wins(e1: u64, r1: Seq<char>, e2: u64, r2: Seq<char>)
    requires
        e1 > e2,
    ensures
        compare_versions_spec(
            Some(decimal_spec(e1 as nat) + ":"@ + r1),
            Some(decimal_spec(e2 as nat) + ":"@ + r2),
        ) == 1,
{
    lemma_epoch_text(e1, r1);
    lemma_epoch_text(e2, r2);
}

/// A version with an epoch above zero is above any version text without a
/// `:`, which has epoch zero: `1:1.0` is above `2.0`.
pub proof fn lemma_epoch_beats_plain_version(e: u64, r1: Seq<char>, r2: Seq<char>)
    requires
        e > 0,
        forall|k: int| 0 <= k < r2.len() ==> r2[k] != ':',
    ensures
        compare_versions_spec(Some(decimal_spec(e as nat) + ":"@ + r1), Some(r2)) == 1,
        compare_versions_spec(Some(r2), Some(decimal_spec(e as nat) + ":"@ + r1)) == -1,
{
    lemma_epoch_text(e, r1);
    lemma_first_colon_none(r2);
}

/// One leading `v` or `V` is ignored: `v1.2` and `V1.2` compare equal to
/// `1.2` (for texts without an epoch that do not start with `v` or `V`).
pub proof fn lemma_v_prefix_ignored(r: Seq<char>)
    requires
        forall|k: int| 0 <= k < r.len() ==> r[k] != ':',
        r.len() > 0 ==> r[0] != 'v' && r[0] != 'V',
    ensures
        compare_versions_spec(Some(seq!['v'] + r), Some(r)) == 0,
        compare_versions_spec(Some(seq!['V'] + r), Some(r)) == 0,
{
    let (a, b) = (seq!['v'] + r, seq!['V'] + r);
    lemma_first_colon_none(r);
    assert forall|k: int| 0 <= k < a.len() implies a[k] != ':' by {
        if k > 0 {
            assert(a[k] == r[k - 1]);
        }
    }
    assert forall|k: int| 0 <= k < b.len() implies b[k] != ':' by {
        if k > 0 {
            assert(b[k] == r[k - 1]);
        }
    }
    lemma_first_colon_none(a);
    lemma_first_colon_none(b);
    assert(a.drop_first() =~= r);
    assert(b.drop_first() =~= r);
    lemma_compare_parts_reflexive(version_parts_spec(r));
}

/// A missing version compares equal to an empty one.
pub proof fn lemma_missing_version_is_empty()
    ensures
        compare_versions_spec(None, Some(Seq::empty())) == 0,
{
    lemma_compare_parts_reflexive(version_key_spec(None).1);
}

} // verus!
