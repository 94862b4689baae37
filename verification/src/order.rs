//! The order names and tracks are listed in, and a stable sort by it.
//!
//! Text compares as `str` does, lexicographically by UTF-8 bytes. A sort key
//! has up to three text parts and a number, compared in turn.

use vstd::prelude::*;
use vstd::multiset::Multiset;

verus! {

/// Lexicographic order on byte strings: the order of `[u8]` and of `str`.
pub open spec fn lex_le(a: Seq<u8>, b: Seq<u8>) -> bool
    decreases a.len(),
{
    if a.len() == 0 {
        true
    } else if b.len() == 0 {
        false
    } else if a[0] != b[0] {
        a[0] < b[0]
    } else {
        lex_le(a.drop_first(), b.drop_first())
    }
}

pub proof fn lemma_lex_total(a: Seq<u8>, b: Seq<u8>)
    ensures
        lex_le(a, b) || lex_le(b, a),
    decreases a.len(),
{
    if a.len() > 0 && b.len() > 0 && a[0] == b[0] {
        lemma_lex_total(a.drop_first(), b.drop_first());
    }
}

pub proof fn lemma_lex_antisymmetric(a: Seq<u8>, b: Seq<u8>)
    requires
        lex_le(a, b),
        lex_le(b, a),
    ensures
        a == b,
    decreases a.len(),
{
    if a.len() > 0 && b.len() > 0 {
        lemma_lex_antisymmetric(a.drop_first(), b.drop_first());
        assert(a =~= seq![a[0]] + a.drop_first());
        assert(b =~= seq![b[0]] + b.drop_first());
    }
}

pub proof fn lemma_lex_transitive(a: Seq<u8>, b: Seq<u8>, c: Seq<u8>)
    requires
        lex_le(a, b),
        lex_le(b, c),
    ensures
        lex_le(a, c),
    decreases a.len(),
{
    if a.len() > 0 && b.len() > 0 && c.len() > 0 && a[0] == b[0] && b[0] == c[0] {
        lemma_lex_transitive(a.drop_first(), b.drop_first(), c.drop_first());
    }
}

/// What a sort key orders by: two text parts, a number, then a third text
/// part.
pub type KeyView = (Seq<u8>, Seq<u8>, u32, Seq<u8>);

/// Compare the first parts; where they are equal, the next; and so on.
pub open spec fn key_le(x: KeyView, y: KeyView) -> bool {
    if x.0 != y.0 {
        lex_le(x.0, y.0)
    } else if x.1 != y.1 {
        lex_le(x.1, y.1)
    } else if x.2 != y.2 {
        x.2 < y.2
    } else {
        lex_le(x.3, y.3)
    }
}

/// `key_le` is a total order.
pub proof fn lemma_key_order(x: KeyView, y: KeyView, z: KeyView)
    ensures
        key_le(x, x),
        key_le(x, y) || key_le(y, x),
        key_le(x, y) && key_le(y, x) ==> x == y,
        key_le(x, y) && key_le(y, z) ==> key_le(x, z),
{
    lemma_lex_total(x.0, y.0);
    lemma_lex_total(x.1, y.1);
    lemma_lex_total(x.3, y.3);
    lemma_lex_total(x.3, x.3);
    if key_le(x, y) && key_le(y, x) {
        if x.0 != y.0 {
            lemma_lex_antisymmetric(x.0, y.0);
        } else if x.1 != y.1 {
            lemma_lex_antisymmetric(x.1, y.1);
        } else if x.2 == y.2 {
            lemma_lex_antisymmetric(x.3, y.3);
        }
    }
    if key_le(x, y) && key_le(y, z) {
        if x.0 != y.0 && y.0 != z.0 {
            lemma_lex_transitive(x.0, y.0, z.0);
            if x.0 == z.0 {
                lemma_lex_antisymmetric(x.0, y.0);
            }
        } else if x.0 != y.0 || y.0 != z.0 {
        } else if x.1 != y.1 && y.1 != z.1 {
            lemma_lex_transitive(x.1, y.1, z.1);
            if x.1 == z.1 {
                lemma_lex_antisymmetric(x.1, y.1);
            }
        } else if x.1 != y.1 || y.1 != z.1 {
        } else if x.2 != y.2 || y.2 != z.2 {
        } else {
            lemma_lex_transitive(x.3, y.3, z.3);
        }
    }
}

/// A sort key: two text parts (UTF-8 bytes), a number, and a last text part.
/// A key on one name leaves the other parts empty.
pub struct SortKey {
    pub first: Vec<u8>,
    pub second: Vec<u8>,
    pub number: u32,
    pub last: Vec<u8>,
}

impl View for SortKey {
    type V = KeyView;

    open spec fn view(&self) -> KeyView {
        (self.first@, self.second@, self.number, self.last@)
    }
}

impl SortKey {
    /// A key made of a single text part.
    pub fn text(bytes: Vec<u8>) -> (k: SortKey)
        ensures
            k@ == (bytes@, Seq::<u8>::empty(), 0u32, Seq::<u8>::empty()),
    {
        SortKey { first: bytes, second: Vec::new(), number: 0, last: Vec::new() }
    }
}

/// Three-way comparison of byte strings: negative, zero or positive.
pub fn compare_bytes(a: &[u8], b: &[u8]) -> (r: i8)
    ensures
        (r == 0) == (a@ == b@),
        (r <= 0) == lex_le(a@, b@),
{
    let n = a.len();
    let m = b.len();
    let mut i: usize = 0;
    assert(a@.skip(0) =~= a@);
    assert(b@.skip(0) =~= b@);
    while i < n && i < m && a[i] == b[i]
        invariant
            i <= n == a@.len(),
            i <= m == b@.len(),
            a@.take(i as int) == b@.take(i as int),
            lex_le(a@, b@) == lex_le(a@.skip(i as int), b@.skip(i as int)),
        decreases n - i,
    {
        assert(a@.skip(i as int).drop_first() =~= a@.skip(i + 1));
        assert(b@.skip(i as int).drop_first() =~= b@.skip(i + 1));
        assert(a@.take(i + 1) =~= a@.take(i as int).push(a@[i as int]));
        assert(b@.take(i + 1) =~= b@.take(i as int).push(b@[i as int]));
        i = i + 1;
    }
    if i == n && i == m {
        assert(a@ =~= a@.take(i as int));
        assert(b@ =~= b@.take(i as int));
        0
    } else if i == n {
        assert(a@ != b@) by {
            assert(a@.len() != b@.len());
        }
        -1
    } else if i == m {
        assert(a@ != b@) by {
            assert(a@.len() != b@.len());
        }
        1
    } else {
        assert(a@[i as int] != b@[i as int]);
        assert(a@ != b@);
        if a[i] < b[i] {
            -1
        } else {
            1
        }
    }
}

/// Whether `x` sorts no later than `y`.
pub fn key_le_exec(x: &SortKey, y: &SortKey) -> (r: bool)
    ensures
        r == key_le(x@, y@),
{
    let c = compare_bytes(x.first.as_slice(), y.first.as_slice());
    if c != 0 {
        return c < 0;
    }
    let c = compare_bytes(x.second.as_slice(), y.second.as_slice());
    if c != 0 {
        return c < 0;
    }
    if x.number != y.number {
        return x.number < y.number;
    }
    let c = compare_bytes(x.last.as_slice(), y.last.as_slice());
    c <= 0
}

// ---------------------------------------------------------------------------
// Stable sort
// ---------------------------------------------------------------------------

/// Where `x` goes in `s`: before the first element it does not follow.
pub open spec fn insert_pos<X>(s: Seq<X>, x: X, rank: spec_fn(X) -> KeyView) -> int
    decreases s.len(),
{
    if s.len() == 0 || key_le(rank(x), rank(s[0])) {
        0
    } else {
        1 + insert_pos(s.drop_first(), x, rank)
    }
}

/// `s` with `x` placed before the first element that ranks at or above it.
pub open spec fn insert_ranked<X>(s: Seq<X>, x: X, rank: spec_fn(X) -> KeyView) -> Seq<X> {
    let p = insert_pos(s, x, rank);
    s.take(p) + seq![x] + s.skip(p)
}

/// `s` stably sorted by `rank`: ordered by rank, with elements of equal rank
/// in their original order.
pub open spec fn sort_ranked<X>(s: Seq<X>, rank: spec_fn(X) -> KeyView) -> Seq<X>
    decreases s.len(),
{
    if s.len() == 0 {
        s
    } else {
        insert_ranked(sort_ranked(s.drop_first(), rank), s[0], rank)
    }
}

/// Every element ranks at or below every later one.
pub open spec fn is_sorted_by<X>(s: Seq<X>, rank: spec_fn(X) -> KeyView) -> bool {
    forall|i: int, j: int| 0 <= i < j < s.len() ==> key_le(#[trigger] rank(s[i]), #[trigger] rank(s[j]))
}

pub proof fn lemma_insert_pos<X>(s: Seq<X>, x: X, rank: spec_fn(X) -> KeyView)
    ensures
        0 <= insert_pos(s, x, rank) <= s.len(),
        forall|i: int| 0 <= i < insert_pos(s, x, rank) ==> !key_le(rank(x), #[trigger] rank(s[i])),
        insert_pos(s, x, rank) < s.len() ==> key_le(rank(x), rank(s[insert_pos(s, x, rank)])),
    decreases s.len(),
{
    if s.len() > 0 && !key_le(rank(x), rank(s[0])) {
        lemma_insert_pos(s.drop_first(), x, rank);
        assert forall|i: int| 0 <= i < insert_pos(s, x, rank) implies !key_le(
            rank(x),
            #[trigger] rank(s[i]),
        ) by {
            if i > 0 {
                assert(s[i] == s.drop_first()[i - 1]);
            }
        }
    }
}

pub proof fn lemma_insert_sorted<X>(s: Seq<X>, x: X, rank: spec_fn(X) -> KeyView)
    requires
        is_sorted_by(s, rank),
    ensures
        is_sorted_by(insert_ranked(s, x, rank), rank),
        insert_ranked(s, x, rank).len() == s.len() + 1,
        insert_ranked(s, x, rank).to_multiset() == s.to_multiset().insert(x),
{
    let p = insert_pos(s, x, rank);
    lemma_insert_pos(s, x, rank);
    let t = insert_ranked(s, x, rank);
    assert forall|i: int, j: int| 0 <= i < j < t.len() implies key_le(
        #[trigger] rank(t[i]),
        #[trigger] rank(t[j]),
    ) by {
        let a = if i < p {
            s[i]
        } else if i == p {
            x
        } else {
            s[i - 1]
        };
        let b = if j < p {
            s[j]
        } else if j == p {
            x
        } else {
            s[j - 1]
        };
        assert(t[i] == a);
        assert(t[j] == b);
        if i < p && j < p {
        } else if i < p && j == p {
            lemma_key_order(rank(x), rank(s[i]), rank(x));
        } else if i < p {
            lemma_key_order(rank(x), rank(s[i]), rank(x));
            lemma_key_order(rank(s[i]), rank(x), rank(s[j - 1]));
            assert(key_le(rank(x), rank(s[p])));
            if p < j - 1 {
                lemma_key_order(rank(x), rank(s[p]), rank(s[j - 1]));
            }
        } else if i == p {
            assert(key_le(rank(x), rank(s[p])));
            if p < j - 1 {
                lemma_key_order(rank(x), rank(s[p]), rank(s[j - 1]));
            }
        } else {
        }
    }
    vstd::seq_lib::lemma_multiset_commutative(s.take(p) + seq![x], s.skip(p));
    vstd::seq_lib::lemma_multiset_commutative(s.take(p), seq![x]);
    vstd::seq_lib::lemma_multiset_commutative(s.take(p), s.skip(p));
    assert(s.take(p) + s.skip(p) =~= s);
    assert(seq![x].to_multiset() =~= Multiset::empty().insert(x)) by {
        broadcast use vstd::seq_lib::group_to_multiset_ensures;

        assert(seq![x] =~= Seq::<X>::empty().push(x));
    }
}

/// The stable sort orders by rank and keeps exactly the elements it was
/// given.
pub proof fn lemma_sort_ranked<X>(s: Seq<X>, rank: spec_fn(X) -> KeyView)
    ensures
        is_sorted_by(sort_ranked(s, rank), rank),
        sort_ranked(s, rank).len() == s.len(),
        sort_ranked(s, rank).to_multiset() == s.to_multiset(),
    decreases s.len(),
{
    broadcast use vstd::seq_lib::group_to_multiset_ensures;

    if s.len() > 0 {
        lemma_sort_ranked(s.drop_first(), rank);
        lemma_insert_sorted(sort_ranked(s.drop_first(), rank), s[0], rank);
        assert(s =~= s.drop_first().insert(0, s[0]));
        s.drop_first().to_multiset_ensures();
        assert(s.to_multiset() =~= s.drop_first().to_multiset().insert(s[0])) by {
            vstd::seq_lib::lemma_multiset_commutative(seq![s[0]], s.drop_first());
            assert(seq![s[0]] + s.drop_first() =~= s);
            assert(seq![s[0]].to_multiset() =~= Multiset::empty().insert(s[0])) by {
                assert(seq![s[0]] =~= Seq::<X>::empty().push(s[0]));
            }
        }
    } else {
        assert(is_sorted_by(s, rank));
    }
}

/// Sorting commutes with a map that keeps every element's rank.
pub proof fn lemma_sort_map<X, Y>(
    s: Seq<X>,
    r1: spec_fn(X) -> KeyView,
    h: spec_fn(X) -> Y,
    r2: spec_fn(Y) -> KeyView,
)
    requires
        forall|i: int| 0 <= i < s.len() ==> r1(s[i]) == r2(h(#[trigger] s[i])),
    ensures
        sort_ranked(s, r1).map_values(h) == sort_ranked(s.map_values(h), r2),
    decreases s.len(),
{
    if s.len() > 0 {
        let rest = s.drop_first();
        assert forall|i: int| 0 <= i < rest.len() implies r1(rest[i]) == r2(h(#[trigger] rest[i])) by {
            assert(rest[i] == s[i + 1]);
        }
        lemma_sort_map(rest, r1, h, r2);
        assert(s.map_values(h).drop_first() =~= rest.map_values(h));
        let sr = sort_ranked(rest, r1);
        lemma_sort_ranked(rest, r1);
        assert forall|i: int| 0 <= i < sr.len() implies r1(sr[i]) == r2(h(#[trigger] sr[i])) by {
            let e = sr[i];
            assert(sr.to_multiset().count(e) > 0) by {
                vstd::seq_lib::lemma_seq_contains_after_push(sr.take(i), e, e);
                sr.to_multiset_ensures();
                assert(sr.contains(e));
            }
            rest.to_multiset_ensures();
            assert(rest.contains(e));
            let k = choose|k: int| 0 <= k < rest.len() && rest[k] == e;
            assert(r1(rest[k]) == r2(h(rest[k])));
        }
        lemma_insert_map(sr, s[0], r1, h, r2);
    }
}

proof fn lemma_insert_map<X, Y>(
    s: Seq<X>,
    x: X,
    r1: spec_fn(X) -> KeyView,
    h: spec_fn(X) -> Y,
    r2: spec_fn(Y) -> KeyView,
)
    requires
        forall|i: int| 0 <= i < s.len() ==> r1(s[i]) == r2(h(#[trigger] s[i])),
        r1(x) == r2(h(x)),
    ensures
        insert_ranked(s, x, r1).map_values(h) == insert_ranked(s.map_values(h), h(x), r2),
    decreases s.len(),
{
    lemma_insert_pos_map(s, x, r1, h, r2);
    let p = insert_pos(s, x, r1);
    lemma_insert_pos(s, x, r1);
    assert(insert_ranked(s, x, r1).map_values(h) =~= s.map_values(h).take(p) + seq![h(x)]
        + s.map_values(h).skip(p));
}

proof fn lemma_insert_pos_map<X, Y>(
    s: Seq<X>,
    x: X,
    r1: spec_fn(X) -> KeyView,
    h: spec_fn(X) -> Y,
    r2: spec_fn(Y) -> KeyView,
)
    requires
        forall|i: int| 0 <= i < s.len() ==> r1(s[i]) == r2(h(#[trigger] s[i])),
        r1(x) == r2(h(x)),
    ensures
        insert_pos(s, x, r1) == insert_pos(s.map_values(h), h(x), r2),
    decreases s.len(),
{
    if s.len() > 0 {
        assert(r1(s[0]) == r2(h(s[0])));
        let rest = s.drop_first();
        assert forall|i: int| 0 <= i < rest.len() implies r1(rest[i]) == r2(h(#[trigger] rest[i])) by {
            assert(rest[i] == s[i + 1]);
        }
        lemma_insert_pos_map(rest, x, r1, h, r2);
        assert(s.map_values(h).drop_first() =~= rest.map_values(h));
    }
}

/// Every element of the sorted sequence is an element of the original.
pub proof fn lemma_sorted_from<X>(s: Seq<X>, rank: spec_fn(X) -> KeyView)
    ensures
        forall|i: int|
            0 <= i < sort_ranked(s, rank).len() ==> #[trigger] s.contains(
                sort_ranked(s, rank)[i],
            ),
{
    lemma_sort_ranked(s, rank);
    let sr = sort_ranked(s, rank);
    assert forall|i: int| 0 <= i < sr.len() implies #[trigger] s.contains(sr[i]) by {
        let e = sr[i];
        sr.to_multiset_ensures();
        s.to_multiset_ensures();
        assert(sr.contains(e));
        assert(sr.to_multiset().count(e) > 0);
        assert(s.to_multiset().count(e) > 0);
    }
}

/// Sorting keeps a sequence free of repeated elements.
pub proof fn lemma_sorted_no_duplicates<X>(s: Seq<X>, rank: spec_fn(X) -> KeyView)
    requires
        s.no_duplicates(),
    ensures
        sort_ranked(s, rank).no_duplicates(),
{
    lemma_sort_ranked(s, rank);
    s.lemma_multiset_has_no_duplicates();
    sort_ranked(s, rank).lemma_multiset_has_no_duplicates_conv();
}

/// The sum of `f` over a sequence.
pub open spec fn sum_by<X>(s: Seq<X>, f: spec_fn(X) -> nat) -> nat
    decreases s.len(),
{
    if s.len() == 0 {
        0
    } else {
        sum_by(s.drop_last(), f) + f(s.last())
    }
}

pub proof fn lemma_sum_concat<X>(a: Seq<X>, b: Seq<X>, f: spec_fn(X) -> nat)
    ensures
        sum_by(a + b, f) == sum_by(a, f) + sum_by(b, f),
    decreases b.len(),
{
    if b.len() > 0 {
        lemma_sum_concat(a, b.drop_last(), f);
        assert((a + b).drop_last() =~= a + b.drop_last());
    } else {
        assert(a + b =~= a);
    }
}

/// Sorting does not change a sum.
pub proof fn lemma_sum_sorted<X>(s: Seq<X>, rank: spec_fn(X) -> KeyView, f: spec_fn(X) -> nat)
    ensures
        sum_by(sort_ranked(s, rank), f) == sum_by(s, f),
    decreases s.len(),
{
    if s.len() > 0 {
        let x = s[0];
        lemma_sum_sorted(s.drop_first(), rank, f);
        let sr = sort_ranked(s.drop_first(), rank);
        let p = insert_pos(sr, x, rank);
        lemma_insert_pos(sr, x, rank);
        lemma_sum_concat(sr.take(p) + seq![x], sr.skip(p), f);
        lemma_sum_concat(sr.take(p), seq![x], f);
        lemma_sum_concat(sr.take(p), sr.skip(p), f);
        assert(sr.take(p) + sr.skip(p) =~= sr);
        lemma_sum_concat(seq![x], s.drop_first(), f);
        assert(seq![x] + s.drop_first() =~= s);
        assert(seq![x].drop_last() =~= Seq::<X>::empty());
    }
}

/// A sum over a mapped sequence, as a sum over the original.
pub proof fn lemma_sum_map<X, Y>(s: Seq<X>, g: spec_fn(X) -> Y, f: spec_fn(Y) -> nat, h: spec_fn(X) -> nat)
    requires
        forall|i: int| 0 <= i < s.len() ==> f(g(#[trigger] s[i])) == h(s[i]),
    ensures
        sum_by(s.map_values(g), f) == sum_by(s, h),
    decreases s.len(),
{
    if s.len() > 0 {
        assert forall|i: int| 0 <= i < s.drop_last().len() implies f(g(#[trigger] s.drop_last()[i])) == h(s.drop_last()[i]) by {
            assert(s.drop_last()[i] == s[i]);
        }
        lemma_sum_map(s.drop_last(), g, f, h);
        assert(s.map_values(g).drop_last() =~= s.drop_last().map_values(g));
        assert(f(g(s[s.len() - 1])) == h(s[s.len() - 1]));
    }
}

/// Sums of functions that agree on every element are equal.
pub proof fn lemma_sum_congruent<X>(s: Seq<X>, f: spec_fn(X) -> nat, g: spec_fn(X) -> nat)
    requires
        forall|i: int| 0 <= i < s.len() ==> f(#[trigger] s[i]) == g(s[i]),
    ensures
        sum_by(s, f) == sum_by(s, g),
    decreases s.len(),
{
    if s.len() > 0 {
        assert forall|i: int| 0 <= i < s.drop_last().len() implies f(#[trigger] s.drop_last()[i]) == g(s.drop_last()[i]) by {
            assert(s.drop_last()[i] == s[i]);
        }
        lemma_sum_congruent(s.drop_last(), f, g);
        assert(f(s[s.len() - 1]) == g(s[s.len() - 1]));
    }
}

/// How a keyed pair ranks: by its key.
pub open spec fn pair_rank<T>() -> spec_fn((SortKey, T)) -> KeyView {
    |p: (SortKey, T)| p.0@
}

/// Sorts keyed items stably by their keys.
pub fn sort_keyed<T>(items: Vec<(SortKey, T)>) -> (out: Vec<(SortKey, T)>)
    ensures
        out@ == sort_ranked(items@, pair_rank::<T>()),
{
    let ghost orig = items@;
    let ghost rank = pair_rank::<T>();
    let mut items = items;
    let mut out: Vec<(SortKey, T)> = Vec::new();
    assert(orig.skip(orig.len() as int).len() == 0);
    assert(orig.take(orig.len() as int) =~= orig);
    while items.len() > 0
        invariant
            items@.len() <= orig.len(),
            items@ == orig.take(items@.len() as int),
            out@ == sort_ranked(orig.skip(items@.len() as int), rank),
            rank == pair_rank::<T>(),
        decreases items@.len(),
    {
        let ghost k = items@.len() as int;
        let x = match items.pop() {
            Some(x) => x,
            None => { return out; },
        };
        assert(x == orig[k - 1]);
        assert(items@ =~= orig.take(k - 1));
        assert(orig.skip(k - 1).drop_first() =~= orig.skip(k));
        assert(orig.skip(k - 1)[0] == x);
        let mut p: usize = 0;
        while p < out.len() && !key_le_exec(&x.0, &out[p].0)
            invariant
                p <= out@.len(),
                forall|i: int| 0 <= i < p ==> !key_le(x.0@, #[trigger] out@[i].0@),
                rank == pair_rank::<T>(),
            decreases out@.len() - p,
        {
            p = p + 1;
        }
        proof {
            let s = out@;
            lemma_insert_pos(s, x, rank);
            let q = insert_pos(s, x, rank);
            if q < p {
                assert(!key_le(x.0@, s[q].0@));
                assert(key_le(rank(x), rank(s[q])));
            }
            if p < q {
                assert(!key_le(rank(x), rank(s[p as int])));
            }
            assert(q == p);
        }
        out.insert(p, x);
        assert(out@ =~= sort_ranked(orig.skip(k - 1), rank));
    }
    assert(orig.skip(0) =~= orig);
    out
}


/// The views of the items of keyed pairs.
pub open spec fn item_views<T: View>(s: Seq<(SortKey, T)>) -> Seq<T::V> {
    s.map_values(|p: (SortKey, T)| p.1@)
}

/// Sorts items stably by their keys and drops the keys. Each key must be the
/// rank of its item's view.
pub fn sort_by_keys<T: View>(
    items: Vec<(SortKey, T)>,
    Ghost(rank): Ghost<spec_fn(T::V) -> KeyView>,
) -> (out: Vec<T>)
    requires
        forall|i: int| 0 <= i < items@.len() ==> (#[trigger] items@[i]).0@ == rank(items@[i].1@),
    ensures
        out@.len() == items@.len(),
        out@.len() == sort_ranked(item_views(items@), rank).len(),
        forall|i: int|
            0 <= i < out@.len() ==> (#[trigger] out@[i])@ == sort_ranked(item_views(items@), rank)[i],
{
    let ghost h = |p: (SortKey, T)| p.1@;
    proof {
        assert forall|i: int| 0 <= i < items@.len() implies pair_rank::<T>()(items@[i]) == rank(
            h(#[trigger] items@[i]),
        ) by {
            assert(items@[i].0@ == rank(items@[i].1@));
        }
        lemma_sort_map(items@, pair_rank::<T>(), h, rank);
        lemma_sort_ranked(items@, pair_rank::<T>());
        lemma_sort_ranked(item_views(items@), rank);
    }
    let ghost views = items@.map_values(h);
    assert(views == item_views(items@));
    let sorted = sort_keyed(items);
    let ghost sorted_view = sorted@;
    let mut out: Vec<T> = Vec::new();
    for p in it: sorted.into_iter()
        invariant
            it.seq() == sorted_view,
            sorted_view.map_values(h) == sort_ranked(views, rank),
            h == (|p: (SortKey, T)| p.1@),
            out@.len() == it.index(),
            forall|i: int| 0 <= i < out@.len() ==> (#[trigger] out@[i])@ == h(sorted_view[i]),
    {
        out.push(p.1);
    }
    out
}

} // verus!
