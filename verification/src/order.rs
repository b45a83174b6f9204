//! Orders and a stable sort.
//!
//! Orders are three-way spec functions: negative, zero or positive. Strings
//! compare character by character (by code point, which is the byte order of
//! their UTF-8 text); sequences compare lexicographically. The stable sort is
//! an insertion sort: every item goes after the items already placed whose
//! key is not greater than its own, so items with equal keys keep their input
//! order.
use vstd::prelude::*;

verus! {

/// Three-way order of two characters by code point.
pub open spec fn char_order(a: char, b: char) -> int {
    if a < b {
        -1
    } else if a == b {
        0
    } else {
        1
    }
}

/// Three-way order of two integers.
pub open spec fn int_order(a: int, b: int) -> int {
    if a < b {
        -1
    } else if a == b {
        0
    } else {
        1
    }
}

/// Lexicographic order of two sequences under an element order: the first
/// differing element decides, and a proper prefix comes first.
pub open spec fn lex_order<A>(a: Seq<A>, b: Seq<A>, ord: spec_fn(A, A) -> int) -> int
    decreases a.len(),
{
    if a.len() == 0 {
        if b.len() == 0 {
            0
        } else {
            -1
        }
    } else if b.len() == 0 {
        1
    } else if ord(a[0], b[0]) != 0 {
        ord(a[0], b[0])
    } else {
        lex_order(a.drop_first(), b.drop_first(), ord)
    }
}

/// Order of two strings, as `str`'s `Ord` orders them.
pub open spec fn text_order(a: Seq<char>, b: Seq<char>) -> int {
    lex_order(a, b, |x: char, y: char| char_order(x, y))
}

/// `ord` is a total order: its values are -1, 0 or 1, swapping the arguments
/// negates it, it is zero exactly on equal values, and "not greater" is
/// transitive.
pub open spec fn is_total_order<A>(ord: spec_fn(A, A) -> int) -> bool {
    &&& forall|x: A, y: A| -1 <= #[trigger] ord(x, y) <= 1
    &&& forall|x: A, y: A| #[trigger] ord(x, y) == -ord(y, x)
    &&& forall|x: A, y: A| (#[trigger] ord(x, y) == 0) <==> x == y
    &&& forall|x: A, y: A, z: A| #[trigger] ord(x, y) <= 0 && #[trigger] ord(y, z) <= 0 ==> ord(x, z) <= 0
}

pub proof fn lemma_char_order_total()
    ensures
        is_total_order(|x: char, y: char| char_order(x, y)),
{
}

proof fn lemma_lex_range<A>(a: Seq<A>, b: Seq<A>, ord: spec_fn(A, A) -> int)
    requires
        is_total_order(ord),
    ensures
        -1 <= lex_order(a, b, ord) <= 1,
        lex_order(a, b, ord) == -lex_order(b, a, ord),
        (lex_order(a, b, ord) == 0) <==> a == b,
    decreases a.len(),
{
    if a.len() > 0 && b.len() > 0 {
        lemma_lex_range(a.drop_first(), b.drop_first(), ord);
        assert(ord(a[0], b[0]) == -ord(b[0], a[0]));
        if ord(a[0], b[0]) == 0 && lex_order(a.drop_first(), b.drop_first(), ord) == 0 {
            assert(a[0] == b[0]);
            assert(a =~= seq![a[0]] + a.drop_first());
            assert(b =~= seq![b[0]] + b.drop_first());
        }
        if a == b {
            assert(a.drop_first() == b.drop_first());
            assert(ord(a[0], b[0]) == 0);
        }
    } else if a.len() == 0 && b.len() == 0 {
        assert(a =~= b);
    }
}

proof fn lemma_lex_trans<A>(a: Seq<A>, b: Seq<A>, c: Seq<A>, ord: spec_fn(A, A) -> int)
    requires
        is_total_order(ord),
        lex_order(a, b, ord) <= 0,
        lex_order(b, c, ord) <= 0,
    ensures
        lex_order(a, c, ord) <= 0,
    decreases a.len(),
{
    if a.len() > 0 {
        let o1 = ord(a[0], b[0]);
        let o2 = ord(b[0], c[0]);
        assert(ord(a[0], b[0]) <= 0 && ord(b[0], c[0]) <= 0 ==> ord(a[0], c[0]) <= 0);
        if o1 == 0 && o2 == 0 {
            assert(a[0] == b[0] && b[0] == c[0]);
            assert(ord(a[0], c[0]) == 0);
            lemma_lex_trans(a.drop_first(), b.drop_first(), c.drop_first(), ord);
        } else if o1 == 0 {
            assert(a[0] == b[0]);
            assert(ord(a[0], c[0]) == o2);
        } else {
            assert(o1 == -1);
            if ord(a[0], c[0]) == 0 {
                assert(a[0] == c[0]);
                assert(ord(b[0], c[0]) == -ord(c[0], b[0]));
            }
        }
    }
}

/// The lexicographic order over a total order is a total order.
pub proof fn lemma_lex_total<A>(ord: spec_fn(A, A) -> int)
    requires
        is_total_order(ord),
    ensures
        is_total_order(|a: Seq<A>, b: Seq<A>| lex_order(a, b, ord)),
{
    let lex = |a: Seq<A>, b: Seq<A>| lex_order(a, b, ord);
    assert forall|a: Seq<A>, b: Seq<A>| -1 <= #[trigger] lex(a, b) <= 1 by {
        lemma_lex_range(a, b, ord);
    }
    assert forall|a: Seq<A>, b: Seq<A>| #[trigger] lex(a, b) == -lex(b, a) by {
        lemma_lex_range(a, b, ord);
    }
    assert forall|a: Seq<A>, b: Seq<A>| (#[trigger] lex(a, b) == 0) <==> a == b by {
        lemma_lex_range(a, b, ord);
    }
    assert forall|a: Seq<A>, b: Seq<A>, c: Seq<A>| #[trigger] lex(a, b) <= 0 && #[trigger] lex(b, c) <= 0 implies lex(a, c) <= 0 by {
        lemma_lex_trans(a, b, c, ord);
    }
}

/// The order of strings is a total order.
pub proof fn lemma_text_order_total()
    ensures
        is_total_order(|a: Seq<char>, b: Seq<char>| text_order(a, b)),
{
    lemma_char_order_total();
    lemma_lex_total(|x: char, y: char| char_order(x, y));
    let f = |a: Seq<char>, b: Seq<char>| text_order(a, b);
    let g = |a: Seq<char>, b: Seq<char>| lex_order(a, b, |x: char, y: char| char_order(x, y));
    assert(f =~= g);
}

/// Three-way comparison of two strings, character by character.
pub fn compare_text(a: &[char], b: &[char]) -> (r: i8)
    ensures
        r as int == text_order(a@, b@),
{
    let ghost ord = |x: char, y: char| char_order(x, y);
    let mut i: usize = 0;
    proof {
        assert(a@.skip(0) =~= a@);
        assert(b@.skip(0) =~= b@);
    }
    while i < a.len() && i < b.len()
        invariant
            0 <= i <= a.len(),
            i <= b.len(),
            ord == (|x: char, y: char| char_order(x, y)),
            text_order(a@, b@) == lex_order(a@.skip(i as int), b@.skip(i as int), ord),
        decreases a.len() - i,
    {
        let x = a[i];
        let y = b[i];
        proof {
            assert(a@.skip(i as int)[0] == x);
            assert(b@.skip(i as int)[0] == y);
            assert(a@.skip(i as int).drop_first() =~= a@.skip(i + 1));
            assert(b@.skip(i as int).drop_first() =~= b@.skip(i + 1));
        }
        if x < y {
            return -1;
        }
        if y < x {
            return 1;
        }
        i = i + 1;
    }
    if i < a.len() {
        1
    } else if i < b.len() {
        -1
    } else {
        0
    }
}

/// Items that a stable sort orders by a key.
pub trait SortKey: Sized {
    /// Three-way order of the keys of two items.
    spec fn key_order(self, other: Self) -> int;

    /// The key order is a total preorder on items.
    proof fn lemma_key_order(a: Self, b: Self, c: Self)
        ensures
            -1 <= a.key_order(b) <= 1,
            a.key_order(b) == -b.key_order(a),
            a.key_order(b) <= 0 && b.key_order(c) <= 0 ==> a.key_order(c) <= 0,
    ;

    /// Compares the keys of two items.
    fn compare_keys(&self, other: &Self) -> (r: i8)
        ensures
            r as int == self.key_order(*other),
    ;
}

/// The key of `a` is not greater than that of `b`.
pub open spec fn key_le<T: SortKey>(a: T, b: T) -> bool {
    a.key_order(b) <= 0
}

/// The items are in non-decreasing key order.
pub open spec fn sorted_by_key<T: SortKey>(s: Seq<T>) -> bool {
    forall|i: int, j: int| 0 <= i < j < s.len() ==> key_le(#[trigger] s[i], #[trigger] s[j])
}

/// `x` inserted after the leading items whose key is not greater than its own.
pub open spec fn insert_stable<T: SortKey>(s: Seq<T>, x: T) -> Seq<T>
    decreases s.len(),
{
    if s.len() == 0 {
        seq![x]
    } else if key_le(s[0], x) {
        seq![s[0]] + insert_stable(s.drop_first(), x)
    } else {
        seq![x] + s
    }
}

/// The stable sort of a sequence: its items inserted one by one, in order.
pub open spec fn stable_sorted<T: SortKey>(s: Seq<T>) -> Seq<T>
    decreases s.len(),
{
    if s.len() == 0 {
        s
    } else {
        insert_stable(stable_sorted(s.drop_last()), s.last())
    }
}

proof fn lemma_insert_at<T: SortKey>(s: Seq<T>, x: T, p: int)
    requires
        0 <= p <= s.len(),
        forall|i: int| 0 <= i < p ==> key_le(#[trigger] s[i], x),
        p == s.len() || !key_le(s[p], x),
    ensures
        insert_stable(s, x) == s.take(p).push(x) + s.skip(p),
    decreases p,
{
    if p == 0 {
        if s.len() == 0 {
            assert(s.take(0).push(x) + s.skip(0) =~= seq![x]);
        } else {
            assert(s.take(0).push(x) + s.skip(0) =~= seq![x] + s);
        }
    } else {
        let t = s.drop_first();
        assert forall|i: int| 0 <= i < p - 1 implies key_le(#[trigger] t[i], x) by {
            assert(t[i] == s[i + 1]);
        }
        if p < s.len() {
            assert(t[p - 1] == s[p]);
        }
        lemma_insert_at(t, x, p - 1);
        assert(key_le(s[0], x));
        assert(seq![s[0]] + (t.take(p - 1).push(x) + t.skip(p - 1)) =~= s.take(p).push(x) + s.skip(p));
    }
}

proof fn lemma_insert_members<T: SortKey>(s: Seq<T>, x: T)
    ensures
        insert_stable(s, x).len() == s.len() + 1,
        insert_stable(s, x).to_multiset() == s.to_multiset().insert(x),
        forall|k: int| 0 <= k < insert_stable(s, x).len() ==>
            insert_stable(s, x)[k] == x || s.contains(#[trigger] insert_stable(s, x)[k]),
    decreases s.len(),
{
    broadcast use vstd::seq_lib::group_to_multiset_ensures;

    if s.len() == 0 {
        assert(insert_stable(s, x) =~= s.push(x));
    } else if key_le(s[0], x) {
        let t = s.drop_first();
        lemma_insert_members(t, x);
        let r = insert_stable(s, x);
        assert(r =~= seq![s[0]] + insert_stable(t, x));
        assert(r == insert_stable(t, x).insert(0, s[0]));
        assert(s == t.insert(0, s[0]));
        assert forall|k: int| 0 <= k < r.len() implies r[k] == x || s.contains(#[trigger] r[k]) by {
            if k > 0 {
                assert(r[k] == insert_stable(t, x)[k - 1]);
                if r[k] != x {
                    let j = choose|j: int| 0 <= j < t.len() && t[j] == r[k];
                    assert(s[j + 1] == r[k]);
                }
            } else {
                assert(s[0] == r[0]);
            }
        }
    } else {
        let r = insert_stable(s, x);
        assert(r == s.insert(0, x));
        assert forall|k: int| 0 <= k < r.len() implies r[k] == x || s.contains(#[trigger] r[k]) by {
            if k > 0 {
                assert(s[k - 1] == r[k]);
            }
        }
    }
}

proof fn lemma_insert_sorted<T: SortKey>(s: Seq<T>, x: T)
    requires
        sorted_by_key(s),
    ensures
        sorted_by_key(insert_stable(s, x)),
    decreases s.len(),
{
    if s.len() > 0 {
        let r = insert_stable(s, x);
        if key_le(s[0], x) {
            let t = s.drop_first();
            assert forall|i: int, j: int| 0 <= i < j < t.len() implies key_le(#[trigger] t[i], #[trigger] t[j]) by {
                assert(t[i] == s[i + 1] && t[j] == s[j + 1]);
            }
            lemma_insert_sorted(t, x);
            lemma_insert_members(t, x);
            let rt = insert_stable(t, x);
            assert(r =~= seq![s[0]] + rt);
            assert forall|i: int, j: int| 0 <= i < j < r.len() implies key_le(#[trigger] r[i], #[trigger] r[j]) by {
                if i == 0 {
                    assert(r[j] == rt[j - 1]);
                    if rt[j - 1] != x {
                        assert(t.contains(rt[j - 1]));
                        let k = choose|k: int| 0 <= k < t.len() && t[k] == rt[j - 1];
                        assert(s[k + 1] == t[k]);
                    }
                } else {
                    assert(r[i] == rt[i - 1] && r[j] == rt[j - 1]);
                }
            }
        } else {
            assert(r =~= seq![x] + s);
            T::lemma_key_order(s[0], x, s[0]);
            assert forall|i: int, j: int| 0 <= i < j < r.len() implies key_le(#[trigger] r[i], #[trigger] r[j]) by {
                if i == 0 {
                    assert(r[j] == s[j - 1]);
                    if j > 1 {
                        T::lemma_key_order(x, s[0], s[j - 1]);
                        assert(key_le(s[0], s[j - 1]));
                    }
                } else {
                    assert(r[i] == s[i - 1] && r[j] == s[j - 1]);
                }
            }
        }
    }
}

/// The stable sort is in key order.
pub proof fn lemma_stable_sorted_is_sorted<T: SortKey>(s: Seq<T>)
    ensures
        sorted_by_key(stable_sorted(s)),
    decreases s.len(),
{
    if s.len() > 0 {
        lemma_stable_sorted_is_sorted(s.drop_last());
        lemma_insert_sorted(stable_sorted(s.drop_last()), s.last());
    }
}

/// The stable sort holds exactly the items of its input.
pub proof fn lemma_stable_sorted_permutes<T: SortKey>(s: Seq<T>)
    ensures
        stable_sorted(s).to_multiset() == s.to_multiset(),
        stable_sorted(s).len() == s.len(),
    decreases s.len(),
{
    broadcast use vstd::seq_lib::group_to_multiset_ensures;

    if s.len() > 0 {
        lemma_stable_sorted_permutes(s.drop_last());
        lemma_insert_members(stable_sorted(s.drop_last()), s.last());
        assert(s.drop_last().push(s.last()) =~= s);
    }
}

/// No two items share an identity.
pub open spec fn distinct_by<T, K>(s: Seq<T>, id: spec_fn(T) -> K) -> bool {
    forall|i: int, j: int| 0 <= i < s.len() && 0 <= j < s.len() && i != j ==> id(#[trigger] s[i]) != id(#[trigger] s[j])
}

proof fn lemma_insert_distinct<T: SortKey, K>(s: Seq<T>, x: T, id: spec_fn(T) -> K)
    requires
        distinct_by(s, id),
        forall|i: int| 0 <= i < s.len() ==> id(#[trigger] s[i]) != id(x),
    ensures
        distinct_by(insert_stable(s, x), id),
    decreases s.len(),
{
    if s.len() > 0 {
        let r = insert_stable(s, x);
        if key_le(s[0], x) {
            let t = s.drop_first();
            assert forall|i: int, j: int| 0 <= i < t.len() && 0 <= j < t.len() && i != j implies id(#[trigger] t[i]) != id(#[trigger] t[j]) by {
                assert(t[i] == s[i + 1] && t[j] == s[j + 1]);
            }
            assert forall|i: int| 0 <= i < t.len() implies id(#[trigger] t[i]) != id(x) by {
                assert(t[i] == s[i + 1]);
            }
            lemma_insert_distinct(t, x, id);
            lemma_insert_members(t, x);
            let rt = insert_stable(t, x);
            assert(r =~= seq![s[0]] + rt);
            assert forall|i: int, j: int| 0 <= i < r.len() && 0 <= j < r.len() && i != j implies id(#[trigger] r[i]) != id(#[trigger] r[j]) by {
                if i > 0 && j > 0 {
                    assert(r[i] == rt[i - 1] && r[j] == rt[j - 1]);
                } else {
                    let k = if i == 0 { j } else { i };
                    assert(r[k] == rt[k - 1]);
                    if rt[k - 1] != x {
                        let q = choose|q: int| 0 <= q < t.len() && t[q] == rt[k - 1];
                        assert(s[q + 1] == t[q]);
                    }
                }
            }
        } else {
            assert(r =~= seq![x] + s);
            assert forall|i: int, j: int| 0 <= i < r.len() && 0 <= j < r.len() && i != j implies id(#[trigger] r[i]) != id(#[trigger] r[j]) by {
                if i > 0 && j > 0 {
                    assert(r[i] == s[i - 1] && r[j] == s[j - 1]);
                } else if i == 0 {
                    assert(r[j] == s[j - 1]);
                } else {
                    assert(r[i] == s[i - 1]);
                }
            }
        }
    }
}

/// The stable sort keeps only items of its input, and keeps items with
/// distinct identities distinct.
pub proof fn lemma_stable_sorted_members<T: SortKey, K>(s: Seq<T>, id: spec_fn(T) -> K)
    ensures
        forall|k: int| 0 <= k < stable_sorted(s).len() ==> s.contains(#[trigger] stable_sorted(s)[k]),
        distinct_by(s, id) ==> distinct_by(stable_sorted(s), id),
    decreases s.len(),
{
    if s.len() > 0 {
        let p = s.drop_last();
        let x = s.last();
        lemma_stable_sorted_members(p, id);
        lemma_stable_sorted_permutes(p);
        let ps = stable_sorted(p);
        lemma_insert_members(ps, x);
        let r = stable_sorted(s);
        assert forall|k: int| 0 <= k < r.len() implies s.contains(#[trigger] r[k]) by {
            if r[k] == x {
                assert(s[s.len() - 1] == x);
            } else {
                let q = choose|q: int| 0 <= q < ps.len() && ps[q] == r[k];
                assert(p.contains(ps[q]));
                let w = choose|w: int| 0 <= w < p.len() && p[w] == ps[q];
                assert(s[w] == p[w]);
            }
        }
        if distinct_by(s, id) {
            assert forall|i: int, j: int| 0 <= i < p.len() && 0 <= j < p.len() && i != j implies id(#[trigger] p[i]) != id(#[trigger] p[j]) by {
                assert(p[i] == s[i] && p[j] == s[j]);
            }
            assert forall|i: int| 0 <= i < ps.len() implies id(#[trigger] ps[i]) != id(x) by {
                assert(p.contains(ps[i]));
                let w = choose|w: int| 0 <= w < p.len() && p[w] == ps[i];
                assert(s[w] == p[w]);
                assert(s[s.len() - 1] == x);
            }
            lemma_insert_distinct(ps, x, id);
        }
    }
}

/// `x` inserted after the leading items not greater than it under `le`.
pub open spec fn insert_by<A>(s: Seq<A>, x: A, le: spec_fn(A, A) -> bool) -> Seq<A>
    decreases s.len(),
{
    if s.len() == 0 {
        seq![x]
    } else if le(s[0], x) {
        seq![s[0]] + insert_by(s.drop_first(), x, le)
    } else {
        seq![x] + s
    }
}

/// The stable insertion sort of a sequence under `le`.
pub open spec fn sort_by<A>(s: Seq<A>, le: spec_fn(A, A) -> bool) -> Seq<A>
    decreases s.len(),
{
    if s.len() == 0 {
        s
    } else {
        insert_by(sort_by(s.drop_last(), le), s.last(), le)
    }
}

proof fn lemma_insert_by_map<A, B>(s: Seq<A>, x: A, f: spec_fn(A) -> B, le_a: spec_fn(A, A) -> bool, le_b: spec_fn(B, B) -> bool)
    requires
        forall|a: A, b: A| #[trigger] le_a(a, b) == le_b(f(a), f(b)),
    ensures
        insert_by(s, x, le_a).map_values(f) == insert_by(s.map_values(f), f(x), le_b),
    decreases s.len(),
{
    if s.len() > 0 {
        assert(le_a(s[0], x) == le_b(f(s[0]), f(x)));
        assert(s.map_values(f)[0] == f(s[0]));
        assert(s.map_values(f).drop_first() =~= s.drop_first().map_values(f));
        if le_a(s[0], x) {
            lemma_insert_by_map(s.drop_first(), x, f, le_a, le_b);
            assert((seq![s[0]] + insert_by(s.drop_first(), x, le_a)).map_values(f) =~= seq![f(s[0])] + insert_by(
                s.drop_first(),
                x,
                le_a,
            ).map_values(f));
        } else {
            assert((seq![x] + s).map_values(f) =~= seq![f(x)] + s.map_values(f));
        }
    } else {
        assert(seq![x].map_values(f) =~= seq![f(x)]);
    }
}

/// Sorting commutes with a map that keeps the order.
pub proof fn lemma_sort_by_map<A, B>(s: Seq<A>, f: spec_fn(A) -> B, le_a: spec_fn(A, A) -> bool, le_b: spec_fn(B, B) -> bool)
    requires
        forall|a: A, b: A| #[trigger] le_a(a, b) == le_b(f(a), f(b)),
    ensures
        sort_by(s, le_a).map_values(f) == sort_by(s.map_values(f), le_b),
    decreases s.len(),
{
    if s.len() > 0 {
        lemma_sort_by_map(s.drop_last(), f, le_a, le_b);
        assert(s.map_values(f).drop_last() =~= s.drop_last().map_values(f));
        assert(s.map_values(f).last() == f(s.last()));
        lemma_insert_by_map(sort_by(s.drop_last(), le_a), s.last(), f, le_a, le_b);
    } else {
        assert(s.map_values(f) =~= Seq::<B>::empty());
    }
}

proof fn lemma_insert_stable_is_insert_by<T: SortKey>(s: Seq<T>, x: T)
    ensures
        insert_stable(s, x) == insert_by(s, x, |a: T, b: T| key_le(a, b)),
    decreases s.len(),
{
    if s.len() > 0 {
        lemma_insert_stable_is_insert_by(s.drop_first(), x);
    }
}

/// The stable sort by key is the insertion sort under "key not greater".
pub proof fn lemma_stable_sorted_is_sort_by<T: SortKey>(s: Seq<T>)
    ensures
        stable_sorted(s) == sort_by(s, |a: T, b: T| key_le(a, b)),
    decreases s.len(),
{
    if s.len() > 0 {
        lemma_stable_sorted_is_sort_by(s.drop_last());
        lemma_insert_stable_is_insert_by(stable_sorted(s.drop_last()), s.last());
    }
}

proof fn lemma_insert_by_permutes<A>(s: Seq<A>, x: A, le: spec_fn(A, A) -> bool)
    ensures
        insert_by(s, x, le).to_multiset() == s.to_multiset().insert(x),
    decreases s.len(),
{
    broadcast use vstd::seq_lib::group_to_multiset_ensures;

    if s.len() == 0 {
        assert(insert_by(s, x, le) =~= s.push(x));
    } else if le(s[0], x) {
        let t = s.drop_first();
        lemma_insert_by_permutes(t, x, le);
        assert(insert_by(s, x, le) == insert_by(t, x, le).insert(0, s[0]));
        assert(s == t.insert(0, s[0]));
    } else {
        assert(insert_by(s, x, le) == s.insert(0, x));
    }
}

/// The insertion sort holds exactly the items of its input.
pub proof fn lemma_sort_by_permutes<A>(s: Seq<A>, le: spec_fn(A, A) -> bool)
    ensures
        sort_by(s, le).to_multiset() == s.to_multiset(),
        forall|x: A| sort_by(s, le).contains(x) <==> s.contains(x),
    decreases s.len(),
{
    broadcast use vstd::seq_lib::group_to_multiset_ensures;

    if s.len() > 0 {
        lemma_sort_by_permutes(s.drop_last(), le);
        lemma_insert_by_permutes(sort_by(s.drop_last(), le), s.last(), le);
        assert(s.drop_last().push(s.last()) =~= s);
    }
    assert forall|x: A| sort_by(s, le).contains(x) <==> s.contains(x) by {
        assert(sort_by(s, le).contains(x) <==> sort_by(s, le).to_multiset().count(x) > 0);
        assert(s.contains(x) <==> s.to_multiset().count(x) > 0);
    }
}

/// Sorts by key, keeping items with equal keys in input order.
pub fn sort_stable<T: SortKey>(v: Vec<T>) -> (r: Vec<T>)
    ensures
        r@ == stable_sorted(v@),
        sorted_by_key(r@),
        r@.to_multiset() == v@.to_multiset(),
{
    let ghost input = v@;
    let mut rest = v;
    let mut out: Vec<T> = Vec::new();
    let mut k: usize = 0;
    let n = rest.len();
    while k < n
        invariant
            n == input.len(),
            0 <= k <= n,
            rest@ == input.skip(k as int),
            out@ == stable_sorted(input.take(k as int)),
        decreases n - k,
    {
        proof {
            lemma_stable_sorted_is_sorted(input.take(k as int));
        }
        let x = rest.remove(0);
        let mut p: usize = 0;
        loop
            invariant
                0 <= p <= out.len(),
                out@ == stable_sorted(input.take(k as int)),
                sorted_by_key(out@),
                forall|i: int| 0 <= i < p ==> key_le(#[trigger] out@[i], x),
            ensures
                0 <= p <= out.len(),
                forall|i: int| 0 <= i < p ==> key_le(#[trigger] out@[i], x),
                p == out.len() || !key_le(out@[p as int], x),
            decreases out.len() - p,
        {
            if p >= out.len() {
                break;
            }
            let c = out[p].compare_keys(&x);
            if c > 0 {
                break;
            }
            p = p + 1;
        }
        proof {
            assert(x == input[k as int]);
            lemma_insert_at(out@, x, p as int);
            assert(input.take(k + 1).drop_last() =~= input.take(k as int));
            assert(input.take(k + 1).last() == x);
            assert(out@.insert(p as int, x) =~= out@.take(p as int).push(x) + out@.skip(p as int));
            assert(rest@ =~= input.skip(k + 1));
        }
        out.insert(p, x);
        k = k + 1;
    }
    proof {
        assert(input.take(n as int) =~= input);
        lemma_stable_sorted_is_sorted(input);
        lemma_stable_sorted_permutes(input);
    }
    out
}

} // verus!
