//! Ordering lists of indices by a key, stably.

use vstd::prelude::*;

verus! {

/// Dictionary order: the first place where two keys differ decides, and a key
/// comes before every longer one that it begins.
pub open spec fn lex_le(a: Seq<int>, b: Seq<int>) -> bool
    decreases a.len(),
{
    if a.len() == 0 {
        true
    } else if b.len() == 0 {
        false
    } else if a[0] != b[0] {
        a[0] < b[0]
    } else {
        lex_le(a.subrange(1, a.len() as int), b.subrange(1, b.len() as int))
    }
}

pub proof fn lemma_lex_reflexive(a: Seq<int>)
    ensures
        lex_le(a, a),
    decreases a.len(),
{
    if a.len() > 0 {
        lemma_lex_reflexive(a.subrange(1, a.len() as int));
    }
}

/// Any two keys can be compared.
pub proof fn lemma_lex_total(a: Seq<int>, b: Seq<int>)
    ensures
        lex_le(a, b) || lex_le(b, a),
    decreases a.len(),
{
    if a.len() > 0 && b.len() > 0 && a[0] == b[0] {
        lemma_lex_total(a.subrange(1, a.len() as int), b.subrange(1, b.len() as int));
    }
}

/// Dictionary order can be chained.
pub proof fn lemma_lex_transitive(a: Seq<int>, b: Seq<int>, c: Seq<int>)
    requires
        lex_le(a, b),
        lex_le(b, c),
    ensures
        lex_le(a, c),
    decreases a.len(),
{
    if a.len() > 0 && b.len() > 0 && c.len() > 0 && a[0] == b[0] && b[0] == c[0] {
        lemma_lex_transitive(
            a.subrange(1, a.len() as int),
            b.subrange(1, b.len() as int),
            c.subrange(1, c.len() as int),
        );
    }
}

/// Keys that come before each other are the same key.
pub proof fn lemma_lex_antisymmetric(a: Seq<int>, b: Seq<int>)
    requires
        lex_le(a, b),
        lex_le(b, a),
    ensures
        a == b,
    decreases a.len(),
{
    if a.len() > 0 && b.len() > 0 {
        let (s, t) = (a.subrange(1, a.len() as int), b.subrange(1, b.len() as int));
        lemma_lex_antisymmetric(s, t);
        assert(a =~= seq![a[0]] + s);
        assert(b =~= seq![b[0]] + t);
    } else {
        assert(a =~= b);
    }
}

/// A common beginning does not decide anything.
pub proof fn lemma_lex_prefix(p: Seq<int>, a: Seq<int>, b: Seq<int>)
    ensures
        lex_le(p + a, p + b) == lex_le(a, b),
    decreases p.len(),
{
    if p.len() == 0 {
        assert(p + a =~= a);
        assert(p + b =~= b);
    } else {
        let q = p.subrange(1, p.len() as int);
        assert((p + a).subrange(1, (p + a).len() as int) =~= q + a);
        assert((p + b).subrange(1, (p + b).len() as int) =~= q + b);
        lemma_lex_prefix(q, a, b);
    }
}

/// Whether every entry of a key is at least some number.
pub open spec fn at_least(a: Seq<int>, lo: int) -> bool {
    forall|i: int| 0 <= i < a.len() ==> lo <= #[trigger] a[i]
}

/// Two keys in a row, with a mark between them that is below everything in the
/// first, are compared one after the other.
pub proof fn lemma_lex_pair(a: Seq<int>, b: Seq<int>, x: Seq<int>, y: Seq<int>, mark: int)
    requires
        at_least(a, mark + 1),
        at_least(b, mark + 1),
    ensures
        lex_le(a + seq![mark] + x, b + seq![mark] + y) == (if a == b {
            lex_le(x, y)
        } else {
            lex_le(a, b)
        }),
    decreases a.len(),
{
    let (p, q) = (a + seq![mark] + x, b + seq![mark] + y);
    if a.len() == 0 && b.len() == 0 {
        assert(a =~= b);
        assert(p.subrange(1, p.len() as int) =~= x);
        assert(q.subrange(1, q.len() as int) =~= y);
    } else if a.len() == 0 {
        assert(q[0] == b[0]);
        assert(b[0] >= mark + 1);
        assert(a != b);
    } else if b.len() == 0 {
        assert(p[0] == a[0]);
        assert(a[0] >= mark + 1);
        assert(a != b);
    } else {
        let (s, t) = (a.subrange(1, a.len() as int), b.subrange(1, b.len() as int));
        assert(p[0] == a[0] && q[0] == b[0]);
        assert(p.subrange(1, p.len() as int) =~= s + seq![mark] + x);
        assert(q.subrange(1, q.len() as int) =~= t + seq![mark] + y);
        assert forall|i: int| 0 <= i < s.len() implies mark + 1 <= #[trigger] s[i] by {
            assert(mark + 1 <= a[i + 1]);
        }
        assert forall|i: int| 0 <= i < t.len() implies mark + 1 <= #[trigger] t[i] by {
            assert(mark + 1 <= b[i + 1]);
        }
        lemma_lex_pair(s, t, x, y, mark);
        if a[0] == b[0] {
            if s == t {
                assert(a =~= seq![a[0]] + s);
                assert(b =~= seq![b[0]] + t);
            }
        }
    }
}

/// Items that have a key, and a way to compare two of them by it.
pub trait Keyed {
    spec fn valid(&self, i: usize) -> bool;

    spec fn key(&self, i: usize) -> Seq<int>;

    /// Whether the key of `a` comes before that of `b`, or is the same.
    fn le(&self, a: usize, b: usize) -> (r: bool)
        requires
            self.valid(a),
            self.valid(b),
        ensures
            r == lex_le(self.key(a), self.key(b)),
    ;
}

/// Whether an item has one certain key.
pub open spec fn has_key<K: Keyed>(k: K, key: Seq<int>) -> spec_fn(usize) -> bool {
    |i: usize| k.key(i) == key
}

/// The items of a list that have one certain key, in order.
pub open spec fn of_key<K: Keyed>(k: K, list: Seq<usize>, key: Seq<int>) -> Seq<usize> {
    list.filter(has_key(k, key))
}

/// Whether a list is in the order of its keys.
pub open spec fn in_order<K: Keyed>(k: K, list: Seq<usize>) -> bool {
    forall|i: int, j: int|
        #![trigger list[i], list[j]]
        0 <= i <= j < list.len() ==> lex_le(k.key(list[i]), k.key(list[j]))
}

/// Whether one list is another put in order, items with the same key staying
/// in the order they came in. There is exactly one such list.
pub open spec fn is_sorted_from<K: Keyed>(k: K, list: Seq<usize>, source: Seq<usize>) -> bool {
    &&& in_order(k, list)
    &&& list.len() == source.len()
    &&& forall|key: Seq<int>| #[trigger] of_key(k, list, key) == of_key(k, source, key)
}

/// Whether every item of a list can be compared.
pub open spec fn all_valid<K: Keyed>(k: K, list: Seq<usize>) -> bool {
    forall|i: int| 0 <= i < list.len() ==> k.valid(#[trigger] list[i])
}

proof fn lemma_of_key_step<K: Keyed>(k: K, list: Seq<usize>, from: int, key: Seq<int>)
    requires
        0 <= from < list.len(),
    ensures
        of_key(k, list.subrange(from, list.len() as int), key) == (if k.key(list[from]) == key {
            seq![list[from]]
        } else {
            Seq::empty()
        }) + of_key(k, list.subrange(from + 1, list.len() as int), key),
{
    let rest = list.subrange(from, list.len() as int);
    let one = seq![list[from]];
    let tail = list.subrange(from + 1, list.len() as int);
    let p = has_key(k, key);
    assert(rest =~= one + tail);
    Seq::filter_distributes_over_add(one, tail, p);
    reveal(Seq::filter);
    assert(one.drop_last() =~= Seq::empty());
    assert(one.drop_last().filter(p) =~= Seq::empty());
    assert(one.filter(p) =~= (if p(list[from]) {
        one
    } else {
        Seq::empty()
    }));
}

proof fn lemma_of_key_push<K: Keyed>(k: K, list: Seq<usize>, x: usize, key: Seq<int>)
    ensures
        of_key(k, list.push(x), key) == of_key(k, list, key) + (if k.key(x) == key {
            seq![x]
        } else {
            Seq::empty()
        }),
{
    reveal(Seq::filter);
    let all = list.push(x);
    assert(all.drop_last() =~= list);
    assert(of_key(k, all, key) =~= of_key(k, list, key) + (if k.key(x) == key {
        seq![x]
    } else {
        Seq::empty()
    }));
}

proof fn lemma_of_key_none<K: Keyed>(k: K, list: Seq<usize>, key: Seq<int>)
    requires
        forall|i: int| 0 <= i < list.len() ==> k.key(#[trigger] list[i]) != key,
    ensures
        of_key(k, list, key) == Seq::<usize>::empty(),
    decreases list.len(),
{
    reveal(Seq::filter);
    if list.len() > 0 {
        let before = list.drop_last();
        assert forall|i: int| 0 <= i < before.len() implies k.key(#[trigger] before[i]) != key by {
            assert(k.key(list[i]) != key);
        }
        lemma_of_key_none(k, before, key);
        assert(k.key(list[list.len() - 1]) != key);
    }
    assert(of_key(k, list, key) =~= Seq::empty());
}

/// A list put in order holds the items it was made from, each as often.
pub proof fn lemma_sorting_keeps_the_items<K: Keyed>(k: K, list: Seq<usize>, source: Seq<usize>)
    requires
        is_sorted_from(k, list, source),
    ensures
        forall|x: usize| #[trigger] list.contains(x) <==> source.contains(x),
{
    assert forall|x: usize| #[trigger] list.contains(x) <==> source.contains(x) by {
        let key = k.key(x);
        let p = has_key(k, key);
        lemma_filter_contains(list, p, x);
        lemma_filter_contains(source, p, x);
        assert(of_key(k, list, key) == of_key(k, source, key));
    }
}

proof fn lemma_filter_contains(list: Seq<usize>, p: spec_fn(usize) -> bool, x: usize)
    requires
        p(x),
    ensures
        list.filter(p).contains(x) <==> list.contains(x),
    decreases list.len(),
{
    reveal(Seq::filter);
    if list.len() > 0 {
        let before = list.drop_last();
        lemma_filter_contains(before, p, x);
        let f = list.filter(p);
        if list.contains(x) {
            let i = choose|i: int| 0 <= i < list.len() && list[i] == x;
            if i < before.len() {
                assert(before[i] == x);
                let j = choose|j: int| 0 <= j < before.filter(p).len() && before.filter(p)[j] == x;
                assert(f[j] == x);
            } else {
                assert(f.last() == x);
            }
        }
        if f.contains(x) {
            let j = choose|j: int| 0 <= j < f.len() && f[j] == x;
            if j < before.filter(p).len() {
                assert(before.filter(p)[j] == x);
                let i = choose|i: int| 0 <= i < before.len() && before[i] == x;
                assert(list[i] == x);
            } else {
                assert(list.last() == x);
            }
        }
    }
}

/// There is only one way to put a list in order.
pub proof fn lemma_sorting_is_unique<K: Keyed>(
    k: K,
    a: Seq<usize>,
    b: Seq<usize>,
    source: Seq<usize>,
)
    requires
        is_sorted_from(k, a, source),
        is_sorted_from(k, b, source),
    ensures
        a == b,
{
    assert forall|key: Seq<int>| #[trigger] of_key(k, a, key) == of_key(k, b, key) by {}
    lemma_same_classes(k, a, b);
}

proof fn lemma_same_classes<K: Keyed>(k: K, a: Seq<usize>, b: Seq<usize>)
    requires
        in_order(k, a),
        in_order(k, b),
        a.len() == b.len(),
        forall|key: Seq<int>| #[trigger] of_key(k, a, key) == of_key(k, b, key),
    ensures
        a == b,
    decreases a.len(),
{
    if a.len() == 0 {
        assert(a =~= b);
    } else {
        let (x, y) = (a.last(), b.last());
        let (a0, b0) = (a.drop_last(), b.drop_last());
        assert(a0.push(x) =~= a);
        assert(b0.push(y) =~= b);
        // The last items have the same key: each is the largest there is.
        let (kx, ky) = (k.key(x), k.key(y));
        lemma_of_key_push(k, a0, x, kx);
        lemma_of_key_push(k, b0, y, ky);
        assert(of_key(k, a, kx).last() == x);
        assert(of_key(k, b, ky).last() == y);
        let fx = of_key(k, b, kx);
        let fy = of_key(k, a, ky);
        assert(fx.len() > 0 && fy.len() > 0);
        lemma_filter_pick(b, has_key(k, kx));
        lemma_filter_pick(a, has_key(k, ky));
        let i = choose|i: int| 0 <= i < b.len() && k.key(#[trigger] b[i]) == kx;
        let j = choose|j: int| 0 <= j < a.len() && k.key(#[trigger] a[j]) == ky;
        assert(lex_le(k.key(b[i]), k.key(b[b.len() - 1])));
        assert(lex_le(k.key(a[j]), k.key(a[a.len() - 1])));
        lemma_lex_antisymmetric(kx, ky);
        assert(x == y);
        assert forall|p: int, q: int|
            #![trigger a0[p], a0[q]]
            0 <= p <= q < a0.len() implies lex_le(k.key(a0[p]), k.key(a0[q])) by {
            assert(lex_le(k.key(a[p]), k.key(a[q])));
        }
        assert forall|p: int, q: int|
            #![trigger b0[p], b0[q]]
            0 <= p <= q < b0.len() implies lex_le(k.key(b0[p]), k.key(b0[q])) by {
            assert(lex_le(k.key(b[p]), k.key(b[q])));
        }
        assert forall|key: Seq<int>| #[trigger] of_key(k, a0, key) == of_key(k, b0, key) by {
            lemma_of_key_push(k, a0, x, key);
            lemma_of_key_push(k, b0, y, key);
            let (f, g) = (of_key(k, a, key), of_key(k, b, key));
            if k.key(x) == key {
                assert(f.drop_last() =~= of_key(k, a0, key));
                assert(g.drop_last() =~= of_key(k, b0, key));
            } else {
                assert(f =~= of_key(k, a0, key));
                assert(g =~= of_key(k, b0, key));
            }
        }
        lemma_same_classes(k, a0, b0);
    }
}

proof fn lemma_filter_pick(list: Seq<usize>, p: spec_fn(usize) -> bool)
    requires
        list.filter(p).len() > 0,
    ensures
        exists|i: int| 0 <= i < list.len() && p(#[trigger] list[i]),
    decreases list.len(),
{
    reveal(Seq::filter);
    if list.len() > 0 {
        if p(list.last()) {
            assert(p(list[list.len() - 1]));
        } else {
            lemma_filter_pick(list.drop_last(), p);
            let i = choose|i: int|
                0 <= i < list.drop_last().len() && p(#[trigger] list.drop_last()[i]);
            assert(p(list[i]));
        }
    }
}

/// Merge two ordered lists; where keys are the same, the left list goes first.
fn merge<K: Keyed>(k: &K, left: &Vec<usize>, right: &Vec<usize>) -> (out: Vec<usize>)
    requires
        all_valid(*k, left@),
        all_valid(*k, right@),
        in_order(*k, left@),
        in_order(*k, right@),
    ensures
        is_sorted_from(*k, out@, left@ + right@),
        all_valid(*k, out@),
{
    let mut out: Vec<usize> = Vec::new();
    let (mut i, mut j): (usize, usize) = (0, 0);
    let ghost (l, r) = (left@, right@);
    proof {
        assert forall|key: Seq<int>| #[trigger]
            of_key(*k, out@, key) + of_key(*k, l.subrange(0, l.len() as int), key) + of_key(
                *k,
                r.subrange(0, r.len() as int),
                key,
            ) == of_key(*k, l, key) + of_key(*k, r, key) by {
            reveal(Seq::filter);
            assert(l.subrange(0, l.len() as int) =~= l);
            assert(r.subrange(0, r.len() as int) =~= r);
            assert(of_key(*k, out@, key) =~= Seq::empty());
            assert(Seq::<usize>::empty() + of_key(*k, l, key) =~= of_key(*k, l, key));
        }
    }
    while i < left.len() || j < right.len()
        invariant
            l == left@,
            r == right@,
            all_valid(*k, l),
            all_valid(*k, r),
            in_order(*k, l),
            in_order(*k, r),
            i <= l.len(),
            j <= r.len(),
            out@.len() == i + j,
            all_valid(*k, out@),
            in_order(*k, out@),
            forall|p: int, q: int|
                #![trigger out@[p], l[q]]
                0 <= p < out@.len() && i <= q < l.len() ==> lex_le(k.key(out@[p]), k.key(l[q])),
            forall|p: int, q: int|
                #![trigger out@[p], r[q]]
                0 <= p < out@.len() && j <= q < r.len() ==> lex_le(k.key(out@[p]), k.key(r[q])),
            forall|key: Seq<int>| #[trigger]
                of_key(*k, out@, key) + of_key(*k, l.subrange(i as int, l.len() as int), key)
                    + of_key(*k, r.subrange(j as int, r.len() as int), key) == of_key(*k, l, key)
                    + of_key(*k, r, key),
        decreases l.len() - i + r.len() - j,
    {
        let from_left = if i >= left.len() {
            false
        } else if j >= right.len() {
            true
        } else {
            k.le(left[i], right[j])
        };
        let ghost had = out@;
        if from_left {
            let x: usize = left[i];
            out.push(x);
            proof {
                if j < r.len() {
                    assert(lex_le(k.key(x), k.key(r[j as int])));
                }
                assert forall|p: int, q: int|
                    #![trigger out@[p], r[q]]
                    0 <= p < out@.len() && j <= q < r.len() implies lex_le(
                    k.key(out@[p]),
                    k.key(r[q]),
                ) by {
                    if p == had.len() {
                        assert(lex_le(k.key(r[j as int]), k.key(r[q])));
                        lemma_lex_transitive(k.key(x), k.key(r[j as int]), k.key(r[q]));
                    } else {
                        assert(out@[p] == had[p]);
                    }
                }
                assert forall|key: Seq<int>| #[trigger]
                    of_key(*k, out@, key) + of_key(
                        *k,
                        l.subrange(i + 1, l.len() as int),
                        key,
                    ) + of_key(*k, r.subrange(j as int, r.len() as int), key) == of_key(*k, l, key)
                        + of_key(*k, r, key) by {
                    lemma_of_key_push(*k, had, x, key);
                    lemma_of_key_step(*k, l, i as int, key);
                    let a = of_key(*k, had, key);
                    let b = of_key(*k, l.subrange(i + 1, l.len() as int), key);
                    let c = of_key(*k, r.subrange(j as int, r.len() as int), key);
                    let one = if k.key(x) == key {
                        seq![x]
                    } else {
                        Seq::empty()
                    };
                    assert(a + (one + b) + c =~= (a + one) + b + c);
                    assert(of_key(*k, had, key) + of_key(
                        *k,
                        l.subrange(i as int, l.len() as int),
                        key,
                    ) + of_key(*k, r.subrange(j as int, r.len() as int), key) == of_key(*k, l, key)
                        + of_key(*k, r, key));
                }
            }
            i += 1;
        } else {
            let x: usize = right[j];
            out.push(x);
            proof {
                if i < l.len() {
                    assert(!lex_le(k.key(l[i as int]), k.key(x)));
                    lemma_lex_total(k.key(l[i as int]), k.key(x));
                }
                assert forall|p: int, q: int|
                    #![trigger out@[p], l[q]]
                    0 <= p < out@.len() && i <= q < l.len() implies lex_le(
                    k.key(out@[p]),
                    k.key(l[q]),
                ) by {
                    if p == had.len() {
                        assert(lex_le(k.key(l[i as int]), k.key(l[q])));
                        lemma_lex_transitive(k.key(x), k.key(l[i as int]), k.key(l[q]));
                    } else {
                        assert(out@[p] == had[p]);
                    }
                }
                assert forall|key: Seq<int>| #[trigger]
                    of_key(*k, out@, key) + of_key(
                        *k,
                        l.subrange(i as int, l.len() as int),
                        key,
                    ) + of_key(*k, r.subrange(j + 1, r.len() as int), key) == of_key(*k, l, key)
                        + of_key(*k, r, key) by {
                    lemma_of_key_push(*k, had, x, key);
                    lemma_of_key_step(*k, r, j as int, key);
                    let rest = l.subrange(i as int, l.len() as int);
                    let a = of_key(*k, had, key);
                    let b = of_key(*k, rest, key);
                    let c = of_key(*k, r.subrange(j + 1, r.len() as int), key);
                    let one = if k.key(x) == key {
                        seq![x]
                    } else {
                        Seq::empty()
                    };
                    if k.key(x) == key {
                        assert forall|q: int| 0 <= q < rest.len() implies k.key(
                            #[trigger] rest[q],
                        ) != key by {
                            assert(lex_le(k.key(l[i as int]), k.key(l[i + q])));
                            if k.key(rest[q]) == key {
                                assert(rest[q] == l[i + q]);
                            }
                        }
                        lemma_of_key_none(*k, rest, key);
                    }
                    assert(a + b + (one + c) =~= (a + one) + b + c);
                    assert(a + b + of_key(*k, r.subrange(j as int, r.len() as int), key) == of_key(
                        *k,
                        l,
                        key,
                    ) + of_key(*k, r, key));
                }
            }
            j += 1;
        }
    }
    proof {
        assert forall|key: Seq<int>| #[trigger]
            of_key(*k, out@, key) == of_key(*k, l + r, key) by {
            let p = has_key(*k, key);
            Seq::filter_distributes_over_add(l, r, p);
            let (le, re) = (l.subrange(i as int, l.len() as int), r.subrange(j as int, r.len() as int));
            assert(le =~= Seq::empty());
            assert(re =~= Seq::empty());
            reveal(Seq::filter);
            assert(of_key(*k, le, key) =~= Seq::empty());
            assert(of_key(*k, re, key) =~= Seq::empty());
            assert(of_key(*k, out@, key) + of_key(*k, le, key) + of_key(*k, re, key)
                =~= of_key(*k, out@, key));
            assert(of_key(*k, out@, key) + of_key(*k, le, key) + of_key(*k, re, key) == of_key(
                *k,
                l,
                key,
            ) + of_key(*k, r, key));
        }
    }
    out
}

/// The items in order of their keys; items with the same key stay in the order
/// they came in.
pub fn sort<K: Keyed>(k: &K, list: &Vec<usize>, from: usize, to: usize) -> (out: Vec<usize>)
    requires
        from <= to <= list@.len(),
        all_valid(*k, list@),
    ensures
        is_sorted_from(*k, out@, list@.subrange(from as int, to as int)),
        all_valid(*k, out@),
    decreases to - from,
{
    let ghost source = list@.subrange(from as int, to as int);
    if to - from < 2 {
        let mut out: Vec<usize> = Vec::new();
        if from < to {
            out.push(list[from]);
        }
        proof {
            assert(out@ =~= source);
            assert forall|i: int, j: int|
                #![trigger out@[i], out@[j]]
                0 <= i <= j < out@.len() implies lex_le(k.key(out@[i]), k.key(out@[j])) by {
                lemma_lex_reflexive(k.key(out@[i]));
            }
        }
        out
    } else {
        let middle: usize = from + (to - from) / 2;
        let left = sort(k, list, from, middle);
        let right = sort(k, list, middle, to);
        let out = merge(k, &left, &right);
        proof {
            let (l, r) = (
                list@.subrange(from as int, middle as int),
                list@.subrange(middle as int, to as int),
            );
            assert(source =~= l + r);
            assert forall|key: Seq<int>| #[trigger]
                of_key(*k, out@, key) == of_key(*k, source, key) by {
                let p = has_key(*k, key);
                Seq::filter_distributes_over_add(l, r, p);
                Seq::filter_distributes_over_add(left@, right@, p);
                assert(of_key(*k, left@, key) == of_key(*k, l, key));
                assert(of_key(*k, right@, key) == of_key(*k, r, key));
                assert(of_key(*k, out@, key) == of_key(*k, left@ + right@, key));
            }
        }
        out
    }
}

proof fn lemma_filter_count(list: Seq<usize>, p: spec_fn(usize) -> bool, x: usize)
    requires
        p(x),
    ensures
        list.filter(p).to_multiset().count(x) == list.to_multiset().count(x),
    decreases list.len(),
{
    reveal(Seq::filter);
    if list.len() > 0 {
        let (rest, last) = (list.drop_last(), list.last());
        lemma_filter_count(rest, p, x);
        rest.to_multiset_ensures();
        rest.filter(p).to_multiset_ensures();
        assert(rest.push(last) =~= list);
        if p(last) {
            assert(list.filter(p) =~= rest.filter(p).push(last));
        } else {
            assert(list.filter(p) =~= rest.filter(p));
        }
    } else {
        assert(list.filter(p) =~= list);
    }
}

/// A list put in order has every item as often as before.
pub proof fn lemma_sorting_keeps_the_count<K: Keyed>(k: K, list: Seq<usize>, source: Seq<usize>)
    requires
        is_sorted_from(k, list, source),
    ensures
        list.to_multiset() == source.to_multiset(),
{
    assert forall|x: usize| list.to_multiset().count(x) == source.to_multiset().count(x) by {
        let key = k.key(x);
        let p = has_key(k, key);
        lemma_filter_count(list, p, x);
        lemma_filter_count(source, p, x);
        assert(of_key(k, list, key) == of_key(k, source, key));
    }
    assert(list.to_multiset() =~= source.to_multiset());
}

proof fn lemma_filter_split<K: Keyed>(k: K, list: Seq<usize>, at: int, x: usize, key: Seq<int>)
    requires
        0 <= at <= list.len(),
        forall|i: int| at <= i < list.len() ==> k.key(#[trigger] list[i]) != k.key(x),
    ensures
        of_key(k, list.insert(at, x), key) == of_key(k, list, key) + (if k.key(x) == key {
            seq![x]
        } else {
            Seq::empty()
        }),
{
    let (a, b) = (list.subrange(0, at), list.subrange(at, list.len() as int));
    let p = has_key(k, key);
    assert(list =~= a + b);
    assert(list.insert(at, x) =~= a.push(x) + b);
    Seq::filter_distributes_over_add(a, b, p);
    Seq::filter_distributes_over_add(a.push(x), b, p);
    lemma_of_key_push(k, a, x, key);
    if k.key(x) == key {
        assert forall|i: int| 0 <= i < b.len() implies k.key(#[trigger] b[i]) != key by {
            assert(b[i] == list[at + i]);
        }
        lemma_of_key_none(k, b, key);
        assert(of_key(k, list.insert(at, x), key) =~= of_key(k, list, key) + seq![x]);
    } else {
        assert(of_key(k, list.insert(at, x), key) =~= of_key(k, list, key) + Seq::empty());
    }
}

/// Where an item goes in a list that is in order: behind all it does not come
/// before.
spec fn place_for<K: Keyed>(k: K, list: Seq<usize>, x: usize) -> int
    decreases list.len(),
{
    if list.len() == 0 || lex_le(k.key(list.last()), k.key(x)) {
        list.len() as int
    } else {
        place_for(k, list.drop_last(), x)
    }
}

proof fn lemma_place_for<K: Keyed>(k: K, list: Seq<usize>, x: usize)
    requires
        in_order(k, list),
    ensures
        0 <= place_for(k, list, x) <= list.len(),
        forall|i: int|
            0 <= i < place_for(k, list, x) ==> lex_le(k.key(#[trigger] list[i]), k.key(x)),
        forall|i: int|
            place_for(k, list, x) <= i < list.len() ==> !lex_le(k.key(#[trigger] list[i]), k.key(x)),
    decreases list.len(),
{
    if list.len() > 0 {
        let n = list.len() - 1;
        if lex_le(k.key(list.last()), k.key(x)) {
            assert forall|i: int| 0 <= i < list.len() implies lex_le(
                k.key(#[trigger] list[i]),
                k.key(x),
            ) by {
                assert(lex_le(k.key(list[i]), k.key(list[n])));
                lemma_lex_transitive(k.key(list[i]), k.key(list[n]), k.key(x));
            }
        } else {
            let rest = list.drop_last();
            lemma_place_for(k, rest, x);
            assert forall|i: int| 0 <= i < place_for(k, list, x) implies lex_le(
                k.key(#[trigger] list[i]),
                k.key(x),
            ) by {
                assert(list[i] == rest[i]);
            }
            assert forall|i: int| place_for(k, list, x) <= i < list.len() implies !lex_le(
                k.key(#[trigger] list[i]),
                k.key(x),
            ) by {
                if i < n {
                    assert(list[i] == rest[i]);
                }
            }
        }
    }
}

/// Every list can be put in order.
pub proof fn lemma_sorting_is_possible<K: Keyed>(k: K, source: Seq<usize>) -> (list: Seq<usize>)
    ensures
        is_sorted_from(k, list, source),
    decreases source.len(),
{
    if source.len() == 0 {
        source
    } else {
        let rest = source.drop_last();
        let x = source.last();
        let before = lemma_sorting_is_possible(k, rest);
        let at = place_for(k, before, x);
        lemma_place_for(k, before, x);
        let list = before.insert(at, x);
        assert forall|i: int, j: int|
            #![trigger list[i], list[j]]
            0 <= i <= j < list.len() implies lex_le(k.key(list[i]), k.key(list[j])) by {
            lemma_lex_reflexive(k.key(x));
            if i < at {
                assert(list[i] == before[i]);
            } else if i > at {
                assert(list[i] == before[i - 1]);
            }
            if j < at {
                assert(list[j] == before[j]);
            } else if j > at {
                assert(list[j] == before[j - 1]);
                lemma_lex_total(k.key(before[j - 1]), k.key(x));
            }
        }
        assert forall|key: Seq<int>| #[trigger] of_key(k, list, key) == of_key(k, source, key) by {
            assert forall|i: int| at <= i < before.len() implies k.key(#[trigger] before[i])
                != k.key(x) by {
                lemma_lex_reflexive(k.key(x));
            }
            lemma_filter_split(k, before, at, x, key);
            assert(rest.push(x) =~= source);
            lemma_of_key_push(k, rest, x, key);
            assert(of_key(k, before, key) == of_key(k, rest, key));
        }
        list
    }
}

} // verus!
