//! Ordering of definitions by name, as `String`'s `Ord` compares: byte by byte.

use vstd::prelude::*;

verus! {

broadcast use vstd::seq_lib::group_to_multiset_ensures;

/// Lexicographic `a <= b` on bytes.
pub open spec fn lex_le(a: Seq<u8>, b: Seq<u8>) -> bool
    decreases a.len(),
{
    if a.len() == 0 {
        true
    } else if b.len() == 0 {
        false
    } else if a[0] < b[0] {
        true
    } else if a[0] > b[0] {
        false
    } else {
        lex_le(a.drop_first(), b.drop_first())
    }
}

pub proof fn lemma_lex_total(a: Seq<u8>, b: Seq<u8>)
    ensures
        lex_le(a, b) || lex_le(b, a),
    decreases a.len(),
{
    if a.len() > 0 && b.len() > 0 && a[0] == b[0] {
        lemma_lex_total(a.drop_first(), b.drop_first());
    }
}

pub proof fn lemma_lex_trans(a: Seq<u8>, b: Seq<u8>, c: Seq<u8>)
    requires
        lex_le(a, b),
        lex_le(b, c),
    ensures
        lex_le(a, c),
    decreases a.len(),
{
    if a.len() > 0 && b.len() > 0 && c.len() > 0 && a[0] == b[0] && b[0] == c[0] {
        lemma_lex_trans(a.drop_first(), b.drop_first(), c.drop_first());
    }
}

pub proof fn lemma_lex_antisym(a: Seq<u8>, b: Seq<u8>)
    requires
        lex_le(a, b),
        lex_le(b, a),
    ensures
        a == b,
    decreases a.len(),
{
    if a.len() > 0 && b.len() > 0 {
        lemma_lex_antisym(a.drop_first(), b.drop_first());
        assert(a =~= seq![a[0]] + a.drop_first());
        assert(b =~= seq![b[0]] + b.drop_first());
    }
}

pub proof fn lemma_lex_refl(a: Seq<u8>)
    ensures
        lex_le(a, a),
    decreases a.len(),
{
    if a.len() > 0 {
        lemma_lex_refl(a.drop_first());
    }
}

/// Names in the order `String` compares them: byte-lexicographic on UTF-8, strict.
pub open spec fn name_lt(a: Seq<char>, b: Seq<char>) -> bool {
    lex_le(vstd::utf8::encode_utf8(a), vstd::utf8::encode_utf8(b)) && a != b
}

/// Strictly increasing names (hence no name twice).
pub open spec fn names_increasing(s: Seq<String>) -> bool {
    forall|i: int, j: int| 0 <= i < j < s.len() ==> name_lt(#[trigger] s[i]@, #[trigger] s[j]@)
}

/// The name occurs in the list.
pub open spec fn has_name(s: Seq<String>, n: Seq<char>) -> bool {
    exists|k: int| 0 <= k < s.len() && #[trigger] s[k]@ == n
}

pub proof fn lemma_name_lt_trans(a: Seq<char>, b: Seq<char>, c: Seq<char>)
    requires
        name_lt(a, b),
        name_lt(b, c),
    ensures
        name_lt(a, c),
{
    let (ea, eb, ec) = (vstd::utf8::encode_utf8(a), vstd::utf8::encode_utf8(b), vstd::utf8::encode_utf8(c));
    lemma_lex_trans(ea, eb, ec);
    if a == c {
        lemma_lex_antisym(eb, ec);
        vstd::utf8::encode_utf8_decode_utf8(b);
        vstd::utf8::encode_utf8_decode_utf8(c);
    }
}

/// Inserts `x` into a strictly increasing list of names unless it is there already.
pub fn insert_name(v: &mut Vec<String>, x: &String)
    requires
        names_increasing(old(v)@),
    ensures
        names_increasing(final(v)@),
        forall|n: Seq<char>| has_name(final(v)@, n) <==> (has_name(old(v)@, n) || n == x@),
{
    let mut p: usize = 0;
    while p < v.len() && bytes_le(v[p].as_str().as_bytes(), x.as_str().as_bytes()) && !(v[p] == *x)
        invariant
            p <= v@.len(),
            names_increasing(v@),
            forall|k: int| 0 <= k < p ==> name_lt(#[trigger] v@[k]@, x@),
        decreases v@.len() - p,
    {
        p = p + 1;
    }
    if p < v.len() && v[p] == *x {
        assert(has_name(v@, x@));
        return;
    }
    let ghost old_v = v@;
    proof {
        if p < v@.len() {
            lemma_lex_total(vstd::utf8::encode_utf8(v@[p as int]@), vstd::utf8::encode_utf8(x@));
            assert(name_lt(x@, old_v[p as int]@));
        }
    }
    v.insert(p, x.clone());
    proof {
        let s2 = v@;
        assert forall|i: int, j: int| 0 <= i < j < s2.len() implies name_lt(#[trigger] s2[i]@, #[trigger] s2[j]@) by {
            if i < p && j == p {
            } else if i == p && j > p {
                if j - 1 > p {
                    lemma_name_lt_trans(x@, old_v[p as int]@, old_v[j - 1]@);
                }
            } else if i < p && j > p {
                assert(name_lt(old_v[i]@, old_v[j - 1]@));
            } else if i > p {
                assert(name_lt(old_v[i - 1]@, old_v[j - 1]@));
            } else {
                assert(name_lt(old_v[i]@, old_v[j]@));
            }
        }
        assert forall|n: Seq<char>| has_name(s2, n) <==> (has_name(old_v, n) || n == x@) by {
            if has_name(s2, n) {
                let k = choose|k: int| 0 <= k < s2.len() && #[trigger] s2[k]@ == n;
                if k < p {
                    assert(old_v[k]@ == n);
                } else if k > p {
                    assert(old_v[k - 1]@ == n);
                }
            }
            if has_name(old_v, n) {
                let k = choose|k: int| 0 <= k < old_v.len() && #[trigger] old_v[k]@ == n;
                if k < p {
                    assert(s2[k]@ == n);
                } else {
                    assert(s2[k + 1]@ == n);
                }
            }
            if n == x@ {
                assert(s2[p as int]@ == n);
            }
        }
    }
}

/// `a <= b` in byte-lexicographic order.
pub fn bytes_le(a: &[u8], b: &[u8]) -> (r: bool)
    ensures
        r == lex_le(a@, b@),
{
    let mut i: usize = 0;
    assert(a@.skip(0) =~= a@);
    assert(b@.skip(0) =~= b@);
    while i < a.len() && i < b.len()
        invariant
            i <= a@.len(),
            i <= b@.len(),
            a@.take(i as int) == b@.take(i as int),
            lex_le(a@, b@) == lex_le(a@.skip(i as int), b@.skip(i as int)),
        decreases a@.len() - i,
    {
        if a[i] < b[i] {
            return true;
        }
        if a[i] > b[i] {
            return false;
        }
        proof {
            assert(a@.skip(i as int).drop_first() =~= a@.skip(i + 1));
            assert(b@.skip(i as int).drop_first() =~= b@.skip(i + 1));
            assert(a@.take(i + 1) =~= a@.take(i as int).push(a@[i as int]));
            assert(b@.take(i + 1) =~= b@.take(i as int).push(b@[i as int]));
        }
        i = i + 1;
    }
    i == a.len()
}

/// Values ordered by a name.
pub trait Named {
    /// The name's UTF-8 bytes.
    spec fn name_key(&self) -> Seq<u8>;

    fn name_bytes(&self) -> (b: &[u8])
        ensures
            b@ == self.name_key();
}

/// The sequence is in non-decreasing name order.
pub open spec fn sorted_by_name<T: Named>(s: Seq<T>) -> bool {
    forall|i: int, j: int| 0 <= i < j < s.len() ==> lex_le(#[trigger] s[i].name_key(), #[trigger] s[j].name_key())
}

/// The test for name `k`.
pub open spec fn named<T: Named>(k: Seq<u8>) -> spec_fn(T) -> bool {
    |t: T| t.name_key() == k
}

/// The items named `k`, in their order.
pub open spec fn with_name<T: Named>(s: Seq<T>, k: Seq<u8>) -> Seq<T> {
    s.filter(named::<T>(k))
}

/// Inserting `x` at `p`, with no item of the same name after `p`, appends it to
/// the items of its name and leaves the others alone.
proof fn lemma_with_name_insert<T: Named>(s: Seq<T>, p: int, x: T, k: Seq<u8>)
    requires
        0 <= p <= s.len(),
        forall|j: int| p <= j < s.len() ==> #[trigger] s[j].name_key() != x.name_key(),
    ensures
        with_name(s.insert(p, x), k) == if x.name_key() == k {
            with_name(s, k).push(x)
        } else {
            with_name(s, k)
        },
{
    let pred = named::<T>(k);
    let a = s.take(p);
    let b = s.skip(p);
    assert(s.insert(p, x) =~= (a + seq![x]) + b);
    assert(s =~= a + b);
    Seq::filter_distributes_over_add(a + seq![x], b, pred);
    Seq::filter_distributes_over_add(a, seq![x], pred);
    Seq::filter_distributes_over_add(a, b, pred);
    assert(seq![x] =~= Seq::<T>::empty().push(x));
    Seq::<T>::empty().lemma_filter_push(x, pred);
    assert(Seq::<T>::empty().filter(pred) =~= Seq::<T>::empty()) by {
        reveal(Seq::filter);
    }
    if x.name_key() == k {
        assert(b.all(|t: T| !pred(t)));
        b.lemma_all_neg_filter_empty(pred);
        assert(b.filter(pred) =~= Seq::<T>::empty());
        assert(a.filter(pred) + seq![x] =~= (a.filter(pred) + b.filter(pred)).push(x));
    }
}

/// Removing the first item takes it off the front of the items of its name.
proof fn lemma_with_name_front<T: Named>(s: Seq<T>, k: Seq<u8>)
    requires
        s.len() > 0,
    ensures
        with_name(s, k) == if s[0].name_key() == k {
            seq![s[0]] + with_name(s.drop_first(), k)
        } else {
            with_name(s.drop_first(), k)
        },
{
    let pred = named::<T>(k);
    assert(s =~= seq![s[0]] + s.drop_first());
    s.drop_first().lemma_filter_prepend(s[0], pred);
    if s[0].name_key() != k {
        assert(Seq::<T>::empty() + s.drop_first().filter(pred) =~= s.drop_first().filter(pred));
    }
}

/// Sorts by name, keeping items with equal names in their input order (insertion sort).
pub fn sort_by_name<T: Named>(items: Vec<T>) -> (sorted: Vec<T>)
    ensures
        sorted@.to_multiset() == items@.to_multiset(),
        sorted_by_name(sorted@),
        forall|k: Seq<u8>| #[trigger] with_name(sorted@, k) == with_name(items@, k),
{
    let ghost orig = items@;
    let mut rest = items;
    let mut sorted: Vec<T> = Vec::new();
    proof {
        assert forall|k: Seq<u8>| #[trigger] with_name(orig, k) == with_name(sorted@, k) + with_name(rest@, k) by {
            assert(with_name(sorted@, k) =~= Seq::<T>::empty()) by {
                reveal(Seq::filter);
            }
            assert(with_name(sorted@, k) + with_name(rest@, k) =~= with_name(rest@, k));
        }
    }
    while rest.len() > 0
        invariant
            sorted@.to_multiset().add(rest@.to_multiset()) == orig.to_multiset(),
            sorted_by_name(sorted@),
            forall|k: Seq<u8>| #[trigger] with_name(orig, k) == with_name(sorted@, k) + with_name(rest@, k),
        decreases rest@.len(),
    {
        let ghost old_rest = rest@;
        let x = rest.remove(0);
        proof {
            assert(old_rest.remove(0) == rest@);
            assert(old_rest.drop_first() =~= rest@);
        }
        let mut p: usize = 0;
        while p < sorted.len() && bytes_le(sorted[p].name_bytes(), x.name_bytes())
            invariant
                p <= sorted@.len(),
                forall|k: int| 0 <= k < p ==> lex_le(#[trigger] sorted@[k].name_key(), x.name_key()),
            decreases sorted@.len() - p,
        {
            p = p + 1;
        }
        let ghost old_sorted = sorted@;
        proof {
            if p < sorted@.len() {
                lemma_lex_total(sorted@[p as int].name_key(), x.name_key());
            }
        }
        sorted.insert(p, x);
        proof {
            let s2 = sorted@;
            assert(s2 =~= old_sorted.insert(p as int, x));
            assert forall|j: int| p <= j < old_sorted.len() implies #[trigger] old_sorted[j].name_key() != x.name_key() by {
                if j > p {
                    assert(lex_le(old_sorted[p as int].name_key(), old_sorted[j].name_key()));
                }
                if old_sorted[j].name_key() == x.name_key() {
                    lemma_lex_refl(x.name_key());
                    if j > p {
                        lemma_lex_trans(old_sorted[p as int].name_key(), old_sorted[j].name_key(), x.name_key());
                    }
                }
            }
            assert forall|k: Seq<u8>| #[trigger] with_name(orig, k) == with_name(s2, k) + with_name(rest@, k) by {
                lemma_with_name_insert(old_sorted, p as int, x, k);
                lemma_with_name_front(old_rest, k);
                assert(old_rest[0] == x);
                if x.name_key() == k {
                    assert(with_name(old_sorted, k).push(x) + with_name(rest@, k) =~= with_name(old_sorted, k) + (seq![x]
                        + with_name(rest@, k)));
                }
            }
            assert(s2.remove(p as int) =~= old_sorted);
            assert(s2[p as int] == x);
            assert(old_sorted.to_multiset() =~= s2.to_multiset().remove(x));
            assert(s2.to_multiset() =~= old_sorted.to_multiset().insert(x));
            assert forall|i: int, j: int| 0 <= i < j < s2.len() implies lex_le(
                #[trigger] s2[i].name_key(),
                #[trigger] s2[j].name_key(),
            ) by {
                if i < p && j == p {
                } else if i == p && j > p {
                    if j - 1 > p {
                        assert(lex_le(old_sorted[p as int].name_key(), old_sorted[j - 1].name_key()));
                        lemma_lex_trans(x.name_key(), old_sorted[p as int].name_key(), old_sorted[j - 1].name_key());
                    }
                } else if i < p && j > p {
                    assert(lex_le(old_sorted[i].name_key(), old_sorted[j - 1].name_key()));
                } else if i > p {
                    assert(lex_le(old_sorted[i - 1].name_key(), old_sorted[j - 1].name_key()));
                } else {
                    assert(lex_le(old_sorted[i].name_key(), old_sorted[j].name_key()));
                }
            }
        }
    }
    sorted
}

} // verus!
