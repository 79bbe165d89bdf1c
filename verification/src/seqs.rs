//! Sorted sequences and byte concatenation: the facts that make an ordered
//! enumeration of a set unique and an encoding a sum of its parts.
use vstd::prelude::*;

verus! {

/// Every earlier element is strictly below every later one.
pub open spec fn sorted_by<A>(s: Seq<A>, lt: spec_fn(A, A) -> bool) -> bool {
    forall|i: int, j: int| 0 <= i < j < s.len() ==> lt(#[trigger] s[i], #[trigger] s[j])
}

/// `lt` is a strict order.
pub open spec fn strict_order<A>(lt: spec_fn(A, A) -> bool) -> bool {
    &&& forall|a: A| !#[trigger] lt(a, a)
    &&& forall|a: A, b: A, c: A| #[trigger] lt(a, b) && #[trigger] lt(b, c) ==> lt(a, c)
}

/// The sequence lists exactly the members of the set.
pub open spec fn enumerates<A>(s: Seq<A>, d: Set<A>) -> bool {
    forall|x: A| #[trigger] d.contains(x) <==> s.contains(x)
}

/// The ascending enumeration of a set (when one exists).
#[verifier::opaque]
pub open spec fn sorted_enum<A>(d: Set<A>, lt: spec_fn(A, A) -> bool) -> Seq<A> {
    choose|s: Seq<A>| sorted_by(s, lt) && enumerates(s, d)
}

proof fn lemma_sorted_prefix<A>(s: Seq<A>, t: Seq<A>, lt: spec_fn(A, A) -> bool, k: int)
    requires
        strict_order(lt),
        sorted_by(s, lt),
        sorted_by(t, lt),
        forall|x: A| s.contains(x) <==> t.contains(x),
        s.len() == t.len(),
        0 <= k <= s.len(),
    ensures
        forall|i: int| 0 <= i < k ==> s[i] == t[i],
    decreases k,
{
    if k > 0 {
        lemma_sorted_prefix(s, t, lt, k - 1);
        let m = k - 1;
        let x = s[m];
        let y = t[m];
        if x != y {
            assert(s.contains(x));
            let j = choose|j: int| 0 <= j < t.len() && t[j] == x;
            assert(t.contains(y));
            let i = choose|i: int| 0 <= i < s.len() && s[i] == y;
            if j < m {
                assert(s[j] == t[j]);
                assert(lt(s[j], s[m]));
            } else if i < m {
                assert(s[i] == t[i]);
                assert(lt(t[i], t[m]));
            } else {
                assert(j > m && i > m);
                assert(lt(t[m], t[j]));
                assert(lt(s[m], s[i]));
                assert(lt(y, x) && lt(x, y));
                assert(lt(x, x));
            }
        }
    }
}

/// Two ascending enumerations of the same elements are equal.
pub proof fn lemma_sorted_unique<A>(s: Seq<A>, t: Seq<A>, lt: spec_fn(A, A) -> bool)
    requires
        strict_order(lt),
        sorted_by(s, lt),
        sorted_by(t, lt),
        forall|x: A| s.contains(x) <==> t.contains(x),
    ensures
        s == t,
{
    // distinct elements, so the lengths agree
    assert(s.no_duplicates()) by {
        assert forall|i: int, j: int| 0 <= i < s.len() && 0 <= j < s.len() && i != j implies s[i]
            != s[j] by {
            if i < j {
                assert(lt(s[i], s[j]));
            } else {
                assert(lt(s[j], s[i]));
            }
        }
    }
    assert(t.no_duplicates()) by {
        assert forall|i: int, j: int| 0 <= i < t.len() && 0 <= j < t.len() && i != j implies t[i]
            != t[j] by {
            if i < j {
                assert(lt(t[i], t[j]));
            } else {
                assert(lt(t[j], t[i]));
            }
        }
    }
    assert(s.to_set() =~= t.to_set()) by {
        assert forall|x: A| s.to_set().contains(x) <==> t.to_set().contains(x) by {
            assert(s.contains(x) <==> t.contains(x));
        }
    }
    s.unique_seq_to_set();
    t.unique_seq_to_set();
    lemma_sorted_prefix(s, t, lt, s.len() as int);
    assert(s =~= t);
}

/// A sorted enumeration found is the chosen one.
pub proof fn lemma_sorted_enum<A>(s: Seq<A>, d: Set<A>, lt: spec_fn(A, A) -> bool)
    requires
        strict_order(lt),
        sorted_by(s, lt),
        enumerates(s, d),
    ensures
        sorted_enum(d, lt) == s,
{
    reveal(sorted_enum);
    let t = sorted_enum(d, lt);
    assert(sorted_by(t, lt) && enumerates(t, d));
    assert forall|x: A| s.contains(x) <==> t.contains(x) by {
        assert(d.contains(x) <==> s.contains(x));
        assert(d.contains(x) <==> t.contains(x));
    }
    lemma_sorted_unique(s, t, lt);
}

/// Concatenation of a sequence of byte strings.
pub open spec fn concat(parts: Seq<Seq<u8>>) -> Seq<u8>
    decreases parts.len(),
{
    if parts.len() == 0 {
        Seq::empty()
    } else {
        concat(parts.drop_last()) + parts.last()
    }
}

pub proof fn lemma_concat_push(parts: Seq<Seq<u8>>, x: Seq<u8>)
    ensures
        concat(parts.push(x)) == concat(parts) + x,
{
    assert(parts.push(x).drop_last() =~= parts);
}

/// Concatenating a prefix of the parts gives a prefix of the whole.
pub proof fn lemma_concat_take(parts: Seq<Seq<u8>>, k: int)
    requires
        0 <= k < parts.len(),
    ensures
        concat(parts.take(k + 1)) == concat(parts.take(k)) + parts[k],
{
    assert(parts.take(k + 1).drop_last() =~= parts.take(k));
}

/// Every part has at least `m` bytes, so the whole has at least `m` per part.
pub proof fn lemma_concat_len_at_least(parts: Seq<Seq<u8>>, m: nat)
    requires
        forall|i: int| 0 <= i < parts.len() ==> (#[trigger] parts[i]).len() >= m,
    ensures
        concat(parts).len() >= parts.len() * m,
    decreases parts.len(),
{
    if parts.len() > 0 {
        lemma_concat_len_at_least(parts.drop_last(), m);
        assert(parts.last().len() >= m);
        assert((parts.len() - 1) * m + m == parts.len() * m) by (nonlinear_arith);
    }
}

/// `lt` relates any two distinct values one way or the other.
pub open spec fn total<A>(lt: spec_fn(A, A) -> bool) -> bool {
    forall|a: A, b: A| a != b ==> #[trigger] lt(a, b) || #[trigger] lt(b, a)
}

/// A finite set under a strict total order has its ascending enumeration.
pub proof fn lemma_sorted_enum_exists<A>(d: Set<A>, lt: spec_fn(A, A) -> bool)
    requires
        d.finite(),
        strict_order(lt),
        total(lt),
    ensures
        sorted_by(sorted_enum(d, lt), lt),
        enumerates(sorted_enum(d, lt), d),
    decreases d.len(),
{
    reveal(sorted_enum);
    if d.len() == 0 {
        d.lemma_len0_is_empty();
        let t = Seq::<A>::empty();
        assert(enumerates(t, d));
    } else {
        let le = |a: A, b: A| lt(a, b) || a == b;
        assert(vstd::relations::total_ordering(le)) by {
            assert forall|a: A, b: A, c: A| #[trigger] le(a, b) && #[trigger] le(b, c) implies le(
                a,
                c,
            ) by {
                if a != b && b != c {
                    assert(lt(a, b) && lt(b, c));
                }
            }
            assert forall|a: A, b: A| #[trigger] le(a, b) && #[trigger] le(b, a) implies a == b by {
                if a != b {
                    assert(lt(a, b) && lt(b, a));
                    assert(lt(a, a));
                }
            }
            assert forall|a: A, b: A| #[trigger] le(a, b) || #[trigger] le(b, a) by {
                if a != b {
                    assert(lt(a, b) || lt(b, a));
                }
            }
        }
        d.find_unique_maximal_ensures(le);
        let m = d.find_unique_maximal(le);
        let d2 = d.remove(m);
        lemma_sorted_enum_exists(d2, lt);
        let s = sorted_enum(d2, lt);
        let t = s.push(m);
        assert forall|x: A| #[trigger] d2.contains(x) implies lt(x, m) by {
            assert(d.contains(x));
            assert(x != m);
            if lt(m, x) {
                assert(le(m, x));
                assert(le(x, m));
                assert(lt(x, x));
            }
        }
        assert(sorted_by(t, lt)) by {
            assert forall|i: int, j: int| 0 <= i < j < t.len() implies lt(#[trigger] t[i], #[trigger] t[j]) by {
                if j < s.len() {
                    assert(t[i] == s[i] && t[j] == s[j]);
                } else {
                    assert(t[i] == s[i]);
                    assert(s.contains(s[i]));
                    assert(d2.contains(s[i]));
                }
            }
        }
        assert(enumerates(t, d)) by {
            assert forall|x: A| #[trigger] d.contains(x) <==> t.contains(x) by {
                if d.contains(x) && x != m {
                    assert(d2.contains(x));
                    assert(s.contains(x));
                    let i = choose|i: int| 0 <= i < s.len() && s[i] == x;
                    assert(t[i] == x);
                }
                if t.contains(x) {
                    let i = choose|i: int| 0 <= i < t.len() && t[i] == x;
                    if i < s.len() {
                        assert(s[i] == x);
                        assert(s.contains(x));
                    }
                }
                if x == m {
                    assert(t[t.len() - 1] == m);
                }
            }
        }
    }
}

/// Concatenation distributes over appending part lists.
pub proof fn lemma_concat_append(a: Seq<Seq<u8>>, b: Seq<Seq<u8>>)
    ensures
        concat(a + b) == concat(a) + concat(b),
    decreases b.len(),
{
    if b.len() == 0 {
        assert(a + b =~= a);
        assert(concat(a) + concat(b) =~= concat(a));
    } else {
        lemma_concat_append(a, b.drop_last());
        assert((a + b).drop_last() =~= a + b.drop_last());
        assert((a + b).last() == b.last());
        assert(concat(a + b) =~= concat(a) + concat(b));
    }
}

/// The whole is the prefix's bytes, then part `i`, then the rest.
pub proof fn lemma_concat_around(parts: Seq<Seq<u8>>, i: int)
    requires
        0 <= i < parts.len(),
    ensures
        concat(parts) == concat(parts.take(i)) + parts[i] + concat(parts.skip(i + 1)),
{
    let single = seq![parts[i]];
    assert(parts =~= parts.take(i) + single + parts.skip(i + 1));
    lemma_concat_append(parts.take(i) + single, parts.skip(i + 1));
    lemma_concat_append(parts.take(i), single);
    assert(single.drop_last() =~= Seq::<Seq<u8>>::empty());
    assert(concat(single.drop_last()) == Seq::<u8>::empty());
    assert(single.last() == parts[i]);
    assert(concat(single) == concat(single.drop_last()) + single.last());
    assert(concat(single) =~= parts[i]);
}

/// A filtered sorted sequence is sorted.
pub proof fn lemma_filter_sorted<A>(s: Seq<A>, lt: spec_fn(A, A) -> bool, p: spec_fn(A) -> bool)
    requires
        sorted_by(s, lt),
    ensures
        sorted_by(s.filter(p), lt),
    decreases s.len(),
{
    reveal(Seq::filter);
    if s.len() > 0 {
        let t = s.drop_last();
        assert(sorted_by(t, lt)) by {
            assert forall|i: int, j: int| 0 <= i < j < t.len() implies lt(#[trigger] t[i], #[trigger] t[j]) by {
                assert(t[i] == s[i] && t[j] == s[j]);
            }
        }
        lemma_filter_sorted(t, lt, p);
        let f = t.filter(p);
        if p(s.last()) {
            let g = f.push(s.last());
            assert forall|i: int, j: int| 0 <= i < j < g.len() implies lt(#[trigger] g[i], #[trigger] g[j]) by {
                if j == f.len() {
                    assert(f.contains(f[i]));
                    t.lemma_filter_contains_rev(p, f[i]);
                    let k = choose|k: int| 0 <= k < t.len() && t[k] == f[i];
                    assert(s[k] == t[k]);
                    assert(lt(s[k], s[s.len() - 1]));
                } else {
                    assert(g[i] == f[i] && g[j] == f[j]);
                }
            }
        }
    }
}

/// Filtering an enumeration of a set enumerates the filtered set.
pub proof fn lemma_filter_enum<A>(s: Seq<A>, d: Set<A>, p: spec_fn(A) -> bool)
    requires
        enumerates(s, d),
    ensures
        enumerates(s.filter(p), d.filter(p)),
{
    s.filter_lemma(p);
    assert forall|x: A| #[trigger] d.filter(p).contains(x) <==> s.filter(p).contains(x) by {
        if s.filter(p).contains(x) {
            s.lemma_filter_contains_rev(p, x);
            let i = choose|i: int| 0 <= i < s.filter(p).len() && s.filter(p)[i] == x;
            assert(p(s.filter(p)[i]));
        }
        if d.filter(p).contains(x) {
            assert(s.contains(x));
            let i = choose|i: int| 0 <= i < s.len() && s[i] == x;
            assert(s.filter(p).contains(s[i]));
        }
    }
}

/// The ascending enumeration of a filtered set is the filtered ascending
/// enumeration.
pub proof fn lemma_filter_sorted_enum<A>(
    s: Seq<A>,
    d: Set<A>,
    lt: spec_fn(A, A) -> bool,
    p: spec_fn(A) -> bool,
)
    requires
        strict_order(lt),
        sorted_by(s, lt),
        enumerates(s, d),
    ensures
        sorted_enum(d.filter(p), lt) == s.filter(p),
{
    lemma_filter_sorted(s, lt, p);
    lemma_filter_enum(s, d, p);
    lemma_sorted_enum(s.filter(p), d.filter(p), lt);
}

/// Filtering one more element of a prefix.
pub proof fn lemma_take_filter<A>(s: Seq<A>, i: int, p: spec_fn(A) -> bool)
    requires
        0 <= i < s.len(),
    ensures
        s.take(i + 1).filter(p) == (if p(s[i]) {
            s.take(i).filter(p).push(s[i])
        } else {
            s.take(i).filter(p)
        }),
{
    reveal(Seq::filter);
    assert(s.take(i + 1).drop_last() =~= s.take(i));
    assert(s.take(i + 1).last() == s[i]);
}

/// Membership in a prefix one longer.
pub proof fn lemma_take_contains<A>(s: Seq<A>, k: int, x: A)
    requires
        0 <= k < s.len(),
    ensures
        s.take(k + 1).contains(x) <==> (s.take(k).contains(x) || x == s[k]),
{
    if s.take(k + 1).contains(x) {
        let y = choose|y: int| 0 <= y < k + 1 && #[trigger] s.take(k + 1)[y] == x;
        if y < k {
            assert(s.take(k)[y] == x);
        }
    }
    if s.take(k).contains(x) {
        let y = choose|y: int| 0 <= y < k && #[trigger] s.take(k)[y] == x;
        assert(s.take(k + 1)[y] == x);
    }
    if x == s[k] {
        assert(s.take(k + 1)[k] == x);
    }
}

} // verus!
