//! Counting the elements of a sequence, or of a sequence of columns, that
//! satisfy a predicate. Used to bound the score and to bound traversals.

use vstd::prelude::*;

verus! {

/// How many elements of `s` satisfy `f`.
pub open spec fn seq_count<T>(s: Seq<T>, f: spec_fn(T) -> bool) -> nat
    decreases s.len(),
{
    if s.len() == 0 {
        0
    } else {
        seq_count(s.drop_last(), f) + (if f(s.last()) {
            1nat
        } else {
            0nat
        })
    }
}

/// How many elements over all the columns of `g` satisfy `f`.
pub open spec fn grid_count<T>(g: Seq<Seq<T>>, f: spec_fn(T) -> bool) -> nat
    decreases g.len(),
{
    if g.len() == 0 {
        0
    } else {
        grid_count(g.drop_last(), f) + seq_count(g.last(), f)
    }
}

pub proof fn lemma_seq_count_le_len<T>(s: Seq<T>, f: spec_fn(T) -> bool)
    ensures
        seq_count(s, f) <= s.len(),
    decreases s.len(),
{
    if s.len() > 0 {
        lemma_seq_count_le_len(s.drop_last(), f);
    }
}

/// Updating one element changes the count by the difference the element makes.
pub proof fn lemma_seq_count_update<T>(s: Seq<T>, f: spec_fn(T) -> bool, i: int, v: T)
    requires
        0 <= i < s.len(),
    ensures
        seq_count(s.update(i, v), f) == seq_count(s, f) + (if f(v) {
            1int
        } else {
            0int
        }) - (if f(s[i]) {
            1int
        } else {
            0int
        }),
    decreases s.len(),
{
    let t = s.update(i, v);
    if i == s.len() - 1 {
        assert(t.drop_last() =~= s.drop_last());
        assert(t.last() == v);
    } else {
        assert(t.drop_last() =~= s.drop_last().update(i, v));
        assert(t.last() == s.last());
        lemma_seq_count_update(s.drop_last(), f, i, v);
    }
}

/// The count agrees with the length of the filtered sequence.
pub proof fn lemma_seq_count_is_filter_len<T>(s: Seq<T>, f: spec_fn(T) -> bool)
    ensures
        seq_count(s, f) == s.filter(f).len(),
    decreases s.len(),
{
    reveal(Seq::filter);
    if s.len() > 0 {
        lemma_seq_count_is_filter_len(s.drop_last(), f);
    }
}

/// A count of zero means no element satisfies `f`, and conversely.
pub proof fn lemma_seq_count_zero<T>(s: Seq<T>, f: spec_fn(T) -> bool)
    ensures
        seq_count(s, f) == 0 <==> (forall|i: int| 0 <= i < s.len() ==> !f(#[trigger] s[i])),
    decreases s.len(),
{
    if s.len() > 0 {
        lemma_seq_count_zero(s.drop_last(), f);
        if seq_count(s, f) == 0 {
            assert forall|i: int| 0 <= i < s.len() implies !f(#[trigger] s[i]) by {
                if i < s.len() - 1 {
                    assert(s.drop_last()[i] == s[i]);
                }
            }
        } else {
            if f(s.last()) {
            } else {
                assert(seq_count(s.drop_last(), f) > 0);
                let j = choose|j: int| 0 <= j < s.len() - 1 && f(s.drop_last()[j]);
                assert(f(s[j]));
            }
        }
    }
}

/// Complementary predicates split the length between them.
pub proof fn lemma_seq_count_complement<T>(s: Seq<T>, f: spec_fn(T) -> bool, g: spec_fn(T) -> bool)
    requires
        forall|i: int| 0 <= i < s.len() ==> (g(#[trigger] s[i]) <==> !f(s[i])),
    ensures
        seq_count(s, f) + seq_count(s, g) == s.len(),
    decreases s.len(),
{
    if s.len() > 0 {
        assert forall|i: int| 0 <= i < s.drop_last().len() implies (g(
            #[trigger] s.drop_last()[i],
        ) <==> !f(s.drop_last()[i])) by {
            assert(s.drop_last()[i] == s[i]);
        }
        lemma_seq_count_complement(s.drop_last(), f, g);
        assert(g(s[s.len() - 1]) <==> !f(s[s.len() - 1]));
    }
}

/// Complementary predicates split the cell count of a uniform grid.
pub proof fn lemma_grid_count_complement<T>(
    g1: Seq<Seq<T>>,
    f: spec_fn(T) -> bool,
    g: spec_fn(T) -> bool,
    h: nat,
)
    requires
        forall|x: int| 0 <= x < g1.len() ==> (#[trigger] g1[x]).len() == h,
        forall|x: int, i: int|
            0 <= x < g1.len() && 0 <= i < h ==> (g(#[trigger] g1[x][i]) <==> !f(g1[x][i])),
    ensures
        grid_count(g1, f) + grid_count(g1, g) == g1.len() * h,
    decreases g1.len(),
{
    if g1.len() > 0 {
        assert forall|x: int| 0 <= x < g1.drop_last().len() implies (#[trigger] g1.drop_last()[x]).len()
            == h by {
            assert(g1.drop_last()[x] == g1[x]);
        }
        assert forall|x: int, i: int|
            0 <= x < g1.drop_last().len() && 0 <= i < h implies (g(
            #[trigger] g1.drop_last()[x][i],
        ) <==> !f(g1.drop_last()[x][i])) by {
            assert(g1.drop_last()[x] == g1[x]);
        }
        lemma_grid_count_complement(g1.drop_last(), f, g, h);
        let c = g1.last();
        assert forall|i: int| 0 <= i < c.len() implies (g(#[trigger] c[i]) <==> !f(c[i])) by {
            assert(c == g1[g1.len() - 1]);
        }
        lemma_seq_count_complement(c, f, g);
        assert((g1.len() - 1) * h + h == g1.len() * h) by (nonlinear_arith);
    }
}

/// Filtering a sequence extended by one element keeps the element exactly
/// when it satisfies the predicate.
pub proof fn lemma_filter_push<T>(s: Seq<T>, f: spec_fn(T) -> bool, v: T)
    ensures
        s.push(v).filter(f) == if f(v) {
            s.filter(f).push(v)
        } else {
            s.filter(f)
        },
{
    reveal(Seq::filter);
    assert(s.push(v).drop_last() =~= s);
    assert(s.push(v).last() == v);
    if f(v) {
        assert(s.filter(f) + seq![v] =~= s.filter(f).push(v));
    } else {
        assert(s.filter(f) + seq![] =~= s.filter(f));
    }
}

/// A sequence whose elements all satisfy the predicate filters to itself.
pub proof fn lemma_filter_all<T>(s: Seq<T>, f: spec_fn(T) -> bool)
    requires
        forall|i: int| 0 <= i < s.len() ==> f(#[trigger] s[i]),
    ensures
        s.filter(f) == s,
    decreases s.len(),
{
    reveal(Seq::filter);
    if s.len() > 0 {
        assert forall|i: int| 0 <= i < s.drop_last().len() implies f(#[trigger] s.drop_last()[i]) by {
            assert(s.drop_last()[i] == s[i]);
        }
        lemma_filter_all(s.drop_last(), f);
        assert(f(s.last()));
        assert(s.drop_last() + seq![s.last()] =~= s);
    } else {
        assert(s.filter(f) =~= s);
    }
}

/// A sequence none of whose elements satisfies the predicate filters to
/// nothing.
pub proof fn lemma_filter_none<T>(s: Seq<T>, f: spec_fn(T) -> bool)
    requires
        forall|i: int| 0 <= i < s.len() ==> !f(#[trigger] s[i]),
    ensures
        s.filter(f) == Seq::<T>::empty(),
    decreases s.len(),
{
    reveal(Seq::filter);
    if s.len() > 0 {
        assert forall|i: int| 0 <= i < s.drop_last().len() implies !f(
            #[trigger] s.drop_last()[i],
        ) by {
            assert(s.drop_last()[i] == s[i]);
        }
        lemma_filter_none(s.drop_last(), f);
        assert(!f(s.last()));
    } else {
        assert(s.filter(f) =~= Seq::<T>::empty());
    }
}

/// Every element of a filtered sequence carries any property shared by the
/// elements of the original.
pub proof fn lemma_filter_property<T>(s: Seq<T>, f: spec_fn(T) -> bool, q: spec_fn(T) -> bool)
    requires
        forall|i: int| 0 <= i < s.len() ==> q(#[trigger] s[i]),
    ensures
        forall|i: int| 0 <= i < s.filter(f).len() ==> q(#[trigger] s.filter(f)[i]),
    decreases s.len(),
{
    reveal(Seq::filter);
    if s.len() > 0 {
        assert forall|i: int| 0 <= i < s.drop_last().len() implies q(#[trigger] s.drop_last()[i]) by {
            assert(s.drop_last()[i] == s[i]);
        }
        lemma_filter_property(s.drop_last(), f, q);
        assert(q(s.last()));
        let out = s.filter(f);
        let sub = s.drop_last().filter(f);
        assert forall|i: int| 0 <= i < out.len() implies q(#[trigger] out[i]) by {
            if f(s.last()) {
                assert(out == sub + seq![s.last()]);
                if i < sub.len() {
                    assert(out[i] == sub[i]);
                } else {
                    assert(out[i] == s.last());
                }
            } else {
                assert(out == sub + seq![]);
                assert(out[i] == sub[i]);
            }
        }
    }
}

/// Updating one column changes the grid count by the columns' difference.
pub proof fn lemma_grid_count_update<T>(g: Seq<Seq<T>>, f: spec_fn(T) -> bool, x: int, c: Seq<T>)
    requires
        0 <= x < g.len(),
    ensures
        grid_count(g.update(x, c), f) == grid_count(g, f) + seq_count(c, f) - seq_count(g[x], f),
    decreases g.len(),
{
    let t = g.update(x, c);
    if x == g.len() - 1 {
        assert(t.drop_last() =~= g.drop_last());
        assert(t.last() == c);
    } else {
        assert(t.drop_last() =~= g.drop_last().update(x, c));
        assert(t.last() == g.last());
        lemma_grid_count_update(g.drop_last(), f, x, c);
    }
}

/// A grid of `w` columns of `h` elements holds at most `w * h` satisfying ones.
pub proof fn lemma_grid_count_le<T>(g: Seq<Seq<T>>, f: spec_fn(T) -> bool, h: nat)
    requires
        forall|x: int| 0 <= x < g.len() ==> (#[trigger] g[x]).len() == h,
    ensures
        grid_count(g, f) <= g.len() * h,
    decreases g.len(),
{
    if g.len() > 0 {
        assert forall|x: int| 0 <= x < g.drop_last().len() implies (#[trigger] g.drop_last()[x]).len()
            == h by {
            assert(g.drop_last()[x] == g[x]);
        }
        lemma_grid_count_le(g.drop_last(), f, h);
        lemma_seq_count_le_len(g.last(), f);
        assert((g.len() - 1) * h + h == g.len() * h) by (nonlinear_arith);
    }
}

/// The grid count adds up over concatenation of column sequences.
pub proof fn lemma_grid_count_add<T>(a: Seq<Seq<T>>, b: Seq<Seq<T>>, f: spec_fn(T) -> bool)
    ensures
        grid_count(a + b, f) == grid_count(a, f) + grid_count(b, f),
    decreases b.len(),
{
    if b.len() == 0 {
        assert(a + b =~= a);
    } else {
        assert((a + b).drop_last() =~= a + b.drop_last());
        assert((a + b).last() == b.last());
        lemma_grid_count_add(a, b.drop_last(), f);
    }
}

/// Column-by-column equal counts give equal grid counts.
pub proof fn lemma_grid_count_pointwise<T>(
    g1: Seq<Seq<T>>,
    g2: Seq<Seq<T>>,
    f: spec_fn(T) -> bool,
)
    requires
        g1.len() == g2.len(),
        forall|x: int|
            0 <= x < g1.len() ==> seq_count(#[trigger] g1[x], f) == seq_count(#[trigger] g2[x], f),
    ensures
        grid_count(g1, f) == grid_count(g2, f),
    decreases g1.len(),
{
    if g1.len() > 0 {
        assert forall|x: int| 0 <= x < g1.drop_last().len() implies seq_count(
            #[trigger] g1.drop_last()[x],
            f,
        ) == seq_count(#[trigger] g2.drop_last()[x], f) by {
            assert(g1.drop_last()[x] == g1[x]);
            assert(g2.drop_last()[x] == g2[x]);
        }
        lemma_grid_count_pointwise(g1.drop_last(), g2.drop_last(), f);
        assert(seq_count(g1.last(), f) == seq_count(g2.last(), f));
    }
}

} // verus!
