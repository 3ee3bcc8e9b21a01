//! What attention promises in exact arithmetic, whatever the kernel: the order of the keys does not
//! matter, and every output is an average of the values.
use crate::algebra::{ring, ring_at};
use crate::codegen::{
    attention_row, fused_attention_value, row_dot, stream_step, streamed, Stream,
};
use crate::kernel_laws::{exact, exact_at};
use crate::tensor::{lemma_row_fits, lemma_stacked, lemma_stacked_same, row_of, Scalar, Tensor};
use vstd::prelude::*;
use vstd::seq_lib::{commutative_foldl, lemma_fold_left_permutation};

verus! {

// ---- The order of the keys ----

/// Whether the largest of several numbers does not depend on their order.
pub open spec fn larger_commutes<T: Scalar>() -> bool {
    forall|a: T, b: T, c: T|
        #![trigger a.larger(b).larger(c)]
        a.larger(b).larger(c) == a.larger(c).larger(b)
}

/// The keys, each with its value.
pub open spec fn keyed_values<T: Scalar>(k: Tensor<T>, v: Tensor<T>) -> Seq<(Seq<T>, Seq<T>)> {
    Seq::new(
        k.shape[0] as nat,
        |j: int|
            (row_of(k.data, k.shape[1] as int, j), row_of(v.data, v.shape[1] as int, j)),
    )
}

/// One more key with its value, for the query row `q`.
spec fn attend<T: Scalar>(q: Seq<T>, scale: T) -> spec_fn(
    Stream<T>,
    (Seq<T>, Seq<T>),
) -> Stream<T> {
    |s: Stream<T>, kv: (Seq<T>, Seq<T>)|
        stream_step(s, row_dot(q, kv.0, q.len()).product(scale), kv.1)
}

proof fn lemma_streamed_is_a_fold<T: Scalar>(
    q: Seq<T>,
    k: Tensor<T>,
    v: Tensor<T>,
    scale: T,
    count: nat,
)
    requires
        q.len() == k.shape[1],
        count <= k.shape[0],
    ensures
        streamed(q, k.data, v.data, v.shape[1] as int, scale, count) == keyed_values(k, v).take(
            count as int,
        ).fold_left(
            streamed(q, k.data, v.data, v.shape[1] as int, scale, 0),
            attend(q, scale),
        ),
    decreases count,
{
    let all = keyed_values(k, v);
    if count > 0 {
        lemma_streamed_is_a_fold(q, k, v, scale, (count - 1) as nat);
        assert(all.take(count as int).drop_last() =~= all.take(count - 1));
        assert(all.take(count as int).last() == all[count - 1]);
    }
}

/// What is left of `a` and then of a key, after a key at `m` and one more at `n`.
proof fn lemma_two_steps<T: Scalar>(a: T, from: T, x: T, px: T, m: T, n: T)
    requires
        exact::<T>(),
        ring::<T>(),
    ensures
        a.product(from.difference(m).exponential()).sum(
            x.difference(m).exponential().product(px),
        ).product(m.difference(n).exponential()) == a.product(
            from.difference(n).exponential(),
        ).sum(x.difference(n).exponential().product(px)),
{
    let (e, f, g) = (
        from.difference(m).exponential(),
        x.difference(m).exponential(),
        m.difference(n).exponential(),
    );
    assert(exact_at(from, m, n));
    assert(exact_at(x, m, n));
    assert(ring_at(a.product(e), f.product(px), g));
    assert(ring_at(a, e, g));
    assert(exact_at(f, px, g));
}

/// As above, for a key whose weight alone counts.
proof fn lemma_two_weights<T: Scalar>(a: T, from: T, x: T, m: T, n: T)
    requires
        exact::<T>(),
        ring::<T>(),
    ensures
        a.product(from.difference(m).exponential()).sum(x.difference(m).exponential()).product(
            m.difference(n).exponential(),
        ) == a.product(from.difference(n).exponential()).sum(x.difference(n).exponential()),
{
    let (e, f, g) = (
        from.difference(m).exponential(),
        x.difference(m).exponential(),
        m.difference(n).exponential(),
    );
    assert(exact_at(from, m, n));
    assert(exact_at(x, m, n));
    assert(ring_at(a.product(e), f, g));
    assert(ring_at(a, e, g));
}

/// Two keys may change places.
proof fn lemma_steps_commute<T: Scalar>(s: Stream<T>, x: T, vx: Seq<T>, y: T, vy: Seq<T>)
    requires
        exact::<T>(),
        ring::<T>(),
        larger_commutes::<T>(),
    ensures
        stream_step(stream_step(s, x, vx), y, vy) == stream_step(stream_step(s, y, vy), x, vx),
{
    let (mx, my) = (s.max.larger(x), s.max.larger(y));
    let n = mx.larger(y);
    assert(n == my.larger(x));
    let (px, py) = (x.difference(n).exponential(), y.difference(n).exponential());
    let corr = s.max.difference(n).exponential();
    let (a, b) = (
        stream_step(stream_step(s, x, vx), y, vy),
        stream_step(stream_step(s, y, vy), x, vx),
    );
    assert(a.total == b.total) by {
        lemma_two_weights(s.total, s.max, x, mx, n);
        lemma_two_weights(s.total, s.max, y, my, n);
        assert(ring_at(s.total.product(corr), px, py));
        assert(ring_at(s.total.product(corr), py, px));
        assert(ring_at(px, py, px));
    }
    assert(a.acc =~= b.acc) by {
        assert forall|t: int| 0 <= t < s.acc.len() implies a.acc[t] == b.acc[t] by {
            lemma_two_steps(s.acc[t], s.max, x, vx[t], mx, n);
            lemma_two_steps(s.acc[t], s.max, y, vy[t], my, n);
            let base = s.acc[t].product(corr);
            let (wx, wy) = (px.product(vx[t]), py.product(vy[t]));
            assert(ring_at(base, wx, wy));
            assert(ring_at(base, wy, wx));
            assert(ring_at(wx, wy, wx));
        }
    }
}

/// The order of the keys does not matter: where the keys, each with its value, stand in another
/// order, fused attention gives the same result in exact arithmetic.
pub proof fn keys_may_change_places<T: Scalar>(
    q: Tensor<T>,
    k: Tensor<T>,
    v: Tensor<T>,
    other_k: Tensor<T>,
    other_v: Tensor<T>,
    scale: T,
)
    requires
        exact::<T>(),
        ring::<T>(),
        larger_commutes::<T>(),
        q.well_formed(),
        k.shape == other_k.shape,
        v.shape == other_v.shape,
        fused_attention_value(q, k, v, scale) is Some,
        fused_attention_value(q, other_k, other_v, scale) is Some,
        keyed_values(k, v).to_multiset() == keyed_values(other_k, other_v).to_multiset(),
    ensures
        fused_attention_value(q, other_k, other_v, scale) == fused_attention_value(q, k, v, scale),
{
    let (s, d) = (q.shape[0] as int, q.shape[1] as int);
    let (keys, dv) = (k.shape[0] as nat, v.shape[1] as int);
    let row = |i: int| attention_row(row_of(q.data, d, i), k.data, v.data, dv, scale, keys);
    let other = |i: int|
        attention_row(row_of(q.data, d, i), other_k.data, other_v.data, dv, scale, keys);
    assert forall|i: int| 0 <= i < s implies #[trigger] row(i) == other(i) by {
        let x = row_of(q.data, d, i);
        lemma_row_fits(i, s, d);
        assert(x.len() == d);
        let f = attend(x, scale);
        assert(commutative_foldl(f)) by {
            assert forall|a: (Seq<T>, Seq<T>), b: (Seq<T>, Seq<T>), st: Stream<T>| #[trigger]
                f(f(st, a), b) == f(f(st, b), a) by {
                let (la, lb) = (
                    row_dot(x, a.0, x.len()).product(scale),
                    row_dot(x, b.0, x.len()).product(scale),
                );
                lemma_steps_commute(st, la, a.1, lb, b.1);
            }
        }
        let (all, others) = (keyed_values(k, v), keyed_values(other_k, other_v));
        lemma_streamed_is_a_fold(x, k, v, scale, keys);
        lemma_streamed_is_a_fold(x, other_k, other_v, scale, keys);
        assert(all.take(keys as int) =~= all);
        assert(others.take(keys as int) =~= others);
        lemma_fold_left_permutation(all, others, f, streamed(x, k.data, v.data, dv, scale, 0));
    }
    lemma_stacked_same(row, other, s as nat);
}

// ---- Averages ----

/// Whether `a` is at most `b`.
pub open spec fn at_most<T: Scalar>(a: T, b: T) -> bool {
    a.larger(b) == b
}

pub open spec fn positive<T: Scalar>(a: T) -> bool {
    at_most(T::the_zero(), a) && a != T::the_zero()
}

/// The laws of the order of the real numbers, for three numbers.
pub open spec fn ordered_at<T: Scalar>(a: T, b: T, c: T) -> bool {
    &&& at_most(a, a)
    &&& at_most(a, b) && at_most(b, c) ==> at_most(a, c)
    &&& at_most(a, b) ==> at_most(a.sum(c), b.sum(c))
    &&& at_most(a, b) && at_most(T::the_zero(), c) ==> at_most(a.product(c), b.product(c))
    &&& at_most(T::the_zero(), a) && positive(b) ==> positive(a.sum(b))
    &&& positive(a.exponential())
    &&& positive(a) ==> positive(T::the_one().quotient(a)) && a.product(T::the_one().quotient(a))
        == T::the_one()
    &&& a.product(T::the_one()) == a
}

/// Whether the scalars are ordered as the real numbers are.
pub open spec fn ordered<T: Scalar>() -> bool {
    forall|a: T, b: T, c: T| #[trigger] ordered_at(a, b, c)
}

/// One step keeps a weighted sum at most `hi` times the weights.
proof fn lemma_step_below<T: Scalar>(acc: T, total: T, corr: T, p: T, x: T, hi: T)
    requires
        ring::<T>(),
        ordered::<T>(),
        positive(corr),
        positive(p),
        at_most(x, hi),
        at_most(acc, hi.product(total)),
    ensures
        at_most(acc.product(corr).sum(p.product(x)), hi.product(total.product(corr).sum(p))),
{
    let (a, b) = (acc.product(corr), hi.product(total).product(corr));
    let (u, w) = (p.product(x), p.product(hi));
    assert(ordered_at(acc, hi.product(total), corr));
    assert(at_most(a, b));
    assert(ring_at(p, x, p) && ring_at(p, hi, p));
    assert(ordered_at(x, hi, p));
    assert(at_most(u, w));
    assert(ordered_at(a, b, u));
    assert(ring_at(b, u, w) && ring_at(b, w, u));
    assert(ordered_at(u, w, b));
    assert(ordered_at(a.sum(u), b.sum(u), b.sum(w)));
    assert(at_most(a.sum(u), b.sum(w)));
    assert(b.sum(w) == hi.product(total.product(corr).sum(p))) by {
        let (y, z) = (total.product(corr), p);
        assert(ring_at(y, z, hi));
        assert(ring_at(hi, y.sum(z), hi));
        assert(ring_at(hi, y, hi) && ring_at(hi, z, hi));
        assert(ring_at(hi, total, corr));
    }
}

/// One step keeps a weighted sum at least `lo` times the weights.
proof fn lemma_step_above<T: Scalar>(acc: T, total: T, corr: T, p: T, x: T, lo: T)
    requires
        ring::<T>(),
        ordered::<T>(),
        positive(corr),
        positive(p),
        at_most(lo, x),
        at_most(lo.product(total), acc),
    ensures
        at_most(lo.product(total.product(corr).sum(p)), acc.product(corr).sum(p.product(x))),
{
    let (a, b) = (acc.product(corr), lo.product(total).product(corr));
    let (u, w) = (p.product(x), p.product(lo));
    assert(ordered_at(lo.product(total), acc, corr));
    assert(at_most(b, a));
    assert(ring_at(p, x, p) && ring_at(p, lo, p));
    assert(ordered_at(lo, x, p));
    assert(at_most(w, u));
    assert(ordered_at(b, a, w));
    assert(ring_at(a, u, w) && ring_at(a, w, u));
    assert(ordered_at(w, u, a));
    assert(ordered_at(b.sum(w), a.sum(w), a.sum(u)));
    assert(at_most(b.sum(w), a.sum(u)));
    assert(b.sum(w) == lo.product(total.product(corr).sum(p))) by {
        let (y, z) = (total.product(corr), p);
        assert(ring_at(y, z, lo));
        assert(ring_at(lo, y.sum(z), lo));
        assert(ring_at(lo, y, lo) && ring_at(lo, z, lo));
        assert(ring_at(lo, total, corr));
    }
}

/// Whether column `t` of the first `count` rows of a matrix with `width` columns lies between `lo`
/// and `hi`.
pub open spec fn column_within<T: Scalar>(
    data: Seq<T>,
    width: int,
    t: int,
    count: nat,
    lo: T,
    hi: T,
) -> bool {
    forall|j: int|
        0 <= j < count ==> at_most(lo, #[trigger] row_of(data, width, j)[t]) && at_most(
            row_of(data, width, j)[t],
            hi,
        )
}

proof fn lemma_streamed_within<T: Scalar>(
    q: Seq<T>,
    k: Seq<T>,
    v: Seq<T>,
    dv: int,
    scale: T,
    count: nat,
    t: int,
    lo: T,
    hi: T,
)
    requires
        ring::<T>(),
        ordered::<T>(),
        0 <= t < dv,
        column_within(v, dv, t, count, lo, hi),
    ensures
        ({
            let s = streamed(q, k, v, dv, scale, count);
            &&& s.acc.len() == dv
            &&& at_most(T::the_zero(), s.total)
            &&& count > 0 ==> positive(s.total)
            &&& at_most(lo.product(s.total), s.acc[t])
            &&& at_most(s.acc[t], hi.product(s.total))
        }),
    decreases count,
{
    let zero = T::the_zero();
    if count == 0 {
        assert(ring_at(lo, zero, zero) && ring_at(hi, zero, zero));
        assert(ordered_at(zero, zero, zero));
    } else {
        lemma_streamed_within(q, k, v, dv, scale, (count - 1) as nat, t, lo, hi);
        let s = streamed(q, k, v, dv, scale, (count - 1) as nat);
        let logit = row_dot(q, row_of(k, q.len() as int, count - 1), q.len()).product(scale);
        let max = s.max.larger(logit);
        let (corr, p) = (
            s.max.difference(max).exponential(),
            logit.difference(max).exponential(),
        );
        let x = row_of(v, dv, count - 1)[t];
        assert(ordered_at(s.max.difference(max), p, p));
        assert(ordered_at(logit.difference(max), p, p));
        assert(at_most(lo, x) && at_most(x, hi));
        lemma_step_below(s.acc[t], s.total, corr, p, x, hi);
        lemma_step_above(s.acc[t], s.total, corr, p, x, lo);
        let scaled = s.total.product(corr);
        assert(at_most(zero, scaled)) by {
            assert(ordered_at(zero, s.total, corr));
            assert(ring_at(corr, zero, zero) && ring_at(zero, corr, zero));
        }
        assert(ordered_at(scaled, p, p));
    }
}

/// Attention averages the values: in exact arithmetic, what it gives for column `t` lies between
/// any bounds on column `t` of the values.
pub proof fn attention_averages_the_values<T: Scalar>(
    q: Tensor<T>,
    k: Tensor<T>,
    v: Tensor<T>,
    scale: T,
    i: int,
    t: int,
    lo: T,
    hi: T,
)
    requires
        ring::<T>(),
        ordered::<T>(),
        fused_attention_value(q, k, v, scale) is Some,
        k.shape[0] > 0,
        0 <= i < q.shape[0],
        0 <= t < v.shape[1],
        column_within(v.data, v.shape[1] as int, t, k.shape[0] as nat, lo, hi),
    ensures
        ({
            let out = fused_attention_value(q, k, v, scale).unwrap();
            let x = row_of(out.data, v.shape[1] as int, i)[t];
            at_most(lo, x) && at_most(x, hi)
        }),
{
    let (s, d) = (q.shape[0] as int, q.shape[1] as int);
    let (keys, dv) = (k.shape[0] as nat, v.shape[1] as int);
    let row = |i: int| attention_row(row_of(q.data, d, i), k.data, v.data, dv, scale, keys);
    assert forall|r: int| 0 <= r < s implies (#[trigger] row(r)).len() == dv by {
        lemma_streamed_within(
            row_of(q.data, d, r),
            k.data,
            v.data,
            dv,
            scale,
            keys,
            t,
            lo,
            hi,
        );
    }
    lemma_stacked(row, dv, s as nat);
    let x = row_of(q.data, d, i);
    lemma_streamed_within(x, k.data, v.data, dv, scale, keys, t, lo, hi);
    let st = streamed(x, k.data, v.data, dv, scale, keys);
    let inv = T::the_one().quotient(st.total);
    let out = fused_attention_value(q, k, v, scale).unwrap();
    assert(row_of(out.data, dv, i) == row(i));
    assert(row(i)[t] == st.acc[t].product(inv));
    assert(ordered_at(st.total, st.total, st.total));
    lemma_undone(lo, st.total);
    lemma_undone(hi, st.total);
    assert(ordered_at(lo.product(st.total), st.acc[t], inv));
    assert(ordered_at(st.acc[t], hi.product(st.total), inv));
}

/// A product by a positive number is undone by its inverse.
proof fn lemma_undone<T: Scalar>(a: T, total: T)
    requires
        ring::<T>(),
        ordered::<T>(),
        positive(total),
    ensures
        a.product(total).product(T::the_one().quotient(total)) == a,
{
    let inv = T::the_one().quotient(total);
    assert(ordered_at(total, total, total));
    assert(ring_at(a, total, inv));
    assert(ordered_at(a, a, a));
}

} // verus!
