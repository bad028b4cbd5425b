//! Color points and their clustering capabilities.
//!
//! A [`Color`] is one sample to be clustered: three or four unsigned 8-bit
//! channels.  Distance between colors is squared Euclidean distance across
//! the raw channel values (alpha, when present, participates like any other
//! channel).  Squared distance orders pairs exactly as Euclidean distance
//! does, so nearest-center decisions are unchanged by the squaring, and it
//! stays in integers.  Accumulation for the mean runs in 64-bit sums, wider
//! than the channels, and the mean truncates (floor division) into 8-bit
//! channels.

use vstd::prelude::*;

use crate::kmeans::Kmeansable;

verus! {

/// Channel layout of a color: three opaque channels or four with alpha.
#[derive(Clone, Copy, Debug, PartialEq, Eq, Structural)]
pub enum ColorKind {
    Rgb8,
    Rgba8,
}

/// One color sample: a channel layout and the raw channel values.
#[derive(Clone, Debug, PartialEq, Eq)]
pub struct Color {
    pub color_type: ColorKind,
    pub data: Vec<u8>,
}

/// The mathematical value of a [`Color`]: its layout and channel sequence.
#[verifier::ext_equal]
pub struct ColorView {
    pub color_type: ColorKind,
    pub data: Seq<u8>,
}

impl View for Color {
    type V = ColorView;

    open spec fn view(&self) -> ColorView {
        ColorView { color_type: self.color_type, data: self.data@ }
    }
}

impl ColorView {
    /// A color is well formed when its channel count matches its layout.
    pub open spec fn wf(self) -> bool {
        match self.color_type {
            ColorKind::Rgb8 => self.data.len() == 3,
            ColorKind::Rgba8 => self.data.len() == 4,
        }
    }
}

/// Two colors can be compared and clustered together: both well formed,
/// with the same layout.
pub open spec fn compat(a: ColorView, b: ColorView) -> bool {
    a.wf() && b.wf() && a.color_type == b.color_type
}

/// Channel-wise difference of two equally long channel sequences.
pub open spec fn chan_diff(a: Seq<u8>, b: Seq<u8>) -> Seq<int> {
    Seq::new(a.len(), |i: int| a[i] - b[i])
}

/// Dot product of two integer sequences of equal length.
pub open spec fn dot(u: Seq<int>, v: Seq<int>) -> int
    decreases u.len(),
{
    if u.len() == 0 {
        0
    } else {
        dot(u.drop_last(), v.drop_last()) + u.last() * v.last()
    }
}

/// Squared Euclidean norm of an integer sequence.
pub open spec fn norm2(u: Seq<int>) -> int {
    dot(u, u)
}

/// Squared Euclidean distance between two colors of equal layout.
pub open spec fn sq_dist(a: ColorView, b: ColorView) -> int {
    norm2(chan_diff(a.data, b.data))
}

/// The accumulator zero: four zeroed 64-bit sums (extra entries beyond the
/// channel count fall away on the first accumulation).
pub open spec fn sum_zero() -> Seq<u64> {
    seq![0u64, 0u64, 0u64, 0u64]
}

/// One accumulation step: channel-wise sum, truncated to the shorter length.
pub open spec fn sum_add(s: Seq<u64>, p: ColorView) -> Seq<u64> {
    let len = if s.len() <= p.data.len() {
        s.len()
    } else {
        p.data.len()
    };
    Seq::new(len, |i: int| (s[i] + p.data[i]) as u64)
}

/// No accumulation step overflows its 64-bit sum.
pub open spec fn can_add(s: Seq<u64>, p: ColorView) -> bool {
    forall|i: int| 0 <= i < s.len() && i < p.data.len() ==> s[i] + p.data[i] <= u64::MAX
}

/// A sum has a channel count that yields a well-formed mean.
pub open spec fn can_mean(s: Seq<u64>) -> bool {
    s.len() == 3 || s.len() == 4
}

/// The mean of `n` accumulated colors: channel-wise floor division,
/// truncated into 8-bit channels; the layout follows the channel count.
pub open spec fn sum_mean(s: Seq<u64>, n: nat) -> ColorView {
    ColorView {
        color_type: if s.len() == 3 {
            ColorKind::Rgb8
        } else {
            ColorKind::Rgba8
        },
        data: Seq::new(s.len(), |i: int| (((s[i] as nat) / n) % 256) as u8),
    }
}

/// Squared norms of pointwise-negated sequences agree.
proof fn lemma_norm2_neg(u: Seq<int>, v: Seq<int>)
    requires
        u.len() == v.len(),
        forall|i: int| 0 <= i < u.len() ==> v[i] == -u[i],
    ensures
        norm2(v) == norm2(u),
    decreases u.len(),
{
    if u.len() > 0 {
        lemma_norm2_neg(u.drop_last(), v.drop_last());
        assert(v.last() * v.last() == u.last() * u.last()) by (nonlinear_arith)
            requires
                v.last() == -u.last(),
        ;
    }
}

/// Squared distance is symmetric.
pub proof fn lemma_sq_dist_symm(a: ColorView, b: ColorView)
    requires
        a.data.len() == b.data.len(),
    ensures
        sq_dist(a, b) == sq_dist(b, a),
{
    lemma_norm2_neg(chan_diff(a.data, b.data), chan_diff(b.data, a.data));
}

/// A squared norm is non-negative.
pub proof fn lemma_norm2_nonneg(u: Seq<int>)
    ensures
        norm2(u) >= 0,
    decreases u.len(),
{
    if u.len() > 0 {
        lemma_norm2_nonneg(u.drop_last());
        assert(u.last() * u.last() >= 0) by (nonlinear_arith);
    }
}

/// A squared norm of `len` entries, each at most `m` in magnitude, is at
/// most `len * m * m`.
pub proof fn lemma_norm2_bound(u: Seq<int>, m: int)
    requires
        m >= 0,
        forall|i: int| 0 <= i < u.len() ==> -m <= #[trigger] u[i] <= m,
    ensures
        0 <= norm2(u) <= u.len() * m * m,
    decreases u.len(),
{
    if u.len() == 0 {
    } else {
        let u1 = u.drop_last();
        assert(forall|i: int| 0 <= i < u1.len() ==> -m <= #[trigger] u1[i] <= m);
        lemma_norm2_bound(u1, m);
        assert(u.last() * u.last() <= m * m) by (nonlinear_arith)
            requires
                -m <= u.last() <= m,
        ;
        assert(u.last() * u.last() >= 0) by (nonlinear_arith);
        let len1 = u1.len() as int;
        assert(len1 * m * m + m * m == (len1 + 1) * m * m) by (nonlinear_arith);
        assert(norm2(u) == norm2(u1) + u.last() * u.last());
        assert(norm2(u) <= len1 * m * m + m * m);
        assert(u.len() * m * m == (len1 + 1) * m * m);
    }
}

/// Squared distance of two colors with at most four channels is at most
/// four times the largest squared channel difference.
pub proof fn lemma_sq_dist_range(a: ColorView, b: ColorView)
    requires
        a.data.len() == b.data.len(),
        a.data.len() <= 4,
    ensures
        0 <= sq_dist(a, b) <= 260100,
{
    let u = chan_diff(a.data, b.data);
    assert(forall|i: int| 0 <= i < u.len() ==> -255 <= #[trigger] u[i] <= 255);
    lemma_norm2_bound(u, 255);
    assert(u.len() * 255 * 255 <= 4 * 255 * 255) by (nonlinear_arith)
        requires
            u.len() <= 4,
    ;
}

/// A squared norm vanishes exactly on the zero sequence.
proof fn lemma_norm2_zero(u: Seq<int>)
    ensures
        (norm2(u) == 0) <==> (forall|i: int| 0 <= i < u.len() ==> u[i] == 0),
    decreases u.len(),
{
    if u.len() > 0 {
        let u1 = u.drop_last();
        lemma_norm2_zero(u1);
        lemma_norm2_nonneg(u1);
        assert(u.last() * u.last() >= 0) by (nonlinear_arith);
        assert(u.last() * u.last() == 0 ==> u.last() == 0) by (nonlinear_arith);
        if norm2(u) == 0 {
            assert forall|i: int| 0 <= i < u.len() implies u[i] == 0 by {
                if i < u.len() - 1 {
                    assert(u1[i] == 0);
                }
            }
        }
        if forall|i: int| 0 <= i < u.len() ==> u[i] == 0 {
            assert(forall|i: int| 0 <= i < u1.len() ==> u1[i] == 0);
            assert(u.last() == 0);
        }
    }
}

/// Squared distance vanishes exactly on colors with equal channel values.
pub proof fn lemma_sq_dist_zero_iff_equal(a: ColorView, b: ColorView)
    requires
        a.data.len() == b.data.len(),
    ensures
        (sq_dist(a, b) == 0) <==> (a.data == b.data),
{
    let u = chan_diff(a.data, b.data);
    lemma_norm2_zero(u);
    if sq_dist(a, b) == 0 {
        assert forall|i: int| 0 <= i < a.data.len() implies a.data[i] == b.data[i] by {
            assert(u[i] == 0);
        }
        assert(a.data =~= b.data);
    }
    if a.data == b.data {
        assert(forall|i: int| 0 <= i < u.len() ==> u[i] == 0);
    }
}

/// The mean of a single accumulated color is the color itself.
pub proof fn lemma_mean_of_single(p: ColorView)
    requires
        p.wf(),
    ensures
        sum_mean(sum_add(sum_zero(), p), 1) == p,
{
    let s = sum_add(sum_zero(), p);
    assert(s.len() == p.data.len());
    assert(sum_mean(s, 1).data =~= p.data);
    assert(sum_mean(s, 1) =~= p);
}

/// Pointwise sum of two integer sequences of equal length.
pub open spec fn seq_sum(u: Seq<int>, v: Seq<int>) -> Seq<int> {
    Seq::new(u.len(), |i: int| u[i] + v[i])
}

/// The binomial expansion of a squared norm of a pointwise sum.
proof fn lemma_norm2_sum(u: Seq<int>, v: Seq<int>)
    requires
        u.len() == v.len(),
    ensures
        norm2(seq_sum(u, v)) == norm2(u) + 2 * dot(u, v) + norm2(v),
    decreases u.len(),
{
    if u.len() > 0 {
        lemma_norm2_sum(u.drop_last(), v.drop_last());
        assert(seq_sum(u, v).drop_last() =~= seq_sum(u.drop_last(), v.drop_last()));
        let x = u.last();
        let y = v.last();
        assert((x + y) * (x + y) == x * x + 2 * (x * y) + y * y) by (nonlinear_arith);
    }
}

/// The Cauchy-Schwarz inequality for integer sequences.
proof fn lemma_cauchy_schwarz(u: Seq<int>, v: Seq<int>)
    requires
        u.len() == v.len(),
    ensures
        dot(u, v) * dot(u, v) <= norm2(u) * norm2(v),
    decreases u.len(),
{
    if u.len() == 0 {
    } else {
        let u1 = u.drop_last();
        let v1 = v.drop_last();
        lemma_cauchy_schwarz(u1, v1);
        lemma_norm2_nonneg(u1);
        lemma_norm2_nonneg(v1);
        let a = norm2(u1);
        let b = norm2(v1);
        let c = dot(u1, v1);
        let x = u.last();
        let y = v.last();
        // The cross terms obey 2cxy <= a y^2 + b x^2, because
        // (a y^2 + b x^2)^2 >= 4 a b x^2 y^2 >= (2 c x y)^2 and the left side
        // is non-negative.
        let lhs = a * (y * y) + b * (x * x);
        assert(lhs * lhs >= 4 * (a * b) * ((x * y) * (x * y))) by (nonlinear_arith)
            requires
                lhs == a * (y * y) + b * (x * x),
        ;
        assert(4 * (a * b) * ((x * y) * (x * y)) >= 4 * (c * c) * ((x * y) * (x * y)))
            by (nonlinear_arith)
            requires
                c * c <= a * b,
        ;
        assert(4 * (c * c) * ((x * y) * (x * y)) == (2 * c * (x * y)) * (2 * c * (x * y)))
            by (nonlinear_arith);
        assert(lhs >= 0) by (nonlinear_arith)
            requires
                lhs == a * (y * y) + b * (x * x),
                a >= 0,
                b >= 0,
        ;
        assert(lhs >= 2 * c * (x * y)) by (nonlinear_arith)
            requires
                lhs * lhs >= (2 * c * (x * y)) * (2 * c * (x * y)),
                lhs >= 0,
        ;
        assert(a * (y * y) + b * (x * x) >= 2 * c * (x * y));
        assert((c + x * y) * (c + x * y) == c * c + 2 * c * (x * y) + (x * y) * (x * y))
            by (nonlinear_arith);
        assert((a + x * x) * (b + y * y) == a * b + (a * (y * y) + b * (x * x)) + (x * x) * (y * y))
            by (nonlinear_arith);
        assert((x * y) * (x * y) == (x * x) * (y * y)) by (nonlinear_arith);
        assert(dot(u, v) == c + x * y);
        assert(norm2(u) == a + x * x);
        assert(norm2(v) == b + y * y);
    }
}

/// Triangle-inequality pruning, in squared form: when a candidate center
/// `b` is at least twice as far from the current best center `a` as `a` is
/// from the point `p` (squared: four times), then `b` is no closer to `p`
/// than `a` is, so the exact distance to `b` need not be computed.
pub proof fn lemma_triangle_prune(p: ColorView, a: ColorView, b: ColorView)
    requires
        p.data.len() == a.data.len(),
        a.data.len() == b.data.len(),
        sq_dist(a, b) >= 4 * sq_dist(p, a),
    ensures
        sq_dist(p, b) >= sq_dist(p, a),
{
    let u = chan_diff(a.data, p.data);
    let w = chan_diff(b.data, a.data);
    assert(seq_sum(u, w) =~= chan_diff(b.data, p.data));
    lemma_norm2_sum(u, w);
    lemma_sq_dist_symm(p, a);
    lemma_sq_dist_symm(a, b);
    lemma_sq_dist_symm(p, b);
    let dist_pa = norm2(u);
    let dist_ab = norm2(w);
    let cross = dot(u, w);
    assert(sq_dist(b, p) == dist_pa + 2 * cross + dist_ab);
    lemma_cauchy_schwarz(u, w);
    lemma_norm2_nonneg(u);
    lemma_norm2_nonneg(w);
    // 4 cross^2 <= 4 dist_pa dist_ab <= dist_ab^2, so 2 cross >= -dist_ab.
    assert(4 * (cross * cross) <= 4 * (dist_pa * dist_ab)) by (nonlinear_arith)
        requires
            cross * cross <= dist_pa * dist_ab,
    ;
    assert(4 * (dist_pa * dist_ab) <= dist_ab * dist_ab) by (nonlinear_arith)
        requires
            4 * dist_pa <= dist_ab,
            dist_ab >= 0,
    ;
    assert((2 * cross) * (2 * cross) == 4 * (cross * cross)) by (nonlinear_arith);
    assert(2 * cross >= -dist_ab) by (nonlinear_arith)
        requires
            (2 * cross) * (2 * cross) <= dist_ab * dist_ab,
            dist_ab >= 0,
    ;
}

impl Color {
    /// Whether the channel count matches the layout.
    pub fn is_well_formed(&self) -> (r: bool)
        ensures
            r == self@.wf(),
    {
        match self.color_type {
            ColorKind::Rgb8 => self.data.len() == 3,
            ColorKind::Rgba8 => self.data.len() == 4,
        }
    }
}

impl Kmeansable for Color {
    type Sum = Vec<u64>;

    open spec fn szero() -> Seq<u64> {
        sum_zero()
    }

    open spec fn sadd(s: Seq<u64>, p: ColorView) -> Seq<u64> {
        sum_add(s, p)
    }

    open spec fn sdiv(s: Seq<u64>, n: nat) -> ColorView {
        sum_mean(s, n)
    }

    open spec fn sdist(a: ColorView, b: ColorView) -> int {
        sq_dist(a, b)
    }

    open spec fn dist_pre(a: ColorView, b: ColorView) -> bool {
        compat(a, b)
    }

    open spec fn add_pre(s: Seq<u64>, p: ColorView) -> bool {
        can_add(s, p)
    }

    open spec fn div_pre(s: Seq<u64>, n: nat) -> bool {
        can_mean(s)
    }

    fn zero() -> (r: Vec<u64>) {
        let mut v: Vec<u64> = Vec::new();
        v.push(0);
        v.push(0);
        v.push(0);
        v.push(0);
        proof {
            assert(v@ =~= sum_zero());
        }
        v
    }

    fn distance(&self, other: &Self) -> (r: u64) {
        let len = self.data.len();
        let ghost u: Seq<int> = chan_diff(self@.data, other@.data);
        let mut acc: u64 = 0;
        let mut i: usize = 0;
        while i < len
            invariant
                i <= len,
                len == self.data.len(),
                len == other.data.len(),
                len <= 4,
                u == chan_diff(self@.data, other@.data),
                acc as int == norm2(u.take(i as int)),
                acc <= 65025 * i,
            decreases len - i,
        {
            let x = self.data[i];
            let y = other.data[i];
            let d: u64 = if x >= y {
                (x - y) as u64
            } else {
                (y - x) as u64
            };
            proof {
                assert(u.take(i + 1).drop_last() =~= u.take(i as int));
                assert((d * d) as int == u[i as int] * u[i as int]) by (nonlinear_arith)
                    requires
                        d as int == if x >= y {
                            x - y
                        } else {
                            y - x
                        },
                        u[i as int] == x - y,
                        x <= 255,
                        y <= 255,
                ;
                assert(d * d <= 65025) by (nonlinear_arith)
                    requires
                        d <= 255,
                ;
            }
            acc = acc + d * d;
            i = i + 1;
        }
        proof {
            assert(u.take(len as int) =~= u);
        }
        acc
    }

    fn add(s: &Vec<u64>, p: &Self) -> (r: Vec<u64>) {
        let len = if s.len() <= p.data.len() {
            s.len()
        } else {
            p.data.len()
        };
        let mut out: Vec<u64> = Vec::new();
        let mut i: usize = 0;
        while i < len
            invariant
                i <= len,
                len == if s@.len() <= p@.data.len() {
                    s@.len()
                } else {
                    p@.data.len()
                },
                can_add(s@, p@),
                out@ =~= sum_add(s@, p@).take(i as int),
            decreases len - i,
        {
            out.push(s[i] + (p.data[i] as u64));
            proof {
                assert(out@ =~= sum_add(s@, p@).take(i + 1));
            }
            i = i + 1;
        }
        proof {
            assert(out@ =~= sum_add(s@, p@));
        }
        out
    }

    fn div(s: &Vec<u64>, count: usize) -> (r: Self) {
        let cnt = count as u64;
        let mut data: Vec<u8> = Vec::new();
        let mut i: usize = 0;
        while i < s.len()
            invariant
                i <= s@.len(),
                cnt == count as u64,
                cnt >= 1,
                data@ =~= sum_mean(s@, count as nat).data.take(i as int),
            decreases s@.len() - i,
        {
            let q = s[i] / cnt;
            data.push((q % 256) as u8);
            proof {
                assert(data@ =~= sum_mean(s@, count as nat).data.take(i + 1));
            }
            i = i + 1;
        }
        let kind = if data.len() == 3 {
            ColorKind::Rgb8
        } else {
            ColorKind::Rgba8
        };
        let r = Color { color_type: kind, data };
        proof {
            assert(r@.data =~= sum_mean(s@, count as nat).data);
            assert(r@ =~= sum_mean(s@, count as nat));
        }
        r
    }

    fn duplicate(&self) -> (r: Self) {
        let mut data: Vec<u8> = Vec::new();
        let mut i: usize = 0;
        while i < self.data.len()
            invariant
                i <= self.data@.len(),
                data@ =~= self.data@.take(i as int),
            decreases self.data@.len() - i,
        {
            data.push(self.data[i]);
            proof {
                assert(data@ =~= self.data@.take(i + 1));
            }
            i = i + 1;
        }
        let r = Color { color_type: self.color_type, data };
        proof {
            assert(r@.data =~= self@.data);
            assert(r@ =~= self@);
        }
        r
    }
}

} // verus!
