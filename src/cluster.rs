//! Median-cut internals: channel extents, cuts, cluster means and the loop
//! that cuts until the palette bound is met.

use vstd::prelude::*;

use crate::color::{DominantColor, Rgb};

verus! {

/// The colors of a list of palette entries, in order.
pub open spec fn colors_of(e: Seq<DominantColor>) -> Seq<Rgb> {
    e.map_values(|d: DominantColor| d.color)
}

/// Whether, on channel `ch`, some color of `s` is at or below `c` and some is
/// at or above it.
pub open spec fn channel_within(c: Rgb, s: Seq<Rgb>, ch: int) -> bool {
    &&& exists|j: int| 0 <= j < s.len() && channel(#[trigger] s[j], ch) <= channel(c, ch)
    &&& exists|j: int| 0 <= j < s.len() && channel(#[trigger] s[j], ch) >= channel(c, ch)
}

/// Whether `c` lies, on each channel, between values that colors of `s` take
/// on that channel.
pub open spec fn within_range(c: Rgb, s: Seq<Rgb>) -> bool {
    channel_within(c, s, 0) && channel_within(c, s, 1) && channel_within(c, s, 2)
}

/// Every entry of `small` is an entry of `big`.
pub open spec fn drawn_from(small: Seq<DominantColor>, big: Seq<DominantColor>) -> bool {
    forall|k: int| 0 <= k < small.len() ==> big.contains(#[trigger] small[k])
}

proof fn lemma_drawn_from_trans(a: Seq<DominantColor>, b: Seq<DominantColor>, c: Seq<DominantColor>)
    requires
        drawn_from(a, b),
        drawn_from(b, c),
    ensures
        drawn_from(a, c),
{
    assert forall|k: int| 0 <= k < a.len() implies c.contains(#[trigger] a[k]) by {
        assert(b.contains(a[k]));
        let p = choose|p: int| 0 <= p < b.len() && b[p] == a[k];
        assert(c.contains(b[p]));
    }
}

proof fn lemma_channel_within_drawn(x: Rgb, a: Seq<DominantColor>, b: Seq<DominantColor>, ch: int)
    requires
        channel_within(x, colors_of(a), ch),
        drawn_from(a, b),
    ensures
        channel_within(x, colors_of(b), ch),
{
    let ca = colors_of(a);
    let cb = colors_of(b);
    let j1 = choose|j: int| 0 <= j < ca.len() && channel(#[trigger] ca[j], ch) <= channel(x, ch);
    let j2 = choose|j: int| 0 <= j < ca.len() && channel(#[trigger] ca[j], ch) >= channel(x, ch);
    assert(ca[j1] == a[j1].color);
    assert(ca[j2] == a[j2].color);
    assert(b.contains(a[j1]));
    assert(b.contains(a[j2]));
    let q1 = choose|q: int| 0 <= q < b.len() && b[q] == a[j1];
    let q2 = choose|q: int| 0 <= q < b.len() && b[q] == a[j2];
    assert(cb[q1] == b[q1].color);
    assert(cb[q2] == b[q2].color);
}

proof fn lemma_within_drawn(x: Rgb, a: Seq<DominantColor>, b: Seq<DominantColor>)
    requires
        within_range(x, colors_of(a)),
        drawn_from(a, b),
    ensures
        within_range(x, colors_of(b)),
{
    lemma_channel_within_drawn(x, a, b, 0);
    lemma_channel_within_drawn(x, a, b, 1);
    lemma_channel_within_drawn(x, a, b, 2);
}

/// Every entry of `a` is at or below `t` on channel `ch`.
pub open spec fn below(a: Seq<DominantColor>, ch: int, t: int) -> bool {
    forall|k: int| 0 <= k < a.len() ==> channel(#[trigger] a[k].color, ch) <= t
}

/// Every entry of `a` is above `t` on channel `ch`.
pub open spec fn above(a: Seq<DominantColor>, ch: int, t: int) -> bool {
    forall|k: int| 0 <= k < a.len() ==> channel(#[trigger] a[k].color, ch) > t
}

/// Two clusters lie on either side of a cut: on some channel, one is at or
/// below a value and the other above it.
pub open spec fn separated(a: Seq<DominantColor>, b: Seq<DominantColor>) -> bool {
    exists|ch: int, t: int| 0 <= ch < 3 && #[trigger] cut_between(a, b, ch, t)
}

/// On channel `ch`, one of `a` and `b` is at or below `t` and the other above.
pub open spec fn cut_between(a: Seq<DominantColor>, b: Seq<DominantColor>, ch: int, t: int) -> bool {
    (below(a, ch, t) && above(b, ch, t)) || (below(b, ch, t) && above(a, ch, t))
}

proof fn lemma_separated_sub(l: Seq<DominantColor>, c: Seq<DominantColor>, j: Seq<DominantColor>)
    requires
        drawn_from(l, c),
        separated(c, j),
    ensures
        separated(l, j),
        separated(j, l),
{
    let (ch, t) = choose|ch: int, t: int| 0 <= ch < 3 && #[trigger] cut_between(c, j, ch, t);
    assert forall|k: int| 0 <= k < l.len() implies (below(c, ch, t) ==> channel(
        #[trigger] l[k].color,
        ch,
    ) <= t) && (above(c, ch, t) ==> channel(l[k].color, ch) > t) by {
        assert(c.contains(l[k]));
    }
    assert(cut_between(l, j, ch, t));
    assert(cut_between(j, l, ch, t));
}

proof fn lemma_separated_means(x: Rgb, a: Seq<DominantColor>, y: Rgb, b: Seq<DominantColor>)
    requires
        separated(a, b),
        within_range(x, colors_of(a)),
        within_range(y, colors_of(b)),
    ensures
        x != y,
{
    let (ch, t) = choose|ch: int, t: int| 0 <= ch < 3 && #[trigger] cut_between(a, b, ch, t);
    assert(channel_within(x, colors_of(a), ch));
    assert(channel_within(y, colors_of(b), ch));
    let ca = colors_of(a);
    let cb = colors_of(b);
    let ja1 = choose|j: int| 0 <= j < ca.len() && channel(#[trigger] ca[j], ch) <= channel(x, ch);
    let ja2 = choose|j: int| 0 <= j < ca.len() && channel(#[trigger] ca[j], ch) >= channel(x, ch);
    let jb1 = choose|j: int| 0 <= j < cb.len() && channel(#[trigger] cb[j], ch) <= channel(y, ch);
    let jb2 = choose|j: int| 0 <= j < cb.len() && channel(#[trigger] cb[j], ch) >= channel(y, ch);
    assert(ca[ja1] == a[ja1].color && ca[ja2] == a[ja2].color);
    assert(cb[jb1] == b[jb1].color && cb[jb2] == b[jb2].color);
}

/// The samples that a list of entries stands for: the sum of their counts.
pub open spec fn weight(s: Seq<DominantColor>) -> nat
    decreases s.len(),
{
    if s.len() == 0 {
        0
    } else {
        weight(s.drop_last()) + s.last().count as nat
    }
}

pub(crate) proof fn lemma_weight_update(s: Seq<DominantColor>, i: int, v: DominantColor)
    requires
        0 <= i < s.len(),
    ensures
        weight(s.update(i, v)) == weight(s) - s[i].count + v.count,
    decreases s.len(),
{
    if i == s.len() - 1 {
        assert(s.update(i, v).drop_last() =~= s.drop_last());
    } else {
        assert(s.update(i, v).drop_last() =~= s.drop_last().update(i, v));
        lemma_weight_update(s.drop_last(), i, v);
    }
}

pub(crate) proof fn lemma_weight_remove(s: Seq<DominantColor>, i: int)
    requires
        0 <= i < s.len(),
    ensures
        weight(s.remove(i)) + s[i].count == weight(s),
    decreases s.len(),
{
    if i == s.len() - 1 {
        assert(s.remove(i) =~= s.drop_last());
    } else {
        assert(s.remove(i).drop_last() =~= s.drop_last().remove(i));
        assert(s.remove(i).last() == s.last());
        lemma_weight_remove(s.drop_last(), i);
    }
}

proof fn lemma_weight_prefix(s: Seq<DominantColor>, i: int)
    requires
        0 <= i <= s.len(),
    ensures
        weight(s.subrange(0, i)) <= weight(s),
    decreases s.len(),
{
    if i < s.len() {
        assert(s.drop_last().subrange(0, i) =~= s.subrange(0, i));
        lemma_weight_prefix(s.drop_last(), i);
    } else {
        assert(s.subrange(0, i) =~= s);
    }
}

/// Channel `ch` of a color: 0 is red, 1 green, 2 blue.
pub open spec fn channel(c: Rgb, ch: int) -> u8 {
    if ch == 0 {
        c.r
    } else if ch == 1 {
        c.g
    } else {
        c.b
    }
}

fn channel_of(c: Rgb, ch: u8) -> (v: u8)
    ensures
        v == channel(c, ch as int),
{
    if ch == 0 {
        c.r
    } else if ch == 1 {
        c.g
    } else {
        c.b
    }
}

/// The indices of the first entry with the least and of the first with the
/// greatest value on channel `ch`.
pub open spec fn extent(c: Seq<DominantColor>, ch: int) -> (int, int)
    decreases c.len(),
{
    if c.len() <= 1 {
        (0, 0)
    } else {
        let prev = extent(c.drop_last(), ch);
        let i = c.len() - 1;
        let v = channel(c[i].color, ch);
        (
            if v < channel(c[prev.0].color, ch) { i } else { prev.0 },
            if v > channel(c[prev.1].color, ch) { i } else { prev.1 },
        )
    }
}

/// The indices of an entry with the least and of one with the greatest value
/// on channel `ch`.
fn channel_extent(cluster: &Vec<DominantColor>, ch: u8) -> (res: (usize, usize))
    requires
        cluster.len() >= 1,
    ensures
        res.0 < cluster.len(),
        res.1 < cluster.len(),
        forall|k: int|
            0 <= k < cluster.len() ==> channel(cluster[res.0 as int].color, ch as int) <= channel(
                #[trigger] cluster[k].color,
                ch as int,
            ) <= channel(cluster[res.1 as int].color, ch as int),
        (res.0 as int, res.1 as int) == extent(cluster@, ch as int),
{
    let mut lo: usize = 0;
    let mut hi: usize = 0;
    let mut i: usize = 1;
    while i < cluster.len()
        invariant
            1 <= i <= cluster.len(),
            lo < i,
            hi < i,
            forall|k: int|
                0 <= k < i ==> channel(cluster[lo as int].color, ch as int) <= channel(
                    #[trigger] cluster[k].color,
                    ch as int,
                ) <= channel(cluster[hi as int].color, ch as int),
            (lo as int, hi as int) == extent(cluster@.subrange(0, i as int), ch as int),
        decreases cluster.len() - i,
    {
        proof {
            let pre = cluster@.subrange(0, i + 1);
            assert(pre.drop_last() =~= cluster@.subrange(0, i as int));
            assert(pre[lo as int] == cluster[lo as int]);
            assert(pre[hi as int] == cluster[hi as int]);
            assert(pre[i as int] == cluster[i as int]);
        }
        let v = channel_of(cluster[i].color, ch);
        if v < channel_of(cluster[lo].color, ch) {
            lo = i;
        }
        if v > channel_of(cluster[hi].color, ch) {
            hi = i;
        }
        i = i + 1;
    }
    assert(cluster@.subrange(0, cluster.len() as int) =~= cluster@);
    (lo, hi)
}

/// The width of the range of channel `ch` over a cluster.
pub open spec fn channel_width(c: Seq<DominantColor>, ch: int) -> int {
    channel(c[extent(c, ch).1].color, ch) - channel(c[extent(c, ch).0].color, ch)
}

/// The channel with the widest range over a cluster (the first such), and the
/// ends of that range as given by `extent`.
pub open spec fn widest(c: Seq<DominantColor>) -> (int, int, int) {
    let ch = if channel_width(c, 2) > channel_width(c, 1) && channel_width(c, 2) > channel_width(c, 0) {
        2int
    } else if channel_width(c, 1) > channel_width(c, 0) {
        1int
    } else {
        0int
    };
    (ch, extent(c, ch).0, extent(c, ch).1)
}

/// Where a cluster is best cut: the channel with the widest range of values
/// (the first such), and the indices of an entry at each end of that range.
fn widest_channel(cluster: &Vec<DominantColor>) -> (res: (u8, usize, usize))
    requires
        cluster.len() >= 1,
    ensures
        res.0 < 3,
        res.1 < cluster.len(),
        res.2 < cluster.len(),
        forall|k: int|
            0 <= k < cluster.len() ==> channel(cluster[res.1 as int].color, res.0 as int) <= channel(
                #[trigger] cluster[k].color,
                res.0 as int,
            ) <= channel(cluster[res.2 as int].color, res.0 as int),
        (res.0 as int, res.1 as int, res.2 as int) == widest(cluster@),
{
    let (l0, h0) = channel_extent(cluster, 0);
    let (l1, h1) = channel_extent(cluster, 1);
    let (l2, h2) = channel_extent(cluster, 2);
    let w0 = channel_of(cluster[h0].color, 0) - channel_of(cluster[l0].color, 0);
    let w1 = channel_of(cluster[h1].color, 1) - channel_of(cluster[l1].color, 1);
    let w2 = channel_of(cluster[h2].color, 2) - channel_of(cluster[l2].color, 2);
    if w2 > w1 && w2 > w0 {
        (2, l2, h2)
    } else if w1 > w0 {
        (1, l1, h1)
    } else {
        (0, l0, h0)
    }
}

/// How many samples of a cluster take each value of channel `ch`, the sums
/// saturating at `usize::MAX`.
pub open spec fn value_counts(c: Seq<DominantColor>, ch: int) -> Seq<usize>
    decreases c.len(),
{
    if c.len() == 0 {
        Seq::new(256, |_v: int| 0usize)
    } else {
        let b = value_counts(c.drop_last(), ch);
        let v = channel(c.last().color, ch) as int;
        b.update(v, b[v].saturating_add(c.last().count))
    }
}

/// How many samples a cluster holds, the sum saturating at `usize::MAX`.
pub open spec fn saturated_weight(c: Seq<DominantColor>) -> usize
    decreases c.len(),
{
    if c.len() == 0 {
        0
    } else {
        saturated_weight(c.drop_last()).saturating_add(c.last().count)
    }
}

/// The least value from `m` on at which the running sum, begun at `cum`,
/// reaches `half`; 255 where none below it does.
pub open spec fn median_scan(bins: Seq<usize>, half: usize, m: int, cum: usize) -> int
    decreases 255 - m,
{
    if m < 255 && cum.saturating_add(bins[m]) < half {
        median_scan(bins, half, m + 1, cum.saturating_add(bins[m]))
    } else {
        m
    }
}

/// The weighted median of channel `ch` over a cluster.
pub open spec fn median_of(c: Seq<DominantColor>, ch: int) -> int {
    let total = saturated_weight(c);
    median_scan(value_counts(c, ch), (total / 2 + total % 2) as usize, 0, 0)
}

/// The weighted median of channel `ch` over a cluster: the least value at
/// which the entries up to it hold at least half of the cluster's samples
/// (sums saturate at `usize::MAX`).
fn weighted_median(cluster: &Vec<DominantColor>, ch: u8) -> (m: u8)
    ensures
        m as int == median_of(cluster@, ch as int),
{
    let mut bins: Vec<usize> = Vec::new();
    let mut v: usize = 0;
    while v < 256
        invariant
            v <= 256,
            bins@ == Seq::new(v as nat, |_v: int| 0usize),
        decreases 256 - v,
    {
        bins.push(0);
        v = v + 1;
        assert(bins@ =~= Seq::new(v as nat, |_v: int| 0usize));
    }
    let mut total: usize = 0;
    let mut i: usize = 0;
    assert(cluster@.subrange(0, 0) =~= Seq::<DominantColor>::empty());
    while i < cluster.len()
        invariant
            i <= cluster.len(),
            bins.len() == 256,
            bins@ == value_counts(cluster@.subrange(0, i as int), ch as int),
            total == saturated_weight(cluster@.subrange(0, i as int)),
        decreases cluster.len() - i,
    {
        assert(cluster@.subrange(0, i + 1).drop_last() =~= cluster@.subrange(0, i as int));
        let c = channel_of(cluster[i].color, ch) as usize;
        let w = cluster[i].count;
        let updated = bins[c].saturating_add(w);
        bins.set(c, updated);
        total = total.saturating_add(w);
        i = i + 1;
    }
    assert(cluster@.subrange(0, cluster.len() as int) =~= cluster@);
    let half: usize = total / 2 + total % 2;
    let mut cum: usize = 0;
    let mut m: usize = 0;
    while m < 255 && cum.saturating_add(bins[m]) < half
        invariant
            m <= 255,
            bins.len() == 256,
            median_scan(bins@, half, m as int, cum) == median_of(cluster@, ch as int),
        decreases 255 - m,
    {
        cum = cum.saturating_add(bins[m]);
        m = m + 1;
    }
    m as u8
}

/// The entries of a cluster at or below `t` on channel `ch`, then those above
/// it, each part in the cluster's order.
pub open spec fn parts(c: Seq<DominantColor>, ch: int, t: int) -> (Seq<DominantColor>, Seq<DominantColor>)
    decreases c.len(),
{
    if c.len() == 0 {
        (Seq::empty(), Seq::empty())
    } else {
        let prev = parts(c.drop_last(), ch, t);
        if channel(c.last().color, ch) <= t {
            (prev.0.push(c.last()), prev.1)
        } else {
            (prev.0, prev.1.push(c.last()))
        }
    }
}

/// Parts a cluster at `t` on channel `ch`: the entries at or below `t`, then
/// those above it.
fn split_cluster(cluster: &Vec<DominantColor>, ch: u8, t: u8, lo: usize, hi: usize) -> (res: (
    Vec<DominantColor>,
    Vec<DominantColor>,
))
    requires
        lo < cluster.len(),
        hi < cluster.len(),
        channel(cluster[lo as int].color, ch as int) <= t,
        t < channel(cluster[hi as int].color, ch as int),
    ensures
        res.0.len() >= 1,
        res.1.len() >= 1,
        res.0.len() + res.1.len() == cluster.len(),
        weight(res.0@) + weight(res.1@) == weight(cluster@),
        (forall|k: int| 0 <= k < cluster.len() ==> (#[trigger] cluster[k]).count >= 1) ==> (
        forall|k: int| 0 <= k < res.0.len() ==> (#[trigger] res.0[k]).count >= 1),
        (forall|k: int| 0 <= k < cluster.len() ==> (#[trigger] cluster[k]).count >= 1) ==> (
        forall|k: int| 0 <= k < res.1.len() ==> (#[trigger] res.1[k]).count >= 1),
        drawn_from(res.0@, cluster@),
        drawn_from(res.1@, cluster@),
        (res.0@, res.1@) == parts(cluster@, ch as int, t as int),
        below(res.0@, ch as int, t as int),
        above(res.1@, ch as int, t as int),
{
    let mut left: Vec<DominantColor> = Vec::new();
    let mut right: Vec<DominantColor> = Vec::new();
    let mut i: usize = 0;
    assert(cluster@.subrange(0, 0) =~= Seq::<DominantColor>::empty());
    while i < cluster.len()
        invariant
            i <= cluster.len(),
            lo < cluster.len(),
            hi < cluster.len(),
            channel(cluster[lo as int].color, ch as int) <= t,
            t < channel(cluster[hi as int].color, ch as int),
            left.len() + right.len() == i,
            weight(left@) + weight(right@) == weight(cluster@.subrange(0, i as int)),
            (left@, right@) == parts(cluster@.subrange(0, i as int), ch as int, t as int),
            below(left@, ch as int, t as int),
            above(right@, ch as int, t as int),
            lo < i ==> left.len() >= 1,
            hi < i ==> right.len() >= 1,
            forall|k: int|
                0 <= k < left.len() ==> exists|q: int|
                    0 <= q < i && #[trigger] left[k] == #[trigger] cluster[q],
            forall|k: int|
                0 <= k < right.len() ==> exists|q: int|
                    0 <= q < i && #[trigger] right[k] == #[trigger] cluster[q],
        decreases cluster.len() - i,
    {
        let e = cluster[i];
        assert(cluster@.subrange(0, i + 1).drop_last() =~= cluster@.subrange(0, i as int));
        if channel_of(e.color, ch) <= t {
            let ghost before = left@;
            left.push(e);
            assert(left@.drop_last() =~= before);
            assert(left[left.len() - 1] == cluster[i as int]);
        } else {
            let ghost before = right@;
            right.push(e);
            assert(right@.drop_last() =~= before);
            assert(right[right.len() - 1] == cluster[i as int]);
        }
        i = i + 1;
    }
    assert(cluster@.subrange(0, cluster.len() as int) =~= cluster@);
    (left, right)
}

proof fn lemma_mean_bounds(sum: int, w: int)
    requires
        w >= 1,
        0 <= sum <= 255 * w,
    ensures
        0 <= (sum + w / 2) / w <= 255,
{
    assert(0 <= (sum + w / 2) / w <= 255) by (nonlinear_arith)
        requires
            w >= 1,
            0 <= sum <= 255 * w,
    ;
}

proof fn lemma_mean_of_one(v: int, w: int)
    requires
        w >= 1,
        0 <= v,
    ensures
        (v * w + w / 2) / w == v,
{
    assert((v * w + w / 2) / w == v) by (nonlinear_arith)
        requires
            w >= 1,
            0 <= v,
    ;
}

proof fn lemma_scaled_channel(v: int, c: int)
    requires
        0 <= v <= 255,
        c >= 0,
    ensures
        0 <= v * c <= 255 * c,
{
    assert(0 <= v * c <= 255 * c) by (nonlinear_arith)
        requires
            0 <= v <= 255,
            c >= 0,
    ;
}

proof fn lemma_scaled_between(v: int, lo: int, hi: int, c: int, w: int)
    requires
        lo <= v <= hi,
        c >= 0,
    ensures
        lo * (w + c) == lo * w + lo * c,
        hi * (w + c) == hi * w + hi * c,
        lo * c <= v * c <= hi * c,
{
    assert(lo * (w + c) == lo * w + lo * c) by (nonlinear_arith);
    assert(hi * (w + c) == hi * w + hi * c) by (nonlinear_arith);
    assert(lo * c <= v * c <= hi * c) by (nonlinear_arith)
        requires
            lo <= v <= hi,
            c >= 0,
    ;
}

proof fn lemma_rounded_between(s: int, w: int, lo: int, hi: int)
    requires
        w >= 1,
        lo * w <= s <= hi * w,
    ensures
        lo <= (s + w / 2) / w <= hi,
{
    assert(lo <= (s + w / 2) / w <= hi) by (nonlinear_arith)
        requires
            w >= 1,
            lo * w <= s <= hi * w,
    ;
}

/// The sum over a cluster of channel `ch` of each color times its count.
pub open spec fn channel_sum(c: Seq<DominantColor>, ch: int) -> int
    decreases c.len(),
{
    if c.len() == 0 {
        0
    } else {
        channel_sum(c.drop_last(), ch) + channel(c.last().color, ch) * c.last().count
    }
}

pub(crate) proof fn lemma_channel_sum_update(s: Seq<DominantColor>, i: int, v: DominantColor, ch: int)
    requires
        0 <= i < s.len(),
    ensures
        channel_sum(s.update(i, v), ch) == channel_sum(s, ch) - channel(s[i].color, ch) * s[i].count
            + channel(v.color, ch) * v.count,
    decreases s.len(),
{
    if i == s.len() - 1 {
        assert(s.update(i, v).drop_last() =~= s.drop_last());
    } else {
        assert(s.update(i, v).drop_last() =~= s.drop_last().update(i, v));
        lemma_channel_sum_update(s.drop_last(), i, v, ch);
    }
}

/// The representative of a cluster: per channel the mean weighted by counts,
/// rounded half up, and the cluster's sample count.
pub open spec fn mean_of(c: Seq<DominantColor>) -> DominantColor {
    let w = weight(c) as int;
    DominantColor {
        color: Rgb {
            r: ((channel_sum(c, 0) + w / 2) / w) as u8,
            g: ((channel_sum(c, 1) + w / 2) / w) as u8,
            b: ((channel_sum(c, 2) + w / 2) / w) as u8,
        },
        count: w as usize,
    }
}

/// The rounded (half up) mean of one channel of a cluster.
fn rounded_mean(sum: u128, w: usize) -> (m: u8)
    requires
        w >= 1,
        sum <= 255 * w,
    ensures
        m as int == (sum + w / 2) / (w as int),
{
    proof {
        lemma_mean_bounds(sum as int, w as int);
    }
    let w128 = w as u128;
    ((sum + w128 / 2) / w128) as u8
}

/// A cluster's representative: the per-channel mean of its colors, each
/// color counted as often as it was sampled, and the cluster's sample count.
fn mean_entry(cluster: &Vec<DominantColor>) -> (r: DominantColor)
    requires
        cluster.len() >= 1,
        forall|k: int| 0 <= k < cluster.len() ==> (#[trigger] cluster[k]).count >= 1,
        weight(cluster@) <= usize::MAX,
    ensures
        r.count == weight(cluster@),
        r.count >= 1,
        cluster.len() == 1 ==> r.color == cluster[0].color,
        within_range(r.color, colors_of(cluster@)),
        r == mean_of(cluster@),
{
    let (lr, hr) = channel_extent(cluster, 0);
    let (lg, hg) = channel_extent(cluster, 1);
    let (lb, hb) = channel_extent(cluster, 2);
    let ghost lo_r = cluster[lr as int].color.r as int;
    let ghost hi_r = cluster[hr as int].color.r as int;
    let ghost lo_g = cluster[lg as int].color.g as int;
    let ghost hi_g = cluster[hg as int].color.g as int;
    let ghost lo_b = cluster[lb as int].color.b as int;
    let ghost hi_b = cluster[hb as int].color.b as int;
    let mut w: usize = 0;
    let mut sr: u128 = 0;
    let mut sg: u128 = 0;
    let mut sb: u128 = 0;
    let mut i: usize = 0;
    assert(cluster@.subrange(0, 0) =~= Seq::<DominantColor>::empty());
    while i < cluster.len()
        invariant
            i <= cluster.len(),
            forall|k: int| 0 <= k < cluster.len() ==> (#[trigger] cluster[k]).count >= 1,
            weight(cluster@) <= usize::MAX,
            w == weight(cluster@.subrange(0, i as int)),
            i > 0 ==> w >= 1,
            sr <= 255 * w,
            sg <= 255 * w,
            sb <= 255 * w,
            i == 1 ==> sr == cluster[0].color.r * w && sg == cluster[0].color.g * w && sb
                == cluster[0].color.b * w,
            forall|k: int|
                0 <= k < cluster.len() ==> lo_r <= (#[trigger] cluster[k]).color.r <= hi_r && lo_g
                    <= cluster[k].color.g <= hi_g && lo_b <= cluster[k].color.b <= hi_b,
            lo_r * w <= sr <= hi_r * w,
            lo_g * w <= sg <= hi_g * w,
            lo_b * w <= sb <= hi_b * w,
            0 <= lo_r && 0 <= lo_g && 0 <= lo_b,
            sr == channel_sum(cluster@.subrange(0, i as int), 0),
            sg == channel_sum(cluster@.subrange(0, i as int), 1),
            sb == channel_sum(cluster@.subrange(0, i as int), 2),
        decreases cluster.len() - i,
    {
        let e = cluster[i];
        assert(cluster@.subrange(0, i + 1).drop_last() =~= cluster@.subrange(0, i as int));
        proof {
            lemma_weight_prefix(cluster@, i + 1);
            lemma_scaled_channel(e.color.r as int, e.count as int);
            lemma_scaled_channel(e.color.g as int, e.count as int);
            lemma_scaled_channel(e.color.b as int, e.count as int);
            lemma_scaled_between(e.color.r as int, lo_r, hi_r, e.count as int, w as int);
            lemma_scaled_between(e.color.g as int, lo_g, hi_g, e.count as int, w as int);
            lemma_scaled_between(e.color.b as int, lo_b, hi_b, e.count as int, w as int);
        }
        sr = sr + (e.color.r as u128) * (e.count as u128);
        sg = sg + (e.color.g as u128) * (e.count as u128);
        sb = sb + (e.color.b as u128) * (e.count as u128);
        w = w + e.count;
        i = i + 1;
    }
    assert(cluster@.subrange(0, cluster.len() as int) =~= cluster@);
    proof {
        if cluster.len() == 1 {
            lemma_mean_of_one(cluster[0].color.r as int, w as int);
            lemma_mean_of_one(cluster[0].color.g as int, w as int);
            lemma_mean_of_one(cluster[0].color.b as int, w as int);
        }
    }
    let color = Rgb { r: rounded_mean(sr, w), g: rounded_mean(sg, w), b: rounded_mean(sb, w) };
    proof {
        lemma_rounded_between(sr as int, w as int, lo_r, hi_r);
        lemma_rounded_between(sg as int, w as int, lo_g, hi_g);
        lemma_rounded_between(sb as int, w as int, lo_b, hi_b);
        let cs = colors_of(cluster@);
        assert(cs[lr as int] == cluster[lr as int].color);
        assert(cs[hr as int] == cluster[hr as int].color);
        assert(cs[lg as int] == cluster[lg as int].color);
        assert(cs[hg as int] == cluster[hg as int].color);
        assert(cs[lb as int] == cluster[lb as int].color);
        assert(cs[hb as int] == cluster[hb as int].color);
        assert(channel(cs[lr as int], 0) <= channel(color, 0));
        assert(channel(cs[hr as int], 0) >= channel(color, 0));
        assert(channel(cs[lg as int], 1) <= channel(color, 1));
        assert(channel(cs[hg as int], 1) >= channel(color, 1));
        assert(channel(cs[lb as int], 2) <= channel(color, 2));
        assert(channel(cs[hb as int], 2) >= channel(color, 2));
    }
    DominantColor { color, count: w }
}

/// How many entries a list of clusters holds in all.
pub open spec fn total_len(s: Seq<Vec<DominantColor>>) -> nat
    decreases s.len(),
{
    if s.len() == 0 {
        0
    } else {
        total_len(s.drop_last()) + s.last().len() as nat
    }
}

/// How many samples a list of clusters stands for in all.
pub open spec fn clusters_weight(s: Seq<Vec<DominantColor>>) -> nat
    decreases s.len(),
{
    if s.len() == 0 {
        0
    } else {
        clusters_weight(s.drop_last()) + weight(s.last()@)
    }
}

proof fn lemma_clusters_weight_update(s: Seq<Vec<DominantColor>>, i: int, v: Vec<DominantColor>)
    requires
        0 <= i < s.len(),
    ensures
        clusters_weight(s.update(i, v)) + weight(s[i]@) == clusters_weight(s) + weight(v@),
    decreases s.len(),
{
    if i == s.len() - 1 {
        assert(s.update(i, v).drop_last() =~= s.drop_last());
    } else {
        assert(s.update(i, v).drop_last() =~= s.drop_last().update(i, v));
        lemma_clusters_weight_update(s.drop_last(), i, v);
    }
}

proof fn lemma_total_len_update(s: Seq<Vec<DominantColor>>, i: int, v: Vec<DominantColor>)
    requires
        0 <= i < s.len(),
    ensures
        total_len(s.update(i, v)) == total_len(s) - s[i].len() + v.len(),
    decreases s.len(),
{
    if i == s.len() - 1 {
        assert(s.update(i, v).drop_last() =~= s.drop_last());
    } else {
        assert(s.update(i, v).drop_last() =~= s.drop_last().update(i, v));
        lemma_total_len_update(s.drop_last(), i, v);
    }
}

proof fn lemma_total_len_bounds(s: Seq<Vec<DominantColor>>)
    requires
        forall|k: int| 0 <= k < s.len() ==> (#[trigger] s[k]).len() >= 1,
    ensures
        s.len() <= total_len(s),
        forall|k: int| 0 <= k < s.len() ==> (#[trigger] s[k]).len() <= total_len(s),
    decreases s.len(),
{
    if s.len() > 0 {
        let d = s.drop_last();
        assert(forall|k: int| 0 <= k < d.len() ==> #[trigger] d[k] == s[k]);
        lemma_total_len_bounds(d);
        assert(total_len(s) == total_len(d) + s.last().len());
        assert forall|k: int| 0 <= k < s.len() implies (#[trigger] s[k]).len() <= total_len(s) by {
            if k < d.len() {
                assert(d[k] == s[k]);
            }
        }
    }
}

/// The entries of each cluster of a list.
pub open spec fn views(cl: Seq<Vec<DominantColor>>) -> Seq<Seq<DominantColor>> {
    cl.map_values(|v: Vec<DominantColor>| v@)
}

/// The width of the cut that a cluster offers: the range of its widest channel.
/// The spread of a cluster is measured by this range rather than by a
/// variance: the range is an exact difference of two channel values, while
/// comparing weighted variances of two clusters takes products of the order of
/// the fourth power of their sample counts, which no fixed-width integer holds
/// for every sample cap.
pub open spec fn cut_width(c: Seq<DominantColor>) -> int {
    channel_width(c, widest(c).0)
}

/// The cluster to cut next: among clusters of two entries or more, the first
/// whose cut width is greatest, if that width is above zero. Gives whether
/// there is one, its index, and its cut width.
pub open spec fn pick(cl: Seq<Seq<DominantColor>>) -> (bool, int, int)
    decreases cl.len(),
{
    if cl.len() == 0 {
        (false, 0, 0)
    } else {
        let prev = pick(cl.drop_last());
        let j = cl.len() - 1;
        if cl[j].len() >= 2 && cut_width(cl[j]) > prev.2 {
            (true, j, cut_width(cl[j]))
        } else {
            prev
        }
    }
}

/// Where a cluster is cut on its widest channel: at its weighted median, kept
/// at or above the least value and below the greatest.
pub open spec fn cut_point(c: Seq<DominantColor>) -> int {
    let w = widest(c);
    let lo_v = channel(c[w.1].color, w.0) as int;
    let hi_v = channel(c[w.2].color, w.0) as int;
    let m = median_of(c, w.0);
    if m < lo_v {
        lo_v
    } else if m >= hi_v {
        hi_v - 1
    } else {
        m
    }
}

/// One median cut: the picked cluster is replaced by its lower part and its
/// upper part is appended.
pub open spec fn cut_step(cl: Seq<Seq<DominantColor>>) -> Seq<Seq<DominantColor>> {
    let i = pick(cl).1;
    let pr = parts(cl[i], widest(cl[i]).0, cut_point(cl[i]));
    cl.update(i, pr.0).push(pr.1)
}

/// Median cuts, at most `fuel` of them, until `k` clusters exist or no
/// cluster can be cut.
pub open spec fn cut_all(cl: Seq<Seq<DominantColor>>, k: int, fuel: nat) -> Seq<Seq<DominantColor>>
    decreases fuel,
{
    if cl.len() >= k || !pick(cl).0 || fuel == 0 {
        cl
    } else {
        cut_all(cut_step(cl), k, (fuel - 1) as nat)
    }
}

/// One representative per cluster, in the clusters' order.
pub open spec fn palette_of(cl: Seq<Seq<DominantColor>>) -> Seq<DominantColor> {
    Seq::new(cl.len(), |i: int| mean_of(cl[i]))
}

/// Median cut over distinct-color entries. Starting from one cluster that
/// holds them all, each step takes the cluster whose widest channel spans the
/// most values (the first such; see `cut_width` on why the range measures the
/// spread) and parts it at the weighted median of that
/// channel, kept strictly inside the channel's range so that both parts hold
/// entries. Steps stop once `max_colors` clusters exist or no cluster holds two
/// entries that differ. The result has one representative per cluster, in the
/// clusters' order.
pub(crate) fn median_cut(entries: Vec<DominantColor>, max_colors: usize) -> (palette: Vec<DominantColor>)
    requires
        entries.len() >= 1,
        max_colors >= 1,
        forall|k: int| 0 <= k < entries.len() ==> (#[trigger] entries[k]).count >= 1,
        weight(entries@) <= usize::MAX,
    ensures
        1 <= palette.len() <= max_colors,
        palette.len() <= entries.len(),
        forall|k: int| 0 <= k < palette.len() ==> (#[trigger] palette[k]).count >= 1,
        entries.len() == 1 ==> palette[0].color == entries[0].color,
        weight(palette@) == weight(entries@),
        forall|k: int| 0 <= k < palette.len() ==> within_range(#[trigger] palette[k].color, colors_of(entries@)),
        palette@ == palette_of(cut_all(seq![entries@], max_colors as int, max_colors as nat)),
        forall|k1: int, k2: int|
            0 <= k1 < k2 < palette.len() ==> (#[trigger] palette[k1]).color != (#[trigger] palette[k2]).color,
{
    let ghost n = entries.len();
    let ghost total = weight(entries@);
    let ghost old_entries_view = entries@;
    let ghost target = cut_all(seq![entries@], max_colors as int, max_colors as nat);
    let mut clusters: Vec<Vec<DominantColor>> = Vec::new();
    clusters.push(entries);
    proof {
        assert(views(clusters@) =~= seq![old_entries_view]);
        assert forall|k: int|
            0 <= k < old_entries_view.len() implies old_entries_view.contains(#[trigger] old_entries_view[k]) by {}
        assert(drawn_from(clusters[0]@, old_entries_view));
        assert(clusters@.drop_last() =~= Seq::<Vec<DominantColor>>::empty());
        assert(total_len(Seq::<Vec<DominantColor>>::empty()) == 0);
        assert(total_len(clusters@) == total_len(clusters@.drop_last()) + clusters@.last().len());
        assert(clusters@.last()@ == old_entries_view);
        assert(total_len(clusters@) == n);
        assert(clusters_weight(Seq::<Vec<DominantColor>>::empty()) == 0);
        assert(clusters_weight(clusters@) == clusters_weight(clusters@.drop_last()) + weight(clusters@.last()@));
    }
    while clusters.len() < max_colors
        invariant
            1 <= clusters.len() <= max_colors,
            total_len(clusters@) == n,
            clusters_weight(clusters@) == total,
            total <= usize::MAX,
            forall|c: int|
                0 <= c < clusters.len() ==> (#[trigger] clusters[c]).len() >= 1 && weight(
                    clusters[c]@,
                ) <= total && forall|k: int|
                    0 <= k < clusters[c].len() ==> (#[trigger] clusters[c][k]).count >= 1,
            n == old_entries_view.len(),
            n == 1 ==> clusters.len() == 1 && clusters[0]@ == old_entries_view,
            forall|c: int| 0 <= c < clusters.len() ==> drawn_from(#[trigger] clusters[c]@, old_entries_view),
            target == cut_all(seq![old_entries_view], max_colors as int, max_colors as nat),
            cut_all(views(clusters@), max_colors as int, (max_colors - clusters.len() + 1) as nat)
                == target,
            forall|c1: int, c2: int|
                0 <= c1 < clusters.len() && 0 <= c2 < clusters.len() && c1 != c2 ==> separated(
                    #[trigger] clusters[c1]@,
                    #[trigger] clusters[c2]@,
                ),
        ensures
            clusters.len() >= max_colors || !pick(views(clusters@)).0,
        decreases max_colors - clusters.len(),
    {
        let mut found: bool = false;
        let mut best: usize = 0;
        let mut best_ch: u8 = 0;
        let mut best_lo: usize = 0;
        let mut best_hi: usize = 0;
        let mut best_width: u8 = 0;
        let mut j: usize = 0;
        assert(views(clusters@).subrange(0, 0) =~= Seq::<Seq<DominantColor>>::empty());
        while j < clusters.len()
            invariant
                j <= clusters.len(),
                forall|c: int| 0 <= c < clusters.len() ==> (#[trigger] clusters[c]).len() >= 1,
                found ==> best < clusters.len() && best_ch < 3 && best_lo < clusters[best as int].len()
                    && best_hi < clusters[best as int].len() && channel(
                    clusters[best as int][best_lo as int].color,
                    best_ch as int,
                ) < channel(clusters[best as int][best_hi as int].color, best_ch as int)
                    && clusters[best as int].len() >= 2,
                (found, best as int, best_width as int) == pick(views(clusters@).subrange(0, j as int)),
                found ==> (best_ch as int, best_lo as int, best_hi as int) == widest(clusters[best as int]@),
            decreases clusters.len() - j,
        {
            proof {
                let vs = views(clusters@);
                assert(vs.subrange(0, j + 1).drop_last() =~= vs.subrange(0, j as int));
                assert(vs.subrange(0, j + 1)[j as int] == clusters[j as int]@);
            }
            if clusters[j].len() >= 2 {
                let (ch, lo, hi) = widest_channel(&clusters[j]);
                let width = channel_of(clusters[j][hi].color, ch) - channel_of(
                    clusters[j][lo].color,
                    ch,
                );
                if width > best_width {
                    found = true;
                    best = j;
                    best_ch = ch;
                    best_lo = lo;
                    best_hi = hi;
                    best_width = width;
                }
            }
            j = j + 1;
        }
        assert(views(clusters@).subrange(0, clusters.len() as int) =~= views(clusters@));
        if !found {
            break;
        }
        let lo_v = channel_of(clusters[best][best_lo].color, best_ch);
        let hi_v = channel_of(clusters[best][best_hi].color, best_ch);
        let m = weighted_median(&clusters[best], best_ch);
        let t: u8 = if m < lo_v {
            lo_v
        } else if m >= hi_v {
            hi_v - 1
        } else {
            m
        };
        let (left, right) = split_cluster(&clusters[best], best_ch, t, best_lo, best_hi);
        proof {
            lemma_total_len_bounds(clusters@);
            lemma_total_len_update(clusters@, best as int, left);
            lemma_clusters_weight_update(clusters@, best as int, left);
            lemma_drawn_from_trans(left@, clusters[best as int]@, old_entries_view);
            lemma_drawn_from_trans(right@, clusters[best as int]@, old_entries_view);
            let u = clusters@.update(best as int, left);
            assert(u.push(right).drop_last() =~= u);
            assert(views(u.push(right)) =~= cut_step(views(clusters@)));
        }
        let ghost oldc = clusters@;
        clusters.set(best, left);
        clusters.push(right);
        proof {
            let n0 = oldc.len() as int;
            let bi = best as int;
            assert(cut_between(left@, right@, best_ch as int, t as int));
            assert(cut_between(right@, left@, best_ch as int, t as int));
            assert forall|c1: int, c2: int|
                0 <= c1 < clusters.len() && 0 <= c2 < clusters.len() && c1 != c2 implies separated(
                #[trigger] clusters[c1]@,
                #[trigger] clusters[c2]@,
            ) by {
                if c1 != bi && c1 != n0 && c2 != bi && c2 != n0 {
                    assert(clusters[c1] == oldc[c1] && clusters[c2] == oldc[c2]);
                    assert(separated(oldc[c1]@, oldc[c2]@));
                } else if c1 == bi && c2 == n0 {
                    assert(clusters[c1]@ == left@ && clusters[c2]@ == right@);
                } else if c1 == n0 && c2 == bi {
                    assert(clusters[c1]@ == right@ && clusters[c2]@ == left@);
                } else if c1 == bi {
                    assert(clusters[c2] == oldc[c2]);
                    assert(separated(oldc[bi]@, oldc[c2]@));
                    lemma_separated_sub(left@, oldc[bi]@, oldc[c2]@);
                } else if c1 == n0 {
                    assert(clusters[c2] == oldc[c2]);
                    assert(separated(oldc[bi]@, oldc[c2]@));
                    lemma_separated_sub(right@, oldc[bi]@, oldc[c2]@);
                } else if c2 == bi {
                    assert(clusters[c1] == oldc[c1]);
                    assert(separated(oldc[bi]@, oldc[c1]@));
                    lemma_separated_sub(left@, oldc[bi]@, oldc[c1]@);
                } else {
                    assert(clusters[c1] == oldc[c1]);
                    assert(separated(oldc[bi]@, oldc[c1]@));
                    lemma_separated_sub(right@, oldc[bi]@, oldc[c1]@);
                }
            }
        }
    }
    let mut palette: Vec<DominantColor> = Vec::new();
    let mut c: usize = 0;
    assert(clusters@.subrange(0, 0) =~= Seq::<Vec<DominantColor>>::empty());
    assert(views(clusters@) == target);
    while c < clusters.len()
        invariant
            c <= clusters.len(),
            palette.len() == c,
            total <= usize::MAX,
            clusters_weight(clusters@) == total,
            weight(palette@) == clusters_weight(clusters@.subrange(0, c as int)),
            forall|q: int|
                0 <= q < clusters.len() ==> (#[trigger] clusters[q]).len() >= 1 && weight(
                    clusters[q]@,
                ) <= total && forall|k: int|
                    0 <= k < clusters[q].len() ==> (#[trigger] clusters[q][k]).count >= 1,
            forall|k: int| 0 <= k < c ==> (#[trigger] palette[k]).count >= 1,
            n == old_entries_view.len(),
            n == 1 ==> clusters.len() == 1 && clusters[0]@ == old_entries_view,
            n == 1 && c >= 1 ==> palette[0].color == old_entries_view[0].color,
            forall|q: int| 0 <= q < clusters.len() ==> drawn_from(#[trigger] clusters[q]@, old_entries_view),
            forall|k: int| 0 <= k < c ==> within_range(#[trigger] palette[k].color, colors_of(old_entries_view)),
            forall|k: int| 0 <= k < c ==> #[trigger] palette[k] == mean_of(clusters[k]@),
            views(clusters@) == target,
            forall|c1: int, c2: int|
                0 <= c1 < clusters.len() && 0 <= c2 < clusters.len() && c1 != c2 ==> separated(
                    #[trigger] clusters[c1]@,
                    #[trigger] clusters[c2]@,
                ),
            forall|k: int|
                0 <= k < c ==> within_range(#[trigger] palette[k].color, colors_of(clusters[k]@)),
            forall|k1: int, k2: int|
                0 <= k1 < k2 < c ==> (#[trigger] palette[k1]).color != (#[trigger] palette[k2]).color,
        decreases clusters.len() - c,
    {
        let rep = mean_entry(&clusters[c]);
        proof {
            assert forall|k1: int| 0 <= k1 < c implies palette[k1].color != rep.color by {
                assert(separated(clusters[k1]@, clusters[c as int]@));
                lemma_separated_means(palette[k1].color, clusters[k1]@, rep.color, clusters[c as int]@);
            }
            lemma_within_drawn(rep.color, clusters[c as int]@, old_entries_view);
            if n == 1 && c == 0 {
                assert(clusters[0].len() == 1);
                assert(clusters[0][0] == old_entries_view[0]);
                assert(rep.color == clusters[0][0].color);
            }
        }
        let ghost before = palette@;
        palette.push(rep);
        proof {
            assert(palette@.drop_last() =~= before);
            assert(clusters@.subrange(0, c + 1).drop_last() =~= clusters@.subrange(0, c as int));
        }
        c = c + 1;
    }
    assert(clusters@.subrange(0, clusters.len() as int) =~= clusters@);
    proof {
        lemma_total_len_bounds(clusters@);
    }
    palette
}

} // verus!
