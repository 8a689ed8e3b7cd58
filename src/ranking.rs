//! Dominance order of palette entries and the sort that establishes it.

use vstd::prelude::*;

use crate::cluster::{lemma_weight_remove, weight};
use crate::color::{DominantColor, Rgb};

verus! {

/// The sum of a color's three channels.
pub open spec fn rgb_sum(c: Rgb) -> int {
    c.r as int + c.g as int + c.b as int
}

/// Whether `a` may stand before `b` in a palette: more samples first; on a
/// tie the lower channel sum; then the lower red, green and blue values.
pub open spec fn ranks_before(a: DominantColor, b: DominantColor) -> bool {
    a.count > b.count || (a.count == b.count && (rgb_sum(a.color) < rgb_sum(b.color) || (rgb_sum(
        a.color,
    ) == rgb_sum(b.color) && (a.color.r < b.color.r || (a.color.r == b.color.r && (a.color.g
        < b.color.g || (a.color.g == b.color.g && a.color.b <= b.color.b)))))))
}

/// Dominance order leaves no tie open: any two entries are ordered, the order
/// is transitive, and two entries that may each stand before the other are
/// the same entry. So the order of a palette is fixed by its entries alone.
pub proof fn lemma_rank_order_total(a: DominantColor, b: DominantColor, c: DominantColor)
    ensures
        ranks_before(a, b) || ranks_before(b, a),
        ranks_before(a, b) && ranks_before(b, a) ==> a == b,
        ranks_before(a, b) && ranks_before(b, c) ==> ranks_before(a, c),
{
}

/// Two palettes in dominance order that hold the same entries, position by
/// position or in any arrangement, are identical.
pub proof fn lemma_ranked_palette_unique(p: Seq<DominantColor>, q: Seq<DominantColor>)
    requires
        is_ranked(p),
        is_ranked(q),
        p.to_multiset() == q.to_multiset(),
    ensures
        p == q,
    decreases p.len(),
{
    p.to_multiset_ensures();
    q.to_multiset_ensures();
    assert(p.len() == q.len());
    if p.len() > 0 {
        assert(p.to_multiset().count(p[0]) > 0);
        let j = choose|j: int| 0 <= j < q.len() && q[j] == p[0];
        assert(q.to_multiset().count(q[0]) > 0);
        let i = choose|i: int| 0 <= i < p.len() && p[i] == q[0];
        if j > 0 {
            assert(ranks_before(q[0], q[j]));
        }
        if i > 0 {
            assert(ranks_before(p[0], p[i]));
        }
        lemma_rank_order_total(p[0], q[0], p[0]);
        assert(p[0] == q[0]);
        assert(p.remove(0) =~= p.drop_first());
        assert(q.remove(0) =~= q.drop_first());
        let pr = p.drop_first();
        let qr = q.drop_first();
        assert(is_ranked(pr)) by {
            assert forall|a: int, b: int|
                0 <= a < b < pr.len() implies ranks_before(#[trigger] pr[a], #[trigger] pr[b]) by {
                assert(pr[a] == p[a + 1] && pr[b] == p[b + 1]);
            }
        }
        assert(is_ranked(qr)) by {
            assert forall|a: int, b: int|
                0 <= a < b < qr.len() implies ranks_before(#[trigger] qr[a], #[trigger] qr[b]) by {
                assert(qr[a] == q[a + 1] && qr[b] == q[b + 1]);
            }
        }
        lemma_ranked_palette_unique(pr, qr);
        assert forall|k: int| 0 <= k < p.len() implies p[k] == q[k] by {
            if k > 0 {
                assert(p[k] == pr[k - 1] && q[k] == qr[k - 1]);
            }
        }
    }
    assert(p =~= q);
}

/// The entries of a palette put in dominance order.
pub open spec fn ranked(p: Seq<DominantColor>) -> Seq<DominantColor> {
    choose|q: Seq<DominantColor>| is_ranked(q) && q.to_multiset() == p.to_multiset()
}

proof fn lemma_ranked_is_ranked_as(q: Seq<DominantColor>, p: Seq<DominantColor>)
    requires
        is_ranked(q),
        q.to_multiset() == p.to_multiset(),
    ensures
        ranked(p) == q,
{
    let r = ranked(p);
    assert(is_ranked(r) && r.to_multiset() == p.to_multiset());
    lemma_ranked_palette_unique(r, q);
}

pub(crate) proof fn lemma_ranked_is_ranked(p: Seq<DominantColor>)
    requires
        is_ranked(p),
    ensures
        ranked(p) == p,
{
    lemma_ranked_is_ranked_as(p, p);
}

/// No two entries of a palette have the same color.
pub open spec fn colors_distinct(p: Seq<DominantColor>) -> bool {
    forall|i: int, j: int| 0 <= i < j < p.len() ==> (#[trigger] p[i]).color != (#[trigger] p[j]).color
}

proof fn lemma_colors_distinct_rearranged(p: Seq<DominantColor>, q: Seq<DominantColor>)
    requires
        q.to_multiset() == p.to_multiset(),
    ensures
        colors_distinct(p) ==> colors_distinct(q),
{
    if colors_distinct(p) {
        p.to_multiset_ensures();
        q.to_multiset_ensures();
        assert(p.no_duplicates()) by {
            assert forall|i: int, j: int| 0 <= i < p.len() && 0 <= j < p.len() && i != j implies p[i] != p[j] by {
                if i < j {
                    assert(p[i].color != p[j].color);
                } else {
                    assert(p[j].color != p[i].color);
                }
            }
        }
        p.lemma_multiset_has_no_duplicates();
        q.lemma_multiset_has_no_duplicates_conv();
        assert forall|i: int, j: int| 0 <= i < j < q.len() implies (#[trigger] q[i]).color != (#[trigger] q[j]).color by {
            assert(q[i] != q[j]);
            assert(q.to_multiset().count(q[i]) > 0);
            assert(q.to_multiset().count(q[j]) > 0);
            assert(p.contains(q[i]));
            assert(p.contains(q[j]));
            let a = choose|a: int| 0 <= a < p.len() && p[a] == q[i];
            let b = choose|b: int| 0 <= b < p.len() && p[b] == q[j];
            assert(a != b);
            if a < b {
                assert(p[a].color != p[b].color);
            } else {
                assert(p[b].color != p[a].color);
            }
        }
    }
}

/// A palette in dominance order.
pub open spec fn is_ranked(p: Seq<DominantColor>) -> bool {
    forall|i: int, j: int| 0 <= i < j < p.len() ==> ranks_before(#[trigger] p[i], #[trigger] p[j])
}

fn ranks_before_exec(a: DominantColor, b: DominantColor) -> (r: bool)
    ensures
        r == ranks_before(a, b),
{
    if a.count != b.count {
        return a.count > b.count;
    }
    let sa: u32 = a.color.r as u32 + a.color.g as u32 + a.color.b as u32;
    let sb: u32 = b.color.r as u32 + b.color.g as u32 + b.color.b as u32;
    if sa != sb {
        return sa < sb;
    }
    if a.color.r != b.color.r {
        return a.color.r < b.color.r;
    }
    if a.color.g != b.color.g {
        return a.color.g < b.color.g;
    }
    a.color.b <= b.color.b
}

/// Puts a palette in dominance order, moving each entry as it is.
pub(crate) fn rank_palette(palette: Vec<DominantColor>) -> (out: Vec<DominantColor>)
    requires
        forall|k: int| 0 <= k < palette.len() ==> (#[trigger] palette[k]).count >= 1,
    ensures
        out.len() == palette.len(),
        is_ranked(out@),
        forall|k: int| 0 <= k < out.len() ==> (#[trigger] out[k]).count >= 1,
        palette.len() <= 1 ==> out@ == palette@,
        out@.to_multiset() == palette@.to_multiset(),
        weight(out@) == weight(palette@),
        out@ == ranked(palette@),
        colors_distinct(palette@) ==> colors_distinct(out@),
{
    if palette.len() <= 1 {
        proof {
            assert(is_ranked(palette@));
            lemma_ranked_is_ranked(palette@);
        }
        return palette;
    }
    let ghost orig = palette@;
    let mut rest = palette;
    let mut out: Vec<DominantColor> = Vec::new();
    proof {
        out@.to_multiset_ensures();
        assert(out@.to_multiset().len() == 0);
        assert(out@.to_multiset().add(rest@.to_multiset()) =~= orig.to_multiset());
    }
    while rest.len() > 0
        invariant
            out.len() + rest.len() == orig.len(),
            is_ranked(out@),
            forall|i: int, m: int|
                0 <= i < out.len() && 0 <= m < rest.len() ==> ranks_before(#[trigger] out[i], #[trigger] rest[m]),
            forall|k: int| 0 <= k < out.len() ==> (#[trigger] out[k]).count >= 1,
            forall|k: int| 0 <= k < rest.len() ==> (#[trigger] rest[k]).count >= 1,
            out@.to_multiset().add(rest@.to_multiset()) == orig.to_multiset(),
            weight(out@) + weight(rest@) == weight(orig),
        decreases rest.len(),
    {
        let mut best: usize = 0;
        let mut k: usize = 1;
        while k < rest.len()
            invariant
                1 <= k <= rest.len(),
                best < k,
                forall|m: int| 0 <= m < k ==> ranks_before(rest[best as int], #[trigger] rest[m]),
            decreases rest.len() - k,
        {
            if !ranks_before_exec(rest[best], rest[k]) {
                best = k;
            }
            k = k + 1;
        }
        let ghost before = rest@;
        let e = rest.remove(best);
        proof {
            before.to_multiset_ensures();
            out@.to_multiset_ensures();
            assert(before.to_multiset().count(e) > 0) by {
                assert(before[best as int] == e);
            }
            assert(out@.push(e).to_multiset().add(rest@.to_multiset()) =~= orig.to_multiset());
            lemma_weight_remove(before, best as int);
            assert(out@.push(e).drop_last() =~= out@);
        }
        proof {
            assert forall|m: int|
                0 <= m < rest.len() implies #[trigger] rest[m] == before[if m < best { m } else { m + 1 }] by {}
        }
        let ghost out_before = out@;
        out.push(e);
        proof {
            assert forall|i: int, j: int|
                0 <= i < j < out.len() implies ranks_before(#[trigger] out[i], #[trigger] out[j]) by {
                if j == out.len() - 1 {
                    assert(out[j] == before[best as int]);
                    assert(out[i] == out_before[i]);
                } else {
                    assert(out[i] == out_before[i]);
                    assert(out[j] == out_before[j]);
                }
            }
            assert forall|i: int, m: int|
                0 <= i < out.len() && 0 <= m < rest.len() implies ranks_before(#[trigger] out[i], #[trigger] rest[m]) by {
                let src = if m < best { m } else { m + 1 };
                assert(rest[m] == before[src]);
                if i < out.len() - 1 {
                    assert(out[i] == out_before[i]);
                }
            }
        }
    }
    proof {
        rest@.to_multiset_ensures();
        assert(rest@.to_multiset().len() == 0);
        assert(out@.to_multiset() =~= out@.to_multiset().add(rest@.to_multiset()));
        assert(weight(rest@) == 0);
        lemma_ranked_is_ranked_as(out@, orig);
        lemma_colors_distinct_rearranged(orig, out@);
    }
    out
}

} // verus!
