//! The quantization pipeline: configuration, errors, the histogram of
//! sampled colors and the public extraction entry point.

use vstd::prelude::*;

use crate::cluster::{
    channel, channel_sum, channel_within, colors_of, cut_all, lemma_channel_sum_update, mean_of, lemma_weight_update, median_cut, palette_of,
    weight, within_range,
};
use crate::color::{DominantColor, Rgb};
use crate::ranking::{colors_distinct, is_ranked, lemma_ranked_is_ranked, rank_palette, ranked};
use crate::sampler::{pixels_of, sample_pixels, samples_of};

verus! {

/// The bound on the palette size used when none is given.
pub const DEFAULT_MAX_COLORS: usize = 5;

/// The cap on the number of sampled pixels used when none is given.
pub const DEFAULT_MAX_SAMPLES: usize = 10000;

/// How a quantization runs: at most `max_colors` colors come out, computed
/// from at most `max_samples` pixels.
#[derive(Clone, Copy, Debug, PartialEq, Eq)]
pub struct QuantizeConfig {
    pub max_colors: usize,
    pub max_samples: usize,
}

impl Default for QuantizeConfig {
    fn default() -> (c: Self)
        ensures
            c.max_colors == DEFAULT_MAX_COLORS,
            c.max_samples == DEFAULT_MAX_SAMPLES,
    {
        QuantizeConfig { max_colors: DEFAULT_MAX_COLORS, max_samples: DEFAULT_MAX_SAMPLES }
    }
}

/// Why a buffer yields no palette.
#[derive(Clone, Copy, Debug, PartialEq, Eq, Structural)]
pub enum QuantizationError {
    /// The buffer's length is not a multiple of three.
    MalformedBuffer,
    /// No pixel was sampled.
    EmptyInput,
}

/// How many different colors a sequence of samples holds.
pub open spec fn distinct_count(s: Seq<Rgb>) -> nat {
    s.to_set().len()
}

proof fn lemma_distinct_entries(entries: Seq<DominantColor>, samples: Seq<Rgb>)
    requires
        colors_of(entries).no_duplicates(),
        colors_of(entries).to_set() == samples.to_set(),
        samples.len() >= 1,
    ensures
        entries.len() == distinct_count(samples),
        entries.len() >= 1,
        distinct_count(samples) == 1 ==> entries[0].color == samples[0],
{
    colors_of(entries).unique_seq_to_set();
    assert(samples.to_set().contains(samples[0]));
    assert(colors_of(entries).contains(samples[0]));
    if entries.len() == 1 {
        assert(colors_of(entries)[0] == entries[0].color);
    }
}

proof fn lemma_channel_within_same_colors(x: Rgb, a: Seq<Rgb>, b: Seq<Rgb>, ch: int)
    requires
        channel_within(x, a, ch),
        a.to_set() == b.to_set(),
    ensures
        channel_within(x, b, ch),
{
    let j1 = choose|j: int| 0 <= j < a.len() && channel(#[trigger] a[j], ch) <= channel(x, ch);
    let j2 = choose|j: int| 0 <= j < a.len() && channel(#[trigger] a[j], ch) >= channel(x, ch);
    assert(a.to_set().contains(a[j1]));
    assert(a.to_set().contains(a[j2]));
    assert(b.contains(a[j1]));
    assert(b.contains(a[j2]));
    let q1 = choose|q: int| 0 <= q < b.len() && b[q] == a[j1];
    let q2 = choose|q: int| 0 <= q < b.len() && b[q] == a[j2];
    assert(channel(b[q1], ch) <= channel(x, ch));
    assert(channel(b[q2], ch) >= channel(x, ch));
}

proof fn lemma_within_same_colors(x: Rgb, a: Seq<Rgb>, b: Seq<Rgb>)
    requires
        within_range(x, a),
        a.to_set() == b.to_set(),
    ensures
        within_range(x, b),
{
    lemma_channel_within_same_colors(x, a, b, 0);
    lemma_channel_within_same_colors(x, a, b, 1);
    lemma_channel_within_same_colors(x, a, b, 2);
}

/// The tally of a sequence of samples: one entry per distinct color, in the
/// order of first occurrence, with how often the color occurs.
pub open spec fn tally(s: Seq<Rgb>) -> Seq<DominantColor>
    decreases s.len(),
{
    if s.len() == 0 {
        Seq::empty()
    } else {
        let h = tally(s.drop_last());
        let c = s.last();
        if exists|k: int| 0 <= k < h.len() && (#[trigger] h[k]).color == c {
            let k = choose|k: int| 0 <= k < h.len() && (#[trigger] h[k]).color == c;
            h.update(k, DominantColor { color: c, count: (h[k].count + 1) as usize })
        } else {
            h.push(DominantColor { color: c, count: 1 })
        }
    }
}

/// The sum over samples of channel `ch`.
pub open spec fn sample_sum(s: Seq<Rgb>, ch: int) -> int
    decreases s.len(),
{
    if s.len() == 0 {
        0
    } else {
        sample_sum(s.drop_last(), ch) + channel(s.last(), ch)
    }
}

proof fn lemma_tally_count_bound(s: Seq<Rgb>, k: int)
    requires
        0 <= k < tally(s).len(),
    ensures
        tally(s)[k].count <= s.len(),
    decreases s.len(),
{
    if s.len() > 0 {
        let h = tally(s.drop_last());
        let c = s.last();
        if exists|q: int| 0 <= q < h.len() && (#[trigger] h[q]).color == c {
            let q = choose|q: int| 0 <= q < h.len() && (#[trigger] h[q]).color == c;
            lemma_tally_count_bound(s.drop_last(), q);
            if k != q {
                lemma_tally_count_bound(s.drop_last(), k);
            }
        } else if k < h.len() {
            lemma_tally_count_bound(s.drop_last(), k);
        }
    }
}

/// The tally stands for every sample: its counts add up to the number of
/// samples, and on each channel the count-weighted sum of its colors is the
/// sum over the samples. So `mean_of(tally(s))` is the mean of the samples.
pub proof fn lemma_tally_sums(s: Seq<Rgb>, ch: int)
    requires
        s.len() <= usize::MAX,
    ensures
        weight(tally(s)) == s.len(),
        channel_sum(tally(s), ch) == sample_sum(s, ch),
    decreases s.len(),
{
    if s.len() > 0 {
        let h = tally(s.drop_last());
        let c = s.last();
        lemma_tally_sums(s.drop_last(), ch);
        if exists|k: int| 0 <= k < h.len() && (#[trigger] h[k]).color == c {
            let k = choose|k: int| 0 <= k < h.len() && (#[trigger] h[k]).color == c;
            lemma_tally_count_bound(s.drop_last(), k);
            let v = DominantColor { color: c, count: (h[k].count + 1) as usize };
            crate::cluster::lemma_weight_update(h, k, v);
            lemma_channel_sum_update(h, k, v, ch);
            let x = channel(c, ch) as int;
            let n = h[k].count as int;
            assert(x * (n + 1) == x * n + x) by (nonlinear_arith);
            assert(v.count as int == n + 1);
            assert(channel(h[k].color, ch) as int == x);
            assert(tally(s) == h.update(k, v));
            assert(s.drop_last().push(c) =~= s);
            assert(sample_sum(s, ch) == sample_sum(s.drop_last(), ch) + x);
            assert(channel_sum(tally(s), ch) == channel_sum(h, ch) - x * n + x * (n + 1));
        } else {
            let v = DominantColor { color: c, count: 1 };
            assert(h.push(v).drop_last() =~= h);
            assert(tally(s) == h.push(v));
            let x = channel(c, ch) as int;
            assert(x * 1 == x);
            assert(channel_sum(tally(s), ch) == channel_sum(h, ch) + x);
        }
    }
}

/// One entry per distinct color of `samples`, each with how often it occurs.
fn histogram(samples: &Vec<Rgb>) -> (entries: Vec<DominantColor>)
    ensures
        colors_of(entries@).no_duplicates(),
        colors_of(entries@).to_set() == samples@.to_set(),
        forall|k: int| 0 <= k < entries.len() ==> (#[trigger] entries[k]).count >= 1,
        weight(entries@) == samples.len(),
        entries@ == tally(samples@),
{
    let mut entries: Vec<DominantColor> = Vec::new();
    let mut i: usize = 0;
    while i < samples.len()
        invariant
            i <= samples.len(),
            colors_of(entries@).no_duplicates(),
            forall|c: Rgb|
                colors_of(entries@).contains(c) <==> samples@.subrange(0, i as int).contains(c),
            forall|k: int|
                0 <= k < entries.len() ==> 1 <= (#[trigger] entries[k]).count <= i,
            weight(entries@) == i,
            entries@ == tally(samples@.subrange(0, i as int)),
        decreases samples.len() - i,
    {
        let s = samples[i];
        let mut k: usize = 0;
        while k < entries.len() && entries[k].color != s
            invariant
                k <= entries.len(),
                forall|m: int| 0 <= m < k ==> (#[trigger] entries[m]).color != s,
            decreases entries.len() - k,
        {
            k = k + 1;
        }
        let ghost prev = samples@.subrange(0, i as int);
        let ghost ce = colors_of(entries@);
        assert(samples@.subrange(0, i + 1) =~= prev.push(s));
        let ghost old_len = entries.len();
        if k < entries.len() {
            let e = entries[k];
            let ghost before = entries@;
            proof {
                let h = tally(prev);
                assert(prev.push(s).drop_last() =~= prev);
                assert(h[k as int].color == s);
                let k2 = choose|k2: int| 0 <= k2 < h.len() && (#[trigger] h[k2]).color == s;
                assert(colors_of(h)[k2] == colors_of(h)[k as int]);
            }
            let bumped = DominantColor { color: s, count: e.count + 1 };
            entries.set(k, bumped);
            assert(colors_of(entries@) =~= colors_of(before));
            proof {
                lemma_weight_update(before, k as int, bumped);
            }
            assert(colors_of(before)[k as int] == s);
        } else {
            let ghost before = colors_of(entries@);
            let ghost old_entries = entries@;
            proof {
                assert(prev.push(s).drop_last() =~= prev);
            }
            entries.push(DominantColor { color: s, count: 1 });
            assert(colors_of(entries@) =~= before.push(s));
            assert(entries@.drop_last() =~= old_entries);
            assert(!before.contains(s));
        }
        proof {
            assert forall|c: Rgb|
                colors_of(entries@).contains(c) <==> prev.push(s).contains(c) by {
                let ne = colors_of(entries@);
                if c == s {
                    assert(prev.push(s)[prev.len() as int] == s);
                    if k < old_len {
                        assert(ne[k as int] == s);
                    } else {
                        assert(ne[ne.len() - 1] == s);
                    }
                } else {
                    if prev.push(s).contains(c) {
                        let m = choose|m: int| 0 <= m < prev.len() + 1 && prev.push(s)[m] == c;
                        assert(prev[m] == c);
                        assert(ce.contains(c));
                        let q = choose|q: int| 0 <= q < ce.len() && ce[q] == c;
                        assert(ne[q] == c);
                    }
                    if ne.contains(c) {
                        let q = choose|q: int| 0 <= q < ne.len() && ne[q] == c;
                        assert(q < ce.len());
                        assert(ce[q] == c);
                        assert(ce.contains(c));
                        assert(prev.contains(c));
                        let m = choose|m: int| 0 <= m < prev.len() && prev[m] == c;
                        assert(prev.push(s)[m] == c);
                    }
                }
            }
        }
        i = i + 1;
    }
    assert(samples@.subrange(0, samples.len() as int) =~= samples@);
    assert(colors_of(entries@).to_set() =~= samples@.to_set());
    entries
}

/// The error that a buffer meets, if any: a length that is not a multiple of
/// three, else a buffer or sample cap that leaves no pixel to sample.
pub open spec fn extraction_error(buf: Seq<u8>, config: QuantizeConfig) -> Option<QuantizationError> {
    if buf.len() % 3 != 0 {
        Some(QuantizationError::MalformedBuffer)
    } else if buf.len() == 0 || config.max_samples == 0 {
        Some(QuantizationError::EmptyInput)
    } else {
        None
    }
}

/// What a palette extracted from `buf` satisfies:
/// - between one entry and `max_colors` entries, and no more than the distinct
///   colors sampled (nor those of the whole buffer);
/// - no two entries with the same color;
/// - dominance order;
/// - with a bound of one color, the one entry stands for every sample and its
///   color is the mean of the samples, rounded half up on each channel;
/// - each entry stands for at least one sample, and all of them together for
///   every sample once;
/// - each color lies on every channel between sampled values, and is the
///   sampled color itself where only one color was sampled.
pub open spec fn is_palette_of(buf: Seq<u8>, config: QuantizeConfig, p: Seq<DominantColor>) -> bool {
    let samples = samples_of(buf, config.max_samples as nat);
    &&& 1 <= p.len() <= config.max_colors
    &&& p.len() <= distinct_count(samples)
    &&& p.len() <= distinct_count(pixels_of(buf))
    &&& is_ranked(p)
    &&& colors_distinct(p)
    &&& config.max_colors == 1 ==> {
        let n = samples.len() as int;
        &&& p.len() == 1
        &&& p[0].count == n
        &&& p[0].color.r == ((sample_sum(samples, 0) + n / 2) / n) as u8
        &&& p[0].color.g == ((sample_sum(samples, 1) + n / 2) / n) as u8
        &&& p[0].color.b == ((sample_sum(samples, 2) + n / 2) / n) as u8
    }
    &&& forall|k: int| 0 <= k < p.len() ==> (#[trigger] p[k]).count >= 1
    &&& weight(p) == samples.len()
    &&& forall|k: int| 0 <= k < p.len() ==> within_range(#[trigger] p[k].color, samples)
    &&& distinct_count(samples) == 1 ==> p.len() == 1 && p[0].color == samples[0]
}

/// The palette of a buffer whose length is a multiple of three: the tally of
/// its samples is cut into clusters by median cuts, each cluster gives its
/// representative, and the representatives are put in dominance order.
pub open spec fn quantized(buf: Seq<u8>, config: QuantizeConfig) -> Seq<DominantColor> {
    let entries = tally(samples_of(buf, config.max_samples as nat));
    ranked(
        palette_of(cut_all(seq![entries], config.max_colors as int, config.max_colors as nat)),
    )
}

/// What extracting from `buf` under `config` yields: the error that the buffer
/// meets, if any, else the palette `quantized`, which has the properties of
/// `is_palette_of`.
pub open spec fn extraction_outcome(
    buf: Seq<u8>,
    config: QuantizeConfig,
    res: Result<Seq<DominantColor>, QuantizationError>,
) -> bool {
    match res {
        Err(e) => extraction_error(buf, config) == Some(e),
        Ok(p) => extraction_error(buf, config) is None && is_palette_of(buf, config, p) && p
            == quantized(buf, config),
    }
}

proof fn lemma_single_cluster(buf: Seq<u8>, config: QuantizeConfig)
    requires
        config.max_colors == 1,
    ensures
        quantized(buf, config) == seq![mean_of(tally(samples_of(buf, config.max_samples as nat)))],
{
    let entries = tally(samples_of(buf, config.max_samples as nat));
    let cl = cut_all(seq![entries], 1, 1);
    assert(cl == seq![entries]);
    let p = palette_of(cl);
    assert(p =~= seq![mean_of(entries)]);
    lemma_ranked_is_ranked(p);
}

/// Extraction depends on nothing but the buffer and the configuration: two
/// extractions from the same buffer under the same configuration give the
/// same error, or the same palette entry for entry and in the same order.
pub proof fn lemma_extraction_deterministic(
    buf: Seq<u8>,
    config: QuantizeConfig,
    first: Result<Seq<DominantColor>, QuantizationError>,
    second: Result<Seq<DominantColor>, QuantizationError>,
)
    requires
        extraction_outcome(buf, config, first),
        extraction_outcome(buf, config, second),
    ensures
        first == second,
{
}

/// The dominant colors of a buffer of R, G, B bytes: the pixels are sampled,
/// the distinct sampled colors are cut into at most `config.max_colors`
/// clusters by the median of their widest channel, and each cluster gives its
/// mean color and its sample count, most dominant first.
pub fn extract_dominant_colors(buffer: &Vec<u8>, config: &QuantizeConfig) -> (res: Result<
    Vec<DominantColor>,
    QuantizationError,
>)
    requires
        config.max_colors >= 1,
    ensures
        extraction_outcome(
            buffer@,
            *config,
            match res {
                Ok(p) => Ok(p@),
                Err(e) => Err(e),
            },
        ),
{
    let samples = match sample_pixels(buffer, config.max_samples) {
        Err(e) => return Err(e),
        Ok(s) => s,
    };
    proof {
        if config.max_samples >= 1 {
            crate::sampler::lemma_sample_count_within_cap(
                (buffer.len() / 3) as nat,
                config.max_samples as nat,
            );
        }
    }
    if samples.len() == 0 {
        return Err(QuantizationError::EmptyInput);
    }
    let entries = histogram(&samples);
    proof {
        lemma_distinct_entries(entries@, samples@);
        crate::sampler::lemma_samples_from_pixels(buffer@, config.max_samples as nat);
    }
    let ghost entries_view = entries@;
    let palette = median_cut(entries, config.max_colors);
    let ghost palette_view = palette@;
    assert(colors_distinct(palette_view));
    let ranked = rank_palette(palette);
    proof {
        if config.max_colors == 1 {
            lemma_single_cluster(buffer@, *config);
            lemma_tally_sums(samples@, 0);
            lemma_tally_sums(samples@, 1);
            lemma_tally_sums(samples@, 2);
        }
        ranked@.to_multiset_ensures();
        palette_view.to_multiset_ensures();
        assert forall|k: int| 0 <= k < ranked.len() implies within_range(
            #[trigger] ranked[k].color,
            samples@,
        ) by {
            assert(ranked@.contains(ranked[k]));
            assert(ranked@.to_multiset().count(ranked[k]) > 0);
            assert(palette_view.contains(ranked[k]));
            let q = choose|q: int| 0 <= q < palette_view.len() && palette_view[q] == ranked[k];
            assert(within_range(palette_view[q].color, colors_of(entries_view)));
            lemma_within_same_colors(ranked[k].color, colors_of(entries_view), samples@);
        }
    }
    Ok(ranked)
}

} // verus!
