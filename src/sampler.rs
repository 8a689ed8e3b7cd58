//! Pixels of a raw R, G, B buffer and the uniform-stride sample of them.

use vstd::prelude::*;

use crate::color::Rgb;
use crate::quantize::QuantizationError;

verus! {

/// The `i`-th pixel of a row-major buffer of R, G, B bytes.
pub open spec fn pixel_at(buf: Seq<u8>, i: int) -> Rgb {
    Rgb { r: buf[3 * i], g: buf[3 * i + 1], b: buf[3 * i + 2] }
}

/// All whole pixels of a buffer, in order.
pub open spec fn pixels_of(buf: Seq<u8>) -> Seq<Rgb> {
    Seq::new((buf.len() / 3) as nat, |i: int| pixel_at(buf, i))
}

/// The distance between two sampled pixels: one when the buffer fits under
/// the cap, else the smallest stride that brings it under the cap.
pub open spec fn sample_stride(n: nat, cap: nat) -> nat {
    if n <= cap || cap == 0 {
        1
    } else {
        ((n + cap - 1) / (cap as int)) as nat
    }
}

/// How many pixels a stride of `sample_stride(n, cap)` visits.
pub open spec fn sample_count(n: nat, cap: nat) -> nat {
    if cap == 0 {
        0
    } else {
        ((n + sample_stride(n, cap) - 1) / sample_stride(n, cap) as int) as nat
    }
}

/// The samples taken from a buffer: every `sample_stride`-th pixel, from the
/// first on.
pub open spec fn samples_of(buf: Seq<u8>, cap: nat) -> Seq<Rgb> {
    Seq::new(
        sample_count(buf.len() / 3, cap),
        |j: int| pixels_of(buf)[j * sample_stride(buf.len() / 3, cap)],
    )
}

proof fn lemma_count_exact(n: int, s: int, j: int)
    requires
        s >= 1,
        j >= 1,
        j * s >= n,
        (j - 1) * s < n,
    ensures
        j == (n + s - 1) / s,
{
    assert(j * s <= n + s - 1 < (j + 1) * s) by (nonlinear_arith)
        requires
            j * s >= n,
            (j - 1) * s < n,
            s >= 1,
    ;
    assert((n + s - 1) / s == j) by (nonlinear_arith)
        requires
            j * s <= n + s - 1 < (j + 1) * s,
            s >= 1,
    ;
}

proof fn lemma_stride_bounds(n: int, cap: int, s: int)
    requires
        cap >= 1,
        n >= 0,
        n > cap ==> s == (n + cap - 1) / (cap as int),
        n <= cap ==> s == 1,
    ensures
        s >= 1,
        s <= n || n == 0,
{
    if n > cap {
        assert(s >= 1 && s <= n) by (nonlinear_arith)
            requires
                s == (n + cap - 1) / (cap as int),
                cap >= 1,
                n > cap,
        ;
    }
}

proof fn lemma_mul_step(j: int, s: int)
    ensures
        (j - 1) * s + s == j * s,
{
    assert((j - 1) * s + s == j * s) by (nonlinear_arith);
}

/// The stride keeps the sample count within the cap.
pub proof fn lemma_sample_count_within_cap(n: nat, cap: nat)
    requires
        cap >= 1,
    ensures
        sample_count(n, cap) <= cap,
        sample_count(n, cap) <= n,
        n >= 1 ==> sample_count(n, cap) >= 1,
{
    let s = sample_stride(n, cap) as int;
    let c = sample_count(n, cap) as int;
    if n <= cap {
        assert(c == n);
    } else {
        assert(s * cap >= n) by (nonlinear_arith)
            requires
                s == (n + cap - 1) / (cap as int),
                cap >= 1,
        ;
        assert(s >= 1) by (nonlinear_arith)
            requires
                s == (n + cap - 1) / (cap as int),
                cap >= 1,
                n > cap,
        ;
        assert(c <= cap && c <= n && c >= 1) by (nonlinear_arith)
            requires
                c == (n + s - 1) / (s as int),
                s * cap >= n,
                s >= 1,
                n >= 1,
                cap >= 1,
        ;
    }
}

proof fn lemma_sample_index(j: int, n: int, s: int)
    requires
        s >= 1,
        0 <= j < (n + s - 1) / s,
    ensures
        0 <= j * s < n,
{
    assert(0 <= j * s < n) by (nonlinear_arith)
        requires
            s >= 1,
            0 <= j < (n + s - 1) / s,
    ;
}

/// Sampling brings in no color that the buffer lacks, so the samples hold at
/// most as many distinct colors as the buffer.
pub proof fn lemma_samples_from_pixels(buf: Seq<u8>, cap: nat)
    ensures
        samples_of(buf, cap).to_set().subset_of(pixels_of(buf).to_set()),
        samples_of(buf, cap).to_set().len() <= pixels_of(buf).to_set().len(),
{
    let samples = samples_of(buf, cap);
    let pixels = pixels_of(buf);
    let n = buf.len() / 3;
    let s = sample_stride(n, cap);
    assert forall|c: Rgb| samples.to_set().contains(c) implies pixels.to_set().contains(c) by {
        let j = choose|j: int| 0 <= j < samples.len() && samples[j] == c;
        if cap > 0 {
            if n > cap {
                lemma_stride_bounds(n as int, cap as int, s as int);
            }
            lemma_sample_index(j, n as int, s as int);
        }
        assert(pixels[j * s] == c);
    }
    vstd::seq_lib::seq_to_set_is_finite(pixels);
    vstd::set_lib::lemma_len_subset(samples.to_set(), pixels.to_set());
}

/// The samples of a buffer of R, G, B bytes, at most `max_samples` of them
/// taken at a uniform stride; `MalformedBuffer` where the length is not a
/// multiple of three.
pub fn sample_pixels(buffer: &Vec<u8>, max_samples: usize) -> (out: Result<
    Vec<Rgb>,
    QuantizationError,
>)
    ensures
        match out {
            Ok(v) => {
                &&& buffer.len() % 3 == 0
                &&& v@ == samples_of(buffer@, max_samples as nat)
                &&& v.len() <= max_samples
                &&& buffer.len() / 3 <= max_samples ==> v@ == pixels_of(buffer@)
            },
            Err(e) => buffer.len() % 3 != 0 && e == QuantizationError::MalformedBuffer,
        },
{
    if buffer.len() % 3 != 0 {
        return Err(QuantizationError::MalformedBuffer);
    }
    let n: usize = buffer.len() / 3;
    let mut out: Vec<Rgb> = Vec::new();
    if max_samples == 0 {
        assert(out@ =~= samples_of(buffer@, max_samples as nat));
        return Ok(out);
    }
    let stride: usize = if n <= max_samples {
        1
    } else {
        (n + max_samples - 1) / max_samples
    };
    proof {
        lemma_stride_bounds(n as int, max_samples as int, stride as int);
    }
    let ghost s = stride as int;
    let mut idx: usize = 0;
    let mut j: usize = 0;
    while idx < n
        invariant
            n == buffer.len() / 3,
            buffer.len() % 3 == 0,
            s == stride,
            stride >= 1,
            stride <= n || n == 0,
            idx == j * s,
            j <= idx,
            j >= 1 ==> (j - 1) * s < n,
            out.len() == j,
            forall|k: int| 0 <= k < j ==> #[trigger] out[k] == pixels_of(buffer@)[k * s],
        decreases n - j,
    {
        assert(3 * idx + 2 < buffer.len());
        let p = Rgb { r: buffer[3 * idx], g: buffer[3 * idx + 1], b: buffer[3 * idx + 2] };
        out.push(p);
        proof {
            assert((j + 1 - 1) * s == idx);
        }
        idx = idx + stride;
        j = j + 1;
        proof {
            lemma_mul_step(j as int, s);
        }
    }
    proof {
        if j >= 1 {
            lemma_count_exact(n as int, s, j as int);
        } else {
            assert(n == 0);
        }
        assert(out@ =~= samples_of(buffer@, max_samples as nat));
        lemma_sample_count_within_cap(n as nat, max_samples as nat);
        if n <= max_samples {
            assert(out@ =~= pixels_of(buffer@));
        }
    }
    Ok(out)
}

} // verus!
