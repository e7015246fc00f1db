//! The inverse transform: values to coefficients.
use crate::fft::lanes::{
    flat, lanes_wf, layer_across, layer_spec, layer_twiddles, layer_vecwise, twiddles_wf,
    PackedBaseField,
};
use crate::fft::model::{
    ifft_range, inv_layer, inverse_tables, is_fp_seq, lemma_fft_of_ifft, lemma_fft_range_scale,
    lemma_ifft_range_shape, lemma_scale_one, lemma_scale_scale, scale,
};
use crate::fft::rfft::{chunk_twiddles, fft_spec, table_wf};
use crate::domain::CircleDomain;
use crate::fft::twiddles::{is_itwiddle_table, twiddle_table};
use crate::fft::transpose::{lemma_logical_layout, logical_layout, transpose_vecs};
use crate::fft::{CACHED_FFT_LOG_SIZE, MAX_FFT_LOG_SIZE, MIN_FFT_LOG_SIZE};
use crate::fields::m31::fp;
use crate::utils::{lemma_pow2_sum, pow2_usize};
use vstd::arithmetic::power2::*;
use vstd::prelude::*;

verus! {

/// The inverse transform of `2^f` values, as coefficients in the order in
/// which they are held, before normalization.
pub open spec fn ifft_spec(v: Seq<int>, f: nat, itws: Seq<Seq<int>>) -> Seq<int> {
    logical_layout(ifft_range(v, 0, f, itws), f)
}

/// The forward transform undoes the inverse transform followed by a
/// scaling with the inverse of the size.
pub proof fn lemma_fft_of_scaled_ifft(
    v: Seq<int>,
    tws: Seq<Seq<int>>,
    itws: Seq<Seq<int>>,
    f: nat,
    c: int,
)
    requires
        f >= 4,
        v.len() == pow2(f),
        is_fp_seq(v),
        inverse_tables(tws, itws, f),
        fp(pow2(f) * c) == 1,
    ensures
        fft_spec(scale(ifft_spec(v, f, itws), c), f, tws) == v,
{
    let w = ifft_range(v, 0, f, itws);
    lemma_ifft_range_shape(v, 0, f, itws);
    lemma_logical_layout(w, f);
    assert(scale(logical_layout(w, f), c) == logical_layout(scale(w, c), f));
    lemma_logical_layout(scale(w, c), f);
    lemma_fft_range_scale(w, f, 0, tws, c, f);
    lemma_fft_of_ifft(v, tws, itws, f, f);
    lemma_scale_scale(v, pow2(f) as int, c);
    lemma_scale_one(v, pow2(f) * c);
}

/// The inverse transform, in place, of a column of `2^log_n_elements`
/// values in bit-reversed order. The result is not normalized: the forward
/// transform of it gives the values multiplied by the size.
#[verifier::rlimit(50)]
pub fn ifft(values: &mut Vec<PackedBaseField>, twiddle_dbl: &Vec<Vec<u32>>, log_n_elements: u32)
    requires
        MIN_FFT_LOG_SIZE <= log_n_elements <= MAX_FFT_LOG_SIZE,
        old(values).len() * 16 == pow2(log_n_elements as nat),
        lanes_wf(old(values)@),
        table_wf(twiddle_dbl@, log_n_elements as nat, 0),
    ensures
        final(values).len() == old(values).len(),
        lanes_wf(final(values)@),
        flat(final(values)@) == ifft_spec(
            flat(old(values)@),
            log_n_elements as nat,
            chunk_twiddles(twiddle_dbl@, log_n_elements as nat, 0),
        ),
{
    let f: u32 = log_n_elements;
    let ghost itws = chunk_twiddles(twiddle_dbl@, f as nat, 0);
    let ghost v0 = flat(values@);
    proof {
        lemma2_to64();
        lemma_pow2_sum(4, (f - 4) as nat);
    }
    let mut l: u32 = 0;
    while l < f
        invariant
            l <= f,
            MIN_FFT_LOG_SIZE <= f <= MAX_FFT_LOG_SIZE,
            values.len() * 16 == pow2(f as nat),
            lanes_wf(values@),
            table_wf(twiddle_dbl@, f as nat, 0),
            itws == chunk_twiddles(twiddle_dbl@, f as nat, 0),
            flat(values@) == ifft_range(v0, 0, l as nat, itws),
        decreases f - l,
    {
        let count: usize = pow2_usize(f - 1 - l);
        let layer: &Vec<u32> = &twiddle_dbl[l as usize];
        proof {
            assert(0 * pow2((f - 1 - l) as nat) == 0);
            assert(twiddles_wf(twiddle_dbl@[l as int]@, 0, count as nat));
            assert(itws[l as int] == layer_twiddles(layer@, 0, count as nat));
        }
        let ghost before = flat(values@);
        if l >= 4 {
            layer_across(values, l, layer, 0, f, true);
        } else {
            layer_vecwise(values, l, layer, 0, f, true);
        }
        proof {
            assert(layer_spec(before, l as nat, itws[l as int], true) =~= inv_layer(
                before,
                l as nat,
                itws[l as int],
            ));
        }
        l = l + 1;
    }
    if f > CACHED_FFT_LOG_SIZE {
        let t: Vec<PackedBaseField> = transpose_vecs(values, f - 4);
        *values = t;
    }
}

/// The inverse twiddles of the domain: the doubled inverses of the forward
/// twiddles.
pub fn get_itwiddle_dbls(domain: CircleDomain) -> (res: Vec<Vec<u32>>)
    requires
        domain.wf(),
        domain.half_coset.log_size >= 1,
        domain.is_fft_domain(),
    ensures
        is_itwiddle_table(res@, domain),
{
    twiddle_table(domain, true)
}

} // verus!
