//! The forward transform: coefficients to values.
use crate::fft::lanes::{
    flat, lanes_wf, layer_across, layer_spec, layer_twiddles, layer_vecwise, twiddles_wf,
    PackedBaseField,
};
use crate::fft::model::{fft_range, fwd_layer, is_fp_seq, lemma_fft_eval, twiddle_eval};
use crate::domain::CircleDomain;
use crate::fft::twiddles::{is_twiddle_table, twiddle_table};
use crate::fft::transpose::{lemma_logical_layout, logical_layout, transpose_vecs};
use crate::fft::{CACHED_FFT_LOG_SIZE, MAX_FFT_LOG_SIZE, MIN_FFT_LOG_SIZE};
use crate::fields::m31::P;
use crate::utils::{lemma_pow2_sum, pow2_usize};
use vstd::arithmetic::power2::*;
use vstd::prelude::*;

verus! {

/// The table holds, for each of the `f` layers of a transform of `2^f`
/// elements on the `coset`-th block of that size, the block's twiddles.
pub open spec fn table_wf(tw: Seq<Vec<u32>>, f: nat, coset: int) -> bool {
    &&& tw.len() >= f
    &&& coset >= 0
    &&& forall|l: int|
        0 <= l < f ==> twiddles_wf(
            (#[trigger] tw[l])@,
            coset * pow2((f - 1 - l) as nat),
            pow2((f - 1 - l) as nat),
        )
}

/// The twiddles of the `coset`-th block of `2^f` elements, layer by layer.
pub open spec fn chunk_twiddles(tw: Seq<Vec<u32>>, f: nat, coset: int) -> Seq<Seq<int>> {
    Seq::new(
        f,
        |l: int|
            layer_twiddles(tw[l]@, coset * pow2((f - 1 - l) as nat), pow2((f - 1 - l) as nat)),
    )
}

/// The forward transform of `2^f` coefficients as they are held.
pub open spec fn fft_spec(v: Seq<int>, f: nat, tws: Seq<Seq<int>>) -> Seq<int> {
    fft_range(logical_layout(v, f), f, 0, tws)
}

/// The flat view of well-formed lanes is a sequence of field elements.
pub proof fn lemma_flat_fp(data: Seq<PackedBaseField>)
    requires
        lanes_wf(data),
    ensures
        is_fp_seq(flat(data)),
        flat(data).len() == 16 * data.len(),
{
    assert forall|i: int| 0 <= i < flat(data).len() implies crate::fields::m31::is_fp(
        #[trigger] flat(data)[i],
    ) by {
        assert(crate::fft::lanes::vec_wf(data[i / 16]));
        assert(data[i / 16][i % 16] < P);
    }
}

/// The forward transform, in place, of a column of `2^log_n_elements`
/// coefficients, with the twiddles of the `coset`-th block of that size.
///
/// Position `i` of the result holds the multilinear form of the
/// coefficients in the signed twiddles of that position.
#[verifier::rlimit(50)]
pub fn fft(
    values: &mut Vec<PackedBaseField>,
    twiddle_dbl: &Vec<Vec<u32>>,
    coset: usize,
    log_n_elements: u32,
)
    requires
        MIN_FFT_LOG_SIZE <= log_n_elements <= MAX_FFT_LOG_SIZE,
        old(values).len() * 16 == pow2(log_n_elements as nat),
        lanes_wf(old(values)@),
        table_wf(twiddle_dbl@, log_n_elements as nat, coset as int),
    ensures
        final(values).len() == old(values).len(),
        lanes_wf(final(values)@),
        flat(final(values)@) == fft_spec(
            flat(old(values)@),
            log_n_elements as nat,
            chunk_twiddles(twiddle_dbl@, log_n_elements as nat, coset as int),
        ),
        forall|i: int|
            0 <= i < pow2(log_n_elements as nat) ==> #[trigger] flat(final(values)@)[i]
                == twiddle_eval(
                logical_layout(flat(old(values)@), log_n_elements as nat),
                chunk_twiddles(twiddle_dbl@, log_n_elements as nat, coset as int),
                log_n_elements as nat,
                i,
            ),
{
    let f: u32 = log_n_elements;
    let ghost tws = chunk_twiddles(twiddle_dbl@, f as nat, coset as int);
    let ghost v0 = flat(values@);
    let ghost start = logical_layout(v0, f as nat);
    proof {
        lemma2_to64();
        lemma_pow2_sum(4, (f - 4) as nat);
        lemma_flat_fp(values@);
        lemma_logical_layout(v0, f as nat);
    }
    if f > CACHED_FFT_LOG_SIZE {
        let t: Vec<PackedBaseField> = transpose_vecs(values, f - 4);
        *values = t;
    }
    let mut l: u32 = f;
    while l > 0
        invariant
            l <= f,
            MIN_FFT_LOG_SIZE <= f <= MAX_FFT_LOG_SIZE,
            values.len() * 16 == pow2(f as nat),
            lanes_wf(values@),
            table_wf(twiddle_dbl@, f as nat, coset as int),
            tws == chunk_twiddles(twiddle_dbl@, f as nat, coset as int),
            flat(values@) == fft_range(start, f as nat, l as nat, tws),
        decreases l,
    {
        l = l - 1;
        let count: usize = pow2_usize(f - 1 - l);
        let layer: &Vec<u32> = &twiddle_dbl[l as usize];
        proof {
            assert(twiddles_wf(twiddle_dbl@[l as int]@, coset * count, count as nat));
            assert(tws[l as int] == layer_twiddles(layer@, coset * count, count as nat));
        }
        let ghost before = flat(values@);
        let layer_len: usize = layer.len();
        assert(coset * count + count <= layer_len);
        let off: usize = coset * count;
        if l >= 4 {
            layer_across(values, l, layer, off, f, false);
        } else {
            layer_vecwise(values, l, layer, off, f, false);
        }
        proof {
            assert(layer_spec(before, l as nat, tws[l as int], false) =~= fwd_layer(
                before,
                l as nat,
                tws[l as int],
            ));
        }
    }
    proof {
        assert forall|i: int| 0 <= i < pow2(f as nat) implies #[trigger] flat(values@)[i]
            == twiddle_eval(start, tws, f as nat, i) by {
            lemma_fft_eval(start, tws, f as nat, i);
        }
    }
}

/// The forward twiddles of the domain: for each layer, the doubled values
/// that the butterflies of that layer multiply by.
pub fn get_twiddle_dbls(domain: CircleDomain) -> (res: Vec<Vec<u32>>)
    requires
        domain.wf(),
        domain.half_coset.log_size >= 1,
    ensures
        is_twiddle_table(res@, domain),
{
    twiddle_table(domain, false)
}

} // verus!
