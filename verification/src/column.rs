//! Columns of field elements, held as vectors of sixteen lanes.
use crate::fft::lanes::{flat, lanes_wf, vec_wf, PackedBaseField};
use crate::fields::m31::{M31, P};
use vstd::prelude::*;

verus! {

/// The lanes of the vectors as one slice of field elements, in order.
///
/// Calls `bytemuck::cast_slice` from `[u32; 16]` to `u32`. Both types have
/// the alignment of `u32` and sixteen elements fill one array, so the cast
/// never fails; element `i` of the result is lane `i % 16` of vector
/// `i / 16`.
#[verifier::external_body]
pub(crate) fn cast_lanes(data: &[PackedBaseField]) -> (r: &[u32])
    ensures
        r@.len() == 16 * data@.len(),
        forall|i: int| 0 <= i < 16 * data@.len() ==> #[trigger] r@[i] == data@[i / 16][i % 16],
{
    bytemuck::cast_slice::<PackedBaseField, u32>(data)
}

/// A column of field elements whose length is a multiple of sixteen.
#[derive(Clone, Debug, PartialEq, Eq)]
pub struct BaseFieldVec {
    pub data: Vec<PackedBaseField>,
    pub length: usize,
}

impl View for BaseFieldVec {
    type V = Seq<int>;

    open spec fn view(&self) -> Seq<int> {
        flat(self.data@)
    }
}

impl BaseFieldVec {
    /// The length counts the lanes, and every lane is a canonical field
    /// element.
    pub open spec fn wf(&self) -> bool {
        self.length == 16 * self.data.len() && lanes_wf(self.data@)
    }

    /// The column of the given elements.
    pub fn from_vec(values: Vec<M31>) -> (r: Self)
        requires
            values.len() % 16 == 0,
            forall|i: int| 0 <= i < values.len() ==> (#[trigger] values@[i]).wf(),
        ensures
            r.wf(),
            r.length == values.len(),
            r@.len() == values.len(),
            forall|i: int| 0 <= i < values.len() ==> #[trigger] r@[i] == values@[i]@,
    {
        let n: usize = values.len();
        let n_vecs: usize = n / 16;
        let mut data: Vec<PackedBaseField> = Vec::with_capacity(n_vecs);
        let mut u: usize = 0;
        while u < n_vecs
            invariant
                u <= n_vecs,
                n == values.len(),
                n == 16 * n_vecs,
                data.len() == u,
                forall|i: int| 0 <= i < values.len() ==> (#[trigger] values@[i]).wf(),
                forall|w: int, j: int|
                    0 <= w < u && 0 <= j < 16 ==> (#[trigger] data@[w][j]) == values@[16 * w + j].0,
            decreases n_vecs - u,
        {
            let mut lane: PackedBaseField = [0u32;16];
            let mut j: usize = 0;
            while j < 16
                invariant
                    j <= 16,
                    u < n_vecs,
                    n == values.len(),
                    n == 16 * n_vecs,
                    forall|k: int| 0 <= k < j ==> (#[trigger] lane[k]) == values@[16 * u + k].0,
                decreases 16 - j,
            {
                lane[j] = values[16 * u + j].0;
                j = j + 1;
            }
            data.push(lane);
            u = u + 1;
        }
        let r = BaseFieldVec { data, length: n };
        proof {
            assert forall|w: int| 0 <= w < r.data@.len() implies vec_wf(#[trigger] r.data@[w]) by {
                assert forall|j: int| 0 <= j < 16 implies (#[trigger] r.data@[w][j]) < P by {
                    assert(values@[16 * w + j].wf());
                }
            }
            assert forall|i: int| 0 <= i < values.len() implies #[trigger] r@[i] == values@[i]@ by {
                assert(r.data@[i / 16][i % 16] == values@[16 * (i / 16) + i % 16].0);
            }
        }
        r
    }

    /// The elements of the column, in order.
    pub fn to_vec(&self) -> (r: Vec<M31>)
        requires
            self.wf(),
        ensures
            r.len() == self.length,
            forall|i: int| 0 <= i < r.len() ==> (#[trigger] r@[i]).wf() && r@[i]@ == self@[i],
    {
        let elems: &[u32] = cast_lanes(self.data.as_slice());
        let n: usize = self.length;
        let mut out: Vec<M31> = Vec::with_capacity(n);
        let mut i: usize = 0;
        while i < n
            invariant
                i <= n,
                n == self.length,
                self.wf(),
                elems@.len() == n,
                forall|k: int| 0 <= k < n ==> #[trigger] elems@[k] == self.data@[k / 16][k % 16],
                out.len() == i,
                forall|k: int| 0 <= k < i ==> (#[trigger] out@[k]).wf() && out@[k]@ == self@[k],
            decreases n - i,
        {
            proof {
                assert(vec_wf(self.data@[i as int / 16]));
                assert(self.data@[i as int / 16][i as int % 16] < P);
            }
            out.push(M31(elems[i]));
            i = i + 1;
        }
        out
    }

    /// The number of elements.
    pub fn len(&self) -> (r: usize)
        ensures
            r == self.length,
    {
        self.length
    }

    /// The element at position `i`.
    pub fn at(&self, i: usize) -> (r: M31)
        requires
            self.wf(),
            i < self.length,
        ensures
            r.wf(),
            r@ == self@[i as int],
    {
        proof {
            assert(vec_wf(self.data@[i as int / 16]));
            assert(self.data@[i as int / 16][i as int % 16] < P);
        }
        M31(self.data[i / 16][i % 16])
    }
}

} // verus!
