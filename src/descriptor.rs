//! Fixed-size square patches around keypoints.
use vstd::prelude::*;
use crate::image::{ImageView, Raster};
use crate::parallel::{lemma_somes_map, par_filter_map, somes, MaybeSend, MaybeSync};

verus! {

/// The two families of descriptor a feature can carry.
#[derive(Debug, Clone, Copy, PartialEq, Eq, Structural)]
pub enum DescriptorKind {
    Binary,
    Float,
}

/// The samples of the `size`×`size` patch centred on `(cx, cy)`, row-major,
/// or `None` when that patch reaches past an edge of `img`.
pub open spec fn patch_samples<P>(img: Raster<P>, cx: int, cy: int, size: nat) -> Option<Seq<P>> {
    let x = cx - size / 2;
    let y = cy - size / 2;
    if img.fits(x, y, size as int, size as int) {
        Some(img.sub(x, y, size, size).pixels())
    } else {
        None
    }
}

/// What sampling centre `k` of `centres` yields: its index with its
/// samples, or nothing.
pub open spec fn indexed_sample<P>(img: Raster<P>, centres: Seq<(isize, isize)>, size: nat, k: int) -> Option<(usize, Seq<P>)> {
    match patch_samples(img, centres[k].0 as int, centres[k].1 as int, size) {
        Some(s) => Some((k as usize, s)),
        None => None,
    }
}

/// What sampling every centre yields, in the centres' order.
pub open spec fn all_samples<P>(img: Raster<P>, centres: Seq<(isize, isize)>, size: nat) -> Seq<(usize, Seq<P>)> {
    somes(Seq::new(centres.len(), |k: int| indexed_sample(img, centres, size, k)))
}

/// How many of `centres` have a patch that reaches past an edge.
pub open spec fn count_outside<P>(img: Raster<P>, centres: Seq<(isize, isize)>, size: nat) -> nat
    decreases centres.len(),
{
    if centres.len() == 0 {
        0
    } else {
        count_outside(img, centres.drop_last(), size) + if patch_samples(
            img, centres.last().0 as int, centres.last().1 as int, size).is_none() { 1nat } else { 0nat }
    }
}

/// Keypoints near the border are dropped, and only they: the samples kept
/// plus the centres whose patch reaches past an edge make up all centres.
pub proof fn lemma_border_discard<P>(img: Raster<P>, centres: Seq<(isize, isize)>, size: nat)
    ensures
        all_samples(img, centres, size).len() + count_outside(img, centres, size) == centres.len(),
    decreases centres.len(),
{
    if centres.len() > 0 {
        let init = centres.drop_last();
        lemma_border_discard(img, init, size);
        let whole = Seq::new(centres.len(), |k: int| indexed_sample(img, centres, size, k));
        let part = Seq::new(init.len(), |k: int| indexed_sample(img, init, size, k));
        assert(whole.drop_last() =~= part);
    }
}

/// Cuts fixed `N`×`N` patches, `L == N * N` samples each, out of an image.
#[derive(Debug, Clone)]
pub struct PatchExtractor<const N: usize, const L: usize> {
    normalize: bool,
}

impl<const N: usize, const L: usize> PatchExtractor<N, L> {
    /// Whether descriptors are rescaled to zero mean and unit deviation.
    pub closed spec fn normalizes_spec(&self) -> bool {
        self.normalize
    }

    pub fn new(normalize: bool) -> (r: Self)
        requires
            N % 2 == 1,
            N >= 3,
            L == N * N,
        ensures
            r.normalizes_spec() == normalize,
    {
        PatchExtractor { normalize }
    }

    pub fn patch_size(&self) -> (r: usize)
        ensures
            r == N,
    {
        N
    }

    pub fn descriptor_length(&self) -> (r: usize)
        ensures
            r == L,
    {
        L
    }

    pub fn normalizes(&self) -> (r: bool)
        ensures
            r == self.normalizes_spec(),
    {
        self.normalize
    }

    /// The `N * N` samples of the patch centred on pixel `(cx, cy)`,
    /// row-major; `None` when the patch reaches past an edge.
    pub fn sample<P: Copy>(&self, image: &ImageView<P>, cx: isize, cy: isize) -> (r: Option<Vec<P>>)
        requires
            image.raster().wf(),
        ensures
            r.is_some() == patch_samples(image.raster(), cx as int, cy as int, N as nat).is_some(),
            r matches Some(v) ==> patch_samples(image.raster(), cx as int, cy as int, N as nat) == Some(v@),
    {
        match image.patch(cx, cy, N) {
            Some(p) => Some(p.pixels()),
            None => None,
        }
    }

    /// Samples the patch of every centre, in parallel, keeping the centres
    /// whose patch lies inside the image: each kept entry holds the
    /// centre's index and its samples, in the centres' order.
    pub fn sample_all<P: Copy + MaybeSync + MaybeSend>(&self, image: &ImageView<P>, centres: &Vec<(isize, isize)>) -> (r: Vec<(usize, Vec<P>)>)
        requires
            image.raster().wf(),
        ensures
            r@.map_values(|e: (usize, Vec<P>)| (e.0, e.1@)) == all_samples(image.raster(), centres@, N as nat),
    {
        let n = centres.len();
        let mut items: Vec<(usize, (isize, isize))> = Vec::with_capacity(n);
        let mut k: usize = 0;
        while k < n
            invariant
                n == centres@.len(),
                k <= n,
                items@.len() == k,
                forall|j: int| 0 <= j < k ==> #[trigger] items@[j] == (j as usize, centres@[j]),
            decreases n - k,
        {
            items.push((k, centres[k]));
            k += 1;
        }
        let ghost img = image.raster();
        let ghost cs = centres@;
        let ghost listed = items@;
        let one = |item: (usize, (isize, isize))| -> (o: Option<(usize, Vec<P>)>)
            requires
                image.raster().wf(),
            ensures
                o.is_some() == patch_samples(image.raster(), item.1.0 as int, item.1.1 as int, N as nat).is_some(),
                o matches Some(e) ==> e.0 == item.0
                    && patch_samples(image.raster(), item.1.0 as int, item.1.1 as int, N as nat) == Some(e.1@),
            {
                match self.sample(image, item.1.0, item.1.1) {
                    Some(v) => Some((item.0, v)),
                    None => None,
                }
            };
        let r = par_filter_map(items, one);
        proof {
            let outs = choose|outs: Seq<Option<(usize, Vec<P>)>>| {
                &&& outs.len() == listed.len()
                &&& forall|k: int| 0 <= k < outs.len() ==> one.ensures((listed[k],), #[trigger] outs[k])
                &&& r@ == somes(outs)
            };
            let g = |e: (usize, Vec<P>)| (e.0, e.1@);
            let expected = Seq::new(cs.len(), |k: int| indexed_sample(img, cs, N as nat, k));
            assert forall|k: int| 0 <= k < outs.len() implies #[trigger] expected[k] == match outs[k] {
                Some(u) => Some(g(u)),
                None => None,
            } by {
                assert(one.ensures((listed[k],), outs[k]));
            }
            lemma_somes_map(outs, expected, g);
            assert(r@.map_values(|e: (usize, Vec<P>)| (e.0, e.1@)) =~= somes(outs).map_values(g));
        }
        r
    }
}

} // verus!
