//! Pointwise and windowed transforms of whole buffers.
use vstd::prelude::*;
use crate::image::{lemma_sub_fits, Image, ImageView, Raster};
use crate::parallel::{par_row_collect, MaybeSend, MaybeSync};

verus! {

/// The window's pixels fit in its backing storage.
pub proof fn lemma_area_fits<P>(r: Raster<P>)
    requires
        r.wf(),
    ensures
        r.width * r.height <= r.data.len(),
{
    assert(r.width * r.height <= (r.height - 1) * r.stride + r.width) by (nonlinear_arith)
        requires r.height >= 1, r.stride >= r.width;
}

/// A compact buffer whose pixel `(x, y)` is `f` of the view's pixel `(x, y)`.
pub fn map<P: MaybeSync, Q: MaybeSend, F>(img: &ImageView<P>, f: F) -> (r: Image<Q>)
    where
        F: Fn(&P) -> Q + MaybeSync,
    requires
        img.raster().wf(),
        forall|x: int, y: int| img.raster().in_bounds(x, y) ==> f.requires((&#[trigger] img.raster().at(x, y),)),
    ensures
        r.raster().wf(),
        r.raster().width == img.raster().width,
        r.raster().height == img.raster().height,
        r.raster().stride == img.raster().width,
        forall|x: int, y: int| img.raster().in_bounds(x, y) ==>
            f.ensures((&img.raster().at(x, y),), #[trigger] r.raster().at(x, y)),
{
    let w = img.width();
    let h = img.height();
    // The storage length is a usize, which bounds the offsets below.
    let _len = img.data().len();
    proof { lemma_area_fits(img.raster()); }
    let fr = &f;
    let cell = |x: usize, y: usize| -> (q: Q)
        requires
            x < w && y < h,
            img.raster().wf(),
            w == img.raster().width && h == img.raster().height,
            forall|x: int, y: int| img.raster().in_bounds(x, y) ==> fr.requires((&#[trigger] img.raster().at(x, y),)),
        ensures
            fr.ensures((&img.raster().at(x as int, y as int),), q),
        {
            let p = img.get(x, y);
            assert(img.raster().in_bounds(x as int, y as int));
            assert(fr.requires((&img.raster().at(x as int, y as int),)));
            fr(p)
        };
    let data = par_row_collect(w, h, cell);
    proof {
        assert forall|x: int, y: int| img.raster().in_bounds(x, y) implies
            f.ensures((&img.raster().at(x, y),), #[trigger] Raster { width: w as nat, height: h as nat, stride: w as nat, data: data@ }.at(x, y)) by {
            assert(cell.ensures((x as usize, y as usize), data@[y * w + x]));
        }
    }
    Image::new(w, h, w, data)
}


/// A compact buffer whose pixel `(x, y)` is `f` of the two views' pixels
/// `(x, y)`; the views must have the same size.
pub fn map2<P: MaybeSync, Q: MaybeSync, R: MaybeSend, F>(a: &ImageView<P>, b: &ImageView<Q>, f: F) -> (r: Image<R>)
    where
        F: Fn(&P, &Q) -> R + MaybeSync,
    requires
        a.raster().wf(),
        b.raster().wf(),
        a.raster().width == b.raster().width,
        a.raster().height == b.raster().height,
        forall|x: int, y: int| a.raster().in_bounds(x, y) ==>
            f.requires((&#[trigger] a.raster().at(x, y), &b.raster().at(x, y))),
    ensures
        r.raster().wf(),
        r.raster().width == a.raster().width,
        r.raster().height == a.raster().height,
        r.raster().stride == a.raster().width,
        forall|x: int, y: int| a.raster().in_bounds(x, y) ==>
            f.ensures((&a.raster().at(x, y), &b.raster().at(x, y)), #[trigger] r.raster().at(x, y)),
{
    let w = a.width();
    let h = a.height();
    // The storage length is a usize, which bounds the offsets below.
    let _len = a.data().len();
    proof { lemma_area_fits(a.raster()); }
    let fr = &f;
    let cell = |x: usize, y: usize| -> (v: R)
        requires
            x < w && y < h,
            a.raster().wf(),
            b.raster().wf(),
            w == a.raster().width && h == a.raster().height,
            w == b.raster().width && h == b.raster().height,
            forall|x: int, y: int| a.raster().in_bounds(x, y) ==>
                fr.requires((&#[trigger] a.raster().at(x, y), &b.raster().at(x, y))),
        ensures
            fr.ensures((&a.raster().at(x as int, y as int), &b.raster().at(x as int, y as int)), v),
        {
            let p = a.get(x, y);
            let q = b.get(x, y);
            assert(a.raster().in_bounds(x as int, y as int));
            assert(fr.requires((&a.raster().at(x as int, y as int), &b.raster().at(x as int, y as int))));
            fr(p, q)
        };
    let data = par_row_collect(w, h, cell);
    proof {
        assert forall|x: int, y: int| a.raster().in_bounds(x, y) implies
            f.ensures((&a.raster().at(x, y), &b.raster().at(x, y)),
                #[trigger] Raster { width: w as nat, height: h as nat, stride: w as nat, data: data@ }.at(x, y)) by {
            assert(cell.ensures((x as usize, y as usize), data@[y * w + x]));
        }
    }
    Image::new(w, h, w, data)
}

/// `q` is a value that `f` may return on a view of the `size`×`size` window
/// of `img` whose top-left pixel is `(x, y)`.
pub open spec fn from_window<'a, P, Q, F: Fn(&ImageView<'a, P>) -> Q>(
    f: F,
    img: Raster<P>,
    x: int,
    y: int,
    size: nat,
    q: Q,
) -> bool {
    exists|v: ImageView<'a, P>| v.raster() == img.sub(x, y, size, size) && #[trigger] f.ensures((&v,), q)
}

/// Evaluates `f` on every `size`×`size` window of the view, sliding one
/// pixel at a time, with no padding: the result is `size - 1` pixels
/// narrower and lower than the view, and its pixel `(x, y)` is `f` of the
/// window whose top-left pixel is `(x, y)`. `None` when `size` is zero or
/// the view is narrower or lower than `size`.
pub fn map_windows<'a, P: MaybeSync, Q: MaybeSend, F>(img: &ImageView<'a, P>, size: usize, f: F) -> (r: Option<Image<Q>>)
    where
        F: Fn(&ImageView<'a, P>) -> Q + MaybeSync,
    requires
        img.raster().wf(),
        forall|v: ImageView<'a, P>| #[trigger] f.requires((&v,)),
    ensures
        r.is_some() <==> (size > 0 && size <= img.raster().width && size <= img.raster().height),
        r matches Some(out) ==> {
            &&& out.raster().wf()
            &&& out.raster().width == img.raster().width - size + 1
            &&& out.raster().height == img.raster().height - size + 1
            &&& out.raster().stride == out.raster().width
            &&& forall|x: int, y: int| out.raster().in_bounds(x, y) ==>
                from_window(f, img.raster(), x, y, size as nat, #[trigger] out.raster().at(x, y))
        },
{
    let w = img.width();
    let h = img.height();
    if size == 0 || size > w || size > h {
        return None;
    }
    let out_w = w - (size - 1);
    let out_h = h - (size - 1);
    // The storage length is a usize, which bounds the offsets below.
    let _len = img.data().len();
    proof {
        lemma_area_fits(img.raster());
        assert(out_w * out_h <= w * h) by (nonlinear_arith) requires out_w <= w, out_h <= h;
    }
    let fr = &f;
    let cell = |x: usize, y: usize| -> (q: Q)
        requires
            x < out_w && y < out_h,
            img.raster().wf(),
            w == img.raster().width && h == img.raster().height,
            out_w == w - (size - 1) && out_h == h - (size - 1),
            size > 0,
            forall|v: ImageView<'a, P>| #[trigger] fr.requires((&v,)),
        ensures
            from_window(*fr, img.raster(), x as int, y as int, size as nat, q),
        {
            let v = img.subview(x, y, size, size).unwrap();
            let q = fr(&v);
            assert(v.raster() == img.raster().sub(x as int, y as int, size as nat, size as nat) && fr.ensures((&v,), q));
            q
        };
    let data = par_row_collect(out_w, out_h, cell);
    let out = Image::new(out_w, out_h, out_w, data);
    proof {
        assert forall|x: int, y: int| out.raster().in_bounds(x, y) implies
            from_window(f, img.raster(), x, y, size as nat, #[trigger] out.raster().at(x, y)) by {
            assert(cell.ensures((x as usize, y as usize), data@[y * out_w + x]));
        }
    }
    Some(out)
}

/// On a field whose pixels all equal `c`, every window that fits holds
/// nothing but `c`: windowed evaluation of a uniform image sees the same
/// samples at every output pixel.
pub proof fn lemma_uniform_windows<P>(img: Raster<P>, c: P, size: nat, x: int, y: int)
    requires
        img.wf(),
        forall|i: int, j: int| img.in_bounds(i, j) ==> #[trigger] img.at(i, j) == c,
        img.fits(x, y, size as int, size as int),
    ensures
        img.sub(x, y, size, size).pixels() == Seq::new(size * size, |k: int| c),
{
    lemma_sub_fits(img, x, y, size, size);
    let win = img.sub(x, y, size, size);
    assert forall|k: int| 0 <= k < size * size implies #[trigger] win.pixels()[k] == c by {
        vstd::arithmetic::div_mod::lemma_mod_pos_bound(k, size as int);
        vstd::arithmetic::div_mod::lemma_div_pos_is_pos(k, size as int);
        vstd::arithmetic::div_mod::lemma_div_by_multiple_is_strongly_ordered(k, (size * size) as int, size as int, size as int);
        vstd::arithmetic::div_mod::lemma_div_by_multiple(size as int, size as int);
        assert(img.in_bounds(x + k % (size as int), y + k / (size as int)));
    }
    assert(win.pixels() =~= Seq::new(size * size, |k: int| c));
}

} // verus!
