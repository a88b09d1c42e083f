//! Threshold and strict 8-neighbour non-maximum suppression over a scalar
//! field, as used by corner detection.
use vstd::prelude::*;
use crate::image::{ImageView, Raster};
use crate::ops::lemma_area_fits;
use crate::parallel::{par_row_collect, MaybeSync};

verus! {

/// `(x + dx, y + dy)` is one of the up to eight cells around `(x, y)` that
/// lie in the field; cells on the field's border have fewer.
pub open spec fn is_neighbour<P>(field: Raster<P>, x: int, y: int, dx: int, dy: int) -> bool {
    &&& -1 <= dx <= 1
    &&& -1 <= dy <= 1
    &&& !(dx == 0 && dy == 0)
    &&& field.in_bounds(x + dx, y + dy)
}

/// Cell `(x, y)` was kept: `keep` said yes to it and `beats` said yes to it
/// against every neighbour that exists.
pub open spec fn accepted<P, G: Fn(&P) -> bool, F: Fn(&P, &P) -> bool>(
    keep: G,
    beats: F,
    field: Raster<P>,
    x: int,
    y: int,
) -> bool {
    &&& keep.ensures((&field.at(x, y),), true)
    &&& forall|dx: int, dy: int| is_neighbour(field, x, y, dx, dy) ==>
        #[trigger] beats.ensures((&field.at(x, y), &field.at(x + dx, y + dy)), true)
}

/// Cell `(x, y)` was dropped: `keep` said no to it, or `beats` said no to
/// it against some neighbour.
pub open spec fn rejected<P, G: Fn(&P) -> bool, F: Fn(&P, &P) -> bool>(
    keep: G,
    beats: F,
    field: Raster<P>,
    x: int,
    y: int,
) -> bool {
    ||| keep.ensures((&field.at(x, y),), false)
    ||| exists|dx: int, dy: int| is_neighbour(field, x, y, dx, dy) &&
        #[trigger] beats.ensures((&field.at(x, y), &field.at(x + dx, y + dy)), false)
}

/// Whether `beats` holds of `(x, y)` against each of its neighbours,
/// asked in row-major order and stopping at the first no.
fn beats_neighbours<P, F: Fn(&P, &P) -> bool>(field: &ImageView<P>, x: usize, y: usize, beats: &F) -> (r: bool)
    requires
        field.raster().wf(),
        field.raster().in_bounds(x as int, y as int),
        forall|p: &P, q: &P| #[trigger] beats.requires((p, q)),
    ensures
        r ==> forall|dx: int, dy: int| is_neighbour(field.raster(), x as int, y as int, dx, dy) ==>
            #[trigger] beats.ensures((&field.raster().at(x as int, y as int), &field.raster().at(x + dx, y + dy)), true),
        !r ==> exists|dx: int, dy: int| is_neighbour(field.raster(), x as int, y as int, dx, dy) &&
            #[trigger] beats.ensures((&field.raster().at(x as int, y as int), &field.raster().at(x + dx, y + dy)), false),
{
    let ghost f = field.raster();
    let w = field.width();
    let h = field.height();
    let centre = field.get(x, y);
    let mut j: usize = 0;
    while j < 3
        invariant
            f == field.raster(),
            f.wf(),
            w == f.width && h == f.height,
            f.in_bounds(x as int, y as int),
            *centre == f.at(x as int, y as int),
            forall|p: &P, q: &P| #[trigger] beats.requires((p, q)),
            j <= 3,
            forall|dx: int, dy: int| dy + 1 < j && is_neighbour(f, x as int, y as int, dx, dy) ==>
                #[trigger] beats.ensures((&f.at(x as int, y as int), &f.at(x + dx, y + dy)), true),
        decreases 3 - j,
    {
        let mut i: usize = 0;
        while i < 3
            invariant
                f == field.raster(),
                f.wf(),
                w == f.width && h == f.height,
                f.in_bounds(x as int, y as int),
                *centre == f.at(x as int, y as int),
                forall|p: &P, q: &P| #[trigger] beats.requires((p, q)),
                j < 3,
                i <= 3,
                forall|dx: int, dy: int| (dy + 1 < j || (dy + 1 == j && dx + 1 < i)) && is_neighbour(f, x as int, y as int, dx, dy) ==>
                    #[trigger] beats.ensures((&f.at(x as int, y as int), &f.at(x + dx, y + dy)), true),
            decreases 3 - i,
        {
            let inside_x = if i == 0 { x > 0 } else if i == 1 { true } else { x + 1 < w };
            let inside_y = if j == 0 { y > 0 } else if j == 1 { true } else { y + 1 < h };
            if !(i == 1 && j == 1) && inside_x && inside_y {
                let nx = x + i - 1;
                let ny = y + j - 1;
                let other = field.get(nx, ny);
                let b = beats(centre, other);
                if !b {
                    assert(is_neighbour(f, x as int, y as int, i - 1, j - 1));
                    assert(beats.ensures((&f.at(x as int, y as int), &f.at(x + (i - 1), y + (j - 1))), false));
                    return false;
                }
            }
            i += 1;
        }
        j += 1;
    }
    true
}

/// Whether cell `(x, y)` is kept: `keep` first, then `beats` against each
/// neighbour.
fn is_kept<P, G: Fn(&P) -> bool, F: Fn(&P, &P) -> bool>(field: &ImageView<P>, x: usize, y: usize, keep: &G, beats: &F) -> (r: bool)
    requires
        field.raster().wf(),
        field.raster().in_bounds(x as int, y as int),
        forall|p: &P| #[trigger] keep.requires((p,)),
        forall|p: &P, q: &P| #[trigger] beats.requires((p, q)),
    ensures
        r ==> accepted(*keep, *beats, field.raster(), x as int, y as int),
        !r ==> rejected(*keep, *beats, field.raster(), x as int, y as int),
{
    let v = field.get(x, y);
    keep(v) && beats_neighbours(field, x, y, beats)
}

/// The cells of `field` that `keep` accepts and that beat each of their
/// existing neighbours under `beats`, in row-major order. Rows are examined
/// in parallel.
pub fn local_maxima<P: MaybeSync, G, F>(field: &ImageView<P>, keep: &G, beats: &F) -> (r: Vec<(usize, usize)>)
    where
        G: Fn(&P) -> bool + MaybeSync,
        F: Fn(&P, &P) -> bool + MaybeSync,
    requires
        field.raster().wf(),
        forall|p: &P| #[trigger] keep.requires((p,)),
        forall|p: &P, q: &P| #[trigger] beats.requires((p, q)),
    ensures
        forall|i: int| 0 <= i < r@.len() ==> field.raster().in_bounds((#[trigger] r@[i]).0 as int, r@[i].1 as int),
        forall|i: int| 0 <= i < r@.len() ==> accepted(*keep, *beats, field.raster(), (#[trigger] r@[i]).0 as int, r@[i].1 as int),
        forall|x: usize, y: usize| field.raster().in_bounds(x as int, y as int) ==>
            #[trigger] r@.contains((x, y)) || rejected(*keep, *beats, field.raster(), x as int, y as int),
        forall|i: int, k: int| 0 <= i < k < r@.len() ==>
            (#[trigger] r@[i]).1 < (#[trigger] r@[k]).1 || (r@[i].1 == r@[k].1 && r@[i].0 < r@[k].0),
{
    let w = field.width();
    let h = field.height();
    // The storage length is a usize, which bounds the offsets below.
    let _len = field.data().len();
    proof { lemma_area_fits(field.raster()); }
    let cell = |x: usize, y: usize| -> (r: bool)
        requires
            field.raster().wf(),
            x < w && y < h,
            w == field.raster().width && h == field.raster().height,
            forall|p: &P| #[trigger] keep.requires((p,)),
            forall|p: &P, q: &P| #[trigger] beats.requires((p, q)),
        ensures
            r ==> accepted(*keep, *beats, field.raster(), x as int, y as int),
            !r ==> rejected(*keep, *beats, field.raster(), x as int, y as int),
        {
            is_kept(field, x, y, keep, beats)
        };
    let flags = par_row_collect(w, h, cell);
    proof {
        assert forall|x: usize, y: usize| x < w && y < h implies
            (#[trigger] flags@[y * w + x] ==> accepted(*keep, *beats, field.raster(), x as int, y as int))
            && (!flags@[y * w + x] ==> rejected(*keep, *beats, field.raster(), x as int, y as int)) by {
            assert(cell.ensures((x, y), flags@[y * w + x]));
        }
    }
    let mut r: Vec<(usize, usize)> = Vec::new();
    let mut y: usize = 0;
    while y < h
        invariant
            flags@.len() == w * h,
            w * h <= usize::MAX,
            field.raster().wf(),
            forall|p: &P| #[trigger] keep.requires((p,)),
            forall|p: &P, q: &P| #[trigger] beats.requires((p, q)),
            w == field.raster().width && h == field.raster().height,
            y <= h,
            forall|x: usize, y: usize| x < w && y < h ==>
                (#[trigger] flags@[y * w + x] ==> accepted(*keep, *beats, field.raster(), x as int, y as int))
                && (!flags@[y * w + x] ==> rejected(*keep, *beats, field.raster(), x as int, y as int)),
            forall|i: int| 0 <= i < r@.len() ==> (#[trigger] r@[i]).1 < y && r@[i].0 < w,
            forall|i: int| 0 <= i < r@.len() ==> accepted(*keep, *beats, field.raster(), (#[trigger] r@[i]).0 as int, r@[i].1 as int),
            forall|cx: usize, cy: usize| cx < w && cy < y ==>
                #[trigger] r@.contains((cx, cy)) || rejected(*keep, *beats, field.raster(), cx as int, cy as int),
            forall|i: int, k: int| 0 <= i < k < r@.len() ==>
                (#[trigger] r@[i]).1 < (#[trigger] r@[k]).1 || (r@[i].1 == r@[k].1 && r@[i].0 < r@[k].0),
        decreases h - y,
    {
        let mut x: usize = 0;
        while x < w
            invariant
                flags@.len() == w * h,
                w * h <= usize::MAX,
                field.raster().wf(),
                forall|p: &P| #[trigger] keep.requires((p,)),
                forall|p: &P, q: &P| #[trigger] beats.requires((p, q)),
                w == field.raster().width && h == field.raster().height,
                y < h,
                x <= w,
                forall|x: usize, y: usize| x < w && y < h ==>
                (#[trigger] flags@[y * w + x] ==> accepted(*keep, *beats, field.raster(), x as int, y as int))
                && (!flags@[y * w + x] ==> rejected(*keep, *beats, field.raster(), x as int, y as int)),
                forall|i: int| 0 <= i < r@.len() ==> ((#[trigger] r@[i]).1 < y || (r@[i].1 == y && r@[i].0 < x)) && r@[i].0 < w,
                forall|i: int| 0 <= i < r@.len() ==> accepted(*keep, *beats, field.raster(), (#[trigger] r@[i]).0 as int, r@[i].1 as int),
                forall|cx: usize, cy: usize| (cy < y && cx < w) || (cy == y && cx < x) ==>
                    #[trigger] r@.contains((cx, cy)) || rejected(*keep, *beats, field.raster(), cx as int, cy as int),
                forall|i: int, k: int| 0 <= i < k < r@.len() ==>
                    (#[trigger] r@[i]).1 < (#[trigger] r@[k]).1 || (r@[i].1 == r@[k].1 && r@[i].0 < r@[k].0),
            decreases w - x,
        {
            proof { lemma_cell_index(w as int, h as int, x as int, y as int); }
            let flag = flags[y * w + x];
            let ghost before = r@;
            if flag {
                r.push((x, y));
            }
            proof {
                assert forall|cx: usize, cy: usize| (cy < y && cx < w) || (cy == y && cx < x + 1) implies
                    #[trigger] r@.contains((cx, cy)) || rejected(*keep, *beats, field.raster(), cx as int, cy as int) by {
                    if cy == y && cx == x {
                        if flag {
                            assert(r@[before.len() as int] == (x, y));
                        }
                    } else if before.contains((cx, cy)) {
                        let i = choose|i: int| 0 <= i < before.len() && before[i] == (cx, cy);
                        assert(r@[i] == (cx, cy));
                    }
                }
            }
            x += 1;
        }
        y += 1;
    }
    r
}

proof fn lemma_cell_index(w: int, h: int, x: int, y: int)
    requires
        0 <= x < w,
        0 <= y < h,
    ensures
        y * w + x < w * h,
{
    assert(y * w + x < w * h) by (nonlinear_arith)
        requires 0 <= x < w, 0 <= y < h;
}

} // verus!
