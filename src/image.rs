use vstd::prelude::*;
use crate::pixel::Gray;

verus! {

/// The mathematical picture of a strided buffer: its geometry and the
/// backing sequence, whose element `(x, y)` lies at `y * stride + x`.
pub ghost struct Raster<P> {
    pub width: nat,
    pub height: nat,
    pub stride: nat,
    pub data: Seq<P>,
}

impl<P> Raster<P> {
    /// Offset of pixel `(x, y)` in the backing sequence.
    pub open spec fn offset(self, x: int, y: int) -> int {
        y * self.stride + x
    }

    /// The window `(x, y)` with `0 <= x < width` and `0 <= y < height`.
    pub open spec fn in_bounds(self, x: int, y: int) -> bool {
        0 <= x < self.width && 0 <= y < self.height
    }

    /// The pixel at `(x, y)`.
    pub open spec fn at(self, x: int, y: int) -> P {
        self.data[self.offset(x, y)]
    }

    /// Geometry that every buffer and view keeps: a non-empty window whose
    /// rows fit in the stride, and a backing sequence reaching the last
    /// pixel of the last row.
    pub open spec fn wf(self) -> bool {
        &&& self.width > 0
        &&& self.height > 0
        &&& self.stride >= self.width
        &&& (self.height - 1) * self.stride + self.width <= self.data.len()
    }

    /// The pixels of the window in row-major order, padding skipped.
    pub open spec fn pixels(self) -> Seq<P> {
        Seq::new(self.width * self.height, |i: int| self.at(i % self.width as int, i / self.width as int))
    }

    /// The rows of the window, each `width` pixels long.
    pub open spec fn rows(self) -> Seq<Seq<P>> {
        Seq::new(self.height, |y: int| Seq::new(self.width, |x: int| self.at(x, y)))
    }

    /// The `w`×`h` rectangle whose top-left pixel is `(x, y)`: same stride,
    /// backing sequence re-based at that pixel.
    pub open spec fn sub(self, x: int, y: int, w: nat, h: nat) -> Raster<P> {
        Raster { width: w, height: h, stride: self.stride, data: self.data.subrange(self.offset(x, y), self.data.len() as int) }
    }

    /// Whether a `w`×`h` rectangle at `(x, y)` is non-empty and lies in the window.
    pub open spec fn fits(self, x: int, y: int, w: int, h: int) -> bool {
        &&& w > 0
        &&& h > 0
        &&& 0 <= x
        &&& 0 <= y
        &&& x + w <= self.width
        &&& y + h <= self.height
    }
}

/// An owned strided pixel buffer.
#[derive(Debug)]
pub struct Image<P> {
    width: usize,
    height: usize,
    stride: usize,
    data: Vec<P>,
}

impl<P> Image<P> {
    /// The buffer's geometry and backing sequence.
    pub closed spec fn raster(&self) -> Raster<P> {
        Raster { width: self.width as nat, height: self.height as nat, stride: self.stride as nat, data: self.data@ }
    }
}

proof fn lemma_offset_in_data(width: nat, height: nat, stride: nat, x: int, y: int)
    requires
        0 <= x < width,
        0 <= y < height,
        stride >= width,
    ensures
        y * stride + x < (height - 1) * stride + width,
        0 <= y * stride + x,
{
    assert(y * stride <= (height - 1) * stride) by (nonlinear_arith)
        requires 0 <= y <= height - 1, stride >= 0;
    assert(0 <= y * stride) by (nonlinear_arith)
        requires 0 <= y, stride >= 0;
}

/// A rectangle that fits keeps the parent's invariant and reads the
/// parent's pixels, shifted by its corner.
pub proof fn lemma_sub_fits<P>(r: Raster<P>, x: int, y: int, w: nat, h: nat)
    requires
        r.wf(),
        r.fits(x, y, w as int, h as int),
    ensures
        r.sub(x, y, w, h).wf(),
        0 <= r.offset(x, y) <= r.data.len(),
        forall|i: int, j: int| 0 <= i < w && 0 <= j < h ==>
            #[trigger] r.sub(x, y, w, h).at(i, j) == r.at(x + i, y + j),
{
    let s = r.stride as int;
    assert((y + h - 1) * s <= (r.height - 1) * s) by (nonlinear_arith)
        requires y + h <= r.height, s >= 0;
    assert(0 <= y * s) by (nonlinear_arith) requires 0 <= y, s >= 0;
    assert((y + h - 1) * s == y * s + (h - 1) * s) by (nonlinear_arith);
    assert forall|i: int, j: int| 0 <= i < w && 0 <= j < h implies
        #[trigger] r.sub(x, y, w, h).at(i, j) == r.at(x + i, y + j) by {
        assert((y + j) * s == y * s + j * s) by (nonlinear_arith);
        assert(j * s <= (h - 1) * s) by (nonlinear_arith) requires j <= h - 1, s >= 0;
        assert(0 <= j * s) by (nonlinear_arith) requires 0 <= j, s >= 0;
    }
}

proof fn lemma_full_len(height: nat, stride: nat, width: nat)
    requires
        height > 0,
        stride >= width,
    ensures
        (height - 1) * stride + width <= stride * height,
{
    assert((height - 1) * stride + stride == stride * height) by (nonlinear_arith)
        requires height > 0;
}

impl<P> Image<P> {
    /// Wraps `data` as a `width`×`height` buffer with row pitch `stride`.
    pub fn new(width: usize, height: usize, stride: usize, data: Vec<P>) -> (img: Self)
        requires
            width > 0,
            height > 0,
            stride >= width,
            data@.len() >= stride * height,
        ensures
            img.raster().wf(),
            img.raster() == (Raster { width: width as nat, height: height as nat, stride: stride as nat, data: data@ }),
    {
        proof { lemma_full_len(height as nat, stride as nat, width as nat); }
        Image { width, height, stride, data }
    }

    pub fn width(&self) -> (w: usize)
        ensures
            w == self.raster().width,
    {
        self.width
    }

    pub fn height(&self) -> (h: usize)
        ensures
            h == self.raster().height,
    {
        self.height
    }

    pub fn stride(&self) -> (s: usize)
        ensures
            s == self.raster().stride,
    {
        self.stride
    }

    /// The whole backing storage, padding included.
    pub fn data(&self) -> (d: &[P])
        ensures
            d@ == self.raster().data,
    {
        self.data.as_slice()
    }

    /// Offset of pixel `(x, y)` in the backing storage.
    pub fn index(&self, x: usize, y: usize) -> (i: usize)
        requires
            self.raster().wf(),
            self.raster().in_bounds(x as int, y as int),
        ensures
            i == self.raster().offset(x as int, y as int),
            i < self.raster().data.len(),
    {
        // The storage length is a usize, which bounds the offsets below.
        let _len = self.data.len();
        proof {
            lemma_offset_in_data(self.raster().width, self.raster().height, self.raster().stride, x as int, y as int);
        }
        y * self.stride + x
    }

    /// The pixel at `(x, y)`.
    pub fn get(&self, x: usize, y: usize) -> (p: &P)
        requires
            self.raster().wf(),
            self.raster().in_bounds(x as int, y as int),
        ensures
            *p == self.raster().at(x as int, y as int),
    {
        let idx = self.index(x, y);
        &self.data[idx]
    }

    /// The whole backing storage, writable; the geometry stays.
    pub fn data_mut(&mut self) -> (d: &mut [P])
        requires
            old(self).raster().wf(),
        ensures
            d@ == old(self).raster().data,
            final(self).raster() == (Raster { data: final(d)@, ..old(self).raster() }),
    {
        self.data.as_mut_slice()
    }

    /// The pixel at `(x, y)`, writable.
    pub fn get_mut(&mut self, x: usize, y: usize) -> (p: &mut P)
        requires
            old(self).raster().wf(),
            old(self).raster().in_bounds(x as int, y as int),
        ensures
            *p == old(self).raster().at(x as int, y as int),
            final(self).raster() == (Raster {
                data: old(self).raster().data.update(old(self).raster().offset(x as int, y as int), *final(p)),
                ..old(self).raster()
            }),
    {
        let idx = self.index(x, y);
        &mut self.data[idx]
    }

    /// A read-only view of the whole buffer.
    pub fn view(&self) -> (v: ImageView<'_, P>)
        requires
            self.raster().wf(),
        ensures
            v.raster() == self.raster(),
    {
        ImageView { width: self.width, height: self.height, stride: self.stride, data: self.data.as_slice() }
    }

    /// A writable view of the whole buffer.
    pub fn view_mut(&mut self) -> (v: ImageViewMut<'_, P>)
        requires
            old(self).raster().wf(),
        ensures
            v.raster() == old(self).raster(),
            final(self).raster().width == old(self).raster().width,
            final(self).raster().height == old(self).raster().height,
            final(self).raster().stride == old(self).raster().stride,
    {
        ImageViewMut {
            width: self.width,
            height: self.height,
            stride: self.stride,
            data: self.data.as_mut_slice(),
        }
    }
}


/// A borrowed, read-only window into someone else's buffer.
#[derive(Debug)]
pub struct ImageView<'a, P> {
    width: usize,
    height: usize,
    stride: usize,
    data: &'a [P],
}

impl<'a, P> ImageView<'a, P> {
    /// The buffer's geometry and backing sequence.
    pub closed spec fn raster(&self) -> Raster<P> {
        Raster { width: self.width as nat, height: self.height as nat, stride: self.stride as nat, data: self.data@ }
    }
}

/// A borrowed, writable window into someone else's buffer.
#[derive(Debug)]
pub struct ImageViewMut<'a, P> {
    width: usize,
    height: usize,
    stride: usize,
    data: &'a mut [P],
}

impl<'a, P> ImageViewMut<'a, P> {
    /// The buffer's geometry and backing sequence.
    pub closed spec fn raster(&self) -> Raster<P> {
        Raster { width: self.width as nat, height: self.height as nat, stride: self.stride as nat, data: self.data@ }
    }
}


impl<P: Copy> Image<P> {
    /// A compact `width`×`height` buffer with every pixel set to `value`.
    pub fn filled(width: usize, height: usize, value: P) -> (img: Self)
        requires
            width > 0,
            height > 0,
            width * height <= usize::MAX,
        ensures
            img.raster().wf(),
            img.raster().width == width,
            img.raster().height == height,
            img.raster().stride == width,
            img.raster().data == Seq::new((width * height) as nat, |i: int| value),
    {
        let n = width * height;
        let mut data: Vec<P> = Vec::with_capacity(n);
        let mut i: usize = 0;
        while i < n
            invariant
                i <= n,
                data@ == Seq::new(i as nat, |k: int| value),
            decreases n - i,
        {
            data.push(value);
            i += 1;
            proof { assert(data@ =~= Seq::new(i as nat, |k: int| value)); }
        }
        proof { assert(data@.len() == width * height); }
        Image::new(width, height, width, data)
    }
}

impl<'a, P> ImageView<'a, P> {
    /// Views `data` as a `width`×`height` window with row pitch `stride`.
    pub fn new(data: &'a [P], width: usize, height: usize, stride: usize) -> (v: Self)
        requires
            width > 0,
            height > 0,
            stride >= width,
            data@.len() >= stride * height,
        ensures
            v.raster().wf(),
            v.raster() == (Raster { width: width as nat, height: height as nat, stride: stride as nat, data: data@ }),
    {
        proof { lemma_full_len(height as nat, stride as nat, width as nat); }
        ImageView { width, height, stride, data }
    }

    pub fn width(&self) -> (w: usize)
        ensures
            w == self.raster().width,
    {
        self.width
    }

    pub fn height(&self) -> (h: usize)
        ensures
            h == self.raster().height,
    {
        self.height
    }

    pub fn stride(&self) -> (s: usize)
        ensures
            s == self.raster().stride,
    {
        self.stride
    }

    /// The borrowed storage, starting at the window's first pixel.
    pub fn data(&self) -> (d: &'a [P])
        ensures
            d@ == self.raster().data,
    {
        self.data
    }

    /// Offset of pixel `(x, y)` in the borrowed storage.
    pub fn index(&self, x: usize, y: usize) -> (i: usize)
        requires
            self.raster().wf(),
            self.raster().in_bounds(x as int, y as int),
        ensures
            i == self.raster().offset(x as int, y as int),
            i < self.raster().data.len(),
    {
        // The storage length is a usize, which bounds the offsets below.
        let _len = self.data.len();
        proof {
            lemma_offset_in_data(self.raster().width, self.raster().height, self.raster().stride, x as int, y as int);
        }
        y * self.stride + x
    }

    /// The pixel at `(x, y)`.
    pub fn get(&self, x: usize, y: usize) -> (p: &'a P)
        requires
            self.raster().wf(),
            self.raster().in_bounds(x as int, y as int),
        ensures
            *p == self.raster().at(x as int, y as int),
    {
        let idx = self.index(x, y);
        &self.data[idx]
    }

    /// The `width`×`height` rectangle at `(x, y)`, sharing this view's
    /// storage and stride; `None` when it is empty or leaves the window.
    pub fn subview(&self, x: usize, y: usize, width: usize, height: usize) -> (r: Option<ImageView<'a, P>>)
        requires
            self.raster().wf(),
        ensures
            r.is_some() <==> self.raster().fits(x as int, y as int, width as int, height as int),
            r matches Some(v) ==> {
                &&& v.raster() == self.raster().sub(x as int, y as int, width as nat, height as nat)
                &&& v.raster().wf()
                &&& forall|i: int, j: int| v.raster().in_bounds(i, j) ==>
                    #[trigger] v.raster().at(i, j) == self.raster().at(x + i, y + j)
            },
    {
        if width == 0 || height == 0 {
            return None;
        }
        if width > self.width || x > self.width - width || height > self.height || y > self.height - height {
            return None;
        }
        let len = self.data.len();
        proof {
            lemma_sub_fits(self.raster(), x as int, y as int, width as nat, height as nat);
            lemma_offset_in_data(self.raster().width, self.raster().height, self.raster().stride, x as int, y as int);
        }
        let offset = y * self.stride + x;
        let data = vstd::slice::slice_subrange(self.data, offset, len);
        Some(ImageView { width, height, stride: self.stride, data })
    }

    /// The `size`×`size` square centred on pixel `(cx, cy)`; `None` when it
    /// would reach past any edge.
    pub fn patch(&self, cx: isize, cy: isize, size: usize) -> (r: Option<ImageView<'a, P>>)
        requires
            self.raster().wf(),
        ensures
            r.is_some() <==> self.raster().fits(
                cx - size / 2, cy - size / 2, size as int, size as int),
            r matches Some(v) ==> {
                &&& v.raster() == self.raster().sub(cx - size / 2, cy - size / 2, size as nat, size as nat)
                &&& v.raster().wf()
                &&& forall|i: int, j: int| v.raster().in_bounds(i, j) ==>
                    #[trigger] v.raster().at(i, j) == self.raster().at(cx - size / 2 + i, cy - size / 2 + j)
            },
    {
        let half = size / 2;
        if cx < 0 || cy < 0 || (cx as usize) < half || (cy as usize) < half {
            return None;
        }
        self.subview(cx as usize - half, cy as usize - half, size, size)
    }
}

impl<'a, P> ImageViewMut<'a, P> {
    /// Views `data` as a writable `width`×`height` window with row pitch `stride`.
    pub fn new(data: &'a mut [P], width: usize, height: usize, stride: usize) -> (v: Self)
        requires
            width > 0,
            height > 0,
            stride >= width,
            old(data)@.len() >= stride * height,
        ensures
            v.raster().wf(),
            v.raster() == (Raster { width: width as nat, height: height as nat, stride: stride as nat, data: old(data)@ }),
    {
        proof { lemma_full_len(height as nat, stride as nat, width as nat); }
        ImageViewMut { width, height, stride, data }
    }

    pub fn width(&self) -> (w: usize)
        ensures
            w == self.raster().width,
    {
        self.width
    }

    pub fn height(&self) -> (h: usize)
        ensures
            h == self.raster().height,
    {
        self.height
    }

    pub fn stride(&self) -> (s: usize)
        ensures
            s == self.raster().stride,
    {
        self.stride
    }

    /// The borrowed storage, read-only.
    pub fn data(&self) -> (d: &[P])
        ensures
            d@ == self.raster().data,
    {
        self.data
    }

    /// The borrowed storage, writable; the geometry stays.
    pub fn data_mut(&mut self) -> (d: &mut [P])
        ensures
            d@ == old(self).raster().data,
            final(self).raster() == (Raster { data: final(d)@, ..old(self).raster() }),
    {
        &mut *self.data
    }

    /// Offset of pixel `(x, y)` in the borrowed storage.
    pub fn index(&self, x: usize, y: usize) -> (i: usize)
        requires
            self.raster().wf(),
            self.raster().in_bounds(x as int, y as int),
        ensures
            i == self.raster().offset(x as int, y as int),
            i < self.raster().data.len(),
    {
        // The storage length is a usize, which bounds the offsets below.
        let _len = self.data.len();
        proof {
            lemma_offset_in_data(self.raster().width, self.raster().height, self.raster().stride, x as int, y as int);
        }
        y * self.stride + x
    }

    /// The pixel at `(x, y)`.
    pub fn get(&self, x: usize, y: usize) -> (p: &P)
        requires
            self.raster().wf(),
            self.raster().in_bounds(x as int, y as int),
        ensures
            *p == self.raster().at(x as int, y as int),
    {
        let idx = self.index(x, y);
        &self.data[idx]
    }

    /// The pixel at `(x, y)`, writable.
    pub fn get_mut(&mut self, x: usize, y: usize) -> (p: &mut P)
        requires
            old(self).raster().wf(),
            old(self).raster().in_bounds(x as int, y as int),
        ensures
            *p == old(self).raster().at(x as int, y as int),
            final(self).raster() == (Raster {
                data: old(self).raster().data.update(old(self).raster().offset(x as int, y as int), *final(p)),
                ..old(self).raster()
            }),
    {
        let idx = self.index(x, y);
        &mut self.data[idx]
    }
}


impl<'a, P: Copy> ImageView<'a, P> {
    /// The window's pixels in row-major order, padding skipped.
    pub fn pixels(&self) -> (r: Vec<P>)
        requires
            self.raster().wf(),
        ensures
            r@ == self.raster().pixels(),
    {
        let w = self.width;
        let h = self.height;
        let mut r: Vec<P> = Vec::new();
        let mut y: usize = 0;
        while y < h
            invariant
                self.raster().wf(),
                w == self.raster().width && h == self.raster().height,
                y <= h,
                r@ =~= self.raster().pixels().take(y * w),
            decreases h - y,
        {
            let mut x: usize = 0;
            while x < w
                invariant
                    self.raster().wf(),
                    w == self.raster().width && h == self.raster().height,
                    y < h,
                    x <= w,
                    r@ =~= self.raster().pixels().take(y * w + x),
                decreases w - x,
            {
                proof { lemma_row_major_index(w as int, h as int, x as int, y as int); }
                r.push(*self.get(x, y));
                proof { assert(r@ =~= self.raster().pixels().take(y * w + x + 1)); }
                x += 1;
            }
            proof { assert((y + 1) * w == y * w + w) by (nonlinear_arith); }
            y += 1;
        }
        proof {
            assert(h * w == w * h) by (nonlinear_arith);
            assert(r@ =~= self.raster().pixels());
        }
        r
    }

    /// The window's rows, top to bottom, each `width` pixels long.
    pub fn rows(&self) -> (r: Vec<&'a [P]>)
        requires
            self.raster().wf(),
        ensures
            r@.len() == self.raster().height,
            forall|y: int| 0 <= y < r@.len() ==> (#[trigger] r@[y])@ == self.raster().rows()[y],
    {
        let len = self.data.len();
        let mut r: Vec<&'a [P]> = Vec::new();
        let mut y: usize = 0;
        while y < self.height
            invariant
                self.raster().wf(),
                len == self.raster().data.len(),
                y <= self.raster().height,
                r@.len() == y,
                forall|j: int| 0 <= j < y ==> (#[trigger] r@[j])@ == self.raster().rows()[j],
            decreases self.height - y,
        {
            proof {
                lemma_offset_in_data(self.raster().width, self.raster().height, self.raster().stride, self.width - 1, y as int);
            }
            let start = y * self.stride;
            let row = vstd::slice::slice_subrange(self.data, start, start + self.width);
            proof {
                assert(row@ =~= self.raster().rows()[y as int]);
            }
            r.push(row);
            y += 1;
        }
        r
    }
}

proof fn lemma_row_major_index(w: int, h: int, x: int, y: int)
    requires
        0 <= x < w,
        0 <= y < h,
    ensures
        0 <= y * w + x < w * h,
        (y * w + x) % w == x,
        (y * w + x) / w == y,
{
    vstd::arithmetic::div_mod::lemma_fundamental_div_mod_converse(y * w + x, w, y, x);
    assert(y * w + x < w * h) by (nonlinear_arith) requires 0 <= x < w, 0 <= y < h;
    assert(0 <= y * w) by (nonlinear_arith) requires 0 <= y, 0 <= w;
}


/// Scalar types that a single-channel buffer can be built from directly.
pub trait RawPixel: Copy {}

impl RawPixel for u8 {}

/// The scalars of `pixels`, one for one.
pub open spec fn gray_values<T>(pixels: Seq<Gray<T>>) -> Seq<T> {
    pixels.map_values(|p: Gray<T>| p.value)
}

impl<T: Copy> Image<Gray<T>> {
    /// A single-channel buffer over the scalars of `data`, element by
    /// element: the layout, padding included, is kept.
    pub fn from_raw(width: usize, height: usize, stride: usize, data: Vec<T>) -> (img: Self)
        requires
            width > 0,
            height > 0,
            stride >= width,
            data@.len() >= stride * height,
        ensures
            img.raster().wf(),
            img.raster().width == width,
            img.raster().height == height,
            img.raster().stride == stride,
            gray_values(img.raster().data) == data@,
    {
        let n = data.len();
        let mut pixels: Vec<Gray<T>> = Vec::with_capacity(n);
        let mut i: usize = 0;
        while i < n
            invariant
                n == data@.len(),
                i <= n,
                pixels@.len() == i,
                gray_values(pixels@) =~= data@.take(i as int),
            decreases n - i,
        {
            let ghost before = pixels@;
            pixels.push(Gray::new(data[i]));
            proof {
                assert(gray_values(pixels@) =~= gray_values(before).push(data@[i as int]));
                assert(data@.take(i + 1) =~= data@.take(i as int).push(data@[i as int]));
            }
            i += 1;
        }
        proof { assert(data@.take(n as int) =~= data@); }
        Image::new(width, height, stride, pixels)
    }

    /// The scalars of the backing storage, padding included.
    pub fn as_raw(&self) -> (r: Vec<T>)
        ensures
            r@ == gray_values(self.raster().data),
    {
        let n = self.data.len();
        let mut r: Vec<T> = Vec::with_capacity(n);
        let mut i: usize = 0;
        while i < n
            invariant
                n == self.raster().data.len(),
                i <= n,
                r@ =~= gray_values(self.raster().data).take(i as int),
            decreases n - i,
        {
            r.push(self.data[i].value);
            proof { assert(r@ =~= gray_values(self.raster().data).take(i + 1)); }
            i += 1;
        }
        r
    }

    /// Width, height, stride and the scalars of the backing storage.
    pub fn into_raw(self) -> (r: (usize, usize, usize, Vec<T>))
        ensures
            r.0 == self.raster().width,
            r.1 == self.raster().height,
            r.2 == self.raster().stride,
            r.3@ == gray_values(self.raster().data),
    {
        let raw = self.as_raw();
        (self.width, self.height, self.stride, raw)
    }
}

} // verus!
