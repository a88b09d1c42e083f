//! Data-parallel evaluation: every unit of work (a row, an index, an item)
//! is independent, and each lands in its own slot of the result, so running
//! the units on a thread pool gives what a sequential loop would.
use vstd::prelude::*;
use std::ops::Range;
use rayon::iter::IntoParallelIterator;
use rayon::iter::ParallelIterator;

verus! {

/// Bound on what may cross to a worker thread.
pub trait MaybeSend: Send {}

impl<T: Send> MaybeSend for T {}

/// Bound on what workers may share.
pub trait MaybeSync: Sync {}

impl<T: Sync> MaybeSync for T {}

/// Relies on rayon's `into_par_iter().map(f).collect()` over `start..end`:
/// entry `k` of the collected vector is `f(start + k)`.
#[verifier::external_body]
fn par_map_range<U: Send, F: Fn(usize) -> U + Sync>(start: usize, end: usize, f: &F) -> (r: Vec<U>)
    requires
        start <= end,
        forall|i: usize| start <= i < end ==> #[trigger] f.requires((i,)),
    ensures
        r@.len() == end - start,
        forall|k: int| 0 <= k < end - start ==> f.ensures(((start + k) as usize,), #[trigger] r@[k]),
{
    (start..end).into_par_iter().map(f).collect()
}

/// Relies on rayon's `into_par_iter().map(f).collect()` over a `Vec`:
/// entry `k` of the collected vector is `f(items[k])`.
#[verifier::external_body]
fn par_map_items<T: Send, U: Send, F: Fn(T) -> U + Sync>(items: Vec<T>, f: &F) -> (r: Vec<U>)
    requires
        forall|k: int| 0 <= k < items@.len() ==> f.requires((#[trigger] items@[k],)),
    ensures
        r@.len() == items@.len(),
        forall|k: int| 0 <= k < items@.len() ==> f.ensures((items@[k],), #[trigger] r@[k]),
{
    items.into_par_iter().map(f).collect()
}

/// Concatenation of `parts`, first part first.
pub open spec fn concat<T>(parts: Seq<Seq<T>>) -> Seq<T>
    decreases parts.len(),
{
    if parts.len() == 0 {
        Seq::empty()
    } else {
        concat(parts.drop_last()) + parts.last()
    }
}

/// The values inside the `Some`s of `s`, in order.
pub open spec fn somes<U>(s: Seq<Option<U>>) -> Seq<U>
    decreases s.len(),
{
    if s.len() == 0 {
        Seq::empty()
    } else {
        let rest = somes(s.drop_last());
        match s.last() {
            Some(u) => rest.push(u),
            None => rest,
        }
    }
}

proof fn lemma_row_major(w: int, x: int, y: int)
    requires
        0 <= x < w,
        0 <= y,
    ensures
        (y * w + x) % w == x,
        (y * w + x) / w == y,
        y * w + x < (y + 1) * w,
{
    vstd::arithmetic::div_mod::lemma_fundamental_div_mod_converse(y * w + x, w, y, x);
    assert((y + 1) * w == y * w + w) by (nonlinear_arith);
}

/// Evaluates `f(x, y)` for every cell of a `width`×`height` grid, cells in
/// parallel, and returns the results in row-major order.
pub fn par_row_collect<T: MaybeSend, F>(width: usize, height: usize, f: F) -> (r: Vec<T>)
    where
        F: Fn(usize, usize) -> T + MaybeSync,
    requires
        width * height <= usize::MAX,
        forall|x: usize, y: usize| x < width && y < height ==> #[trigger] f.requires((x, y)),
    ensures
        r@.len() == width * height,
        forall|x: usize, y: usize| x < width && y < height ==>
            #[trigger] f.ensures((x, y), r@[y * width + x]),
{
    let n = width * height;
    let fr = &f;
    let cell = move |i: usize| -> (t: T)
        requires
            i < n,
            n == width * height,
            forall|x: usize, y: usize| x < width && y < height ==> #[trigger] fr.requires((x, y)),
        ensures
            fr.ensures(((i % width) as usize, (i / width) as usize), t),
        {
            proof { lemma_cell_of_index(width as int, height as int, i as int); }
            fr(i % width, i / width)
        };
    let r = par_map_range(0, n, &cell);
    proof {
        assert forall|x: usize, y: usize| x < width && y < height implies
            #[trigger] f.ensures((x, y), r@[y * width + x]) by {
            lemma_row_major(width as int, x as int, y as int);
            assert(y * width + x < width * height) by (nonlinear_arith)
                requires x < width, y < height;
            assert(cell.ensures(((0 + (y * width + x)) as usize,), r@[y * width + x]));
        }
    }
    r
}

proof fn lemma_cell_of_index(w: int, h: int, i: int)
    requires
        0 <= i < w * h,
        w >= 0,
        h >= 0,
    ensures
        w > 0,
        0 <= i % w < w,
        0 <= i / w < h,
{
    if w <= 0 {
        assert(w * h == 0) by (nonlinear_arith) requires w == 0;
    }
    vstd::arithmetic::div_mod::lemma_fundamental_div_mod(i, w);
    vstd::arithmetic::div_mod::lemma_mod_pos_bound(i, w);
    vstd::arithmetic::div_mod::lemma_div_pos_is_pos(i, w);
    if i / w >= h {
        assert(w * (i / w) >= w * h) by (nonlinear_arith) requires w > 0, i / w >= h;
    }
}

proof fn lemma_concat_step<T>(parts: Seq<Seq<T>>, k: int)
    requires
        0 <= k < parts.len(),
    ensures
        concat(parts.take(k + 1)) == concat(parts.take(k)) + parts[k],
{
    assert(parts.take(k + 1).drop_last() =~= parts.take(k));
}

/// Taking the `Some`s commutes with mapping the values inside them: when
/// `t` holds `g` of each value of `s`, and the same `None`s.
pub proof fn lemma_somes_map<U, V>(s: Seq<Option<U>>, t: Seq<Option<V>>, g: spec_fn(U) -> V)
    requires
        t.len() == s.len(),
        forall|k: int| 0 <= k < s.len() ==> #[trigger] t[k] == match s[k] {
            Some(u) => Some(g(u)),
            None => None,
        },
    ensures
        somes(s).map_values(g) == somes(t),
    decreases s.len(),
{
    if s.len() > 0 {
        lemma_somes_map(s.drop_last(), t.drop_last(), g);
        match s.last() {
            Some(u) => {
                assert(somes(s).map_values(g) =~= somes(s.drop_last()).map_values(g).push(g(u)));
            },
            None => {},
        }
    } else {
        assert(somes(s).map_values(g) =~= Seq::empty());
    }
}

proof fn lemma_somes_step<U>(outs: Seq<Option<U>>, k: int)
    requires
        0 <= k < outs.len(),
    ensures
        somes(outs.take(k + 1)) == match outs[k] {
            Some(u) => somes(outs.take(k)).push(u),
            None => somes(outs.take(k)),
        },
{
    assert(outs.take(k + 1).drop_last() =~= outs.take(k));
}

/// Evaluates `f` at every index of `range`, in parallel, and concatenates
/// the returned vectors in index order.
pub fn par_flat_map<T: MaybeSend, F>(range: Range<usize>, f: F) -> (r: Vec<T>)
    where
        F: Fn(usize) -> Vec<T> + MaybeSync,
    requires
        forall|i: usize| range.start <= i < range.end ==> #[trigger] f.requires((i,)),
    ensures
        range.start >= range.end ==> r@.len() == 0,
        range.start < range.end ==> exists|parts: Seq<Vec<T>>| {
            &&& parts.len() == range.end - range.start
            &&& forall|k: int| 0 <= k < parts.len() ==>
                f.ensures(((range.start + k) as usize,), #[trigger] parts[k])
            &&& r@ == concat(parts.map_values(|v: Vec<T>| v@))
        },
{
    let start = range.start;
    let end = range.end;
    if start >= end {
        return Vec::new();
    }
    let mut parts = par_map_range(start, end, &f);
    let ghost produced = parts@;
    let ghost views = produced.map_values(|v: Vec<T>| v@);
    let n = end - start;
    let mut out: Vec<T> = Vec::new();
    let mut k: usize = 0;
    while k < n
        invariant
            n == end - start,
            k <= n,
            parts@.len() == n,
            views.len() == n,
            forall|j: int| k <= j < n ==> parts@[j]@ == #[trigger] views[j],
            out@ == concat(views.take(k as int)),
        decreases n - k,
    {
        let mut part: Vec<T> = Vec::new();
        std::mem::swap(&mut part, &mut parts[k]);
        out.append(&mut part);
        proof { lemma_concat_step(views, k as int); }
        k += 1;
    }
    proof {
        assert(views.take(n as int) =~= views);
        assert(produced.len() == n);
    }
    out
}

/// Applies `f` to every item, in parallel, and keeps the `Some` results in
/// the items' order.
pub fn par_filter_map<T: MaybeSend, U: MaybeSend, F>(items: Vec<T>, f: F) -> (r: Vec<U>)
    where
        F: Fn(T) -> Option<U> + MaybeSync,
    requires
        forall|k: int| 0 <= k < items@.len() ==> f.requires((#[trigger] items@[k],)),
    ensures
        exists|outs: Seq<Option<U>>| {
            &&& outs.len() == items@.len()
            &&& forall|k: int| 0 <= k < outs.len() ==> f.ensures((items@[k],), #[trigger] outs[k])
            &&& r@ == somes(outs)
        },
{
    let ghost input = items@;
    let mut outs = par_map_items(items, &f);
    let ghost produced = outs@;
    let n = outs.len();
    let mut out: Vec<U> = Vec::new();
    let mut k: usize = 0;
    while k < n
        invariant
            n == produced.len(),
            k <= n,
            outs@.len() == n,
            forall|j: int| k <= j < n ==> outs@[j] == #[trigger] produced[j],
            out@ == somes(produced.take(k as int)),
        decreases n - k,
    {
        let mut o: Option<U> = None;
        std::mem::swap(&mut o, &mut outs[k]);
        proof { lemma_somes_step(produced, k as int); }
        match o {
            Some(u) => out.push(u),
            None => {},
        }
        k += 1;
    }
    proof { assert(produced.take(n as int) =~= produced); }
    out
}

} // verus!
