use oxislam::image::{Image, ImageView, ImageViewMut};
use oxislam::pixel::{Gray, Rgb};

#[test]
fn from_raw_into_raw_roundtrip() {
    let data: Vec<f32> = vec![1.0, 2.0, 3.0, 4.0, 5.0, 6.0];
    let img = Image::<Gray<f32>>::from_raw(3, 2, 3, data.clone());

    assert_eq!(img.get(0, 0).value, 1.0);
    assert_eq!(img.get(1, 0).value, 2.0);
    assert_eq!(img.get(2, 0).value, 3.0);
    assert_eq!(img.get(0, 1).value, 4.0);
    assert_eq!(img.get(1, 1).value, 5.0);
    assert_eq!(img.get(2, 1).value, 6.0);
    assert_eq!(img.as_raw(), &data[..]);

    let (_w, _h, _s, raw) = img.into_raw();

    assert_eq!(raw, data);
}

#[test]
fn subview_stride_correctness() {
    // 4x4 image with stride=5 (one padding column per row)
    let mut data = Vec::with_capacity(5 * 4);
    for row in 0..4usize {
        for col in 0..4usize {
            data.push(Gray::new((row * 4 + col + 1) as f32));
        }
        data.push(Gray::new(0.0)); // padding
    }
    let img = Image::new(4, 4, 5, data);
    let view = img.view();

    let sub = view.subview(1, 1, 2, 2).unwrap();
    assert_eq!(sub.stride(), 5);
    assert_eq!(sub.get(0, 0).value, 6.0);
    assert_eq!(sub.get(1, 0).value, 7.0);
    assert_eq!(sub.get(0, 1).value, 10.0);
    assert_eq!(sub.get(1, 1).value, 11.0);
}

fn padded_4x3() -> Image<u8> {
    // rows of width 4, stride 6
    let mut data = Vec::new();
    for y in 0..3u8 {
        for x in 0..4u8 {
            data.push(10 * y + x);
        }
        data.push(99);
        data.push(99);
    }
    Image::new(4, 3, 6, data)
}

#[test]
fn geometry_and_index() {
    let img = padded_4x3();
    assert_eq!(img.width(), 4);
    assert_eq!(img.height(), 3);
    assert_eq!(img.stride(), 6);
    assert_eq!(img.data().len(), 18);
    assert_eq!(img.index(3, 2), 15);
    assert_eq!(*img.get(3, 2), 23);
}

#[test]
fn pixels_skip_padding() {
    let img = padded_4x3();
    let px = img.view().pixels();
    assert_eq!(px, vec![0, 1, 2, 3, 10, 11, 12, 13, 20, 21, 22, 23]);
    // restartable: a second traversal gives the same
    assert_eq!(img.view().pixels(), px);
}

#[test]
fn rows_skip_padding() {
    let img = padded_4x3();
    let view = img.view();
    let rows = view.rows();
    assert_eq!(rows.len(), 3);
    assert_eq!(rows[0], &[0, 1, 2, 3][..]);
    assert_eq!(rows[2], &[20, 21, 22, 23][..]);
}

#[test]
fn subview_rejects_empty_and_out_of_bounds() {
    let img = padded_4x3();
    let view = img.view();
    assert!(view.subview(0, 0, 0, 1).is_none());
    assert!(view.subview(0, 0, 1, 0).is_none());
    assert!(view.subview(1, 0, 4, 1).is_none());
    assert!(view.subview(0, 1, 1, 3).is_none());
    assert!(view.subview(usize::MAX, 0, 2, 1).is_none());
    let whole = view.subview(0, 0, 4, 3).unwrap();
    assert_eq!(whole.pixels(), view.pixels());
}

#[test]
fn nested_subview_reads_parent_pixels() {
    let img = padded_4x3();
    let view = img.view();
    let sub = view.subview(1, 1, 3, 2).unwrap();
    let inner = sub.subview(1, 1, 2, 1).unwrap();
    assert_eq!(inner.pixels(), vec![22, 23]);
    assert_eq!(inner.data()[0], 22);
}

#[test]
fn patch_centred_and_at_edges() {
    let img = padded_4x3();
    let view = img.view();
    let p = view.patch(1, 1, 3).unwrap();
    assert_eq!(p.pixels(), vec![0, 1, 2, 10, 11, 12, 20, 21, 22]);
    assert_eq!(view.patch(2, 1, 3).unwrap().pixels(), vec![1, 2, 3, 11, 12, 13, 21, 22, 23]);
    assert!(view.patch(0, 1, 3).is_none());
    assert!(view.patch(3, 1, 3).is_none());
    assert!(view.patch(1, 0, 3).is_none());
    assert!(view.patch(1, 2, 3).is_none());
    assert!(view.patch(-5, 1, 3).is_none());
}

#[test]
fn filled_is_compact_and_uniform() {
    let img = Image::filled(3, 2, Gray::new(7u8));
    assert_eq!(img.stride(), 3);
    assert_eq!(img.data().len(), 6);
    assert!(img.view().pixels().iter().all(|p| p.value == 7));
}

#[test]
fn get_mut_writes_one_pixel() {
    let mut img = padded_4x3();
    *img.get_mut(2, 1) = 77;
    assert_eq!(*img.get(2, 1), 77);
    assert_eq!(img.data()[8], 77);
    assert_eq!(img.data()[4], 99);
}

#[test]
fn mutable_views_write_through() {
    let mut img = padded_4x3();
    {
        let mut v = img.view_mut();
        assert_eq!(v.width(), 4);
        assert_eq!(v.height(), 3);
        assert_eq!(v.stride(), 6);
        assert_eq!(v.index(1, 2), 13);
        *v.get_mut(1, 2) = 5;
        assert_eq!(*v.get(1, 2), 5);
        v.data_mut()[0] = 42;
        assert_eq!(v.data()[0], 42);
    }
    assert_eq!(*img.get(1, 2), 5);
    assert_eq!(*img.get(0, 0), 42);
    img.data_mut()[1] = 8;
    assert_eq!(*img.get(1, 0), 8);
}

#[test]
fn views_over_borrowed_slices() {
    let mut raw = vec![1u8, 2, 3, 0, 4, 5, 6, 0];
    {
        let v = ImageView::new(&raw, 3, 2, 4);
        assert_eq!(v.index(2, 1), 6);
        assert_eq!(*v.get(2, 1), 6);
        assert_eq!(v.pixels(), vec![1, 2, 3, 4, 5, 6]);
    }
    let mut m = ImageViewMut::new(&mut raw, 3, 2, 4);
    *m.get_mut(0, 1) = 9;
    assert_eq!(raw[4], 9);
}

#[test]
fn pixel_constructors() {
    let g = Gray::new(3u8);
    assert_eq!(g.value, 3);
    let c = Rgb::new(1u8, 2, 3);
    assert_eq!((c.r, c.g, c.b), (1, 2, 3));
}
