use rust_fractal::grid::MyGrid;
use rust_fractal::sharded::AtomicGrid;

#[test]
fn atomic_grid_impl_send() {
    // 100 x 100 counters do not split into whole shards, so no grid is made.
    let ag = AtomicGrid::try_new(100, 100);
    let mut _is_send: &dyn Send = &ag;
    let mut _is_sync: &dyn Sync = &ag;
    assert!(ag.is_none());
}

#[test]
fn mutex_grid_random_static() {
    let mut img = MyGrid::new(256, 256);
    img.static_noise();
    let img: Option<image::GrayImage> = image::ImageBuffer::from_raw(256, 256, img.into_cells());
    assert!(img.is_some());
}

#[test]
fn image_send_sync() {
    let m = MyGrid::new(48, 48);

    let _v: &dyn Send = &m;
    let _v: &dyn Sync = &m;

    let img = image::GrayImage::new(128, 128);

    let _v: &dyn Send = &img;
    let _v: &dyn Sync = &img;
}

#[test]
fn image_buffer_from_arc_buf() {
    let img = image::ImageBuffer::<image::Luma<u16>, std::sync::Arc<[u16]>>::from_raw(
        128,
        128,
        vec![0_u16; 128 * 128].into(),
    );
    assert_ne!(img, None);

    let img = MyGrid::new(128, 128);
    let img: Option<image::GrayImage> = image::ImageBuffer::from_raw(128, 128, img.into_cells());
    assert!(img.is_some());
}
