use rust_fractal::fractal::{FractalMethod, Image, Row};

#[test]
fn image_new_is_blank() {
    let img = Image::new(3, 2);
    assert_eq!(img.width(), 3);
    assert_eq!(img.height(), 2);
    assert_eq!(img.counts(), vec![0usize; 6]);
}

#[test]
fn image_records_hits_inside_only() {
    let mut img = Image::new(3, 2);
    img.record_hit(1, 2);
    img.record_hit(1, 2);
    img.record_hit(2, 0);
    img.record_hit(0, 3);
    img.record_hit(-1, 0);
    assert_eq!(img.counts(), vec![0, 0, 0, 0, 0, 2]);
}

#[test]
fn row_collects_elements_in_order() {
    let mut r = Row::<f64>::init("1000".to_string());
    r.add_elem(0.5);
    r.add_elem(0.25);
    let (name, elems) = r.into_parts();
    assert_eq!(name, "1000");
    assert_eq!(elems, vec![0.5, 0.25]);
}

#[test]
fn fractal_method_default() {
    assert_eq!(FractalMethod::default(), FractalMethod::Default);
    assert_ne!(FractalMethod::MultiplyTheta, FractalMethod::Default);
}
