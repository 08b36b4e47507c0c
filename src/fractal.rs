use vstd::prelude::*;

verus! {

/// Which second map the transform uses; only the default one is defined.
#[derive(Clone, Copy, PartialEq, Eq, Debug, Default)]
pub enum FractalMethod {
    #[default]
    Default,
    MultiplyTheta,
}

/// What an image of plain hit counts holds: width, height and counts in row-major order.
pub struct ImageModel {
    pub x: nat,
    pub y: nat,
    pub counts: Seq<usize>,
}

/// A `x` by `y` image of word-sized hit counts.
pub struct Image {
    x: usize,
    y: usize,
    img: Vec<usize>,
}

impl View for Image {
    type V = ImageModel;

    closed spec fn view(&self) -> ImageModel {
        ImageModel { x: self.x as nat, y: self.y as nat, counts: self.img@ }
    }
}

impl Image {
    /// Width, height and storage agree.
    pub open spec fn inv(&self) -> bool {
        self@.counts.len() == self@.x * self@.y
    }

    /// A blank image `x` wide and `y` high.
    pub fn new(x: usize, y: usize) -> (r: Image)
        requires
            x * y <= usize::MAX,
        ensures
            r.inv(),
            r@.x == x,
            r@.y == y,
            forall|i: int| 0 <= i < r@.counts.len() ==> r@.counts[i] == 0,
    {
        let n: usize = x * y;
        let img = vec![0usize; n];
        Image { x, y, img }
    }

    /// Records one hit at `(row, col)`: the count gains one, held at the largest
    /// word; a request outside the image changes nothing.
    pub fn record_hit(&mut self, row: i64, col: i64)
        requires
            old(self).inv(),
        ensures
            final(self).inv(),
            final(self)@.x == old(self)@.x,
            final(self)@.y == old(self)@.y,
            final(self)@.counts == if 0 <= row < old(self)@.y && 0 <= col < old(self)@.x {
                let i = row * old(self)@.x + col;
                old(self)@.counts.update(
                    i,
                    if old(self)@.counts[i] == usize::MAX {
                        usize::MAX
                    } else {
                        (old(self)@.counts[i] + 1) as usize
                    },
                )
            } else {
                old(self)@.counts
            },
    {
        let _n: usize = self.img.len();
        if 0 <= row && 0 <= col && (row as u64) < (self.y as u64) && (col as u64) < (self.x as u64) {
            let r = row as usize;
            let c = col as usize;
            proof {
                assert(r * self.x + c < self.y * self.x) by (nonlinear_arith)
                    requires
                        r < self.y,
                        c < self.x,
                ;
                assert(r * self.x <= self.y * self.x) by (nonlinear_arith)
                    requires
                        r < self.y,
                ;
                assert(self.y * self.x == self.x * self.y) by (nonlinear_arith);
            }
            let i: usize = r * self.x + c;
            let v = self.img[i].saturating_add(1);
            self.img.set(i, v);
        }
    }

    /// Width.
    pub fn width(&self) -> (r: usize)
        ensures
            r == self@.x,
    {
        self.x
    }

    /// Height.
    pub fn height(&self) -> (r: usize)
        ensures
            r == self@.y,
    {
        self.y
    }

    /// The counts in row-major order.
    pub fn counts(&self) -> (r: Vec<usize>)
        ensures
            r@ == self@.counts,
    {
        self.img.clone()
    }
}

/// One named row of measurements.
pub struct Row<T> {
    name: String,
    elems: Vec<T>,
}

impl<T> Row<T> {
    /// The row's name.
    pub closed spec fn name_view(&self) -> Seq<char> {
        self.name@
    }

    /// The row's measurements, oldest first.
    pub closed spec fn elems_view(&self) -> Seq<T> {
        self.elems@
    }

    /// An empty row called `name`.
    pub fn init(name: String) -> (r: Row<T>)
        ensures
            r.name_view() == name@,
            r.elems_view() == Seq::<T>::empty(),
    {
        Row { name, elems: Vec::new() }
    }

    /// Appends one measurement.
    pub fn add_elem(&mut self, elem: T)
        ensures
            final(self).name_view() == old(self).name_view(),
            final(self).elems_view() == old(self).elems_view().push(elem),
    {
        self.elems.push(elem);
    }

    /// Gives up the row as its name and its measurements.
    pub fn into_parts(self) -> (r: (String, Vec<T>))
        ensures
            r.0@ == self.name_view(),
            r.1@ == self.elems_view(),
    {
        (self.name, self.elems)
    }

    /// A row with the given name and measurements.
    pub fn from_parts(name: String, elems: Vec<T>) -> (r: Row<T>)
        ensures
            r.name_view() == name@,
            r.elems_view() == elems@,
    {
        Row { name, elems }
    }
}

} // verus!
