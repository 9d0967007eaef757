use vstd::prelude::*;

use crate::pixel::Pixel;

verus! {

/// What an image is to the contracts: its name and its pixels, row by row.
pub struct ImageView {
    pub name: Seq<char>,
    pub pixels: Seq<Pixel>,
}

/// A named raster image: the pixels in row-major order. An image may be
/// empty; it then packs into no bytes.
#[derive(Debug, PartialEq, Eq)]
pub struct Image {
    name: String,
    pixels: Vec<Pixel>,
}

impl View for Image {
    type V = ImageView;

    closed spec fn view(&self) -> ImageView {
        ImageView { name: self.name@, pixels: self.pixels@ }
    }
}

impl Clone for Image {
    fn clone(&self) -> (copy: Image)
        ensures
            copy@ == self@,
    {
        let mut pixels: Vec<Pixel> = Vec::new();
        let mut i: usize = 0;
        while i < self.pixels.len()
            invariant
                i <= self.pixels@.len(),
                pixels@ == self.pixels@.take(i as int),
            decreases self.pixels@.len() - i,
        {
            pixels.push(self.pixels[i]);
            i = i + 1;
            assert(pixels@ =~= self.pixels@.take(i as int));
        }
        assert(self.pixels@.take(i as int) =~= self.pixels@);
        Image { name: self.name.clone(), pixels }
    }
}

impl Image {
    /// An image of the given name and pixels.
    pub fn new(name: String, pixels: Vec<Pixel>) -> (image: Image)
        ensures
            image@ == (ImageView { name: name@, pixels: pixels@ }),
    {
        Image { name, pixels }
    }

    /// The image's name.
    pub fn name(&self) -> (name: &str)
        ensures
            name@ == self@.name,
    {
        self.name.as_str()
    }

    /// An iterator over the pixels, in their order.
    pub fn iter(&self) -> (pixels: std::slice::Iter<'_, Pixel>)
        ensures
            vstd::std_specs::slice::into_iter_elts(pixels) == self@.pixels,
            vstd::std_specs::iter::IteratorSpec::decrease(&pixels) is Some,
            vstd::std_specs::iter::IteratorSpec::initial_value_relation(&pixels, &pixels),
    {
        broadcast use vstd::std_specs::slice::axiom_spec_slice_iter;

        self.pixels.as_slice().iter()
    }

    /// The pixels, in their order.
    pub fn pixels(&self) -> (pixels: &[Pixel])
        ensures
            pixels@ == self@.pixels,
    {
        self.pixels.as_slice()
    }
}

} // verus!
