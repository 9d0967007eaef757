use std::collections::HashSet;
use vstd::prelude::*;

use crate::image::Image;
use crate::pixel::Pixel;

verus! {

/// The distinct colours of a sequence of pixels, each at the place where it
/// was first seen.
pub open spec fn first_seen(pixels: Seq<Pixel>) -> Seq<Pixel>
    decreases pixels.len(),
{
    if pixels.len() == 0 {
        Seq::empty()
    } else {
        let earlier = first_seen(pixels.drop_last());
        if earlier.contains(pixels.last()) {
            earlier
        } else {
            earlier.push(pixels.last())
        }
    }
}

/// The pixels of all the images, one image after the other.
pub open spec fn all_pixels(images: Seq<Image>) -> Seq<Pixel> {
    images.map_values(|image: Image| image@.pixels).flatten()
}

/// [`first_seen`] keeps every colour of the pixels, once: it has no colour
/// twice, holds exactly the colours that the pixels hold, and is as long as
/// the pixels have distinct colours.
pub proof fn lemma_first_seen(pixels: Seq<Pixel>)
    ensures
        first_seen(pixels).no_duplicates(),
        forall|colour: Pixel| first_seen(pixels).contains(colour) <==> pixels.contains(colour),
        first_seen(pixels).to_set() == pixels.to_set(),
        first_seen(pixels).len() == pixels.to_set().len(),
    decreases pixels.len(),
{
    let kept = first_seen(pixels);
    if pixels.len() > 0 {
        let earlier = first_seen(pixels.drop_last());
        lemma_first_seen(pixels.drop_last());
        let past = pixels.drop_last();
        assert forall|colour: Pixel| kept.contains(colour) <==> pixels.contains(colour) by {
            if pixels.contains(colour) {
                let i = choose|i: int| 0 <= i < pixels.len() && pixels[i] == colour;
                if i < pixels.len() - 1 {
                    assert(past[i] == colour);
                    assert(past.contains(colour));
                }
                if earlier.contains(colour) {
                    let at = choose|at: int| 0 <= at < earlier.len() && earlier[at] == colour;
                    assert(kept[at] == colour);
                } else {
                    assert(kept[kept.len() - 1] == colour);
                }
            }
            if kept.contains(colour) {
                let at = choose|at: int| 0 <= at < kept.len() && kept[at] == colour;
                if at < earlier.len() {
                    assert(earlier[at] == colour);
                    assert(earlier.contains(colour));
                    assert(past.contains(colour));
                    let i = choose|i: int| 0 <= i < past.len() && past[i] == colour;
                    assert(pixels[i] == colour);
                } else {
                    assert(pixels[pixels.len() - 1] == colour);
                }
            }
        }
    }
    assert(kept.to_set() =~= pixels.to_set());
    kept.unique_seq_to_set();
}

/// A pixel of one of the rows stands among the rows read one after the other.
pub(crate) proof fn lemma_flatten_contains<A>(rows: Seq<Seq<A>>, i: int, j: int)
    requires
        0 <= i < rows.len(),
        0 <= j < rows[i].len(),
    ensures
        rows.flatten().contains(rows[i][j]),
    decreases rows.len(),
{
    let all = rows.flatten();
    if i == 0 {
        assert(all[j] == rows[i][j]);
    } else {
        let rest = rows.drop_first();
        assert(rest[i - 1] == rows[i]);
        lemma_flatten_contains(rest, i - 1, j);
        let at = choose|at: int| 0 <= at < rest.flatten().len() && rest.flatten()[at] == rows[i][j];
        assert(all[rows.first().len() + at] == rows[i][j]);
    }
}

/// Every pixel of every image is one of [`all_pixels`].
pub proof fn lemma_all_pixels_contains(images: Seq<Image>, i: int, j: int)
    requires
        0 <= i < images.len(),
        0 <= j < images[i]@.pixels.len(),
    ensures
        all_pixels(images).contains(images[i]@.pixels[j]),
{
    lemma_flatten_contains(images.map_values(|image: Image| image@.pixels), i, j);
}

/// A colour of the images has one index in their palette, and no other: a
/// query for it finds that index, whenever it is made.
pub proof fn lemma_index_is_stable(images: Seq<Image>, i: int, j: int)
    requires
        0 <= i < images.len(),
        0 <= j < images[i]@.pixels.len(),
    ensures
        ({
            let palette = first_seen(all_pixels(images));
            let colour = images[i]@.pixels[j];
            &&& palette.contains(colour)
            &&& 0 <= palette.index_of(colour) < palette.len()
            &&& palette[palette.index_of(colour)] == colour
            &&& forall|k: int|
                0 <= k < palette.len() && palette[k] == colour ==> k == palette.index_of(colour)
        }),
{
    lemma_all_pixels_contains(images, i, j);
    lemma_first_seen(all_pixels(images));
}

/// The colours of a set of images, each with a fixed index.
///
/// A palette is built once, from all the images, and never changed. No colour
/// stands in it twice, so a colour has one index only. The colours keep the
/// order in which the images first show them.
#[derive(Debug, PartialEq, Eq)]
pub struct Palette {
    colours: Vec<Pixel>,
}

impl View for Palette {
    type V = Seq<Pixel>;

    closed spec fn view(&self) -> Seq<Pixel> {
        self.colours@
    }
}

impl Clone for Palette {
    fn clone(&self) -> (copy: Palette)
        ensures
            copy@ == self@,
    {
        proof {
            use_type_invariant(self);
        }
        let mut colours: Vec<Pixel> = Vec::new();
        let mut i: usize = 0;
        while i < self.colours.len()
            invariant
                i <= self.colours@.len(),
                colours@ == self.colours@.take(i as int),
            decreases self.colours@.len() - i,
        {
            colours.push(self.colours[i]);
            i = i + 1;
            assert(colours@ =~= self.colours@.take(i as int));
        }
        assert(self.colours@.take(i as int) =~= self.colours@);
        Palette { colours }
    }
}

/// The four channels of a colour as one number. Two colours have the same
/// key only if they are the same colour.
spec fn spec_colour_key(colour: Pixel) -> u32 {
    (colour.r * 0x100_0000 + colour.g * 0x1_0000 + colour.b * 0x100 + colour.a) as u32
}

fn colour_key(colour: &Pixel) -> (key: u32)
    ensures
        key == spec_colour_key(*colour),
{
    let r: u32 = colour.r as u32;
    let g: u32 = colour.g as u32;
    let b: u32 = colour.b as u32;
    let a: u32 = colour.a as u32;
    r * 0x100_0000 + g * 0x1_0000 + b * 0x100 + a
}

proof fn lemma_low_byte_splits(high: int, low: int, other_high: int, other_low: int)
    requires
        0 <= low < 256,
        0 <= other_low < 256,
        high * 256 + low == other_high * 256 + other_low,
    ensures
        high == other_high,
        low == other_low,
{
}

proof fn lemma_colour_key_tells_colours_apart(first: Pixel, second: Pixel)
    requires
        spec_colour_key(first) == spec_colour_key(second),
    ensures
        first == second,
{
    let high = first.r * 0x1_0000 + first.g * 0x100 + first.b;
    let other_high = second.r * 0x1_0000 + second.g * 0x100 + second.b;
    assert(spec_colour_key(first) == high * 256 + first.a);
    assert(spec_colour_key(second) == other_high * 256 + second.a);
    lemma_low_byte_splits(high, first.a as int, other_high, second.a as int);
    lemma_low_byte_splits(
        first.r * 0x100 + first.g,
        first.b as int,
        second.r * 0x100 + second.g,
        second.b as int,
    );
    lemma_low_byte_splits(first.r as int, first.g as int, second.r as int, second.g as int);
}

/// The first place of `colour` among `colours`.
fn position(colours: &Vec<Pixel>, colour: &Pixel) -> (found: Option<usize>)
    ensures
        match found {
            Some(i) => i < colours@.len() && colours@[i as int] == *colour && forall|j: int|
                0 <= j < i ==> colours@[j] != *colour,
            None => !colours@.contains(*colour),
        },
{
    let mut i: usize = 0;
    while i < colours.len()
        invariant
            i <= colours@.len(),
            forall|j: int| 0 <= j < i ==> colours@[j] != *colour,
        decreases colours@.len() - i,
    {
        if colours[i] == *colour {
            return Some(i);
        }
        i = i + 1;
    }
    None
}

impl Palette {
    #[verifier::type_invariant]
    spec fn distinct(self) -> bool {
        self.colours@.no_duplicates()
    }

    /// The index of `colour` in the palette, if the palette holds it.
    pub open spec fn spec_index(&self, colour: Pixel) -> Option<usize> {
        if self@.contains(colour) {
            Some(self@.index_of(colour) as usize)
        } else {
            None
        }
    }

    /// Collects the colours of all the pixels of all the images. Each distinct
    /// colour gets one place, in the order in which the colours are first
    /// seen when the images are read one after the other.
    pub fn new_from_images(images: &[Image]) -> (palette: Palette)
        ensures
            palette@ == first_seen(all_pixels(images@)),
            palette@.no_duplicates(),
            forall|colour: Pixel|
                palette@.contains(colour) <==> all_pixels(images@).contains(colour),
            palette@.len() == all_pixels(images@).to_set().len(),
    {
        broadcast use vstd::std_specs::hash::group_hash_axioms;

        let ghost rows = images@.map_values(|image: Image| image@.pixels);
        let mut colours: Vec<Pixel> = Vec::new();
        let mut seen: HashSet<u32> = HashSet::new();
        let mut i: usize = 0;
        assert(rows.take(0) =~= Seq::<Seq<Pixel>>::empty());
        while i < images.len()
            invariant
                i <= images@.len(),
                rows == images@.map_values(|image: Image| image@.pixels),
                colours@ == first_seen(rows.take(i as int).flatten()),
                colours@.no_duplicates(),
                forall|colour: Pixel|
                    seen@.contains(spec_colour_key(colour)) <==> colours@.contains(colour),
            decreases images@.len() - i,
        {
            let pixels = images[i].pixels();
            let ghost before = rows.take(i as int).flatten();
            let mut j: usize = 0;
            assert(before + pixels@.take(0) =~= before);
            while j < pixels.len()
                invariant
                    j <= pixels@.len(),
                    colours@ == first_seen(before + pixels@.take(j as int)),
                    colours@.no_duplicates(),
                    forall|colour: Pixel|
                        seen@.contains(spec_colour_key(colour)) <==> colours@.contains(colour),
                decreases pixels@.len() - j,
            {
                let colour = pixels[j];
                proof {
                    let next = before + pixels@.take(j + 1);
                    assert(next.drop_last() =~= before + pixels@.take(j as int));
                    assert(next.last() == colour);
                }
                let ghost known = colours@;
                assert(seen@.contains(spec_colour_key(colour)) <==> known.contains(colour));
                if seen.insert(colour_key(&colour)) {
                    colours.push(colour);
                    proof {
                        assert(!known.contains(colour));
                        assert forall|other: Pixel|
                            seen@.contains(spec_colour_key(other)) <==> colours@.contains(
                                other,
                            ) by {
                            if spec_colour_key(other) == spec_colour_key(colour) {
                                lemma_colour_key_tells_colours_apart(other, colour);
                                assert(colours@[known.len() as int] == colour);
                            } else if known.contains(other) {
                                let at = choose|at: int| 0 <= at < known.len() && known[at] == other;
                                assert(colours@[at] == other);
                            }
                        }
                    }
                }
                j = j + 1;
            }
            proof {
                assert(pixels@.take(pixels@.len() as int) =~= pixels@);
                assert(rows.take(i + 1) =~= rows.take(i as int).push(pixels@));
                rows.take(i as int).lemma_flatten_push(pixels@);
            }
            i = i + 1;
        }
        proof {
            assert(rows.take(images@.len() as int) =~= rows);
            lemma_first_seen(all_pixels(images@));
        }
        Palette { colours }
    }

    /// The index of `colour`, or `None` for a colour that the palette does not
    /// hold. The answer for a colour is the same at every call.
    pub fn index(&self, colour: &Pixel) -> (found: Option<usize>)
        ensures
            found == self.spec_index(*colour),
            match found {
                Some(i) => i < self@.len() && self@[i as int] == *colour && forall|j: int|
                    0 <= j < self@.len() && self@[j] == *colour ==> j == i,
                None => !self@.contains(*colour),
            },
    {
        proof {
            use_type_invariant(self);
        }
        position(&self.colours, colour)
    }

    /// The number of colours.
    pub fn len(&self) -> (len: usize)
        ensures
            len == self@.len(),
    {
        self.colours.len()
    }

    /// The colours, each at its index.
    pub fn colours(&self) -> (colours: &[Pixel])
        ensures
            colours@ == self@,
            colours@.no_duplicates(),
    {
        proof {
            use_type_invariant(self);
        }
        self.colours.as_slice()
    }
}

} // verus!
