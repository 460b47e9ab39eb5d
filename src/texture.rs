use vstd::prelude::*;
use crate::rtw_image::RtwImage;

verus! {

/// Whether the checker cell with integer coordinates `(x, y, z)` takes the even texture.
pub open spec fn cell_is_even(x: int, y: int, z: int) -> bool {
    (x + y + z) % 2 == 0
}

/// Whether the checker cell `(x, y, z)`, each coordinate the floor of a world coordinate
/// over the checker scale, takes the even texture; the others take the odd one.
pub fn checker_is_even(x: i32, y: i32, z: i32) -> (r: bool)
    ensures
        r == cell_is_even(x as int, y as int, z as int),
{
    let sum = x as i64 + y as i64 + z as i64;
    sum % 2 == 0
}

/// The checker pattern repeats every two cells along each axis: moving two cells on x, y
/// or z keeps the texture that a cell takes.
pub proof fn lemma_checker_period(x: int, y: int, z: int)
    ensures
        cell_is_even(x + 2, y, z) == cell_is_even(x, y, z),
        cell_is_even(x, y + 2, z) == cell_is_even(x, y, z),
        cell_is_even(x, y, z + 2) == cell_is_even(x, y, z),
{
    assert((x + 2 + y + z) % 2 == (x + y + z) % 2) by (nonlinear_arith);
}

/// A texture read from an image. Texture coordinates become pixel coordinates outside
/// this type; here a pixel is looked up, clamped to the image's edges.
#[derive(Clone)]
pub struct ImageTexture {
    image: RtwImage,
}

impl ImageTexture {
    pub closed spec fn image_spec(&self) -> RtwImage {
        self.image
    }

    pub fn new(image: RtwImage) -> (r: ImageTexture)
        ensures
            r.image_spec() == image,
    {
        ImageTexture { image }
    }

    pub fn image(&self) -> (r: &RtwImage)
        ensures
            *r == self.image_spec(),
    {
        &self.image
    }

    /// The bytes of the image's pixel `(i, j)`, where row 0 is the top row; a coordinate
    /// outside the image takes the nearest row or column.
    pub fn texel(&self, i: i32, j: i32) -> (r: [u8; 3])
        ensures
            r@ == self.image_spec().pixel_spec(i as int, j as int),
    {
        self.image.pixel_data(i, j)
    }
}

} // verus!
