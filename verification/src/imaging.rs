use vstd::prelude::*;

verus! {

/// What the triangle-filter resampling of the `image` crate makes of an
/// 8-bit RGB image of `width` × `height` pixels stored row by row (`rgb`),
/// resized to `nwidth` × `nheight`.
pub uninterp spec fn triangle_resized(rgb: Seq<u8>, width: u32, height: u32, nwidth: u32, nheight: u32) -> Seq<u8>;

/// Resizes an 8-bit RGB image with `image::imageops::resize` and the
/// triangle filter. Trusted: the result is named `triangle_resized` of the
/// arguments; it holds `nwidth` × `nheight` pixels, and is the input itself
/// when the size does not change (the crate then copies the image).
#[verifier::external_body]
fn resize_rgb_triangle(rgb: &Vec<u8>, width: u32, height: u32, nwidth: u32, nheight: u32) -> (r: Vec<u8>)
    requires
        width > 0,
        height > 0,
        nwidth > 0,
        nheight > 0,
        rgb@.len() == 3 * width * height,
        3 * nwidth * nheight <= usize::MAX,
    ensures
        r@ == triangle_resized(rgb@, width, height, nwidth, nheight),
        r@.len() == 3 * nwidth * nheight,
        nwidth == width && nheight == height ==> r@ == rgb@,
{
    match image::RgbImage::from_raw(width, height, rgb.clone()) {
        Some(img) => image::imageops::resize(&img, nwidth, nheight, image::imageops::FilterType::Triangle).into_raw(),
        None => Vec::new(),
    }
}

/// The centre square of a `width` × `height` image, as the bounding box
/// (left, top, left + side, top + side) with the side the smaller
/// dimension.
pub open spec fn center_square(width: u32, height: u32) -> (u32, u32, u32, u32) {
    let size = if width < height { width } else { height };
    let left = ((width - size) / 2) as u32;
    let top = ((height - size) / 2) as u32;
    (left, top, (left + size) as u32, (top + size) as u32)
}

/// The centre square of a `width` × `height` image (see `center_square`).
pub fn center_crop_region(width: u32, height: u32) -> (r: (u32, u32, u32, u32))
    ensures
        r == center_square(width, height),
{
    let size = if width < height { width } else { height };
    let left = (width - size) / 2;
    let top = (height - size) / 2;
    (left, top, left + size, top + size)
}

/// The part of a `iw` × `ih` image that a crop at (`x`, `y`) of `w` × `h`
/// pixels keeps, as the `image` crate clamps it: the corner moved inside
/// the image, and the size cut to what lies inside.
pub open spec fn crop_box(iw: u32, ih: u32, x: u32, y: u32, w: u32, h: u32) -> (u32, u32, u32, u32) {
    let x2 = if x < iw { x } else { iw };
    let y2 = if y < ih { y } else { ih };
    let w2 = if w < iw - x2 { w } else { (iw - x2) as u32 };
    let h2 = if h < ih - y2 { h } else { (ih - y2) as u32 };
    (x2, y2, w2, h2)
}

/// Cuts the box at (`x`, `y`) of `w` × `h` pixels out of an RGB image of
/// `iw` × `ih` pixels, clamped to the image (`crop_box`); the result is
/// stored row by row.
pub fn crop_rgb(rgb: &Vec<u8>, iw: u32, ih: u32, x: u32, y: u32, w: u32, h: u32) -> (r: Vec<u8>)
    requires
        rgb@.len() == 3 * iw * ih,
    ensures
        ({
            let b = crop_box(iw, ih, x, y, w, h);
            &&& r@.len() == 3 * b.2 * b.3
            &&& forall|j: int, i: int, c: int|
                0 <= j < b.3 && 0 <= i < b.2 && 0 <= c < 3 ==> #[trigger] r@[3 * (j * b.2 + i) + c] == rgb@[3 * ((b.1
                    + j) * iw + b.0 + i) + c]
        }),
{
    let ghost b = crop_box(iw, ih, x, y, w, h);
    let x2 = if x < iw { x } else { iw };
    let y2 = if y < ih { y } else { ih };
    let w2 = if w < iw - x2 { w } else { iw - x2 };
    let h2 = if h < ih - y2 { h } else { ih - y2 };
    let iwu = iw as usize;
    let mut r: Vec<u8> = Vec::new();
    let mut j: u32 = 0;
    while j < h2
        invariant
            rgb@.len() == 3 * iw * ih,
            b == (x2, y2, w2, h2),
            iwu == iw,
            x2 + w2 <= iw,
            y2 + h2 <= ih,
            0 <= j <= h2,
            r@.len() == 3 * (j * w2),
            forall|f: int| 0 <= f < r@.len() ==> #[trigger] r@[f] == crop_byte(rgb@, iw as int, x2 as int, y2 as int, w2 as int, f),
        decreases h2 - j,
    {
        let mut i: u32 = 0;
        while i < w2
            invariant
                rgb@.len() == 3 * iw * ih,
                iwu == iw,
                x2 + w2 <= iw,
                y2 + h2 <= ih,
                0 <= j < h2,
                0 <= i <= w2,
                r@.len() == 3 * (j * w2 + i),
                forall|f: int| 0 <= f < r@.len() ==> #[trigger] r@[f] == crop_byte(rgb@, iw as int, x2 as int, y2 as int, w2 as int, f),
            decreases w2 - i,
        {
            let mut c: usize = 0;
            while c < 3
                invariant
                    rgb@.len() == 3 * iw * ih,
                    iwu == iw,
                    x2 + w2 <= iw,
                    y2 + h2 <= ih,
                    0 <= j < h2,
                    0 <= i < w2,
                    0 <= c <= 3,
                    r@.len() == 3 * (j * w2 + i) + c,
                    forall|f: int| 0 <= f < r@.len() ==> #[trigger] r@[f] == crop_byte(rgb@, iw as int, x2 as int, y2 as int, w2 as int, f),
                decreases 3 - c,
            {
                let len = rgb.len();
                proof {
                    lemma_pixel_index(j as int, i as int, c as int, y2 as int, x2 as int, iw as int, ih as int, w2 as int, h2 as int);
                    lemma_crop_byte_index(j as int, i as int, c as int, w2 as int);
                }
                let row = (y2 + j) as usize;
                let col = (x2 + i) as usize;
                r.push(rgb[3 * (row * iwu + col) + c]);
                c = c + 1;
            }
            i = i + 1;
        }
        proof {
            assert(3 * (j * w2 + w2) == 3 * ((j + 1) * w2)) by (nonlinear_arith);
        }
        j = j + 1;
    }
    proof {
        assert forall|j1: int, i1: int, c1: int|
            0 <= j1 < b.3 && 0 <= i1 < b.2 && 0 <= c1 < 3 implies #[trigger] r@[3 * (j1 * b.2 + i1) + c1] == rgb@[3
                * ((b.1 + j1) * iw + b.0 + i1) + c1] by {
            lemma_crop_byte_index(j1, i1, c1, w2 as int);
            assert(3 * (j1 * w2 + i1) + c1 < 3 * (h2 * w2)) by (nonlinear_arith)
                requires
                    0 <= j1 < h2,
                    0 <= i1 < w2,
                    0 <= c1 < 3,
            ;
        }
        assert(3 * (h2 * w2) == 3 * w2 * h2) by (nonlinear_arith);
    }
    r
}

/// Byte `f` of a cut of width `w2` whose corner is at (`x2`, `y2`) of an
/// image of width `iw`.
pub open spec fn crop_byte(rgb: Seq<u8>, iw: int, x2: int, y2: int, w2: int, f: int) -> u8 {
    let p = f / 3;
    rgb[3 * ((y2 + p / w2) * iw + x2 + p % w2) + f % 3]
}

proof fn lemma_crop_byte_index(j: int, i: int, c: int, w2: int)
    requires
        j >= 0,
        0 <= i < w2,
        0 <= c < 3,
    ensures
        (3 * (j * w2 + i) + c) / 3 == j * w2 + i,
        (3 * (j * w2 + i) + c) % 3 == c,
        (j * w2 + i) / w2 == j,
        (j * w2 + i) % w2 == i,
{
    vstd::arithmetic::div_mod::lemma_fundamental_div_mod_converse(3 * (j * w2 + i) + c, 3, j * w2 + i, c);
    vstd::arithmetic::div_mod::lemma_fundamental_div_mod_converse(j * w2 + i, w2, j, i);
}

proof fn lemma_pixel_index(j: int, i: int, c: int, y2: int, x2: int, iw: int, ih: int, w2: int, h2: int)
    requires
        0 <= j < h2,
        0 <= i < w2,
        0 <= c < 3,
        x2 >= 0,
        y2 >= 0,
        x2 + w2 <= iw,
        y2 + h2 <= ih,
    ensures
        0 <= 3 * ((y2 + j) * iw + x2 + i) + c < 3 * iw * ih,
        (y2 + j) * iw + x2 + i < iw * ih,
{
    assert((y2 + j) * iw + x2 + i < iw * ih) by (nonlinear_arith)
        requires
            0 <= j < h2,
            0 <= i < w2,
            x2 >= 0,
            y2 >= 0,
            x2 + w2 <= iw,
            y2 + h2 <= ih,
    ;
    assert(0 <= (y2 + j) * iw + x2 + i) by (nonlinear_arith)
        requires
            j >= 0,
            i >= 0,
            x2 >= 0,
            y2 >= 0,
            iw >= 0,
    ;
    assert(3 * iw * ih == 3 * (iw * ih)) by (nonlinear_arith);
}

/// Side of the square images the network reads.
pub const IMAGE_SIDE: usize = 224;

/// Channel `c` of the pixel in row `y`, column `x` of a `width` × `height`
/// image stored row by row, three bytes (red, green, blue) per pixel; zero
/// outside the image.
pub open spec fn rgb_value(width: int, height: int, rgb: Seq<u8>, c: int, y: int, x: int) -> u8 {
    if y < height && x < width {
        rgb[3 * (y * width + x) + c]
    } else {
        0
    }
}

/// Lays out an RGB image of at most 224 × 224 pixels as three 224 × 224
/// planes (red, green, blue), indexed by row then column; the pixels that
/// the image does not cover stay zero.
pub fn store_rgb_planes(width: usize, height: usize, rgb: &Vec<u8>) -> (planes: Vec<Vec<Vec<u8>>>)
    requires
        width <= IMAGE_SIDE,
        height <= IMAGE_SIDE,
        rgb@.len() == 3 * width * height,
    ensures
        planes@.len() == 3,
        forall|c: int| 0 <= c < 3 ==> (#[trigger] planes@[c])@.len() == IMAGE_SIDE,
        forall|c: int, y: int|
            0 <= c < 3 && 0 <= y < IMAGE_SIDE ==> (#[trigger] planes@[c]@[y])@.len() == IMAGE_SIDE,
        forall|c: int, y: int, x: int|
            0 <= c < 3 && 0 <= y < IMAGE_SIDE && 0 <= x < IMAGE_SIDE ==> #[trigger] planes@[c]@[y]@[x]
                == rgb_value(width as int, height as int, rgb@, c, y, x),
{
    let mut planes: Vec<Vec<Vec<u8>>> = Vec::new();
    let mut c: usize = 0;
    while c < 3
        invariant
            width <= IMAGE_SIDE,
            height <= IMAGE_SIDE,
            rgb@.len() == 3 * width * height,
            0 <= c <= 3,
            planes@.len() == c,
            forall|c2: int| 0 <= c2 < c ==> (#[trigger] planes@[c2])@.len() == IMAGE_SIDE,
            forall|c2: int, y: int|
                0 <= c2 < c && 0 <= y < IMAGE_SIDE ==> (#[trigger] planes@[c2]@[y])@.len() == IMAGE_SIDE,
            forall|c2: int, y: int, x: int|
                0 <= c2 < c && 0 <= y < IMAGE_SIDE && 0 <= x < IMAGE_SIDE ==> #[trigger] planes@[c2]@[y]@[x]
                    == rgb_value(width as int, height as int, rgb@, c2, y, x),
        decreases 3 - c,
    {
        let mut plane: Vec<Vec<u8>> = Vec::new();
        let mut y: usize = 0;
        while y < IMAGE_SIDE
            invariant
                width <= IMAGE_SIDE,
                height <= IMAGE_SIDE,
                rgb@.len() == 3 * width * height,
                0 <= c < 3,
                0 <= y <= IMAGE_SIDE,
                plane@.len() == y,
                forall|y2: int| 0 <= y2 < y ==> (#[trigger] plane@[y2])@.len() == IMAGE_SIDE,
                forall|y2: int, x: int|
                    0 <= y2 < y && 0 <= x < IMAGE_SIDE ==> #[trigger] plane@[y2]@[x] == rgb_value(
                        width as int,
                        height as int,
                        rgb@,
                        c as int,
                        y2,
                        x,
                    ),
            decreases IMAGE_SIDE - y,
        {
            let mut row: Vec<u8> = Vec::new();
            let mut x: usize = 0;
            while x < IMAGE_SIDE
                invariant
                    width <= IMAGE_SIDE,
                    height <= IMAGE_SIDE,
                    rgb@.len() == 3 * width * height,
                    0 <= c < 3,
                    0 <= y < IMAGE_SIDE,
                    0 <= x <= IMAGE_SIDE,
                    row@.len() == x,
                    forall|x2: int|
                        0 <= x2 < x ==> #[trigger] row@[x2] == rgb_value(
                            width as int,
                            height as int,
                            rgb@,
                            c as int,
                            y as int,
                            x2,
                        ),
                decreases IMAGE_SIDE - x,
            {
                if y < height && x < width {
                    let len = rgb.len();
                    assert(y * width + x < width * height && 3 * (y * width + x) + c < 3 * width * height)
                        by (nonlinear_arith)
                        requires
                            y < height,
                            x < width,
                            c < 3,
                    ;
                    assert(len == 3 * width * height);
                    row.push(rgb[3 * (y * width + x) + c]);
                } else {
                    row.push(0u8);
                }
                x = x + 1;
            }
            plane.push(row);
            y = y + 1;
        }
        planes.push(plane);
        c = c + 1;
    }
    planes
}


/// The pixels of the network's input image, as `read_and_store_image` makes
/// them from a decoded 8-bit RGB image of `width` × `height` pixels: the
/// image resized to 224 × 224 with the triangle filter, cut to the centre
/// square of the image before resizing (clamped to the resized image), and laid
/// out as three 224 × 224 planes, zero where the cut image does not reach.
pub fn store_image(rgb: &Vec<u8>, width: u32, height: u32) -> (planes: Vec<Vec<Vec<u8>>>)
    requires
        width > 0,
        height > 0,
        rgb@.len() == 3 * width * height,
    ensures
        ({
            let sq = center_square(width, height);
            let b = crop_box(224, 224, sq.0, sq.1, sq.2, sq.3);
            let resized = triangle_resized(rgb@, width, height, 224, 224);
            &&& planes@.len() == 3
            &&& forall|c: int| 0 <= c < 3 ==> (#[trigger] planes@[c])@.len() == IMAGE_SIDE
            &&& forall|c: int, y: int|
                0 <= c < 3 && 0 <= y < IMAGE_SIDE ==> (#[trigger] planes@[c]@[y])@.len() == IMAGE_SIDE
            &&& forall|c: int, y: int, x: int|
                0 <= c < 3 && 0 <= y < IMAGE_SIDE && 0 <= x < IMAGE_SIDE ==> #[trigger] planes@[c]@[y]@[x] == if y
                    < b.3 && x < b.2 {
                    resized[3 * ((b.1 + y) * 224 + b.0 + x) + c]
                } else {
                    0
                }
        }),
{
    let region = center_crop_region(width, height);
    let resized = resize_rgb_triangle(rgb, width, height, 224, 224);
    let cropped = crop_rgb(&resized, 224, 224, region.0, region.1, region.2, region.3);
    let ghost b = crop_box(224, 224, region.0, region.1, region.2, region.3);
    let cw: u32 = if region.2 < 224 - (if region.0 < 224 { region.0 } else { 224 }) {
        region.2
    } else {
        224 - (if region.0 < 224 { region.0 } else { 224 })
    };
    let ch: u32 = if region.3 < 224 - (if region.1 < 224 { region.1 } else { 224 }) {
        region.3
    } else {
        224 - (if region.1 < 224 { region.1 } else { 224 })
    };
    assert(cw == b.2 && ch == b.3);
    let planes = store_rgb_planes(cw as usize, ch as usize, &cropped);
    proof {
        assert forall|c: int, y: int, x: int|
            0 <= c < 3 && 0 <= y < IMAGE_SIDE && 0 <= x < IMAGE_SIDE implies #[trigger] planes@[c]@[y]@[x] == if y
                < b.3 && x < b.2 {
                triangle_resized(rgb@, width, height, 224, 224)[3 * ((b.1 + y) * 224 + b.0 + x) + c]
            } else {
                0
            } by {
            if y < b.3 && x < b.2 {
                assert(cropped@[3 * (y * b.2 + x) + c] == resized@[3 * ((b.1 + y) * 224 + b.0 + x) + c]);
            }
        }
    }
    planes
}

} // verus!
