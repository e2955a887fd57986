//! The carrier image: a grid of pixels, each four 8-bit channels packed in 32 bits.
use vstd::prelude::*;
use crate::error::SecretError;

pub mod image_coder;

verus! {

/// The most pixels an image may have: the bits it can carry are counted in a `usize`.
pub open spec fn max_pixels() -> int {
    (usize::MAX / 16) as int
}

/// Channel `c` of a pixel: 0 is red (the lowest byte), 1 green, 2 blue, 3 alpha.
pub open spec fn channel(pixel: u32, c: int) -> u8 {
    if c == 0 {
        (pixel & 0xFF) as u8
    } else if c == 1 {
        ((pixel >> 8) & 0xFF) as u8
    } else if c == 2 {
        ((pixel >> 16) & 0xFF) as u8
    } else {
        (pixel >> 24) as u8
    }
}

/// The pixel made of four channels.
pub open spec fn pack_pixel(r: u8, g: u8, b: u8, a: u8) -> u32 {
    (a as u32) << 24 | (b as u32) << 16 | (g as u32) << 8 | (r as u32)
}

/// The four channel bytes of each pixel in turn: red, green, blue, alpha.
pub open spec fn pixel_bytes(pixels: Seq<u32>) -> Seq<u8> {
    Seq::new(4 * pixels.len(), |i: int| channel(pixels[i / 4], i % 4))
}

proof fn lemma_pack_channels(r: u8, g: u8, b: u8, a: u8)
    by (bit_vector)
    ensures
        (pack_pixel(r, g, b, a) & 0xFF) as u8 == r,
        ((pack_pixel(r, g, b, a) >> 8) & 0xFF) as u8 == g,
        ((pack_pixel(r, g, b, a) >> 16) & 0xFF) as u8 == b,
        (pack_pixel(r, g, b, a) >> 24) as u8 == a,
{
}

proof fn lemma_channels_pack(p: u32)
    by (bit_vector)
    ensures
        pack_pixel(
            (p & 0xFF) as u8,
            ((p >> 8) & 0xFF) as u8,
            ((p >> 16) & 0xFF) as u8,
            (p >> 24) as u8,
        ) == p,
{
}

/// Each channel of a packed pixel is the channel it was packed from.
pub proof fn lemma_channel_of_pack(r: u8, g: u8, b: u8, a: u8)
    ensures
        channel(pack_pixel(r, g, b, a), 0) == r,
        channel(pack_pixel(r, g, b, a), 1) == g,
        channel(pack_pixel(r, g, b, a), 2) == b,
        channel(pack_pixel(r, g, b, a), 3) == a,
{
    lemma_pack_channels(r, g, b, a);
}

/// A pixel is the pack of its own four channels.
pub proof fn lemma_pack_of_channels(p: u32)
    ensures
        pack_pixel(channel(p, 0), channel(p, 1), channel(p, 2), channel(p, 3)) == p,
{
    lemma_channels_pack(p);
}

/// How the samples of a decoded raster image are laid out.
#[derive(Clone, Copy, Debug, PartialEq, Eq, Structural)]
pub enum ColorLayout {
    /// One grey sample for each pixel.
    Grayscale,
    /// Red, green and blue.
    Rgb,
    /// An index into a palette.
    Indexed,
    /// Grey and alpha.
    GrayscaleAlpha,
    /// Red, green, blue and alpha.
    Rgba,
}

/// The pixels that RGB samples stand for: three samples make a pixel, with full alpha.
pub open spec fn rgb_pixels(samples: Seq<u8>) -> Seq<u32> {
    Seq::new(
        samples.len() / 3,
        |i: int| pack_pixel(samples[3 * i], samples[3 * i + 1], samples[3 * i + 2], 0xFFu8),
    )
}

/// The pixels that RGBA samples stand for: four samples make a pixel.
pub open spec fn rgba_pixels(samples: Seq<u8>) -> Seq<u32> {
    Seq::new(
        samples.len() / 4,
        |i: int| pack_pixel(samples[4 * i], samples[4 * i + 1], samples[4 * i + 2], samples[4 * i + 3]),
    )
}

/// Whether decoded samples can become an image: 8 bits a sample, RGB or
/// RGBA, as many samples as the grid asks for, and no more than
/// `max_pixels()` pixels.
pub open spec fn accepted_samples(
    width: u32,
    height: u32,
    layout: ColorLayout,
    bit_depth: u8,
    len: nat,
) -> bool {
    &&& bit_depth == 8
    &&& width * height <= max_pixels()
    &&& (layout == ColorLayout::Rgb && len == 3 * (width * height) || layout == ColorLayout::Rgba && len
        == 4 * (width * height))
}

/// What an image is: its dimensions and its pixels, row after row.
pub struct ImageView {
    pub width: nat,
    pub height: nat,
    pub pixels: Seq<u32>,
}

/// An image in memory.
pub struct Image {
    w: u32,
    h: u32,
    data: Vec<u32>,
}

impl View for Image {
    type V = ImageView;

    closed spec fn view(&self) -> ImageView {
        ImageView { width: self.w as nat, height: self.h as nat, pixels: self.data@ }
    }
}

impl Clone for Image {
    fn clone(&self) -> (out: Image)
        ensures
            out@ == self@,
    {
        Image { w: self.w, h: self.h, data: self.data.clone() }
    }
}

impl Image {
    /// An image has one pixel for each place of its grid, and no more than `max_pixels()`.
    pub open spec fn wf(&self) -> bool {
        &&& self@.pixels.len() == self@.width * self@.height
        &&& self@.pixels.len() <= max_pixels()
    }

    /// An image of the given size with every channel of every pixel zero.
    pub fn create_empty_image(width: u32, height: u32) -> (img: Image)
        requires
            width * height <= max_pixels(),
        ensures
            img.wf(),
            img@.width == width,
            img@.height == height,
            img@.pixels == Seq::new((width * height) as nat, |i: int| 0u32),
    {
        let count: usize = (width as usize) * (height as usize);
        let data = vec![0u32; count];
        assert(data@ =~= Seq::new((width * height) as nat, |i: int| 0u32));
        Image { w: width, h: height, data }
    }

    /// An image of the given size with the given pixels, row after row.
    /// Refused when the number of pixels is not `width * height` or is more
    /// than `max_pixels()`.
    pub fn from_pixels(width: u32, height: u32, data: Vec<u32>) -> (out: Result<Image, SecretError>)
        ensures
            out is Ok <==> data@.len() == width * height && data@.len() <= max_pixels(),
            out matches Ok(img) ==> img.wf() && img@ == (ImageView {
                width: width as nat,
                height: height as nat,
                pixels: data@,
            }),
            out matches Err(e) ==> e == SecretError::InvalidColorFormat,
    {
        assert(width * height <= 0xFFFF_FFFF * 0xFFFF_FFFF) by (nonlinear_arith)
            requires
                width <= 0xFFFF_FFFF,
                height <= 0xFFFF_FFFF,
        ;
        let count: u64 = (width as u64) * (height as u64);
        if data.len() > usize::MAX / 16 || data.len() as u64 != count {
            return Err(SecretError::InvalidColorFormat);
        }
        Ok(Image { w: width, h: height, data })
    }

    /// The image that decoded samples stand for. RGB samples get full
    /// alpha; any layout but 8-bit RGB or RGBA is refused, and so are
    /// samples that do not match the dimensions.
    pub fn from_samples(
        width: u32,
        height: u32,
        layout: ColorLayout,
        bit_depth: u8,
        samples: &[u8],
    ) -> (out: Result<Image, SecretError>)
        ensures
            out is Ok <==> accepted_samples(width, height, layout, bit_depth, samples@.len()),
            out matches Ok(img) ==> img.wf() && img@ == (ImageView {
                width: width as nat,
                height: height as nat,
                pixels: if layout == ColorLayout::Rgb {
                    rgb_pixels(samples@)
                } else {
                    rgba_pixels(samples@)
                },
            }),
            out matches Err(e) ==> e == SecretError::InvalidColorFormat,
    {
        let channels: usize = match layout {
            ColorLayout::Rgb => 3,
            ColorLayout::Rgba => 4,
            _ => { return Err(SecretError::InvalidColorFormat); },
        };
        if bit_depth != 8 {
            return Err(SecretError::InvalidColorFormat);
        }
        assert(width * height <= 0xFFFF_FFFF * 0xFFFF_FFFF) by (nonlinear_arith)
            requires
                width <= 0xFFFF_FFFF,
                height <= 0xFFFF_FFFF,
        ;
        let count: u64 = (width as u64) * (height as u64);
        if count > (usize::MAX / 16) as u64 {
            return Err(SecretError::InvalidColorFormat);
        }
        let count: usize = count as usize;
        if samples.len() != channels * count {
            return Err(SecretError::InvalidColorFormat);
        }
        let mut data: Vec<u32> = Vec::new();
        let mut i: usize = 0;
        while i < count
            invariant
                i <= count,
                count <= usize::MAX / 16,
                channels == 3 || channels == 4,
                samples@.len() == channels * count,
                data@.len() == i,
                channels == 3 ==> forall|k: int| 0 <= k < i ==> data@[k] == rgb_pixels(samples@)[k],
                channels == 4 ==> forall|k: int| 0 <= k < i ==> data@[k] == rgba_pixels(samples@)[k],
            decreases count - i,
        {
            let r: u8 = samples[i * channels];
            let g: u8 = samples[i * channels + 1];
            let b: u8 = samples[i * channels + 2];
            let a: u8 = if channels == 4 { samples[i * channels + 3] } else { 0xFF };
            data.push((a as u32) << 24 | (b as u32) << 16 | (g as u32) << 8 | (r as u32));
            i += 1;
        }
        proof {
            if channels == 3 {
                assert(data@ =~= rgb_pixels(samples@));
            } else {
                assert(data@ =~= rgba_pixels(samples@));
            }
        }
        Ok(Image { w: width, h: height, data })
    }

    /// The number of pixels in a row.
    pub fn width(&self) -> (w: u32)
        ensures
            w == self@.width,
    {
        self.w
    }

    /// The number of rows.
    pub fn height(&self) -> (h: u32)
        ensures
            h == self@.height,
    {
        self.h
    }

    /// The channels (red, green, blue, alpha) of the pixel in column `x` of row `y`.
    pub fn get_pixel_value(&self, x: u32, y: u32) -> (color: (u8, u8, u8, u8))
        requires
            self.wf(),
            x < self@.width,
            y < self@.height,
        ensures
            color.0 == channel(self@.pixels[x + y * self@.width], 0),
            color.1 == channel(self@.pixels[x + y * self@.width], 1),
            color.2 == channel(self@.pixels[x + y * self@.width], 2),
            color.3 == channel(self@.pixels[x + y * self@.width], 3),
    {
        proof {
            lemma_grid_index(x as int, y as int, self.w as int, self.h as int);
        }
        let pixel: u32 = self.data[(x as usize) + (y as usize) * (self.w as usize)];
        let a: u8 = (pixel >> 24) as u8;
        let b: u8 = ((pixel >> 16) & 0xFF) as u8;
        let g: u8 = ((pixel >> 8) & 0xFF) as u8;
        let r: u8 = (pixel & 0xFF) as u8;
        (r, g, b, a)
    }

    /// Replaces the pixel in column `x` of row `y` by the one with the given
    /// channels (red, green, blue, alpha).
    pub fn set_pixel_value(&mut self, x: u32, y: u32, color: (u8, u8, u8, u8))
        requires
            old(self).wf(),
            x < old(self)@.width,
            y < old(self)@.height,
        ensures
            final(self).wf(),
            final(self)@ == (ImageView {
                pixels: old(self)@.pixels.update(
                    x + y * old(self)@.width,
                    pack_pixel(color.0, color.1, color.2, color.3),
                ),
                ..old(self)@
            }),
    {
        proof {
            lemma_grid_index(x as int, y as int, self.w as int, self.h as int);
        }
        let pixel: u32 = (color.3 as u32) << 24 | (color.2 as u32) << 16 | (color.1 as u32) << 8
            | color.0 as u32;
        let index: usize = (x as usize) + (y as usize) * (self.w as usize);
        self.data[index] = pixel;
    }

    /// The pixels, row after row.
    pub fn get_raw_data(&self) -> (out: &[u32])
        ensures
            out@ == self@.pixels,
    {
        self.data.as_slice()
    }

    /// The pixels, row after row, open to change in place.
    pub fn get_raw_data_mut(&mut self) -> (out: &mut [u32])
        ensures
            out@ == old(self)@.pixels,
            final(self)@ == (ImageView { pixels: final(out)@, ..old(self)@ }),
    {
        self.data.as_mut_slice()
    }

    /// The channel bytes of all pixels: red, green, blue, alpha of the first
    /// pixel, then of the second, and so on.
    pub fn get_bytes(&self) -> (out: Vec<u8>)
        requires
            self.wf(),
        ensures
            out@ == pixel_bytes(self@.pixels),
    {
        let mut out: Vec<u8> = Vec::new();
        let mut i: usize = 0;
        while i < self.data.len()
            invariant
                i <= self.data@.len(),
                out@ == pixel_bytes(self.data@.take(i as int)),
            decreases self.data@.len() - i,
        {
            let pixel: u32 = self.data[i];
            out.push((pixel & 0xFF) as u8);
            out.push(((pixel >> 8) & 0xFF) as u8);
            out.push(((pixel >> 16) & 0xFF) as u8);
            out.push((pixel >> 24) as u8);
            i += 1;
            assert(out@ =~= pixel_bytes(self.data@.take(i as int)));
        }
        assert(self.data@.take(i as int) =~= self.data@);
        out
    }
}

/// A place of the grid has its index within the pixels.
proof fn lemma_grid_index(x: int, y: int, w: int, h: int)
    by (nonlinear_arith)
    requires
        0 <= x < w,
        0 <= y < h,
    ensures
        0 <= y * w,
        x + y * w < w * h,
{
}

} // verus!
