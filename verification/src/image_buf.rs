use vstd::prelude::*;

verus! {

/// A decoded raster image: `width * height` pixels, each holding four 8-bit
/// channels (red, green, blue, alpha), stored row-major as raw bytes. The
/// byte for channel `c` of the pixel at `(x, y)` sits at index
/// `4 * (y * width + x) + c`.
pub struct ImageBuf {
    width: u32,
    height: u32,
    data: Vec<u8>,
}

impl View for ImageBuf {
    type V = Seq<u8>;

    closed spec fn view(&self) -> Seq<u8> {
        self.data@
    }
}

impl ImageBuf {
    pub closed spec fn spec_width(&self) -> u32 {
        self.width
    }

    pub closed spec fn spec_height(&self) -> u32 {
        self.height
    }

    /// The raw buffer holds exactly four bytes per pixel.
    pub open spec fn wf(&self) -> bool {
        self@.len() == 4 * self.spec_width() * self.spec_height()
    }

    /// Wraps raw RGBA bytes as an image, rejecting a buffer whose length does
    /// not match the dimensions.
    pub fn new(width: u32, height: u32, data: Vec<u8>) -> (r: Option<ImageBuf>)
        ensures
            r is Some <==> data@.len() == 4 * width * height,
            r matches Some(img) ==> img.wf() && img.spec_width() == width
                && img.spec_height() == height && img@ == data@,
    {
        let wu: u128 = width as u128;
        let hu: u128 = height as u128;
        assert((4 * wu) * hu < 0x1_0000_0000_0000_0000_0000) by (nonlinear_arith)
            requires
                wu < 0x1_0000_0000,
                hu < 0x1_0000_0000,
        ;
        let expected: u128 = (4u128 * wu) * hu;
        if (data.len() as u128) == expected {
            Some(ImageBuf { width, height, data })
        } else {
            None
        }
    }

    pub fn width(&self) -> (r: u32)
        ensures
            r == self.spec_width(),
    {
        self.width
    }

    pub fn height(&self) -> (r: u32)
        ensures
            r == self.spec_height(),
    {
        self.height
    }

    pub fn len(&self) -> (r: usize)
        ensures
            r == self@.len(),
    {
        self.data.len()
    }

    pub fn byte_at(&self, i: usize) -> (r: u8)
        requires
            i < self@.len(),
        ensures
            r == self@[i as int],
    {
        self.data[i]
    }

    pub fn set_byte(&mut self, i: usize, v: u8)
        requires
            i < old(self)@.len(),
        ensures
            final(self)@ == old(self)@.update(i as int, v),
            final(self).spec_width() == old(self).spec_width(),
            final(self).spec_height() == old(self).spec_height(),
    {
        self.data.set(i, v);
    }

    pub fn bytes(&self) -> (r: &Vec<u8>)
        ensures
            r@ == self@,
    {
        &self.data
    }

    pub fn into_bytes(self) -> (r: Vec<u8>)
        ensures
            r@ == self@,
    {
        self.data
    }
}

/// The image that the codec crate decodes from the given bytes, as
/// `(width, height, raw RGBA bytes)`, or `None` where the bytes are not a
/// recognized, parsable image. Decoding is a pure function of the bytes.
pub uninterp spec fn decode_of(bytes: Seq<u8>) -> Option<(u32, u32, Seq<u8>)>;

/// Relies on image::guess_format and image::load_from_memory_with_format:
/// both are pure functions of the input bytes. A decoded image converted to
/// RGBA (`DynamicImage` into `RgbaImage`, then `ImageBuffer::into_raw`)
/// yields exactly `width * height * 4` bytes, row-major.
#[verifier::external_body]
pub(crate) fn decode_rgba(buf: &[u8]) -> (r: Result<ImageBuf, image::ImageError>)
    ensures
        r matches Ok(img) ==> img.wf()
            && decode_of(buf@) == Some((img.spec_width(), img.spec_height(), img@)),
        r matches Err(_) ==> decode_of(buf@) is None,
{
    let format = image::guess_format(buf)?;
    let img: image::RgbaImage = image::load_from_memory_with_format(buf, format)?.into();
    let (width, height) = (img.width(), img.height());
    Ok(ImageBuf { width, height, data: img.into_raw() })
}

} // verus!
