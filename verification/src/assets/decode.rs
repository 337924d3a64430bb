//! Decodes image bytes into plain RGBA8 pixel buffers, shared by every painting
//! backend. A static image decodes to one frame; an animated GIF to one frame
//! per animation frame, each with its own display delay.

use vstd::prelude::*;
use vstd::string::*;

verus! {

/// One decoded, straight (non-premultiplied) RGBA8 frame.
#[derive(Debug)]
pub struct Frame {
    pub width: u32,
    pub height: u32,
    /// `width * height * 4` bytes, row-major, RGBA8.
    pub rgba: Vec<u8>,
    /// How long this frame stays on screen before advancing to the next, in
    /// milliseconds; `0` for a single-frame image.
    pub delay_ms: u32,
}

/// A decoded image.
#[derive(Debug)]
pub struct DecodedImage {
    pub width: u32,
    pub height: u32,
    /// Always at least one frame. More than one only for an animated GIF.
    pub frames: Vec<Frame>,
}

/// The model of a frame.
pub struct Picture {
    pub width: u32,
    pub height: u32,
    pub rgba: Seq<u8>,
    pub delay_ms: u32,
}

impl View for Frame {
    type V = Picture;

    open spec fn view(&self) -> Picture {
        Picture {
            width: self.width,
            height: self.height,
            rgba: self.rgba@,
            delay_ms: self.delay_ms,
        }
    }
}

impl Clone for Frame {
    fn clone(&self) -> (r: Self)
        ensures
            r@ == self@,
    {
        let mut rgba: Vec<u8> = Vec::new();
        let mut i: usize = 0;
        while i < self.rgba.len()
            invariant
                0 <= i <= self.rgba@.len(),
                rgba@ =~= self.rgba@.take(i as int),
            decreases self.rgba@.len() - i,
        {
            rgba.push(self.rgba[i]);
            i = i + 1;
        }
        assert(rgba@ =~= self.rgba@);
        Frame { width: self.width, height: self.height, rgba, delay_ms: self.delay_ms }
    }
}

/// The model of an image: its size and its frames.
pub struct ImageModel {
    pub width: u32,
    pub height: u32,
    pub frames: Seq<Picture>,
}

impl View for DecodedImage {
    type V = ImageModel;

    open spec fn view(&self) -> ImageModel {
        ImageModel {
            width: self.width,
            height: self.height,
            frames: self.frames@.map_values(|f: Frame| f@),
        }
    }
}

impl DecodedImage {
    /// Whether there is more than one frame to show.
    pub fn is_animated(&self) -> (r: bool)
        ensures
            r == (self@.frames.len() > 1),
    {
        self.frames.len() > 1
    }
}

// ---- what the decoder library hands over ----

/// Which of the two ways of decoding a format needs.
#[derive(Debug, Clone, Copy, PartialEq, Eq, Structural)]
pub enum ImageKind {
    Gif,
    Other,
}

/// A composited frame of an animation, with its delay as a fraction of
/// milliseconds.
#[derive(Debug)]
pub struct RawFrame {
    pub width: u32,
    pub height: u32,
    pub rgba: Vec<u8>,
    pub delay_numer: u32,
    pub delay_denom: u32,
}

/// The model of an animation frame.
pub struct RawPicture {
    pub width: u32,
    pub height: u32,
    pub rgba: Seq<u8>,
    pub delay_numer: u32,
    pub delay_denom: u32,
}

impl View for RawFrame {
    type V = RawPicture;

    open spec fn view(&self) -> RawPicture {
        RawPicture {
            width: self.width,
            height: self.height,
            rgba: self.rgba@,
            delay_numer: self.delay_numer,
            delay_denom: self.delay_denom,
        }
    }
}

/// Where reading an animation failed, and the decoder's words for it.
#[derive(Debug)]
pub enum GifError {
    Open(String),
    Frames(String),
}

/// The model of an animation's failure.
pub enum GifFault {
    Open(Seq<char>),
    Frames(Seq<char>),
}

impl View for GifError {
    type V = GifFault;

    open spec fn view(&self) -> GifFault {
        match self {
            GifError::Open(e) => GifFault::Open(e@),
            GifError::Frames(e) => GifFault::Frames(e@),
        }
    }
}

/// The format that the first bytes of an image show, or the detector's words
/// for finding none.
pub uninterp spec fn guessed_kind(bytes: Seq<u8>) -> Result<ImageKind, Seq<char>>;

/// The size and the RGBA8 pixels of a single image in the format that its first
/// bytes show, or the decoder's words for finding none.
pub uninterp spec fn still_pixels(bytes: Seq<u8>) -> Result<(u32, u32, Seq<u8>), Seq<char>>;

/// The composited frames of a GIF, or where reading it failed.
pub uninterp spec fn gif_pictures(bytes: Seq<u8>) -> Result<Seq<RawPicture>, GifFault>;

/// `image::guess_format`: tells GIF from the other formats by the first bytes.
#[verifier::external_body]
fn guess_kind(bytes: &[u8]) -> (r: Result<ImageKind, String>)
    ensures
        match r {
            Ok(k) => guessed_kind(bytes@) == Ok::<ImageKind, Seq<char>>(k),
            Err(e) => guessed_kind(bytes@) == Err::<ImageKind, Seq<char>>(e@),
        },
{
    match image::guess_format(bytes) {
        Ok(image::ImageFormat::Gif) => Ok(ImageKind::Gif),
        Ok(_) => Ok(ImageKind::Other),
        Err(e) => Err(e.to_string()),
    }
}

/// `image::load_from_memory_with_format`, for the format that
/// `image::guess_format` finds, as RGBA8: the pixels fill the image's size.
#[verifier::external_body]
fn load_still(bytes: &[u8]) -> (r: Result<(u32, u32, Vec<u8>), String>)
    ensures
        match r {
            Ok((w, h, px)) => still_pixels(bytes@) == Ok::<(u32, u32, Seq<u8>), Seq<char>>(
                (w, h, px@),
            ) && px@.len() == w * h * 4,
            Err(e) => still_pixels(bytes@) == Err::<(u32, u32, Seq<u8>), Seq<char>>(e@),
        },
{
    let format = image::guess_format(bytes).map_err(|e| e.to_string())?;
    let img = image::load_from_memory_with_format(bytes, format).map_err(|e| e.to_string())?;
    let rgba = img.to_rgba8();
    Ok((rgba.width(), rgba.height(), rgba.into_raw()))
}

/// `image::codecs::gif::GifDecoder`, its frames collected in order: the pixels
/// of each fill its size.
#[verifier::external_body]
fn load_gif(bytes: &[u8]) -> (r: Result<Vec<RawFrame>, GifError>)
    ensures
        match r {
            Ok(fs) => gif_pictures(bytes@) == Ok::<Seq<RawPicture>, GifFault>(
                fs@.map_values(|f: RawFrame| f@),
            ) && forall|i: int|
                0 <= i < fs@.len() ==> (#[trigger] fs@[i]).rgba@.len() == fs@[i].width
                    * fs@[i].height * 4,
            Err(e) => gif_pictures(bytes@) == Err::<Seq<RawPicture>, GifFault>(e@),
        },
{
    let cursor = std::io::Cursor::new(bytes);
    let decoder = image::codecs::gif::GifDecoder::new(cursor)
        .map_err(|e| GifError::Open(e.to_string()))?;
    let frames = image::AnimationDecoder::into_frames(decoder).collect_frames()
        .map_err(|e| GifError::Frames(e.to_string()))?;
    Ok(frames.into_iter().map(|f| {
        let (delay_numer, delay_denom) = f.delay().numer_denom_ms();
        let buf = f.into_buffer();
        let (width, height) = (buf.width(), buf.height());
        RawFrame { width, height, rgba: buf.into_raw(), delay_numer, delay_denom }
    }).collect())
}

// ---- decoding ----

/// A frame's delay in whole milliseconds.
pub open spec fn delay_of(numer: u32, denom: u32) -> u32 {
    if denom == 0 {
        0
    } else {
        (numer as int / denom as int) as u32
    }
}

/// A frame of an animation; one that is alone has no delay.
pub open spec fn picture_of(f: RawPicture, alone: bool) -> Picture {
    Picture {
        width: f.width,
        height: f.height,
        rgba: f.rgba,
        delay_ms: if alone {
            0
        } else {
            delay_of(f.delay_numer, f.delay_denom)
        },
    }
}

/// The image that an animation's frames make; its size is that of the last one.
pub open spec fn animation(frames: Seq<RawPicture>) -> Result<ImageModel, Seq<char>> {
    if frames.len() == 0 {
        Err("GIF has no frames"@)
    } else {
        Ok(
            ImageModel {
                width: frames.last().width,
                height: frames.last().height,
                frames: frames.map_values(|f: RawPicture| picture_of(f, frames.len() == 1)),
            },
        )
    }
}

/// The image that a single picture makes.
pub open spec fn still(width: u32, height: u32, rgba: Seq<u8>) -> ImageModel {
    ImageModel { width, height, frames: seq![Picture { width, height, rgba, delay_ms: 0 }] }
}

/// The image that `bytes` hold, or why they hold none.
pub open spec fn decoded(bytes: Seq<u8>) -> Result<ImageModel, Seq<char>> {
    match guessed_kind(bytes) {
        Err(e) => Err("could not detect image format: "@ + e),
        Ok(ImageKind::Gif) => match gif_pictures(bytes) {
            Err(GifFault::Open(e)) => Err("could not open GIF: "@ + e),
            Err(GifFault::Frames(e)) => Err("could not decode GIF frames: "@ + e),
            Ok(frames) => animation(frames),
        },
        Ok(ImageKind::Other) => match still_pixels(bytes) {
            Err(e) => Err("could not decode image: "@ + e),
            Ok((w, h, px)) => Ok(still(w, h, px)),
        },
    }
}

/// `result` is what `model` says.
pub open spec fn agrees(result: Result<DecodedImage, String>, model: Result<ImageModel, Seq<char>>) -> bool {
    match result {
        Ok(img) => model == Ok::<ImageModel, Seq<char>>(img@),
        Err(e) => model == Err::<ImageModel, Seq<char>>(e@),
    }
}

/// The image that an animation's frames make.
pub fn assemble_animation(frames: Vec<RawFrame>) -> (r: Result<DecodedImage, String>)
    ensures
        agrees(r, animation(frames@.map_values(|f: RawFrame| f@))),
{
    let ghost raw = frames@.map_values(|f: RawFrame| f@);
    let alone: bool = frames.len() == 1;
    if frames.len() == 0 {
        return Err("GIF has no frames".to_owned());
    }
    let mut out: Vec<Frame> = Vec::new();
    let mut width: u32 = 0;
    let mut height: u32 = 0;
    for f in it: frames
        invariant
            it.seq() == frames@,
            raw == frames@.map_values(|f: RawFrame| f@),
            out@.map_values(|f: Frame| f@) == raw.take(it.index() as int).map_values(
                |f: RawPicture| picture_of(f, alone),
            ),
            it.index() > 0 ==> width == raw[it.index() - 1].width && height == raw[it.index()
                - 1].height,
    {
        let ghost k = it.index() as int;
        let ghost before = out@.map_values(|f: Frame| f@);
        assert(raw[k] == f@);
        let ghost fv = f@;
        let delay_ms: u32 = if alone || f.delay_denom == 0 {
            0
        } else {
            f.delay_numer / f.delay_denom
        };
        width = f.width;
        height = f.height;
        out.push(Frame { width, height, rgba: f.rgba, delay_ms });
        proof {
            assert(out@.map_values(|f: Frame| f@) =~= before.push(picture_of(fv, alone)));
            assert(raw.take(k + 1) =~= raw.take(k).push(fv));
            assert(out@.map_values(|f: Frame| f@) =~= raw.take(k + 1).map_values(
                |f: RawPicture| picture_of(f, alone),
            ));
        }
    }
    assert(raw.take(raw.len() as int) =~= raw);
    Ok(DecodedImage { width, height, frames: out })
}

/// The image that a single picture makes.
pub fn assemble_still(width: u32, height: u32, rgba: Vec<u8>) -> (r: DecodedImage)
    ensures
        r@ == still(width, height, rgba@),
{
    let ghost px = rgba@;
    let mut frames: Vec<Frame> = Vec::new();
    frames.push(Frame { width, height, rgba, delay_ms: 0 });
    assert(frames@.map_values(|f: Frame| f@) =~= still(width, height, px).frames);
    DecodedImage { width, height, frames }
}

/// `prefix` with `rest` behind it.
fn message(prefix: &str, rest: &str) -> (r: String)
    ensures
        r@ == prefix@ + rest@,
{
    let mut m: String = prefix.to_owned();
    m.append(rest);
    m
}

/// The frames of a GIF.
pub fn decode_gif(bytes: &[u8]) -> (r: Result<DecodedImage, String>)
    ensures
        guessed_kind(bytes@) == Ok::<ImageKind, Seq<char>>(ImageKind::Gif) ==> agrees(
            r,
            decoded(bytes@),
        ),
        match gif_pictures(bytes@) {
            Err(GifFault::Open(e)) => agrees(r, Err("could not open GIF: "@ + e)),
            Err(GifFault::Frames(e)) => agrees(r, Err("could not decode GIF frames: "@ + e)),
            Ok(frames) => agrees(r, animation(frames)),
        },
{
    match load_gif(bytes) {
        Err(GifError::Open(e)) => Err(message("could not open GIF: ", e.as_str())),
        Err(GifError::Frames(e)) => Err(message("could not decode GIF frames: ", e.as_str())),
        Ok(frames) => assemble_animation(frames),
    }
}

/// Decodes `bytes` (already read into memory) into an image: every frame of an
/// animated GIF with its own delay; anything else, a GIF of one frame too, as one
/// frame without a delay.
pub fn decode_bytes(bytes: &[u8]) -> (r: Result<DecodedImage, String>)
    ensures
        agrees(r, decoded(bytes@)),
{
    match guess_kind(bytes) {
        Err(e) => Err(message("could not detect image format: ", e.as_str())),
        Ok(ImageKind::Gif) => decode_gif(bytes),
        Ok(ImageKind::Other) => match load_still(bytes) {
            Err(e) => Err(message("could not decode image: ", e.as_str())),
            Ok((w, h, px)) => Ok(assemble_still(w, h, px)),
        },
    }
}

/// A decoded image has at least one frame.
pub proof fn law_decoded_image_has_a_frame(bytes: Seq<u8>)
    ensures
        decoded(bytes) matches Ok(img) ==> img.frames.len() >= 1,
{
}

/// An image of one frame is not animated: the frame has no delay, whatever a GIF
/// says of it.
pub proof fn law_lone_frame_has_no_delay(bytes: Seq<u8>)
    ensures
        decoded(bytes) matches Ok(img) ==> (img.frames.len() == 1 ==> img.frames[0].delay_ms == 0),
{
}

} // verus!
