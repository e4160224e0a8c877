//! The whole conversion as one function on plain values: decode the input
//! bytes, load the palette (given text or the built-in default), dither, and
//! encode.  I/O and argument handling stay outside; this function is a pure
//! map from bytes to bytes with every failure reported as a value.

use vstd::prelude::*;

use crate::codec::{
    be32_at, decode, decode_ok, encode, encoded_form, magic_at, pixel_at, DecodeError,
};
use crate::color::{views, Rgb};
use crate::engine::{dither_pixels, dither_trace, MAX_PIXELS};
use crate::palette::{
    all_good, default_palette, default_palette_spec, lines_of, palette_of, parse_palette,
    PaletteError,
};

verus! {

/// Everything that can go wrong in the pipeline, each case reported
/// explicitly rather than crashing.
#[derive(Clone, Copy, Debug, PartialEq, Eq, Structural)]
pub enum DitherError {
    /// The input's first 8 bytes are not the expected magic.
    HeaderMismatch,
    /// Fewer (or more) bytes than the header promises.
    TruncatedInput,
    /// A non-empty palette line is not exactly six hex digits.
    PaletteBadLine,
    /// The palette text holds no color at all.
    PaletteEmpty,
    /// More pixels than the engine's arithmetic bound admits.
    ImageTooLarge,
}

/// The palette text as a sequence, when one is supplied.
pub open spec fn text_view(palette_text: Option<&Vec<u8>>) -> Option<Seq<u8>> {
    match palette_text {
        Some(t) => Some(t@),
        None => None,
    }
}

/// The palette the run works with: parsed from the text, or the default.
pub open spec fn chosen_palette(pt: Option<Seq<u8>>) -> Seq<Rgb> {
    match pt {
        Some(t) => palette_of(lines_of(t)),
        None => default_palette_spec(),
    }
}

/// The palette loads successfully and is non-empty.
pub open spec fn palette_ok(pt: Option<Seq<u8>>) -> bool {
    match pt {
        Some(t) => all_good(lines_of(t)) && palette_of(lines_of(t)).len() >= 1,
        None => true,
    }
}

/// The pixel colors the input byte stream carries, in scan order.
pub open spec fn source_pixels(b: Seq<u8>) -> Seq<Rgb> {
    Seq::new((be32_at(b, 8) * be32_at(b, 12)) as nat, |k: int| pixel_at(b, k))
}

/// The matched output pixels of the whole run.
pub open spec fn dithered_output(b: Seq<u8>, pt: Option<Seq<u8>>) -> Seq<Rgb> {
    dither_trace(
        source_pixels(b),
        chosen_palette(pt),
        be32_at(b, 8),
        be32_at(b, 12),
        be32_at(b, 8) * be32_at(b, 12),
    ).1
}

/// Converts an input image to its dithered counterpart: the palette is taken
/// from `palette_text` when given, else the built-in default.
pub fn dither(input: &Vec<u8>, palette_text: Option<&Vec<u8>>) -> (res: Result<
    Vec<u8>,
    DitherError,
>)
    ensures
        res is Ok <==> (decode_ok(input@) && palette_ok(text_view(palette_text)) && be32_at(
            input@,
            8,
        ) * be32_at(input@, 12) <= MAX_PIXELS),
        res matches Ok(outb) ==> encoded_form(
            outb@,
            be32_at(input@, 8),
            be32_at(input@, 12),
            dithered_output(input@, text_view(palette_text)),
        ),
        res == Err::<Vec<u8>, DitherError>(DitherError::HeaderMismatch) <==> (input@.len() >= 8
            && !magic_at(input@)),
        res == Err::<Vec<u8>, DitherError>(DitherError::TruncatedInput) <==> (input@.len() < 8 || (
        magic_at(input@) && !decode_ok(input@))),
        res == Err::<Vec<u8>, DitherError>(DitherError::PaletteBadLine) <==> (decode_ok(input@)
            && palette_text is Some && !all_good(lines_of(text_view(palette_text)->0))),
        res == Err::<Vec<u8>, DitherError>(DitherError::PaletteEmpty) <==> (decode_ok(input@)
            && palette_text is Some && all_good(lines_of(text_view(palette_text)->0))
            && palette_of(lines_of(text_view(palette_text)->0)).len() == 0),
        res == Err::<Vec<u8>, DitherError>(DitherError::ImageTooLarge) <==> (decode_ok(input@)
            && palette_ok(text_view(palette_text)) && be32_at(input@, 8) * be32_at(input@, 12)
            > MAX_PIXELS),
{
    let img = match decode(input) {
        Ok(img) => img,
        Err(DecodeError::HeaderMismatch) => {
            return Err(DitherError::HeaderMismatch);
        },
        Err(DecodeError::TruncatedInput) => {
            return Err(DitherError::TruncatedInput);
        },
    };
    let pal = match palette_text {
        Some(t) => match parse_palette(t) {
            Ok(p) => p,
            Err(PaletteError::BadLine) => {
                return Err(DitherError::PaletteBadLine);
            },
            Err(PaletteError::EmptyPalette) => {
                return Err(DitherError::PaletteEmpty);
            },
        },
        None => default_palette(),
    };
    let width = img.width;
    let height = img.height;
    let mut pixels = img.pixels;
    if pixels.len() > MAX_PIXELS {
        return Err(DitherError::ImageTooLarge);
    }
    let ghost src = views(pixels@);
    proof {
        assert(src =~= source_pixels(input@));
    }
    let out = dither_pixels(&mut pixels, &pal, width as usize, height as usize);
    let bytes = encode(width, height, &out);
    proof {
        assert(views(out@) == dithered_output(input@, text_view(palette_text)));
    }
    Ok(bytes)
}

} // verus!
