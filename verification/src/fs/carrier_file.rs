//! Carrier files: the bytes of an image file turned into a carrier, and a
//! carrier turned back into the bytes of its file.

use super::block::Carrier;
use super::FsError;
use crate::stego::png::{decode_png, encode_png, png_decoded, png_encoded, png_shape_ok, shape_ok};
use crate::stego::{kind_for, kind_of_path, CarrierImage, CarrierView, CodecError, ImageKind};
use vstd::prelude::*;
use vstd::string::StringSliceAdditionalSpecFns;
use vstd::utf8::encode_utf8;

verus! {

/// The carrier that the file `name` holding `bytes` gives: a PNG file whose
/// bytes decode, or the error that a JPEG file, a file of another kind or
/// bytes that do not decode give.
pub fn load_carrier(name: String, bytes: &[u8]) -> (res: Result<Carrier, FsError>)
    ensures
        match kind_of_path(encode_utf8(name@)) {
            Some(ImageKind::Png) => match png_decoded(bytes@) {
                Some(v) => res matches Ok(c) && c.name@ == name@ && c.image@ == CarrierView::Png(v)
                    && !c.modified,
                None => res matches Err(FsError::Codec(CodecError::Image(_))),
            },
            Some(ImageKind::Jpeg) => res matches Err(FsError::Codec(CodecError::Jpeg(_))),
            None => res matches Err(FsError::Codec(CodecError::Image(_))),
        },
{
    match kind_for(name.as_str()) {
        Some(ImageKind::Png) => match decode_png(bytes) {
            Some(image) => Ok(Carrier::new(name, CarrierImage::Png(image))),
            None => Err(FsError::Codec(CodecError::Image("the PNG file does not decode".to_string()))),
        },
        Some(ImageKind::Jpeg) => Err(
            FsError::Codec(
                CodecError::Jpeg(
                    "reading the DCT coefficients of a JPEG file needs the libjpeg bridge, which this build does not include".to_string(),
                ),
            ),
        ),
        None => Err(FsError::Codec(CodecError::Image("unsupported carrier image type".to_string()))),
    }
}

/// The bytes of the file that holds a carrier: its PNG image encoded, or the
/// error that a JPEG carrier, pixel data that does not match the image's
/// dimensions, or an image the encoder refuses give.
pub fn carrier_file_bytes(carrier: &Carrier) -> (res: Result<Vec<u8>, FsError>)
    ensures
        match carrier.image@ {
            CarrierView::Png(v) => if png_shape_ok(v) {
                match png_encoded(v) {
                    Some(b) => res matches Ok(out) && out@ == b,
                    None => res matches Err(FsError::Codec(CodecError::Image(_))),
                }
            } else {
                res matches Err(FsError::Codec(CodecError::Image(_)))
            },
            CarrierView::Jpeg(_) => res matches Err(FsError::Codec(CodecError::Jpeg(_))),
        },
{
    match &carrier.image {
        CarrierImage::Png(png) => {
            if !shape_ok(png) {
                return Err(
                    FsError::Codec(CodecError::Image("pixel data does not match the image dimensions".to_string())),
                );
            }
            match encode_png(png) {
                Some(b) => Ok(b),
                None => Err(FsError::Codec(CodecError::Image("the image does not encode as PNG".to_string()))),
            }
        },
        CarrierImage::Jpeg(_) => Err(
            FsError::Codec(
                CodecError::Jpeg(
                    "writing a JPEG carrier needs the libjpeg bridge, which this build does not include".to_string(),
                ),
            ),
        ),
    }
}

} // verus!
