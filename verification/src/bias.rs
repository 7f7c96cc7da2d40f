//! Per-cell grayscale bias for the fill phase.
//!
//! A bias holds one sample byte per cell of a square grid.  The fill phase
//! reads the sample under each block's anchor and turns it into the
//! orientation decision.  Turning image bytes into samples relies on the
//! `image` crate behind one trusted wrapper.

use vstd::prelude::*;
use crate::errors::BiasError;
use crate::lattice::CAP_MAX;

verus! {

/// A square grid of grayscale samples, one byte per cell.
pub struct Bias {
    pub side: usize,
    pub samples: Vec<u8>,
}

impl Bias {
    pub open spec fn wf(self) -> bool {
        &&& 1 <= self.side <= CAP_MAX
        &&& self.samples@.len() == self.side * self.side
    }

    /// Sample of the cell `(i, j)`, row-major.
    pub open spec fn sample_at(self, i: int, j: int) -> u8 {
        self.samples@[i * self.side + j]
    }

    /// Wrap raw samples; rejected unless the side is positive and supported
    /// and there is exactly one byte per cell.
    pub fn from_samples(side: usize, samples: Vec<u8>) -> (r: Result<Bias, BiasError>)
        ensures
            r is Ok <==> 1 <= side <= CAP_MAX && samples@.len() == side * side,
            r matches Ok(b) ==> b.wf() && b.side == side && b.samples@ == samples@,
            r == Err::<Bias, BiasError>(BiasError::BadDimensions) <==> !(1 <= side <= CAP_MAX),
            r == Err::<Bias, BiasError>(BiasError::BadLength) <==> 1 <= side <= CAP_MAX
                && samples@.len() != side * side,
    {
        if side < 1 || side > CAP_MAX {
            return Err(BiasError::BadDimensions);
        }
        proof {
            assert(side * side <= 0x4000_0000) by (nonlinear_arith)
                requires 1 <= side <= 0x8000;
        }
        if samples.len() != side * side {
            return Err(BiasError::BadLength);
        }
        Ok(Bias { side, samples })
    }

    /// Decode image bytes, grayscale them and resample to one byte per cell
    /// of a `side`-by-`side` grid.  Success is owed exactly for decodable
    /// bytes at a supported side, and the samples are the named resampling,
    /// so undecodable bytes can never pass as a silent unbiased fallback.
    pub fn from_bytes(bytes: &Vec<u8>, side: usize) -> (r: Result<Bias, BiasError>)
        ensures
            r is Ok <==> 1 <= side <= CAP_MAX && grayscale_ok(bytes@),
            r matches Ok(b) ==> b.wf() && b.side == side && b.samples@ == grayscale_of(
                bytes@,
                side as int,
            ),
            r == Err::<Bias, BiasError>(BiasError::BadDimensions) <==> !(1 <= side <= CAP_MAX),
            r == Err::<Bias, BiasError>(BiasError::Undecodable) <==> 1 <= side <= CAP_MAX
                && !grayscale_ok(bytes@),
    {
        if side < 1 || side > CAP_MAX {
            return Err(BiasError::BadDimensions);
        }
        match decode_grayscale(bytes, side) {
            Ok(samples) => Ok(Bias { side, samples }),
            Err(e) => Err(e),
        }
    }

    /// Side of the grid.
    pub fn side(&self) -> (s: usize)
        ensures
            s == self.side,
    {
        self.side
    }

    /// Sample of the cell `(i, j)`.
    pub fn sample(&self, i: usize, j: usize) -> (v: u8)
        requires
            self.wf(),
            i < self.side,
            j < self.side,
        ensures
            v == self.sample_at(i as int, j as int),
    {
        proof {
            assert(i * self.side + j < self.side * self.side) by (nonlinear_arith)
                requires i < self.side, j < self.side;
            assert(self.side * self.side <= 0x4000_0000) by (nonlinear_arith)
                requires 1 <= self.side <= 0x8000;
        }
        self.samples[i * self.side + j]
    }
}

/// Whether `image` can decode these bytes at all: decoding is a function
/// of the bytes alone.
pub uninterp spec fn grayscale_ok(bytes: Seq<u8>) -> bool;

/// The grayscale `side`-by-`side` resampling of a decodable byte stream,
/// row-major, one byte per cell: a function of the bytes and the side
/// alone, named rather than restated.
pub uninterp spec fn grayscale_of(bytes: Seq<u8>, side: int) -> Seq<u8>;

/// Relies on image's `load_from_memory`, `DynamicImage::grayscale`,
/// `resize_exact` and `to_luma8`: decoding succeeds exactly on decodable
/// bytes and is deterministic in the bytes and the side, and the raw buffer
/// of a `side`-by-`side` single-channel image holds exactly one byte per
/// pixel, row-major.
#[verifier::external_body]
fn decode_grayscale(bytes: &Vec<u8>, side: usize) -> (r: Result<Vec<u8>, BiasError>)
    requires
        1 <= side <= CAP_MAX,
    ensures
        r is Ok <==> grayscale_ok(bytes@),
        r matches Ok(v) ==> v@ == grayscale_of(bytes@, side as int) && v@.len() == side * side,
        r matches Err(e) ==> e == BiasError::Undecodable,
{
    match image::load_from_memory(bytes.as_slice()) {
        Ok(img) => Ok(
            img.grayscale().resize_exact(
                side as u32,
                side as u32,
                image::imageops::FilterType::Nearest,
            ).to_luma8().into_raw(),
        ),
        Err(_) => Err(BiasError::Undecodable),
    }
}

} // verus!
