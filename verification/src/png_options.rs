use vstd::prelude::*;

use crate::codec::{eq_ignore_ascii_case, str_eq_ignore_ascii_case};
use crate::error::{ErrorKind, MediaError, Result};

verus! {

/// How the PNG encoder chooses each scanline's filter.
#[derive(Debug, Clone, Copy, PartialEq, Eq, Structural)]
pub enum PngPrediction {
    NoFilter,
    Sub,
    Up,
    Average,
    Paeth,
    Mixed,
}

pub open spec fn spec_filter_type(p: PngPrediction) -> Option<u8> {
    match p {
        PngPrediction::NoFilter => Some(0u8),
        PngPrediction::Sub => Some(1u8),
        PngPrediction::Up => Some(2u8),
        PngPrediction::Average => Some(3u8),
        PngPrediction::Paeth => Some(4u8),
        PngPrediction::Mixed => None,
    }
}

/// `value` names `word` (up to ASCII case) or is the digit `digit`.
pub open spec fn names(value: Seq<char>, word: Seq<char>, digit: char) -> bool {
    eq_ignore_ascii_case(value, word) || value == seq![digit]
}

fn is_digit_str(value: &str, digit: char) -> (r: bool)
    ensures
        r == (value@ == seq![digit]),
{
    let r = value.unicode_len() == 1 && value.get_char(0) == digit;
    proof {
        if value@ == seq![digit] {
            assert(value@[0] == digit);
        }
        if r {
            assert(value@ =~= seq![digit]);
        }
    }
    r
}

impl PngPrediction {
    /// The fixed PNG filter type of this method; `Mixed` picks per row.
    pub fn filter_type(self) -> (r: Option<u8>)
        ensures
            r == spec_filter_type(self),
    {
        match self {
            PngPrediction::NoFilter => Some(0),
            PngPrediction::Sub => Some(1),
            PngPrediction::Up => Some(2),
            PngPrediction::Average => Some(3),
            PngPrediction::Paeth => Some(4),
            PngPrediction::Mixed => None,
        }
    }

    /// Parses a method name (none, sub, up, avg/average, paeth, mixed; any
    /// ASCII case) or its number 0 to 5.
    pub fn parse(value: &str) -> (r: Result<Self>)
        ensures
            match r {
                Ok(p) => match p {
                    PngPrediction::NoFilter => names(value@, "none"@, '0'),
                    PngPrediction::Sub => !names(value@, "none"@, '0') && names(value@, "sub"@, '1'),
                    PngPrediction::Up => !names(value@, "none"@, '0') && !names(value@, "sub"@, '1')
                        && names(value@, "up"@, '2'),
                    PngPrediction::Average => !names(value@, "none"@, '0') && !names(value@, "sub"@, '1')
                        && !names(value@, "up"@, '2') && (names(value@, "avg"@, '3') || eq_ignore_ascii_case(value@, "average"@)),
                    PngPrediction::Paeth => !names(value@, "none"@, '0') && !names(value@, "sub"@, '1')
                        && !names(value@, "up"@, '2') && !(names(value@, "avg"@, '3') || eq_ignore_ascii_case(value@, "average"@))
                        && names(value@, "paeth"@, '4'),
                    PngPrediction::Mixed => !names(value@, "none"@, '0') && !names(value@, "sub"@, '1')
                        && !names(value@, "up"@, '2') && !(names(value@, "avg"@, '3') || eq_ignore_ascii_case(value@, "average"@))
                        && !names(value@, "paeth"@, '4') && names(value@, "mixed"@, '5'),
                },
                Err(e) => e@ == ErrorKind::InvalidArgument && !names(value@, "none"@, '0') && !names(value@, "sub"@, '1')
                    && !names(value@, "up"@, '2') && !(names(value@, "avg"@, '3') || eq_ignore_ascii_case(value@, "average"@))
                    && !names(value@, "paeth"@, '4') && !names(value@, "mixed"@, '5'),
            },
    {
        if str_eq_ignore_ascii_case(value, "none") || is_digit_str(value, '0') {
            Ok(PngPrediction::NoFilter)
        } else if str_eq_ignore_ascii_case(value, "sub") || is_digit_str(value, '1') {
            Ok(PngPrediction::Sub)
        } else if str_eq_ignore_ascii_case(value, "up") || is_digit_str(value, '2') {
            Ok(PngPrediction::Up)
        } else if str_eq_ignore_ascii_case(value, "avg") || str_eq_ignore_ascii_case(value, "average")
            || is_digit_str(value, '3') {
            Ok(PngPrediction::Average)
        } else if str_eq_ignore_ascii_case(value, "paeth") || is_digit_str(value, '4') {
            Ok(PngPrediction::Paeth)
        } else if str_eq_ignore_ascii_case(value, "mixed") || is_digit_str(value, '5') {
            Ok(PngPrediction::Mixed)
        } else {
            Err(MediaError::invalid_argument("invalid PNG prediction method"))
        }
    }
}

/// The PNG encoder's private options.
#[derive(Debug, Clone, Copy, PartialEq, Eq)]
pub struct PngEncodeOptions {
    pub prediction: PngPrediction,
    pub compression_level: u8,
    pub dpi: Option<u32>,
    pub dpm: Option<u32>,
    pub interlaced: bool,
    pub sample_aspect_ratio: (u32, u32),
}

/// The defaults: Paeth prediction, compression level 6, no density, no
/// interlacing, sample aspect ratio 0/1.
pub open spec fn default_png_options() -> PngEncodeOptions {
    PngEncodeOptions {
        prediction: PngPrediction::Paeth,
        compression_level: 6,
        dpi: None,
        dpm: None,
        interlaced: false,
        sample_aspect_ratio: (0, 1),
    }
}

impl Default for PngEncodeOptions {
    fn default() -> (r: Self)
        ensures
            r == default_png_options(),
    {
        PngEncodeOptions {
            prediction: PngPrediction::Paeth,
            compression_level: 6,
            dpi: None,
            dpm: None,
            interlaced: false,
            sample_aspect_ratio: (0, 1),
        }
    }
}

/// Options the encoder accepts: level at most 9, at most one of dpi and
/// dpm, each at most 65536.
pub open spec fn options_valid(o: PngEncodeOptions) -> bool {
    &&& o.compression_level <= 9
    &&& !(o.dpi is Some && o.dpm is Some)
    &&& (o.dpi matches Some(v) ==> v <= 0x1_0000)
    &&& (o.dpm matches Some(v) ==> v <= 0x1_0000)
}

/// Dots per metre the pHYs chunk records, if a density was given; dpi is
/// converted as `dpi * 10000 / 254`.
pub open spec fn spec_dots_per_meter(o: PngEncodeOptions) -> Option<u32> {
    match o.dpm {
        Some(d) => Some(d),
        None => match o.dpi {
            Some(d) => Some((d * 10000 / 254) as u32),
            None => None,
        },
    }
}

impl PngEncodeOptions {
    pub fn validate(self) -> (r: Result<Self>)
        ensures
            match r {
                Ok(o) => o == self && options_valid(self),
                Err(e) => !options_valid(self) && e@ == ErrorKind::InvalidArgument,
            },
    {
        if self.compression_level > 9 {
            return Err(MediaError::invalid_argument("PNG compression_level must be in 0..=9"));
        }
        if self.dpi.is_some() && self.dpm.is_some() {
            return Err(MediaError::invalid_argument("only one of PNG dpi or dpm may be set"));
        }
        let dpi_bad = match self.dpi {
            Some(v) => v > 0x1_0000,
            None => false,
        };
        let dpm_bad = match self.dpm {
            Some(v) => v > 0x1_0000,
            None => false,
        };
        if dpi_bad || dpm_bad {
            return Err(MediaError::invalid_argument("PNG dpi/dpm must be in 0..=65536"));
        }
        Ok(self)
    }

    pub fn dots_per_meter(self) -> (r: Result<Option<u32>>)
        ensures
            match r {
                Ok(d) => options_valid(self) && d == spec_dots_per_meter(self),
                Err(e) => !options_valid(self) && e@ == ErrorKind::InvalidArgument,
            },
    {
        self.validate()?;
        if let Some(dpm) = self.dpm {
            return Ok(Some(dpm));
        }
        if let Some(dpi) = self.dpi {
            return Ok(Some(dpi * 10000 / 254));
        }
        Ok(None)
    }
}

} // verus!
