use vstd::prelude::*;

use crate::cli::args_view;
use crate::codec::CodecId;
use crate::error::{ErrorKind, MediaError, Result};
use crate::ffmpeg::{parse_format, spec_format, ForcedFormat, MediaPath};
use crate::rational::{lemma_normalize_fits, spec_normalize, Rational};
use crate::text::{parse_i64, parse_usize, spec_parse_i64, spec_parse_unsigned, split_once, split_once_char, str_eq};

verus! {

/// What an `ffprobe` command line asks for.
pub struct ProbeOptions {
    pub input: Option<String>,
    pub show_streams: bool,
    pub show_format: bool,
    pub hide_banner: bool,
    pub input_format: Option<ForcedFormat>,
    pub start_number: i64,
    pub start_number_range: usize,
    pub framerate: Rational,
}

/// The options by value.
pub struct ProbeModel {
    pub input: Option<Seq<char>>,
    pub show_streams: bool,
    pub show_format: bool,
    pub hide_banner: bool,
    pub input_format: Option<ForcedFormat>,
    pub start_number: i64,
    pub start_number_range: usize,
    pub framerate: (int, int),
}

impl View for ProbeOptions {
    type V = ProbeModel;

    open spec fn view(&self) -> ProbeModel {
        ProbeModel {
            input: crate::ffmpeg::opt_text(self.input),
            show_streams: self.show_streams,
            show_format: self.show_format,
            hide_banner: self.hide_banner,
            input_format: self.input_format,
            start_number: self.start_number,
            start_number_range: self.start_number_range,
            framerate: self.framerate@,
        }
    }
}

/// Before any argument: numbering from 0 with a search range of 5, 25 fps.
pub open spec fn default_probe_model() -> ProbeModel {
    ProbeModel {
        input: None,
        show_streams: false,
        show_format: false,
        hide_banner: false,
        input_format: None,
        start_number: 0,
        start_number_range: 5,
        framerate: spec_normalize(25, 1),
    }
}

impl Default for ProbeOptions {
    fn default() -> (o: Self)
        ensures
            o@ == default_probe_model(),
    {
        proof {
            lemma_normalize_fits(25, 1);
        }
        let rate = match Rational::new(25, 1) {
            Ok(r) => r,
            Err(_) => Rational::one(),
        };
        ProbeOptions {
            input: None,
            show_streams: false,
            show_format: false,
            hide_banner: false,
            input_format: None,
            start_number: 0,
            start_number_range: 5,
            framerate: rate,
        }
    }
}

/// A frame rate `N/D` or a whole number, both parts positive, normalised.
pub open spec fn spec_probe_rate(t: Seq<char>) -> core::result::Result<(int, int), ErrorKind> {
    let parts: core::result::Result<(int, int), ErrorKind> = match split_once(t, '/') {
        Some((a, b)) => match spec_parse_i64(a) {
            None => Err(ErrorKind::InvalidArgument),
            Some(n) => match spec_parse_i64(b) {
                None => Err(ErrorKind::InvalidArgument),
                Some(d) => Ok((n as int, d as int)),
            },
        },
        None => match spec_parse_i64(t) {
            None => Err(ErrorKind::InvalidArgument),
            Some(n) => Ok((n as int, 1int)),
        },
    };
    match parts {
        Err(k) => Err(k),
        Ok((n, d)) => if n <= 0 || d <= 0 {
            Err(ErrorKind::InvalidArgument)
        } else {
            Ok(spec_normalize(n, d))
        },
    }
}

/// Reads a `-framerate` value.
pub fn parse_rate(text: &str) -> (r: Result<Rational>)
    ensures
        match r {
            Ok(q) => spec_probe_rate(text@) == Ok::<(int, int), ErrorKind>(q@),
            Err(e) => spec_probe_rate(text@) == Err::<(int, int), ErrorKind>(e@),
        },
{
    let (numerator, denominator): (i64, i64) = match split_once_char(text, '/') {
        Some((num, den)) => {
            let n = match parse_i64(num) {
                None => return Err(MediaError::invalid_argument("invalid frame-rate numerator")),
                Some(v) => v,
            };
            let d = match parse_i64(den) {
                None => return Err(MediaError::invalid_argument("invalid frame-rate denominator")),
                Some(v) => v,
            };
            (n, d)
        },
        None => match parse_i64(text) {
            None => return Err(MediaError::invalid_argument("invalid frame rate")),
            Some(v) => (v, 1),
        },
    };
    if numerator <= 0 || denominator <= 0 {
        return Err(MediaError::invalid_argument("frame rate must be positive"));
    }
    proof {
        lemma_normalize_fits(numerator as int, denominator as int);
    }
    Rational::new(numerator, denominator)
}

/// The input path is given once, with `-i` or bare.
pub open spec fn spec_set_input(o: ProbeModel, v: Seq<char>) -> core::result::Result<ProbeModel, ErrorKind> {
    if o.input is Some {
        Err(ErrorKind::InvalidArgument)
    } else {
        Ok(ProbeModel { input: Some(v), ..o })
    }
}

/// What the argument at `i` does to the options, and whether it took the
/// next argument as its value.
pub open spec fn probe_step(args: Seq<Seq<char>>, i: nat, o: ProbeModel) -> core::result::Result<(bool, ProbeModel), ErrorKind> {
    let a = args[i as int];
    let has_value = i + 1 < args.len();
    let v = args[i + 1int];
    if a == "-show_streams"@ {
        Ok((false, ProbeModel { show_streams: true, ..o }))
    } else if a == "-show_format"@ {
        Ok((false, ProbeModel { show_format: true, ..o }))
    } else if a == "-hide_banner"@ {
        Ok((false, ProbeModel { hide_banner: true, ..o }))
    } else if a == "-f"@ {
        if !has_value {
            Err(ErrorKind::InvalidArgument)
        } else {
            match spec_format(v) {
                None => Err(ErrorKind::Unsupported),
                Some(f) => Ok((true, ProbeModel { input_format: Some(f), ..o })),
            }
        }
    } else if a == "-start_number"@ {
        if !has_value {
            Err(ErrorKind::InvalidArgument)
        } else {
            match spec_parse_i64(v) {
                None => Err(ErrorKind::InvalidArgument),
                Some(n) => Ok((true, ProbeModel { start_number: n, ..o })),
            }
        }
    } else if a == "-start_number_range"@ {
        if !has_value {
            Err(ErrorKind::InvalidArgument)
        } else {
            match spec_parse_unsigned(v, usize::MAX as nat) {
                None => Err(ErrorKind::InvalidArgument),
                Some(n) => if n == 0 {
                    Err(ErrorKind::InvalidArgument)
                } else {
                    Ok((true, ProbeModel { start_number_range: n as usize, ..o }))
                },
            }
        }
    } else if a == "-framerate"@ {
        if !has_value {
            Err(ErrorKind::InvalidArgument)
        } else {
            match spec_probe_rate(v) {
                Err(k) => Err(k),
                Ok(r) => Ok((true, ProbeModel { framerate: r, ..o })),
            }
        }
    } else if a == "-v"@ || a == "-loglevel"@ {
        if !has_value {
            Err(ErrorKind::InvalidArgument)
        } else {
            Ok((true, o))
        }
    } else if a == "-of"@ || a == "-print_format"@ {
        if !has_value {
            Err(ErrorKind::InvalidArgument)
        } else if v != "default"@ {
            Err(ErrorKind::Unsupported)
        } else {
            Ok((true, o))
        }
    } else if a == "-i"@ {
        if !has_value {
            Err(ErrorKind::InvalidArgument)
        } else {
            match spec_set_input(o, v) {
                Err(k) => Err(k),
                Ok(o2) => Ok((true, o2)),
            }
        }
    } else if a.len() > 0 && a[0] == '-' {
        Err(ErrorKind::Unsupported)
    } else {
        match spec_set_input(o, a) {
            Err(k) => Err(k),
            Ok(o2) => Ok((false, o2)),
        }
    }
}

pub open spec fn probe_walk(args: Seq<Seq<char>>, i: nat, o: ProbeModel) -> core::result::Result<ProbeModel, ErrorKind>
    decreases args.len() - i,
{
    if i >= args.len() {
        Ok(o)
    } else {
        match probe_step(args, i, o) {
            Err(k) => Err(k),
            Ok((took_value, next)) => probe_walk(args, i + if took_value { 2nat } else { 1nat }, next),
        }
    }
}

/// The options of a command line whose first argument is the program name.
pub open spec fn spec_parse_probe_options(args: Seq<Seq<char>>) -> core::result::Result<ProbeModel, ErrorKind> {
    probe_walk(args, 1, default_probe_model())
}

fn set_input(o: ProbeOptions, value: &String) -> (r: Result<ProbeOptions>)
    ensures
        match r {
            Ok(n) => spec_set_input(o@, value@) == Ok::<ProbeModel, ErrorKind>(n@),
            Err(e) => spec_set_input(o@, value@) == Err::<ProbeModel, ErrorKind>(e@),
        },
{
    if o.input.is_some() {
        return Err(MediaError::invalid_argument("multiple ffprobe inputs are not supported"));
    }
    let mut o = o;
    o.input = Some(value.clone());
    Ok(o)
}

#[verifier::rlimit(40)]
fn apply_probe_option(args: &Vec<String>, i: usize, o: ProbeOptions) -> (r: Result<(bool, ProbeOptions)>)
    requires
        i < args@.len(),
    ensures
        r matches Ok((took, _)) && took ==> i + 1 < args@.len(),
        match r {
            Ok((took, next)) => probe_step(args_view(args@), i as nat, o@) == Ok::<(bool, ProbeModel), ErrorKind>((took, next@)),
            Err(e) => probe_step(args_view(args@), i as nat, o@) == Err::<(bool, ProbeModel), ErrorKind>(e@),
        },
{
    let ghost av = args_view(args@);
    let a = args[i].as_str();
    let has_value = i < args.len() - 1;
    assert(a@ == av[i as int]);
    assert(has_value ==> args@[i + 1]@ == av[i + 1]);
    let mut o = o;
    if str_eq(a, "-show_streams") {
        o.show_streams = true;
        Ok((false, o))
    } else if str_eq(a, "-show_format") {
        o.show_format = true;
        Ok((false, o))
    } else if str_eq(a, "-hide_banner") {
        o.hide_banner = true;
        Ok((false, o))
    } else if str_eq(a, "-f") {
        if !has_value {
            return Err(MediaError::invalid_argument("missing format after -f"));
        }
        o.input_format = Some(parse_format(args[i + 1].as_str())?);
        Ok((true, o))
    } else if str_eq(a, "-start_number") {
        if !has_value {
            return Err(MediaError::invalid_argument("missing start_number value"));
        }
        o.start_number = match parse_i64(args[i + 1].as_str()) {
            None => return Err(MediaError::invalid_argument("invalid start_number")),
            Some(v) => v,
        };
        Ok((true, o))
    } else if str_eq(a, "-start_number_range") {
        if !has_value {
            return Err(MediaError::invalid_argument("missing start_number_range value"));
        }
        let value = match parse_usize(args[i + 1].as_str()) {
            None => return Err(MediaError::invalid_argument("invalid start_number_range")),
            Some(v) => v,
        };
        if value == 0 {
            return Err(MediaError::invalid_argument("start_number_range must be positive"));
        }
        o.start_number_range = value;
        Ok((true, o))
    } else if str_eq(a, "-framerate") {
        if !has_value {
            return Err(MediaError::invalid_argument("missing framerate value"));
        }
        o.framerate = parse_rate(args[i + 1].as_str())?;
        Ok((true, o))
    } else if str_eq(a, "-v") || str_eq(a, "-loglevel") {
        if !has_value {
            return Err(MediaError::invalid_argument("missing value for loglevel option"));
        }
        Ok((true, o))
    } else if str_eq(a, "-of") || str_eq(a, "-print_format") {
        if !has_value {
            return Err(MediaError::invalid_argument("missing output format value"));
        }
        if !str_eq(args[i + 1].as_str(), "default") {
            return Err(MediaError::unsupported("ffprobe output writers other than 'default' are not implemented yet"));
        }
        Ok((true, o))
    } else if str_eq(a, "-i") {
        if !has_value {
            return Err(MediaError::invalid_argument("missing input after -i"));
        }
        let next = set_input(o, &args[i + 1])?;
        Ok((true, next))
    } else if a.unicode_len() > 0 && a.get_char(0) == '-' {
        Err(MediaError::unsupported("option is not implemented yet"))
    } else {
        let next = set_input(o, &args[i])?;
        Ok((false, next))
    }
}

/// Reads an `ffprobe` command line; the first argument is the program name.
pub fn parse_options(args: &Vec<String>) -> (r: Result<ProbeOptions>)
    ensures
        match r {
            Ok(o) => spec_parse_probe_options(args_view(args@)) == Ok::<ProbeModel, ErrorKind>(o@),
            Err(e) => spec_parse_probe_options(args_view(args@)) == Err::<ProbeModel, ErrorKind>(e@),
        },
{
    let ghost av = args_view(args@);
    let mut options = ProbeOptions::default();
    let mut index: usize = 1;
    while index < args.len()
        invariant
            av == args_view(args@),
            index >= 1,
            spec_parse_probe_options(av) == probe_walk(av, index as nat, options@),
        decreases args@.len() - index,
    {
        let (took_value, next) = apply_probe_option(args, index, options)?;
        options = next;
        index = if took_value { index + 2 } else { index + 1 };
    }
    Ok(options)
}

/// Where probing a file's bytes goes: a forced WAVE format, or a WAVE file
/// the image probers do not outscore, is read as WAVE; else a recognised
/// image is read as a one-frame image2 input.
pub open spec fn spec_probe_route(forced: Option<ForcedFormat>, bytes: Seq<u8>) -> core::result::Result<MediaPath, ErrorKind> {
    let wave = if crate::wave::spec_probe_wave(bytes) { 100u8 } else { 0u8 };
    let image = crate::image::spec_probe_image(bytes);
    if forced == Some(ForcedFormat::Wav) || (wave >= image && wave != 0) {
        Ok(MediaPath::Wave)
    } else if image != 0 {
        Ok(MediaPath::Image2)
    } else {
        Err(ErrorKind::Unsupported)
    }
}

pub fn probe_route(forced: Option<ForcedFormat>, bytes: &[u8]) -> (r: Result<MediaPath>)
    ensures
        match r {
            Ok(p) => spec_probe_route(forced, bytes@) == Ok::<MediaPath, ErrorKind>(p),
            Err(e) => spec_probe_route(forced, bytes@) == Err::<MediaPath, ErrorKind>(e@),
        },
{
    let wave = crate::wave::probe_wave(bytes);
    let image = crate::image::probe_image(bytes);
    let forced_wave = match forced {
        Some(ForcedFormat::Wav) => true,
        _ => false,
    };
    if forced_wave || (wave >= image && wave != 0) {
        Ok(MediaPath::Wave)
    } else if image != 0 {
        Ok(MediaPath::Image2)
    } else {
        Err(MediaError::unsupported("input format is not implemented yet (supported: wav, image2 PBM/PGM/PPM/BMP/TGA/PNG)"))
    }
}

/// Adds one file's size to the total size of an image sequence.
pub fn add_file_size(total: u64, size: u64) -> (r: Result<u64>)
    ensures
        match r {
            Ok(t) => t == total + size,
            Err(e) => total + size > u64::MAX && e@ == ErrorKind::Overflow,
        },
{
    match total.checked_add(size) {
        None => Err(MediaError::overflow("image2 total byte size overflow")),
        Some(t) => Ok(t),
    }
}

/// The sample format name reported for a codec.
pub open spec fn spec_sample_format_name(codec: CodecId) -> Seq<char> {
    match codec {
        CodecId::PcmU8 => "u8"@,
        CodecId::PcmS16Le => "s16"@,
        CodecId::PcmS24Le | CodecId::PcmS32Le => "s32"@,
        CodecId::PcmF32Le => "flt"@,
        CodecId::PcmF64Le => "dbl"@,
        _ => "unknown"@,
    }
}

pub fn sample_format_name(codec: CodecId) -> (r: &'static str)
    ensures
        r@ == spec_sample_format_name(codec),
{
    match codec {
        CodecId::PcmU8 => "u8",
        CodecId::PcmS16Le => "s16",
        CodecId::PcmS24Le | CodecId::PcmS32Le => "s32",
        CodecId::PcmF32Le => "flt",
        CodecId::PcmF64Le => "dbl",
        _ => "unknown",
    }
}

/// A duration in hundredths of a second as hours, minutes, seconds and
/// hundredths.
pub fn clock_parts(centiseconds: u64) -> (r: (u64, u64, u64, u64))
    ensures
        r.0 == centiseconds / 360_000,
        r.1 == (centiseconds / 6_000) % 60,
        r.2 == (centiseconds / 100) % 60,
        r.3 == centiseconds % 100,
        r.0 * 360_000 + r.1 * 6_000 + r.2 * 100 + r.3 == centiseconds,
{
    let hours = centiseconds / 360_000;
    let minutes = (centiseconds / 6_000) % 60;
    let secs = (centiseconds / 100) % 60;
    let centis = centiseconds % 100;
    assert(hours * 360_000 + minutes * 6_000 + secs * 100 + centis == centiseconds) by (nonlinear_arith)
        requires
            hours == centiseconds / 360_000,
            minutes == (centiseconds / 6_000) % 60,
            secs == (centiseconds / 100) % 60,
            centis == centiseconds % 100,
    {
        vstd::arithmetic::div_mod::lemma_fundamental_div_mod(centiseconds as int, 100);
        vstd::arithmetic::div_mod::lemma_fundamental_div_mod((centiseconds / 100) as int, 60);
        vstd::arithmetic::div_mod::lemma_fundamental_div_mod((centiseconds / 6_000) as int, 60);
        vstd::arithmetic::div_mod::lemma_div_denominator(centiseconds as int, 100, 60);
        vstd::arithmetic::div_mod::lemma_div_denominator(centiseconds as int, 6_000, 60);
    }
    (hours, minutes, secs, centis)
}

} // verus!
