use vstd::prelude::*;

use crate::codec::{
    codec_at, codec_index, eq_ignore_ascii_case, find_by_name, spec_codec_name, str_eq_ignore_ascii_case,
    CodecId,
};
use crate::cli::args_view;
use crate::image::prepare_frame;
use crate::image2::{spec_render_from, ImagePattern};
use crate::error::{ErrorKind, MediaError, Result};
use crate::rational::{lemma_normalize_fits, spec_normalize, Rational};
use crate::text::{
    all_digits, is_digit, parse_i64, parse_u32, parse_usize, spec_parse_i64, spec_parse_unsigned, split_once,
    split_once_char, str_eq,
};

verus! {

/// How the output stream is produced: copied as it is, or encoded.
#[derive(Debug, Clone, Copy, PartialEq, Eq, Structural)]
pub enum CodecSelection {
    Copy,
    Encode(CodecId),
}

/// A container format named with `-f`.
#[derive(Debug, Clone, Copy, PartialEq, Eq, Structural)]
pub enum ForcedFormat {
    Wav,
    Image2,
}

/// What an `ffmpeg` command line asks for.
pub struct Options {
    pub input: Option<String>,
    pub output: Option<String>,
    pub codec: Option<CodecSelection>,
    pub overwrite: bool,
    pub never_overwrite: bool,
    pub hide_banner: bool,
    pub input_format: Option<ForcedFormat>,
    pub output_format: Option<ForcedFormat>,
    pub input_start_number: i64,
    pub output_start_number: i64,
    pub start_number_range: usize,
    pub frame_limit: Option<usize>,
    pub size: Option<(u32, u32)>,
    pub input_framerate: Rational,
    pub output_framerate: Option<Rational>,
}

/// The options by value: text as characters, rates as fractions.
pub struct OptionsModel {
    pub input: Option<Seq<char>>,
    pub output: Option<Seq<char>>,
    pub codec: Option<CodecSelection>,
    pub overwrite: bool,
    pub never_overwrite: bool,
    pub hide_banner: bool,
    pub input_format: Option<ForcedFormat>,
    pub output_format: Option<ForcedFormat>,
    pub input_start_number: i64,
    pub output_start_number: i64,
    pub start_number_range: usize,
    pub frame_limit: Option<usize>,
    pub size: Option<(u32, u32)>,
    pub input_framerate: (int, int),
    pub output_framerate: Option<(int, int)>,
}

pub open spec fn opt_text(o: Option<String>) -> Option<Seq<char>> {
    match o {
        Some(s) => Some(s@),
        None => None,
    }
}

pub open spec fn opt_rate(o: Option<Rational>) -> Option<(int, int)> {
    match o {
        Some(r) => Some(r@),
        None => None,
    }
}

impl View for Options {
    type V = OptionsModel;

    open spec fn view(&self) -> OptionsModel {
        OptionsModel {
            input: opt_text(self.input),
            output: opt_text(self.output),
            codec: self.codec,
            overwrite: self.overwrite,
            never_overwrite: self.never_overwrite,
            hide_banner: self.hide_banner,
            input_format: self.input_format,
            output_format: self.output_format,
            input_start_number: self.input_start_number,
            output_start_number: self.output_start_number,
            start_number_range: self.start_number_range,
            frame_limit: self.frame_limit,
            size: self.size,
            input_framerate: self.input_framerate@,
            output_framerate: opt_rate(self.output_framerate),
        }
    }
}

/// The options before any argument: image2 input numbering from 0 with a
/// search range of 5, output numbering from 1, input rate 25 fps.
pub open spec fn default_model() -> OptionsModel {
    OptionsModel {
        input: None,
        output: None,
        codec: None,
        overwrite: false,
        never_overwrite: false,
        hide_banner: false,
        input_format: None,
        output_format: None,
        input_start_number: 0,
        output_start_number: 1,
        start_number_range: 5,
        frame_limit: None,
        size: None,
        input_framerate: spec_normalize(25, 1),
        output_framerate: None,
    }
}

impl Default for Options {
    fn default() -> (o: Self)
        ensures
            o@ == default_model(),
    {
        proof {
            lemma_normalize_fits(25, 1);
        }
        let rate = match Rational::new(25, 1) {
            Ok(r) => r,
            Err(_) => Rational::one(),
        };
        Options {
            input: None,
            output: None,
            codec: None,
            overwrite: false,
            never_overwrite: false,
            hide_banner: false,
            input_format: None,
            output_format: None,
            input_start_number: 0,
            output_start_number: 1,
            start_number_range: 5,
            frame_limit: None,
            size: None,
            input_framerate: rate,
            output_framerate: None,
        }
    }
}

/// The format a `-f` value names, up to ASCII case.
pub open spec fn spec_format(v: Seq<char>) -> Option<ForcedFormat> {
    if eq_ignore_ascii_case(v, "wav"@) || eq_ignore_ascii_case(v, "wave"@) {
        Some(ForcedFormat::Wav)
    } else if eq_ignore_ascii_case(v, "image2"@) {
        Some(ForcedFormat::Image2)
    } else {
        None
    }
}

/// Reads a `-f` value; other formats are not supported.
pub fn parse_format(value: &str) -> (r: Result<ForcedFormat>)
    ensures
        match r {
            Ok(f) => spec_format(value@) == Some(f),
            Err(e) => spec_format(value@) is None && e@ == ErrorKind::Unsupported,
        },
{
    if str_eq_ignore_ascii_case(value, "wav") || str_eq_ignore_ascii_case(value, "wave") {
        Ok(ForcedFormat::Wav)
    } else if str_eq_ignore_ascii_case(value, "image2") {
        Ok(ForcedFormat::Image2)
    } else {
        Err(MediaError::unsupported("format is not implemented yet"))
    }
}

/// The first registered codec, from position `j` on, whose name matches.
pub open spec fn lookup_codec(name: Seq<char>, j: nat) -> Option<CodecId>
    decreases 12 - j,
{
    if j >= 12 {
        None
    } else if eq_ignore_ascii_case(name, spec_codec_name(codec_at(j))) {
        Some(codec_at(j))
    } else {
        lookup_codec(name, j + 1)
    }
}

proof fn lemma_lookup_codec(name: Seq<char>, j: nat)
    requires
        j <= 12,
    ensures
        lookup_codec(name, j) matches Some(id) ==> {
            &&& j <= codec_index(id) < 12
            &&& eq_ignore_ascii_case(name, spec_codec_name(id))
            &&& forall|k: nat| j <= k < codec_index(id) ==> !eq_ignore_ascii_case(name, spec_codec_name(#[trigger] codec_at(k)))
        },
        lookup_codec(name, j) is None ==> forall|k: nat|
            j <= k < 12 ==> !eq_ignore_ascii_case(name, spec_codec_name(#[trigger] codec_at(k))),
    decreases 12 - j,
{
    if j < 12 {
        lemma_lookup_codec(name, j + 1);
    }
}

/// What `find_by_name` gives is the first match of the registry walk.
proof fn lemma_find_is_lookup(name: Seq<char>, r: Option<CodecId>)
    requires
        match r {
            Some(id) => eq_ignore_ascii_case(name, spec_codec_name(id)) && forall|j: nat|
                j < codec_index(id) ==> !eq_ignore_ascii_case(name, spec_codec_name(#[trigger] codec_at(j))),
            None => forall|j: nat| j < 12 ==> !eq_ignore_ascii_case(name, spec_codec_name(#[trigger] codec_at(j))),
        },
    ensures
        lookup_codec(name, 0) == r,
{
    lemma_lookup_codec(name, 0);
    match r {
        Some(id) => {
            assert(codec_at(codec_index(id)) == id);
            match lookup_codec(name, 0) {
                Some(id2) => {
                    assert(codec_at(codec_index(id2)) == id2);
                    if codec_index(id2) < codec_index(id) {
                        assert(!eq_ignore_ascii_case(name, spec_codec_name(codec_at(codec_index(id2)))));
                    }
                    if codec_index(id) < codec_index(id2) {
                        assert(!eq_ignore_ascii_case(name, spec_codec_name(codec_at(codec_index(id)))));
                    }
                },
                None => {
                    assert(!eq_ignore_ascii_case(name, spec_codec_name(codec_at(codec_index(id)))));
                },
            }
        },
        None => {
            match lookup_codec(name, 0) {
                Some(id2) => {
                    assert(codec_at(codec_index(id2)) == id2);
                    assert(!eq_ignore_ascii_case(name, spec_codec_name(codec_at(codec_index(id2)))));
                },
                None => {},
            }
        },
    }
}

/// What a codec option's value selects: stream copy, or the first codec
/// whose name matches up to ASCII case.
pub open spec fn codec_choice(v: Seq<char>) -> Option<CodecSelection> {
    if eq_ignore_ascii_case(v, "copy"@) {
        Some(CodecSelection::Copy)
    } else {
        match lookup_codec(v, 0) {
            Some(id) => Some(CodecSelection::Encode(id)),
            None => None,
        }
    }
}

fn parse_codec(value: &str) -> (r: Result<CodecSelection>)
    ensures
        match r {
            Ok(c) => codec_choice(value@) == Some(c),
            Err(e) => codec_choice(value@) is None && e@ == ErrorKind::Unsupported,
        },
{
    if str_eq_ignore_ascii_case(value, "copy") {
        return Ok(CodecSelection::Copy);
    }
    let found = find_by_name(value);
    proof {
        lemma_find_is_lookup(value@, found);
    }
    match found {
        Some(id) => Ok(CodecSelection::Encode(id)),
        None => Err(MediaError::unsupported("codec is not implemented yet")),
    }
}

/// A `WIDTHxHEIGHT` video size: split at the first `x`, else the first
/// `X`; both parts decimal `u32` values above zero.
pub open spec fn spec_size(v: Seq<char>) -> core::result::Result<(u32, u32), ErrorKind> {
    let parts = match split_once(v, 'x') {
        Some(p) => Some(p),
        None => split_once(v, 'X'),
    };
    match parts {
        None => Err(ErrorKind::InvalidArgument),
        Some((w, h)) => match spec_parse_unsigned(w, u32::MAX as nat) {
            None => Err(ErrorKind::InvalidArgument),
            Some(wv) => match spec_parse_unsigned(h, u32::MAX as nat) {
                None => Err(ErrorKind::InvalidArgument),
                Some(hv) => if wv == 0 || hv == 0 {
                    Err(ErrorKind::InvalidArgument)
                } else {
                    Ok((wv as u32, hv as u32))
                },
            },
        },
    }
}

/// Reads a `-s` value.
pub fn parse_size(value: &str) -> (r: Result<(u32, u32)>)
    ensures
        match r {
            Ok(s) => spec_size(value@) == Ok::<(u32, u32), ErrorKind>(s),
            Err(e) => spec_size(value@) == Err::<(u32, u32), ErrorKind>(e@),
        },
{
    let parts = match split_once_char(value, 'x') {
        Some(p) => Some(p),
        None => split_once_char(value, 'X'),
    };
    let (w, h) = match parts {
        None => return Err(MediaError::invalid_argument("video size must be WIDTHxHEIGHT")),
        Some(p) => p,
    };
    let width = match parse_u32(w) {
        None => return Err(MediaError::invalid_argument("invalid video width")),
        Some(v) => v,
    };
    let height = match parse_u32(h) {
        None => return Err(MediaError::invalid_argument("invalid video height")),
        Some(v) => v,
    };
    if width == 0 || height == 0 {
        return Err(MediaError::invalid_argument("video dimensions must be non-zero"));
    }
    Ok((width, height))
}

pub open spec fn pow10(n: nat) -> nat
    decreases n,
{
    if n == 0 {
        1
    } else {
        10 * pow10((n - 1) as nat)
    }
}

proof fn lemma_pow10_grows(a: nat, b: nat)
    requires
        a <= b,
    ensures
        pow10(a) <= pow10(b),
    decreases b - a,
{
    if a < b {
        lemma_pow10_grows(a, (b - 1) as nat);
    }
}

/// `10` to the power `n`, as `i64::checked_pow` gives it.
fn pow10_i64(n: usize) -> (r: Option<i64>)
    ensures
        match r {
            Some(v) => pow10(n as nat) <= i64::MAX && v == pow10(n as nat),
            None => pow10(n as nat) > i64::MAX,
        },
{
    let mut acc: i64 = 1;
    let mut k: usize = 0;
    while k < n
        invariant
            k <= n,
            acc == pow10(k as nat),
        decreases n - k,
    {
        match acc.checked_mul(10) {
            None => {
                proof {
                    lemma_pow10_grows((k + 1) as nat, n as nat);
                }
                return None;
            },
            Some(v) => {
                acc = v;
            },
        }
        k += 1;
    }
    Some(acc)
}

fn all_ascii_digits(s: &str) -> (r: bool)
    ensures
        r == all_digits(s@),
{
    let n = s.unicode_len();
    let mut i: usize = 0;
    while i < n
        invariant
            n == s@.len(),
            i <= n,
            forall|j: int| 0 <= j < i ==> is_digit(#[trigger] s@[j]),
        decreases n - i,
    {
        let c = s.get_char(i);
        if !('0' <= c && c <= '9') {
            assert(!is_digit(s@[i as int]));
            return false;
        }
        i += 1;
    }
    true
}

/// The numerator and denominator a frame-rate text spells: `N/D`, a
/// decimal `W.F` with a non-negative whole part, or a whole number.
pub open spec fn rate_parts(t: Seq<char>) -> core::result::Result<(int, int), ErrorKind> {
    match split_once(t, '/') {
        Some((a, b)) => match spec_parse_i64(a) {
            None => Err(ErrorKind::InvalidArgument),
            Some(n) => match spec_parse_i64(b) {
                None => Err(ErrorKind::InvalidArgument),
                Some(d) => Ok((n as int, d as int)),
            },
        },
        None => match split_once(t, '.') {
            Some((w, f)) => if f.len() == 0 || !all_digits(f) {
                Err(ErrorKind::InvalidArgument)
            } else {
                match spec_parse_i64(w) {
                    None => Err(ErrorKind::InvalidArgument),
                    Some(wv) => if wv < 0 {
                        Err(ErrorKind::InvalidArgument)
                    } else if pow10(f.len()) > i64::MAX {
                        Err(ErrorKind::Overflow)
                    } else {
                        match spec_parse_i64(f) {
                            None => Err(ErrorKind::InvalidArgument),
                            Some(fv) => {
                                let n = wv * pow10(f.len()) + fv;
                                if n > i64::MAX {
                                    Err(ErrorKind::Overflow)
                                } else {
                                    Ok((n, pow10(f.len()) as int))
                                }
                            },
                        }
                    },
                }
            },
            None => match spec_parse_i64(t) {
                None => Err(ErrorKind::InvalidArgument),
                Some(n) => Ok((n as int, 1int)),
            },
        },
    }
}

/// A frame rate: positive numerator and denominator, normalised.
pub open spec fn spec_rate(t: Seq<char>) -> core::result::Result<(int, int), ErrorKind> {
    match rate_parts(t) {
        Err(k) => Err(k),
        Ok((n, d)) => if n <= 0 || d <= 0 {
            Err(ErrorKind::InvalidArgument)
        } else {
            Ok(spec_normalize(n, d))
        },
    }
}

/// Reads a frame rate such as `30000/1001`, `29.97` or `25`.
pub fn parse_rate(text: &str) -> (r: Result<Rational>)
    ensures
        match r {
            Ok(q) => spec_rate(text@) == Ok::<(int, int), ErrorKind>(q@),
            Err(e) => spec_rate(text@) == Err::<(int, int), ErrorKind>(e@),
        },
{
    let (numerator, denominator): (i64, i64) = match split_once_char(text, '/') {
        Some((num, den)) => {
            let n = match parse_i64(num) {
                None => return Err(MediaError::invalid_argument("invalid frame-rate numerator")),
                Some(v) => v,
            };
            let d = match parse_i64(den) {
                None => return Err(MediaError::invalid_argument("invalid frame-rate denominator")),
                Some(v) => v,
            };
            (n, d)
        },
        None => match split_once_char(text, '.') {
            Some((whole, fraction)) => {
                if fraction.unicode_len() == 0 || !all_ascii_digits(fraction) {
                    return Err(MediaError::invalid_argument("invalid decimal frame rate"));
                }
                let w = match parse_i64(whole) {
                    None => return Err(MediaError::invalid_argument("invalid decimal frame rate")),
                    Some(v) => v,
                };
                if w < 0 {
                    return Err(MediaError::invalid_argument("frame rate must be positive"));
                }
                let den = match pow10_i64(fraction.unicode_len()) {
                    None => return Err(MediaError::overflow("frame-rate denominator overflow")),
                    Some(v) => v,
                };
                let f = match parse_i64(fraction) {
                    None => return Err(MediaError::invalid_argument("invalid decimal frame rate")),
                    Some(v) => v,
                };
                assert(f >= 0);
                let n = match w.checked_mul(den) {
                    None => return Err(MediaError::overflow("frame-rate numerator overflow")),
                    Some(m) => match m.checked_add(f) {
                        None => return Err(MediaError::overflow("frame-rate numerator overflow")),
                        Some(v) => v,
                    },
                };
                (n, den)
            },
            None => match parse_i64(text) {
                None => return Err(MediaError::invalid_argument("invalid frame rate")),
                Some(v) => (v, 1),
            },
        },
    };
    if numerator <= 0 || denominator <= 0 {
        return Err(MediaError::invalid_argument("frame rate must be positive"));
    }
    proof {
        lemma_normalize_fits(numerator as int, denominator as int);
    }
    Rational::new(numerator, denominator)
}

/// The options that name the codec of the output stream.
pub open spec fn is_codec_flag(a: Seq<char>) -> bool {
    ||| a == "-c"@
    ||| a == "-codec"@
    ||| a == "-c:a"@
    ||| a == "-codec:a"@
    ||| a == "-acodec"@
    ||| a == "-c:v"@
    ||| a == "-codec:v"@
    ||| a == "-vcodec"@
}

fn codec_flag(a: &str) -> (r: bool)
    ensures
        r == is_codec_flag(a@),
{
    str_eq(a, "-c") || str_eq(a, "-codec") || str_eq(a, "-c:a") || str_eq(a, "-codec:a") || str_eq(a, "-acodec")
        || str_eq(a, "-c:v") || str_eq(a, "-codec:v") || str_eq(a, "-vcodec")
}

/// What the argument at `i` does to the options, and whether it took the
/// next argument as its value. Options that set image2 input numbering or
/// a format apply to the input before `-i` and to the output after it.
pub open spec fn option_step(args: Seq<Seq<char>>, i: nat, o: OptionsModel) -> core::result::Result<(bool, OptionsModel), ErrorKind> {
    let a = args[i as int];
    let has_value = i < args.len() - 1;
    let v = args[i + 1int];
    if a == "-i"@ {
        if !has_value {
            Err(ErrorKind::InvalidArgument)
        } else if o.input is Some {
            Err(ErrorKind::Unsupported)
        } else {
            Ok((true, OptionsModel { input: Some(v), ..o }))
        }
    } else if a == "-f"@ {
        if !has_value {
            Err(ErrorKind::InvalidArgument)
        } else {
            match spec_format(v) {
                None => Err(ErrorKind::Unsupported),
                Some(f) => Ok((true, if o.input is None {
                    OptionsModel { input_format: Some(f), ..o }
                } else {
                    OptionsModel { output_format: Some(f), ..o }
                })),
            }
        }
    } else if a == "-start_number"@ {
        if !has_value {
            Err(ErrorKind::InvalidArgument)
        } else {
            match spec_parse_i64(v) {
                None => Err(ErrorKind::InvalidArgument),
                Some(n) => Ok((true, if o.input is None {
                    OptionsModel { input_start_number: n, ..o }
                } else {
                    OptionsModel { output_start_number: n, ..o }
                })),
            }
        }
    } else if a == "-start_number_range"@ {
        if o.input is Some || !has_value {
            Err(ErrorKind::InvalidArgument)
        } else {
            match spec_parse_unsigned(v, usize::MAX as nat) {
                None => Err(ErrorKind::InvalidArgument),
                Some(n) => if n == 0 {
                    Err(ErrorKind::InvalidArgument)
                } else {
                    Ok((true, OptionsModel { start_number_range: n as usize, ..o }))
                },
            }
        }
    } else if a == "-framerate"@ {
        if o.input is Some || !has_value {
            Err(ErrorKind::InvalidArgument)
        } else {
            match spec_rate(v) {
                Err(k) => Err(k),
                Ok(r) => Ok((true, OptionsModel { input_framerate: r, ..o })),
            }
        }
    } else if a == "-r"@ {
        if !has_value {
            Err(ErrorKind::InvalidArgument)
        } else {
            match spec_rate(v) {
                Err(k) => Err(k),
                Ok(r) => Ok((true, OptionsModel { output_framerate: Some(r), ..o })),
            }
        }
    } else if a == "-frames:v"@ || a == "-vframes"@ {
        if !has_value {
            Err(ErrorKind::InvalidArgument)
        } else {
            match spec_parse_unsigned(v, usize::MAX as nat) {
                None => Err(ErrorKind::InvalidArgument),
                Some(n) => if n == 0 {
                    Err(ErrorKind::InvalidArgument)
                } else {
                    Ok((true, OptionsModel { frame_limit: Some(n as usize), ..o }))
                },
            }
        }
    } else if a == "-s"@ || a == "-s:v"@ {
        if !has_value {
            Err(ErrorKind::InvalidArgument)
        } else {
            match spec_size(v) {
                Err(k) => Err(k),
                Ok(sz) => Ok((true, OptionsModel { size: Some(sz), ..o })),
            }
        }
    } else if is_codec_flag(a) {
        if !has_value {
            Err(ErrorKind::InvalidArgument)
        } else {
            match codec_choice(v) {
                None => Err(ErrorKind::Unsupported),
                Some(c) => Ok((true, OptionsModel { codec: Some(c), ..o })),
            }
        }
    } else if a == "-y"@ {
        Ok((false, OptionsModel { overwrite: true, ..o }))
    } else if a == "-n"@ {
        Ok((false, OptionsModel { never_overwrite: true, ..o }))
    } else if a == "-hide_banner"@ {
        Ok((false, OptionsModel { hide_banner: true, ..o }))
    } else if a == "-v"@ || a == "-loglevel"@ {
        if !has_value {
            Err(ErrorKind::InvalidArgument)
        } else {
            Ok((true, o))
        }
    } else if a.len() > 0 && a[0] == '-' {
        Err(ErrorKind::Unsupported)
    } else if o.output is None {
        Ok((false, OptionsModel { output: Some(a), ..o }))
    } else {
        Err(ErrorKind::Unsupported)
    }
}

/// The options the arguments from `i` on leave; `-y` and `-n` together are
/// refused once all are read.
pub open spec fn options_walk(args: Seq<Seq<char>>, i: nat, o: OptionsModel) -> core::result::Result<OptionsModel, ErrorKind>
    decreases args.len() - i,
{
    if i >= args.len() {
        if o.overwrite && o.never_overwrite {
            Err(ErrorKind::InvalidArgument)
        } else {
            Ok(o)
        }
    } else {
        match option_step(args, i, o) {
            Err(k) => Err(k),
            Ok((took_value, next)) => options_walk(args, i + if took_value { 2nat } else { 1nat }, next),
        }
    }
}

/// The options of a command line whose first argument is the program name.
pub open spec fn spec_parse_options(args: Seq<Seq<char>>) -> core::result::Result<OptionsModel, ErrorKind> {
    options_walk(args, 1, default_model())
}

fn starts_with_dash(a: &str) -> (r: bool)
    ensures
        r == (a@.len() > 0 && a@[0] == '-'),
{
    a.unicode_len() > 0 && a.get_char(0) == '-'
}

/// Applies the argument at `i`.
#[verifier::rlimit(40)]
fn apply_option(args: &Vec<String>, i: usize, o: Options) -> (r: Result<(bool, Options)>)
    requires
        i < args@.len(),
    ensures
        r matches Ok((took, _)) && took ==> i + 1 < args@.len(),
        match r {
            Ok((took, next)) => option_step(args_view(args@), i as nat, o@) == Ok::<(bool, OptionsModel), ErrorKind>((took, next@)),
            Err(e) => option_step(args_view(args@), i as nat, o@) == Err::<(bool, OptionsModel), ErrorKind>(e@),
        },
{
    let ghost av = args_view(args@);
    let a = args[i].as_str();
    let has_value = i < args.len() - 1;
    assert(a@ == av[i as int]);
    assert(has_value ==> args@[i + 1]@ == av[i + 1]);
    let mut o = o;
    if str_eq(a, "-i") {
        if !has_value {
            return Err(MediaError::invalid_argument("missing input after -i"));
        }
        if o.input.is_some() {
            return Err(MediaError::unsupported("multiple inputs are not implemented yet"));
        }
        o.input = Some(args[i + 1].clone());
        Ok((true, o))
    } else if str_eq(a, "-f") {
        if !has_value {
            return Err(MediaError::invalid_argument("missing format after -f"));
        }
        let format = parse_format(args[i + 1].as_str())?;
        if o.input.is_none() {
            o.input_format = Some(format);
        } else {
            o.output_format = Some(format);
        }
        Ok((true, o))
    } else if str_eq(a, "-start_number") {
        if !has_value {
            return Err(MediaError::invalid_argument("missing start_number value"));
        }
        let value = match parse_i64(args[i + 1].as_str()) {
            None => return Err(MediaError::invalid_argument("invalid start_number")),
            Some(v) => v,
        };
        if o.input.is_none() {
            o.input_start_number = value;
        } else {
            o.output_start_number = value;
        }
        Ok((true, o))
    } else if str_eq(a, "-start_number_range") {
        if o.input.is_some() {
            return Err(MediaError::invalid_argument("-start_number_range is an image2 input option and must appear before -i"));
        }
        if !has_value {
            return Err(MediaError::invalid_argument("missing start_number_range value"));
        }
        let value = match parse_usize(args[i + 1].as_str()) {
            None => return Err(MediaError::invalid_argument("invalid start_number_range")),
            Some(v) => v,
        };
        if value == 0 {
            return Err(MediaError::invalid_argument("start_number_range must be positive"));
        }
        o.start_number_range = value;
        Ok((true, o))
    } else if str_eq(a, "-framerate") {
        if o.input.is_some() {
            return Err(MediaError::invalid_argument("-framerate is an image2 input option and must appear before -i"));
        }
        if !has_value {
            return Err(MediaError::invalid_argument("missing framerate value"));
        }
        o.input_framerate = parse_rate(args[i + 1].as_str())?;
        Ok((true, o))
    } else if str_eq(a, "-r") {
        if !has_value {
            return Err(MediaError::invalid_argument("missing output frame rate after -r"));
        }
        o.output_framerate = Some(parse_rate(args[i + 1].as_str())?);
        Ok((true, o))
    } else if str_eq(a, "-frames:v") || str_eq(a, "-vframes") {
        if !has_value {
            return Err(MediaError::invalid_argument("missing video frame count"));
        }
        let value = match parse_usize(args[i + 1].as_str()) {
            None => return Err(MediaError::invalid_argument("invalid video frame count")),
            Some(v) => v,
        };
        if value == 0 {
            return Err(MediaError::invalid_argument("video frame count must be positive"));
        }
        o.frame_limit = Some(value);
        Ok((true, o))
    } else if str_eq(a, "-s") || str_eq(a, "-s:v") {
        if !has_value {
            return Err(MediaError::invalid_argument("missing video size"));
        }
        o.size = Some(parse_size(args[i + 1].as_str())?);
        Ok((true, o))
    } else if codec_flag(a) {
        if !has_value {
            return Err(MediaError::invalid_argument("missing codec value"));
        }
        o.codec = Some(parse_codec(args[i + 1].as_str())?);
        Ok((true, o))
    } else if str_eq(a, "-y") {
        o.overwrite = true;
        Ok((false, o))
    } else if str_eq(a, "-n") {
        o.never_overwrite = true;
        Ok((false, o))
    } else if str_eq(a, "-hide_banner") {
        o.hide_banner = true;
        Ok((false, o))
    } else if str_eq(a, "-v") || str_eq(a, "-loglevel") {
        if !has_value {
            return Err(MediaError::invalid_argument("missing value for loglevel option"));
        }
        Ok((true, o))
    } else if starts_with_dash(a) {
        Err(MediaError::unsupported("option is not implemented yet"))
    } else if o.output.is_none() {
        o.output = Some(args[i].clone());
        Ok((false, o))
    } else {
        Err(MediaError::unsupported("multiple outputs are not implemented yet"))
    }
}

/// Reads an `ffmpeg` command line; the first argument is the program name.
pub fn parse_options(args: &Vec<String>) -> (r: Result<Options>)
    ensures
        match r {
            Ok(o) => spec_parse_options(args_view(args@)) == Ok::<OptionsModel, ErrorKind>(o@),
            Err(e) => spec_parse_options(args_view(args@)) == Err::<OptionsModel, ErrorKind>(e@),
        },
{
    let ghost av = args_view(args@);
    let mut options = Options::default();
    let mut index: usize = 1;
    while index < args.len()
        invariant
            av == args_view(args@),
            index >= 1,
            spec_parse_options(av) == options_walk(av, index as nat, options@),
        decreases args@.len() - index,
    {
        let (took_value, next) = apply_option(args, index, options)?;
        options = next;
        index = if took_value { index + 2 } else { index + 1 };
    }
    if options.overwrite && options.never_overwrite {
        return Err(MediaError::invalid_argument("-y and -n cannot be used together"));
    }
    Ok(options)
}

/// The two media paths the transcoder implements.
#[derive(Debug, Clone, Copy, PartialEq, Eq, Structural)]
pub enum MediaPath {
    Wave,
    Image2,
}

pub open spec fn spec_path_of_format(f: ForcedFormat) -> MediaPath {
    match f {
        ForcedFormat::Wav => MediaPath::Wave,
        ForcedFormat::Image2 => MediaPath::Image2,
    }
}

pub fn path_of_format(f: ForcedFormat) -> (p: MediaPath)
    ensures
        p == spec_path_of_format(f),
{
    match f {
        ForcedFormat::Wav => MediaPath::Wave,
        ForcedFormat::Image2 => MediaPath::Image2,
    }
}

/// The path an input file's bytes take: the WAVE prober wins ties; a file
/// neither prober recognises is not supported.
pub open spec fn spec_input_path(bytes: Seq<u8>) -> core::result::Result<MediaPath, ErrorKind> {
    let wave = if crate::wave::spec_probe_wave(bytes) { 100u8 } else { 0u8 };
    let image = crate::image::spec_probe_image(bytes);
    if wave == 0 && image == 0 {
        Err(ErrorKind::Unsupported)
    } else if wave >= image {
        Ok(MediaPath::Wave)
    } else {
        Ok(MediaPath::Image2)
    }
}

pub fn classify_input(bytes: &[u8]) -> (r: Result<MediaPath>)
    ensures
        match r {
            Ok(p) => spec_input_path(bytes@) == Ok::<MediaPath, ErrorKind>(p),
            Err(e) => spec_input_path(bytes@) == Err::<MediaPath, ErrorKind>(e@),
        },
{
    let wave_score = crate::wave::probe_wave(bytes);
    let image_score = crate::image::probe_image(bytes);
    if wave_score == 0 && image_score == 0 {
        return Err(MediaError::unsupported("input format is not implemented yet (supported: wav, image2 PBM/PGM/PPM)"));
    }
    if wave_score >= image_score {
        Ok(MediaPath::Wave)
    } else {
        Ok(MediaPath::Image2)
    }
}

/// A file extension that names a WAVE file, up to ASCII case.
pub open spec fn spec_is_wave_extension(ext: Option<Seq<char>>) -> bool {
    match ext {
        Some(e) => eq_ignore_ascii_case(e, "wav"@) || eq_ignore_ascii_case(e, "wave"@),
        None => false,
    }
}

pub open spec fn opt_str_view(ext: Option<&str>) -> Option<Seq<char>> {
    match ext {
        Some(e) => Some(e@),
        None => None,
    }
}

pub fn is_wave_extension(ext: Option<&str>) -> (r: bool)
    ensures
        r == spec_is_wave_extension(opt_str_view(ext)),
{
    match ext {
        Some(e) => str_eq_ignore_ascii_case(e, "wav") || str_eq_ignore_ascii_case(e, "wave"),
        None => false,
    }
}

/// The path the output takes: a forced format; else a WAVE extension; else
/// an image extension or a numbered pattern; else an image codec chosen
/// with `-c`. Anything else cannot be inferred.
pub open spec fn spec_output_path(
    forced: Option<ForcedFormat>,
    codec: Option<CodecSelection>,
    path: Seq<char>,
    ext: Option<Seq<char>>,
) -> core::result::Result<MediaPath, ErrorKind> {
    match forced {
        Some(f) => Ok(spec_path_of_format(f)),
        None => if spec_is_wave_extension(ext) {
            Ok(MediaPath::Wave)
        } else if (ext matches Some(e) && crate::image::spec_codec_for_extension(e) is Some) {
            Ok(MediaPath::Image2)
        } else {
            match crate::image2::spec_count_from(path, 0) {
                Err(k) => Err(k),
                Ok(n) => if n > 1 {
                    Err(ErrorKind::InvalidArgument)
                } else if n == 1 {
                    Ok(MediaPath::Image2)
                } else if (codec matches Some(CodecSelection::Encode(c)) && crate::codec::spec_media_type(c)
                    == crate::codec::MediaType::Video && !crate::codec::is_pcm_spec(c)) {
                    Ok(MediaPath::Image2)
                } else {
                    Err(ErrorKind::Unsupported)
                },
            }
        },
    }
}

/// Chooses the output path for `output`, whose extension `ext` the caller
/// reads off the path.
pub fn detect_output(options: &Options, output: &str, ext: Option<&str>) -> (r: Result<MediaPath>)
    ensures
        match r {
            Ok(p) => spec_output_path(options.output_format, options.codec, output@, opt_str_view(ext)) == Ok::<MediaPath, ErrorKind>(p),
            Err(e) => spec_output_path(options.output_format, options.codec, output@, opt_str_view(ext)) == Err::<MediaPath, ErrorKind>(e@),
        },
{
    if let Some(format) = options.output_format {
        return Ok(path_of_format(format));
    }
    if is_wave_extension(ext) {
        return Ok(MediaPath::Wave);
    }
    let by_extension = match ext {
        Some(e) => crate::image::codec_for_extension(e).is_some(),
        None => false,
    };
    if by_extension {
        return Ok(MediaPath::Image2);
    }
    let pattern = crate::image2::ImagePattern::parse(output)?;
    if pattern.is_sequence() {
        return Ok(MediaPath::Image2);
    }
    if let Some(CodecSelection::Encode(codec)) = options.codec {
        if crate::image::is_image_codec(codec) {
            return Ok(MediaPath::Image2);
        }
    }
    Err(MediaError::unsupported("cannot infer output format"))
}

/// A codec chosen for WAVE output must be an audio codec.
pub fn check_audio_target(target: CodecId) -> (r: Result<()>)
    ensures
        r is Ok <==> crate::codec::spec_media_type(target) == crate::codec::MediaType::Audio,
        r matches Err(e) ==> e@ == ErrorKind::InvalidArgument,
{
    let d = crate::codec::descriptor(target);
    match d.media_type {
        crate::codec::MediaType::Audio => Ok(()),
        _ => Err(MediaError::invalid_argument("codec is not an audio codec")),
    }
}

/// The WAVE stream description for PCM samples of `codec`: block alignment
/// is the bytes of one sample times the channels, the byte rate that times
/// the sample rate; either must fit its field.
pub open spec fn spec_pcm_wave_audio(codec: CodecId, channels: u16, sample_rate: u32, channel_mask: Option<u32>)
    -> core::result::Result<crate::wave::WaveAudioInfo, ErrorKind> {
    match crate::codec::spec_pcm_bits(codec) {
        None => Err(ErrorKind::InvalidArgument),
        Some(bits) => {
            let align = (bits / 8) as int * channels;
            if align > u16::MAX {
                Err(ErrorKind::Overflow)
            } else if sample_rate * align > u32::MAX {
                Err(ErrorKind::Overflow)
            } else {
                Ok(crate::wave::WaveAudioInfo {
                    codec,
                    channels,
                    sample_rate,
                    byte_rate: (sample_rate * align) as u32,
                    block_align: align as u16,
                    bits_per_sample: bits,
                    valid_bits_per_sample: bits,
                    channel_mask,
                })
            }
        },
    }
}

pub fn pcm_wave_audio(codec: CodecId, channels: u16, sample_rate: u32, channel_mask: Option<u32>) -> (r: Result<
    crate::wave::WaveAudioInfo,
>)
    ensures
        match r {
            Ok(a) => spec_pcm_wave_audio(codec, channels, sample_rate, channel_mask) == Ok::<crate::wave::WaveAudioInfo, ErrorKind>(a),
            Err(e) => spec_pcm_wave_audio(codec, channels, sample_rate, channel_mask) == Err::<crate::wave::WaveAudioInfo, ErrorKind>(e@),
        },
{
    let bits_per_sample = match crate::codec::pcm_bits_per_sample(codec) {
        None => return Err(MediaError::invalid_argument("WAVE output requires a PCM codec")),
        Some(b) => b,
    };
    let bytes_per_sample = match crate::codec::pcm_bytes_per_sample(codec) {
        None => return Err(MediaError::invalid_argument("WAVE output requires a PCM codec")),
        Some(b) => b,
    };
    assert(bytes_per_sample <= 8);
    assert(bytes_per_sample * (channels as usize) <= 8 * 65535) by (nonlinear_arith)
        requires bytes_per_sample <= 8, channels <= 65535;
    let block_align_wide = bytes_per_sample * channels as usize;
    if block_align_wide > 0xffff {
        return Err(MediaError::overflow("PCM block alignment exceeds u16"));
    }
    let block_align = block_align_wide as u16;
    let byte_rate = match sample_rate.checked_mul(block_align as u32) {
        None => return Err(MediaError::overflow("PCM byte rate overflow")),
        Some(v) => v,
    };
    Ok(crate::wave::WaveAudioInfo {
        codec,
        channels,
        sample_rate,
        byte_rate,
        block_align,
        bits_per_sample,
        valid_bits_per_sample: bits_per_sample,
        channel_mask,
    })
}

/// Several input frames need a numbered output pattern.
pub fn require_numbered_output(frame_count: usize, output_pattern: &ImagePattern) -> (r: Result<()>)
    ensures
        r is Ok <==> !(frame_count > 1 && output_pattern is Single),
        r matches Err(e) ==> e@ == ErrorKind::InvalidArgument,
{
    if frame_count > 1 && !output_pattern.is_sequence() {
        return Err(MediaError::invalid_argument("multiple input images require a numbered output pattern such as frame-%03d.ppm"));
    }
    Ok(())
}

/// The path a pattern gives for frame `number`.
pub open spec fn spec_pattern_path(p: ImagePattern, number: i64) -> core::result::Result<Seq<char>, ErrorKind> {
    match p {
        ImagePattern::Single(s) => Ok(s@),
        ImagePattern::Numbered(t) => spec_render_from(t@, 0, number, false),
    }
}

/// The path frame `index` would be written to.
pub open spec fn spec_frame_candidate(p: ImagePattern, start: i64, index: nat) -> core::result::Result<Seq<char>, ErrorKind> {
    match p {
        ImagePattern::Numbered(_) => if index > i64::MAX || start + index > i64::MAX {
            Err(ErrorKind::Overflow)
        } else {
            spec_pattern_path(p, (start + index) as i64)
        },
        ImagePattern::Single(s) => Ok(s@),
    }
}

/// The output path of input frame `index`: a numbered pattern gives frame
/// `start + index`, a single path is used as it is; it must not be one of
/// the input paths.
pub open spec fn spec_frame_output(p: ImagePattern, start: i64, index: nat, inputs: Seq<Seq<char>>) -> core::result::Result<
    Seq<char>,
    ErrorKind,
> {
    match spec_frame_candidate(p, start, index) {
        Err(k) => Err(k),
        Ok(s) => if inputs.contains(s) {
            Err(ErrorKind::InvalidArgument)
        } else {
            Ok(s)
        },
    }
}

pub fn frame_output_path(pattern: &ImagePattern, start: i64, index: usize, inputs: &Vec<String>) -> (r: Result<String>)
    requires
        pattern.wf(),
    ensures
        match r {
            Ok(s) => spec_frame_output(*pattern, start, index as nat, args_view(inputs@)) == Ok::<Seq<char>, ErrorKind>(s@),
            Err(e) => spec_frame_output(*pattern, start, index as nat, args_view(inputs@)) == Err::<Seq<char>, ErrorKind>(e@),
        },
{
    let path = if pattern.is_sequence() {
        if index as u128 > 0x7fff_ffff_ffff_ffff {
            return Err(MediaError::overflow("output frame index exceeds i64"));
        }
        let number = match start.checked_add(index as i64) {
            None => return Err(MediaError::overflow("output frame number overflow")),
            Some(n) => n,
        };
        pattern.path_for(number)?
    } else {
        pattern.path_for(0)?
    };
    let ghost iv = args_view(inputs@);
    let mut i: usize = 0;
    while i < inputs.len()
        invariant
            iv == args_view(inputs@),
            i <= inputs@.len(),
            spec_frame_candidate(*pattern, start, index as nat) == Ok::<Seq<char>, ErrorKind>(path@),
            forall|j: int| 0 <= j < i ==> iv[j] != path@,
        decreases inputs@.len() - i,
    {
        if str_eq(inputs[i].as_str(), path.as_str()) {
            assert(iv[i as int] == path@);
            return Err(MediaError::invalid_argument("output would overwrite an input frame"));
        }
        i += 1;
    }
    assert(!iv.contains(path@));
    Ok(path)
}

/// How one image frame is written.
#[derive(Debug, Clone, Copy, PartialEq, Eq, Structural)]
pub enum ImageTarget {
    Copy,
    Encode(CodecId),
}

/// The treatment of a decoded frame: `-c copy` keeps its bytes, refused with
/// a size or with an output extension naming another codec; `-c` with an
/// image codec encodes with it; without `-c` the output extension's codec,
/// else the input's.
pub open spec fn spec_image_target(
    codec: Option<CodecSelection>,
    size: Option<(u32, u32)>,
    decoded: CodecId,
    ext_codec: Option<CodecId>,
) -> core::result::Result<ImageTarget, ErrorKind> {
    match codec {
        Some(CodecSelection::Copy) => if size is Some {
            Err(ErrorKind::InvalidArgument)
        } else if (ext_codec matches Some(c) && c != decoded) {
            Err(ErrorKind::InvalidArgument)
        } else {
            Ok(ImageTarget::Copy)
        },
        Some(CodecSelection::Encode(c)) => if !(crate::codec::spec_media_type(c) == crate::codec::MediaType::Video
            && !crate::codec::is_pcm_spec(c)) {
            Err(ErrorKind::InvalidArgument)
        } else {
            Ok(ImageTarget::Encode(c))
        },
        None => Ok(ImageTarget::Encode(
            match ext_codec {
                Some(c) => c,
                None => decoded,
            },
        )),
    }
}

pub fn image_target(codec: Option<CodecSelection>, size: Option<(u32, u32)>, decoded: CodecId, ext_codec: Option<CodecId>) -> (r: Result<ImageTarget>)
    ensures
        match r {
            Ok(t) => spec_image_target(codec, size, decoded, ext_codec) == Ok::<ImageTarget, ErrorKind>(t),
            Err(e) => spec_image_target(codec, size, decoded, ext_codec) == Err::<ImageTarget, ErrorKind>(e@),
        },
{
    match codec {
        Some(CodecSelection::Copy) => {
            if size.is_some() {
                return Err(MediaError::invalid_argument("-s cannot be combined with stream copy"));
            }
            if let Some(c) = ext_codec {
                if c != decoded {
                    return Err(MediaError::invalid_argument("cannot stream-copy into a filename of another codec"));
                }
            }
            Ok(ImageTarget::Copy)
        },
        Some(CodecSelection::Encode(c)) => {
            if !crate::image::is_image_codec(c) {
                return Err(MediaError::invalid_argument("codec is not an image codec"));
            }
            Ok(ImageTarget::Encode(c))
        },
        None => Ok(ImageTarget::Encode(
            match ext_codec {
                Some(c) => c,
                None => decoded,
            },
        )),
    }
}

/// `out` is `frame` as `prepare_frame` leaves it for `codec` and `size`:
/// converted to the codec's pixel format, then scaled when a size is given.
pub open spec fn prepared_for(frame: crate::video::VideoFrame, codec: CodecId, size: Option<(u32, u32)>, out: crate::video::VideoFrame) -> bool {
    &&& crate::image::spec_prepare_target(codec, frame.format) is Some
    &&& match size {
        None => crate::scale::converted(frame, crate::image::spec_prepare_target(codec, frame.format)->0, out),
        Some((w, h)) => exists|mid: crate::video::VideoFrame| crate::scale::converted(
            frame,
            crate::image::spec_prepare_target(codec, frame.format)->0,
            mid,
        ) && #[trigger] crate::scale::scaled(mid, w, h, out),
    }
}

/// Produces the bytes of one output frame: the input bytes for a copy, else
/// the frame converted, scaled to `size` when given, and encoded.
pub fn transcode_frame(input: &[u8], decoded: &crate::image::DecodedImage, target: ImageTarget, size: Option<(u32, u32)>) -> (r:
    Result<(CodecId, Vec<u8>)>)
    requires
        decoded.frame.wf(),
    ensures
        target == ImageTarget::Copy ==> (r matches Ok((c, out)) && c == decoded.codec && out@ == input@),
        target matches ImageTarget::Encode(codec) ==> (r matches Ok((c, out)) ==> c == codec && exists|prepared: crate::video::VideoFrame|
            #[trigger] prepared_for(decoded.frame, codec, size, prepared) && encoded_as(codec, prepared, out@)),
        target matches ImageTarget::Encode(codec) ==> (crate::image::prepare_ok(decoded.frame, codec, size)
            && crate::image::encode_ok_for(
            codec,
            crate::image::spec_prepare_target(codec, decoded.frame.format)->0,
            crate::image::prepared_size(decoded.frame, size).0,
            crate::image::prepared_size(decoded.frame, size).1,
        ) ==> r is Ok),
{
    match target {
        ImageTarget::Copy => Ok((decoded.codec, vstd::slice::slice_to_vec(input))),
        ImageTarget::Encode(codec) => {
            let prepared = match prepare_frame(&decoded.frame, codec, size) {
                Ok(p) => p,
                Err(e) => return Err(e),
            };
            assert(prepared_for(decoded.frame, codec, size, prepared));
            let out = match crate::image::encode_image(codec, &prepared) {
                Ok(o) => o,
                Err(e) => return Err(e),
            };
            assert(encoded_as(codec, prepared, out@));
            Ok((codec, out))
        },
    }
}

/// What `encode_image` promises of its bytes for `codec`.
pub open spec fn encoded_as(codec: CodecId, frame: crate::video::VideoFrame, out: Seq<u8>) -> bool {
    match codec {
        CodecId::Pbm | CodecId::Pgm | CodecId::Ppm => exists|conv: crate::video::VideoFrame|
            crate::scale::converted(frame, crate::pnm::format_of_kind(crate::image::spec_pnm_kind_for_codec(codec)->0), conv)
                && #[trigger] crate::image::pnm_encoded(crate::image::spec_pnm_kind_for_codec(codec)->0, conv, out),
        CodecId::Bmp => exists|conv: crate::video::VideoFrame| crate::scale::converted(frame, crate::video::PixelFormat::Rgb24, conv)
            && #[trigger] crate::bmp::bmp_encoded(conv, out),
        CodecId::Targa => crate::tga::tga_encoded(frame, false, out),
        CodecId::Png => crate::png::png_encoded(frame, out),
        _ => false,
    }
}

/// Adds an output frame's size to the running total.
pub fn add_output_size(total: u64, len: usize) -> (r: Result<u64>)
    ensures
        match r {
            Ok(t) => t == total + len,
            Err(e) => total + len > u64::MAX && e@ == ErrorKind::Overflow,
        },
{
    if len as u128 > 0xffff_ffff_ffff_ffff {
        return Err(MediaError::overflow("encoded image size exceeds u64"));
    }
    match total.checked_add(len as u64) {
        None => Err(MediaError::overflow("total output size overflow")),
        Some(t) => Ok(t),
    }
}

/// The input and output paths of a command: both must be given and differ.
pub open spec fn spec_endpoints(o: OptionsModel) -> core::result::Result<(Seq<char>, Seq<char>), ErrorKind> {
    match o.input {
        None => Err(ErrorKind::InvalidArgument),
        Some(i) => match o.output {
            None => Err(ErrorKind::InvalidArgument),
            Some(out) => if i == out {
                Err(ErrorKind::InvalidArgument)
            } else {
                Ok((i, out))
            },
        },
    }
}

pub fn endpoints(options: &Options) -> (r: Result<(String, String)>)
    ensures
        match r {
            Ok((i, o)) => spec_endpoints(options@) == Ok::<(Seq<char>, Seq<char>), ErrorKind>((i@, o@)),
            Err(e) => spec_endpoints(options@) == Err::<(Seq<char>, Seq<char>), ErrorKind>(e@),
        },
{
    let input = match &options.input {
        None => return Err(MediaError::invalid_argument("missing input file")),
        Some(i) => i.clone(),
    };
    let output = match &options.output {
        None => return Err(MediaError::invalid_argument("missing output file")),
        Some(o) => o.clone(),
    };
    if str_eq(input.as_str(), output.as_str()) {
        return Err(MediaError::invalid_argument("input and output paths must differ"));
    }
    Ok((input, output))
}

/// The input's path when it is known without reading the file: a forced
/// format, or a numbered pattern; `None` when the bytes decide.
pub open spec fn spec_input_path_early(forced: Option<ForcedFormat>, input: Seq<char>) -> core::result::Result<Option<MediaPath>, ErrorKind> {
    match forced {
        Some(f) => Ok(Some(spec_path_of_format(f))),
        None => match crate::image2::spec_count_from(input, 0) {
            Err(k) => Err(k),
            Ok(n) => if n > 1 {
                Err(ErrorKind::InvalidArgument)
            } else if n == 1 {
                Ok(Some(MediaPath::Image2))
            } else {
                Ok(None)
            },
        },
    }
}

pub fn input_path_early(options: &Options, input: &str) -> (r: Result<Option<MediaPath>>)
    ensures
        match r {
            Ok(p) => spec_input_path_early(options.input_format, input@) == Ok::<Option<MediaPath>, ErrorKind>(p),
            Err(e) => spec_input_path_early(options.input_format, input@) == Err::<Option<MediaPath>, ErrorKind>(e@),
        },
{
    if let Some(format) = options.input_format {
        return Ok(Some(path_of_format(format)));
    }
    let pattern = ImagePattern::parse(input)?;
    if pattern.is_sequence() {
        Ok(Some(MediaPath::Image2))
    } else {
        Ok(None)
    }
}

/// WAVE to WAVE and image2 to image2 are implemented; the mixed ways are
/// not.
pub fn route(input: MediaPath, output: MediaPath) -> (r: Result<MediaPath>)
    ensures
        match r {
            Ok(p) => input == output && p == input,
            Err(e) => input != output && e@ == ErrorKind::Unsupported,
        },
{
    match (input, output) {
        (MediaPath::Wave, MediaPath::Wave) => Ok(MediaPath::Wave),
        (MediaPath::Image2, MediaPath::Image2) => Ok(MediaPath::Image2),
        (MediaPath::Wave, MediaPath::Image2) => Err(MediaError::unsupported("audio-to-image transcoding is not implemented")),
        (MediaPath::Image2, MediaPath::Wave) => Err(MediaError::unsupported("image-to-audio transcoding is not implemented")),
    }
}

/// An existing output is replaced only with `-y`; with `-n` it is kept.
pub fn output_overwrite_check(present: bool, options: &Options) -> (r: Result<()>)
    ensures
        r is Ok <==> (!present || (options.overwrite && !options.never_overwrite)),
        r matches Err(e) ==> e@ == ErrorKind::InvalidArgument,
{
    if present {
        if options.never_overwrite {
            return Err(MediaError::invalid_argument("output already exists"));
        }
        if !options.overwrite {
            return Err(MediaError::invalid_argument("output already exists; use -y to overwrite"));
        }
    }
    Ok(())
}

/// A file taken as WAVE input must look like one.
pub fn require_wave_input(bytes: &[u8]) -> (r: Result<()>)
    ensures
        r is Ok <==> crate::wave::spec_probe_wave(bytes@),
        r matches Err(e) ==> e@ == ErrorKind::InvalidData,
{
    if crate::wave::probe_wave(bytes) == 0 {
        return Err(MediaError::invalid_data("forced WAVE input is not a WAVE file"));
    }
    Ok(())
}

/// An image2 frame must be a recognised image.
pub fn require_image_input(bytes: &[u8]) -> (r: Result<()>)
    ensures
        r is Ok <==> crate::image::spec_probe_image(bytes@) != 0,
        r matches Err(e) ==> e@ == ErrorKind::InvalidData,
{
    if crate::image::probe_image(bytes) == 0 {
        return Err(MediaError::invalid_data("image2 frame is not a supported image"));
    }
    Ok(())
}

/// The WAVE codec choice: `-c` as given, else 16-bit PCM.
pub fn wave_selection(codec: Option<CodecSelection>) -> (s: CodecSelection)
    ensures
        s == match codec {
            Some(c) => c,
            None => CodecSelection::Encode(CodecId::PcmS16Le),
        },
{
    match codec {
        Some(c) => c,
        None => CodecSelection::Encode(CodecId::PcmS16Le),
    }
}

/// The size and codec an image2 run reports: `-s` when given, else the
/// first frame's; the first frame's output codec.
pub fn output_summary(size: Option<(u32, u32)>, first_size: Option<(u32, u32)>, first_codec: Option<CodecId>) -> (r: Result<
    ((u32, u32), CodecId),
>)
    ensures
        match r {
            Ok((sz, c)) => (size matches Some(s) ==> sz == s) && (size is None ==> first_size == Some(sz)) && first_codec == Some(c),
            Err(e) => e@ == ErrorKind::InvalidData && ((size is None && first_size is None) || first_codec is None),
        },
{
    let dims = match size {
        Some(s) => s,
        None => match first_size {
            Some(s) => s,
            None => return Err(MediaError::invalid_data("image2 sequence produced no frame dimensions")),
        },
    };
    let codec = match first_codec {
        Some(c) => c,
        None => return Err(MediaError::invalid_data("image2 sequence produced no output codec")),
    };
    Ok((dims, codec))
}

/// The frame count of an image2 run as a `u32`.
pub fn frame_count_u32(count: usize) -> (r: Result<u32>)
    ensures
        match r {
            Ok(n) => n == count,
            Err(e) => count > u32::MAX && e@ == ErrorKind::Overflow,
        },
{
    if count as u128 > 0xffff_ffff {
        return Err(MediaError::overflow("image2 frame count exceeds u32"));
    }
    Ok(count as u32)
}

} // verus!
