use vstd::prelude::*;

verus! {

#[derive(Debug, Clone, Copy, PartialEq, Eq, Hash, Structural)]
pub enum MediaType {
    Video,
    Audio,
    Subtitle,
    Data,
    Attachment,
}

#[derive(Debug, Clone, Copy, PartialEq, Eq, Hash, Structural)]
pub enum CodecId {
    PcmU8,
    PcmS16Le,
    PcmS24Le,
    PcmS32Le,
    PcmF32Le,
    PcmF64Le,
    Pbm,
    Pgm,
    Ppm,
    Bmp,
    Targa,
    Png,
}

/// Static facts about one codec.
#[derive(Debug, Clone, Copy, PartialEq, Eq)]
pub struct CodecDescriptor {
    pub id: CodecId,
    pub name: &'static str,
    pub long_name: &'static str,
    pub media_type: MediaType,
    pub can_decode: bool,
    pub can_encode: bool,
}

/// Position of a codec in the registry table.
pub open spec fn codec_index(id: CodecId) -> nat {
    match id {
        CodecId::PcmU8 => 0,
        CodecId::PcmS16Le => 1,
        CodecId::PcmS24Le => 2,
        CodecId::PcmS32Le => 3,
        CodecId::PcmF32Le => 4,
        CodecId::PcmF64Le => 5,
        CodecId::Pbm => 6,
        CodecId::Pgm => 7,
        CodecId::Ppm => 8,
        CodecId::Bmp => 9,
        CodecId::Targa => 10,
        CodecId::Png => 11,
    }
}

pub open spec fn is_pcm_spec(id: CodecId) -> bool {
    codec_index(id) < 6
}

pub open spec fn spec_media_type(id: CodecId) -> MediaType {
    if is_pcm_spec(id) {
        MediaType::Audio
    } else {
        MediaType::Video
    }
}

/// The short name of each codec.
pub open spec fn spec_codec_name(id: CodecId) -> Seq<char> {
    match id {
        CodecId::PcmU8 => "pcm_u8"@,
        CodecId::PcmS16Le => "pcm_s16le"@,
        CodecId::PcmS24Le => "pcm_s24le"@,
        CodecId::PcmS32Le => "pcm_s32le"@,
        CodecId::PcmF32Le => "pcm_f32le"@,
        CodecId::PcmF64Le => "pcm_f64le"@,
        CodecId::Pbm => "pbm"@,
        CodecId::Pgm => "pgm"@,
        CodecId::Ppm => "ppm"@,
        CodecId::Bmp => "bmp"@,
        CodecId::Targa => "targa"@,
        CodecId::Png => "png"@,
    }
}

/// The codec at a registry position.
pub open spec fn codec_at(i: nat) -> CodecId {
    if i == 0 {
        CodecId::PcmU8
    } else if i == 1 {
        CodecId::PcmS16Le
    } else if i == 2 {
        CodecId::PcmS24Le
    } else if i == 3 {
        CodecId::PcmS32Le
    } else if i == 4 {
        CodecId::PcmF32Le
    } else if i == 5 {
        CodecId::PcmF64Le
    } else if i == 6 {
        CodecId::Pbm
    } else if i == 7 {
        CodecId::Pgm
    } else if i == 8 {
        CodecId::Ppm
    } else if i == 9 {
        CodecId::Bmp
    } else if i == 10 {
        CodecId::Targa
    } else {
        CodecId::Png
    }
}

/// The descriptor of a codec: its id, names, media type, and that it can
/// both decode and encode.
pub fn descriptor(id: CodecId) -> (d: CodecDescriptor)
    ensures
        d.id == id,
        d.name@ == spec_codec_name(id),
        d.media_type == spec_media_type(id),
        d.can_decode,
        d.can_encode,
{
    let (name, long_name): (&'static str, &'static str) = match id {
        CodecId::PcmU8 => ("pcm_u8", "PCM unsigned 8-bit"),
        CodecId::PcmS16Le => ("pcm_s16le", "PCM signed 16-bit little-endian"),
        CodecId::PcmS24Le => ("pcm_s24le", "PCM signed 24-bit little-endian"),
        CodecId::PcmS32Le => ("pcm_s32le", "PCM signed 32-bit little-endian"),
        CodecId::PcmF32Le => ("pcm_f32le", "PCM 32-bit floating point little-endian"),
        CodecId::PcmF64Le => ("pcm_f64le", "PCM 64-bit floating point little-endian"),
        CodecId::Pbm => ("pbm", "PBM (Portable BitMap) image"),
        CodecId::Pgm => ("pgm", "PGM (Portable GrayMap) image"),
        CodecId::Ppm => ("ppm", "PPM (Portable PixelMap) image"),
        CodecId::Bmp => ("bmp", "BMP (Windows and OS/2 bitmap)"),
        CodecId::Targa => ("targa", "Truevision Targa image"),
        CodecId::Png => ("png", "PNG (Portable Network Graphics) image"),
    };
    let media_type = if is_pcm(id) {
        MediaType::Audio
    } else {
        MediaType::Video
    };
    CodecDescriptor { id, name, long_name, media_type, can_decode: true, can_encode: true }
}

fn codec_from_index(i: usize) -> (id: CodecId)
    requires
        i < 12,
    ensures
        id == codec_at(i as nat),
        codec_index(id) == i,
{
    if i == 0 {
        CodecId::PcmU8
    } else if i == 1 {
        CodecId::PcmS16Le
    } else if i == 2 {
        CodecId::PcmS24Le
    } else if i == 3 {
        CodecId::PcmS32Le
    } else if i == 4 {
        CodecId::PcmF32Le
    } else if i == 5 {
        CodecId::PcmF64Le
    } else if i == 6 {
        CodecId::Pbm
    } else if i == 7 {
        CodecId::Pgm
    } else if i == 8 {
        CodecId::Ppm
    } else if i == 9 {
        CodecId::Bmp
    } else if i == 10 {
        CodecId::Targa
    } else {
        CodecId::Png
    }
}

/// The descriptor `descriptor` returns, as a spec value.
pub open spec fn descriptor_matches(d: CodecDescriptor, id: CodecId) -> bool {
    &&& d.id == id
    &&& d.name@ == spec_codec_name(id)
    &&& d.media_type == spec_media_type(id)
    &&& d.can_decode
    &&& d.can_encode
}

/// Every registered codec, in registry order.
pub fn codecs() -> (v: Vec<CodecDescriptor>)
    ensures
        v@.len() == 12,
        forall|i: int| 0 <= i < 12 ==> descriptor_matches(#[trigger] v@[i], codec_at(i as nat)),
{
    let mut v: Vec<CodecDescriptor> = Vec::new();
    let mut i: usize = 0;
    while i < 12
        invariant
            i <= 12,
            v@.len() == i,
            forall|j: int| 0 <= j < i ==> descriptor_matches(#[trigger] v@[j], codec_at(j as nat)),
        decreases 12 - i,
    {
        let d = descriptor(codec_from_index(i));
        v.push(d);
        i += 1;
    }
    v
}

/// ASCII lower-casing of one character.
pub open spec fn ascii_lower(c: char) -> char {
    if 'A' <= c <= 'Z' {
        ((c as u32) + 32) as char
    } else {
        c
    }
}

/// Strings equal up to ASCII case.
pub open spec fn eq_ignore_ascii_case(a: Seq<char>, b: Seq<char>) -> bool {
    a.len() == b.len() && forall|i: int| 0 <= i < a.len() ==> ascii_lower(#[trigger] a[i]) == ascii_lower(b[i])
}

fn lower(c: char) -> (r: char)
    ensures
        r == ascii_lower(c),
{
    if c >= 'A' && c <= 'Z' {
        char_from_u32_ascii(c as u32 + 32)
    } else {
        c
    }
}

fn char_from_u32_ascii(v: u32) -> (c: char)
    requires
        97 <= v <= 122,
    ensures
        c == v as char,
{
    if v == 97 { 'a' } else if v == 98 { 'b' } else if v == 99 { 'c' } else if v == 100 { 'd' }
    else if v == 101 { 'e' } else if v == 102 { 'f' } else if v == 103 { 'g' } else if v == 104 { 'h' }
    else if v == 105 { 'i' } else if v == 106 { 'j' } else if v == 107 { 'k' } else if v == 108 { 'l' }
    else if v == 109 { 'm' } else if v == 110 { 'n' } else if v == 111 { 'o' } else if v == 112 { 'p' }
    else if v == 113 { 'q' } else if v == 114 { 'r' } else if v == 115 { 's' } else if v == 116 { 't' }
    else if v == 117 { 'u' } else if v == 118 { 'v' } else if v == 119 { 'w' } else if v == 120 { 'x' }
    else if v == 121 { 'y' } else { 'z' }
}

/// Whether two strings are equal up to ASCII case.
pub fn str_eq_ignore_ascii_case(a: &str, b: &str) -> (r: bool)
    ensures
        r == eq_ignore_ascii_case(a@, b@),
{
    let n = a.unicode_len();
    if n != b.unicode_len() {
        return false;
    }
    let mut i: usize = 0;
    while i < n
        invariant
            n == a@.len(),
            a@.len() == b@.len(),
            i <= n,
            forall|j: int| 0 <= j < i ==> ascii_lower(#[trigger] a@[j]) == ascii_lower(b@[j]),
        decreases n - i,
    {
        if lower(a.get_char(i)) != lower(b.get_char(i)) {
            return false;
        }
        i += 1;
    }
    true
}

/// The first registered codec whose name equals `name` up to ASCII case.
pub fn find_by_name(name: &str) -> (r: Option<CodecId>)
    ensures
        match r {
            Some(id) => eq_ignore_ascii_case(name@, spec_codec_name(id)) && forall|j: nat|
                j < codec_index(id) ==> !eq_ignore_ascii_case(name@, spec_codec_name(#[trigger] codec_at(j))),
            None => forall|j: nat| j < 12 ==> !eq_ignore_ascii_case(name@, spec_codec_name(#[trigger] codec_at(j))),
        },
{
    let mut i: usize = 0;
    while i < 12
        invariant
            i <= 12,
            forall|j: nat| j < i ==> !eq_ignore_ascii_case(name@, spec_codec_name(#[trigger] codec_at(j))),
        decreases 12 - i,
    {
        let id = codec_from_index(i);
        let d = descriptor(id);
        if str_eq_ignore_ascii_case(name, d.name) {
            return Some(id);
        }
        i += 1;
    }
    None
}

pub fn is_pcm(id: CodecId) -> (b: bool)
    ensures
        b == is_pcm_spec(id),
{
    match id {
        CodecId::PcmU8 | CodecId::PcmS16Le | CodecId::PcmS24Le | CodecId::PcmS32Le
        | CodecId::PcmF32Le | CodecId::PcmF64Le => true,
        _ => false,
    }
}

/// The PCM codec a WAVE `fmt ` chunk describes, if any.
pub open spec fn spec_pcm_from_wave_tag(format_tag: u16, bits: u16) -> Option<CodecId> {
    if format_tag == 1 && bits == 8 {
        Some(CodecId::PcmU8)
    } else if format_tag == 1 && bits == 16 {
        Some(CodecId::PcmS16Le)
    } else if format_tag == 1 && bits == 24 {
        Some(CodecId::PcmS24Le)
    } else if format_tag == 1 && bits == 32 {
        Some(CodecId::PcmS32Le)
    } else if format_tag == 3 && bits == 32 {
        Some(CodecId::PcmF32Le)
    } else if format_tag == 3 && bits == 64 {
        Some(CodecId::PcmF64Le)
    } else {
        None
    }
}

pub fn pcm_from_wave_tag(format_tag: u16, bits_per_sample: u16) -> (r: Option<CodecId>)
    ensures
        r == spec_pcm_from_wave_tag(format_tag, bits_per_sample),
{
    if format_tag == 1 && bits_per_sample == 8 {
        Some(CodecId::PcmU8)
    } else if format_tag == 1 && bits_per_sample == 16 {
        Some(CodecId::PcmS16Le)
    } else if format_tag == 1 && bits_per_sample == 24 {
        Some(CodecId::PcmS24Le)
    } else if format_tag == 1 && bits_per_sample == 32 {
        Some(CodecId::PcmS32Le)
    } else if format_tag == 3 && bits_per_sample == 32 {
        Some(CodecId::PcmF32Le)
    } else if format_tag == 3 && bits_per_sample == 64 {
        Some(CodecId::PcmF64Le)
    } else {
        None
    }
}

pub open spec fn spec_pcm_bits(id: CodecId) -> Option<u16> {
    match id {
        CodecId::PcmU8 => Some(8u16),
        CodecId::PcmS16Le => Some(16u16),
        CodecId::PcmS24Le => Some(24u16),
        CodecId::PcmS32Le => Some(32u16),
        CodecId::PcmF32Le => Some(32u16),
        CodecId::PcmF64Le => Some(64u16),
        _ => None,
    }
}

pub fn pcm_bits_per_sample(id: CodecId) -> (r: Option<u16>)
    ensures
        r == spec_pcm_bits(id),
{
    match id {
        CodecId::PcmU8 => Some(8),
        CodecId::PcmS16Le => Some(16),
        CodecId::PcmS24Le => Some(24),
        CodecId::PcmS32Le | CodecId::PcmF32Le => Some(32),
        CodecId::PcmF64Le => Some(64),
        _ => None,
    }
}

pub fn pcm_bytes_per_sample(id: CodecId) -> (r: Option<usize>)
    ensures
        match spec_pcm_bits(id) {
            Some(bits) => r == Some((bits / 8) as usize),
            None => r is None,
        },
{
    match pcm_bits_per_sample(id) {
        Some(bits) => Some((bits / 8) as usize),
        None => None,
    }
}

pub open spec fn spec_wave_format_tag(id: CodecId) -> Option<u16> {
    match id {
        CodecId::PcmF32Le | CodecId::PcmF64Le => Some(3u16),
        CodecId::PcmU8 | CodecId::PcmS16Le | CodecId::PcmS24Le | CodecId::PcmS32Le => Some(1u16),
        _ => None,
    }
}

pub fn pcm_wave_format_tag(id: CodecId) -> (r: Option<u16>)
    ensures
        r == spec_wave_format_tag(id),
{
    match id {
        CodecId::PcmF32Le | CodecId::PcmF64Le => Some(3),
        CodecId::PcmU8 | CodecId::PcmS16Le | CodecId::PcmS24Le | CodecId::PcmS32Le => Some(1),
        _ => None,
    }
}

/// The WAVE tag and sample width of a PCM codec map back to that codec.
pub proof fn lemma_wave_tag_roundtrip(id: CodecId)
    requires
        is_pcm_spec(id),
    ensures
        spec_pcm_from_wave_tag(
            spec_wave_format_tag(id)->Some_0,
            spec_pcm_bits(id)->Some_0,
        ) == Some(id),
{
}

/// The sample widths in bytes for converting `data_len` bytes of
/// interleaved PCM from `input` to `output`; refused without channels, for
/// a codec that is not PCM, and for data that is not whole sample frames.
pub open spec fn spec_pcm_layout(input: CodecId, output: CodecId, channels: u16, data_len: nat) -> core::result::Result<(nat, nat), crate::error::ErrorKind> {
    if channels == 0 {
        Err(crate::error::ErrorKind::InvalidArgument)
    } else {
        match spec_pcm_bits(input) {
            None => Err(crate::error::ErrorKind::InvalidArgument),
            Some(ib) => match spec_pcm_bits(output) {
                None => Err(crate::error::ErrorKind::InvalidArgument),
                Some(ob) => if data_len % ((ib / 8) as nat * channels as nat) != 0 {
                    Err(crate::error::ErrorKind::InvalidData)
                } else {
                    Ok(((ib / 8) as nat, (ob / 8) as nat))
                },
            },
        }
    }
}

pub fn pcm_layout(input: CodecId, output: CodecId, channels: u16, data_len: usize) -> (r: crate::error::Result<(usize, usize)>)
    ensures
        match r {
            Ok((iw, ow)) => spec_pcm_layout(input, output, channels, data_len as nat) == Ok::<(nat, nat), crate::error::ErrorKind>((iw as nat, ow as nat)),
            Err(e) => spec_pcm_layout(input, output, channels, data_len as nat) == Err::<(nat, nat), crate::error::ErrorKind>(e@),
        },
{
    if channels == 0 {
        return Err(crate::error::MediaError::invalid_argument("PCM channel count must be non-zero"));
    }
    let input_width = match pcm_bytes_per_sample(input) {
        None => return Err(crate::error::MediaError::invalid_argument("input codec is not PCM")),
        Some(w) => w,
    };
    let output_width = match pcm_bytes_per_sample(output) {
        None => return Err(crate::error::MediaError::invalid_argument("output codec is not PCM")),
        Some(w) => w,
    };
    assert(input_width <= 8);
    assert(input_width * (channels as usize) <= 8 * 65535) by (nonlinear_arith)
        requires input_width <= 8, channels <= 65535;
    let frame_size = input_width * channels as usize;
    assert(frame_size > 0) by (nonlinear_arith)
        requires frame_size == input_width * (channels as usize), input_width >= 1, channels >= 1;
    if data_len % frame_size != 0 {
        return Err(crate::error::MediaError::invalid_data("PCM input does not contain complete interleaved sample frames"));
    }
    Ok((input_width, output_width))
}

} // verus!
