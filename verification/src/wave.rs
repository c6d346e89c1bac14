use vstd::prelude::*;

use crate::byteio::{le_bytes, ByteWriter};
use crate::bytes_util::{fourcc_at, le16_at, le32_at, lemma_le16_of, lemma_le32_of, read_le16, read_le32};
use crate::codec::{
    is_pcm_spec, lemma_wave_tag_roundtrip, pcm_bits_per_sample, pcm_from_wave_tag, pcm_wave_format_tag, spec_pcm_bits,
    spec_pcm_from_wave_tag, spec_wave_format_tag, CodecId,
};
use crate::error::{ErrorKind, MediaError, Result};

verus! {

/// A container format the tools know.
#[derive(Debug, Clone, Copy, PartialEq, Eq)]
pub struct FormatDescriptor {
    pub name: &'static str,
    pub long_name: &'static str,
    pub extensions: &'static [&'static str],
    pub can_demux: bool,
    pub can_mux: bool,
}

/// The container formats: WAVE audio and numbered image sequences.
pub fn formats() -> (v: Vec<FormatDescriptor>)
    ensures
        v.len() == 2,
        v[0].name@ == "wav"@,
        v[1].name@ == "image2"@,
        forall|i: int| 0 <= i < 2 ==> #[trigger] v[i].can_demux && v[i].can_mux,
{
    let mut v: Vec<FormatDescriptor> = Vec::new();
    v.push(
        FormatDescriptor {
            name: "wav",
            long_name: "WAV / WAVE (Waveform Audio)",
            extensions: &["wav", "wave"],
            can_demux: true,
            can_mux: true,
        },
    );
    v.push(
        FormatDescriptor {
            name: "image2",
            long_name: "image2 sequence",
            extensions: &["pbm", "pgm", "ppm", "pnm"],
            can_demux: true,
            can_mux: true,
        },
    );
    v
}

/// The audio parameters of a WAVE `fmt ` chunk.
#[derive(Debug, Clone, Copy, PartialEq, Eq, Structural)]
pub struct WaveAudioInfo {
    pub codec: CodecId,
    pub channels: u16,
    pub sample_rate: u32,
    pub byte_rate: u32,
    pub block_align: u16,
    pub bits_per_sample: u16,
    pub valid_bits_per_sample: u16,
    pub channel_mask: Option<u32>,
}

/// What parsing a WAVE file found.
#[derive(Debug, Clone, Copy, PartialEq, Eq, Structural)]
pub struct WaveInfo {
    pub riff_size: u32,
    pub audio: WaveAudioInfo,
    pub data_offset: usize,
    pub data_size: usize,
    pub sample_count: u64,
}

/// A parsed WAVE file and its sample bytes.
#[derive(Debug, Clone, Copy)]
pub struct WaveFile<'a> {
    pub info: WaveInfo,
    pub data: &'a [u8],
}

pub open spec fn fourcc_riff() -> Seq<u8> {
    seq![82u8, 73u8, 70u8, 70u8]
}

pub open spec fn fourcc_wave() -> Seq<u8> {
    seq![87u8, 65u8, 86u8, 69u8]
}

pub open spec fn fourcc_fmt() -> Seq<u8> {
    seq![102u8, 109u8, 116u8, 32u8]
}

pub open spec fn fourcc_data() -> Seq<u8> {
    seq![100u8, 97u8, 116u8, 97u8]
}

/// The last twelve bytes of the KSDATAFORMAT_SUBTYPE GUIDs for PCM and float.
pub open spec fn ks_subtype_tail() -> Seq<u8> {
    seq![0x00u8, 0x00u8, 0x10u8, 0x00u8, 0x80u8, 0x00u8, 0x00u8, 0xAAu8, 0x00u8, 0x38u8, 0x9Bu8, 0x71u8]
}

pub open spec fn spec_probe_wave(s: Seq<u8>) -> bool {
    s.len() >= 12 && s.subrange(0, 4) == fourcc_riff() && s.subrange(8, 12) == fourcc_wave()
}

pub fn probe_wave(bytes: &[u8]) -> (score: u8)
    ensures
        score == if spec_probe_wave(bytes@) { 100u8 } else { 0u8 },
{
    if bytes.len() >= 12 && fourcc_at(bytes, 0, 82, 73, 70, 70) && fourcc_at(bytes, 8, 87, 65, 86, 69) {
        100
    } else {
        0
    }
}

/// The first check a `fmt ` chunk fails, or the audio parameters it declares.
/// WAVE_FORMAT_EXTENSIBLE (tag 0xFFFE) takes its real tag from the sub-format
/// GUID and carries valid bits and a channel mask.
pub open spec fn spec_parse_fmt(b: Seq<u8>) -> core::result::Result<WaveAudioInfo, ErrorKind> {
    if b.len() < 16 {
        Err(ErrorKind::InvalidData)
    } else {
        let tag0 = le16_at(b, 0);
        let bits = le16_at(b, 14) as u16;
        let ext: core::result::Result<(nat, u16, Option<u32>), ErrorKind> = if tag0 == 0xFFFE {
            if b.len() < 40 {
                Err(ErrorKind::InvalidData)
            } else if le16_at(b, 16) < 22 {
                Err(ErrorKind::InvalidData)
            } else if b.subrange(28, 40) != ks_subtype_tail() {
                Err(ErrorKind::Unsupported)
            } else if le32_at(b, 24) > 0xFFFF {
                Err(ErrorKind::Unsupported)
            } else {
                Ok((le32_at(b, 24), le16_at(b, 18) as u16, Some(le32_at(b, 20) as u32)))
            }
        } else {
            Ok((tag0, bits, None))
        };
        match ext {
            Err(k) => Err(k),
            Ok((tag, valid, mask)) => match spec_pcm_from_wave_tag(tag as u16, bits) {
                None => Err(ErrorKind::Unsupported),
                Some(codec) => Ok(
                    WaveAudioInfo {
                        codec,
                        channels: le16_at(b, 2) as u16,
                        sample_rate: le32_at(b, 4) as u32,
                        byte_rate: le32_at(b, 8) as u32,
                        block_align: le16_at(b, 12) as u16,
                        bits_per_sample: bits,
                        valid_bits_per_sample: valid,
                        channel_mask: mask,
                    },
                ),
            },
        }
    }
}

fn parse_wave_fmt(bytes: &[u8]) -> (r: Result<WaveAudioInfo>)
    ensures
        match r {
            Ok(a) => spec_parse_fmt(bytes@) == Ok::<WaveAudioInfo, ErrorKind>(a),
            Err(e) => spec_parse_fmt(bytes@) == Err::<WaveAudioInfo, ErrorKind>(e@),
        },
{
    if bytes.len() < 16 {
        return Err(MediaError::invalid_data("WAVE fmt chunk is shorter than 16 bytes"));
    }
    let original_format_tag = read_le16(bytes, 0);
    let channels = read_le16(bytes, 2);
    let sample_rate = read_le32(bytes, 4);
    let byte_rate = read_le32(bytes, 8);
    let block_align = read_le16(bytes, 12);
    let bits_per_sample = read_le16(bytes, 14);
    let mut format_tag = original_format_tag;
    let mut valid_bits_per_sample = bits_per_sample;
    let mut channel_mask: Option<u32> = None;
    if original_format_tag == 0xFFFE {
        if bytes.len() < 40 {
            return Err(MediaError::invalid_data("WAVE_FORMAT_EXTENSIBLE fmt chunk is shorter than 40 bytes"));
        }
        let extension_size = read_le16(bytes, 16);
        if extension_size < 22 {
            return Err(MediaError::invalid_data("WAVE_FORMAT_EXTENSIBLE extension is shorter than 22 bytes"));
        }
        valid_bits_per_sample = read_le16(bytes, 18);
        channel_mask = Some(read_le32(bytes, 20));
        let tail_ok = fourcc_at(bytes, 28, 0x00, 0x00, 0x10, 0x00) && fourcc_at(
            bytes,
            32,
            0x80,
            0x00,
            0x00,
            0xAA,
        ) && fourcc_at(bytes, 36, 0x00, 0x38, 0x9B, 0x71);
        proof {
            let t = bytes@.subrange(28, 40);
            if tail_ok {
                assert(t =~= bytes@.subrange(28, 32) + bytes@.subrange(32, 36) + bytes@.subrange(36, 40));
                assert(t =~= ks_subtype_tail());
            } else if t == ks_subtype_tail() {
                assert(bytes@.subrange(28, 32) =~= t.subrange(0, 4));
                assert(bytes@.subrange(32, 36) =~= t.subrange(4, 8));
                assert(bytes@.subrange(36, 40) =~= t.subrange(8, 12));
                assert(t.subrange(0, 4) =~= seq![0x00u8, 0x00u8, 0x10u8, 0x00u8]);
                assert(t.subrange(4, 8) =~= seq![0x80u8, 0x00u8, 0x00u8, 0xAAu8]);
                assert(t.subrange(8, 12) =~= seq![0x00u8, 0x38u8, 0x9Bu8, 0x71u8]);
            }
        }
        if !tail_ok {
            return Err(MediaError::unsupported("unsupported WAVE_FORMAT_EXTENSIBLE subformat GUID"));
        }
        let data1 = read_le32(bytes, 24);
        if data1 > 0xFFFF {
            return Err(MediaError::unsupported("unsupported WAVE extensible format tag"));
        }
        format_tag = data1 as u16;
    }
    let codec = match pcm_from_wave_tag(format_tag, bits_per_sample) {
        Some(c) => c,
        None => return Err(MediaError::unsupported("unsupported WAVE codec tag")),
    };
    Ok(
        WaveAudioInfo {
            codec,
            channels,
            sample_rate,
            byte_rate,
            block_align,
            bits_per_sample,
            valid_bits_per_sample,
            channel_mask,
        },
    )
}

/// The first consistency rule `audio` breaks, or `None`: non-zero channels,
/// rate and alignment, whole-byte sample width that matches the codec, valid
/// bits within the width, and block alignment and byte rate that follow
/// from the rest.
pub open spec fn spec_validate(audio: WaveAudioInfo) -> Option<ErrorKind> {
    let block = audio.channels * (audio.bits_per_sample / 8);
    if audio.channels == 0 || audio.sample_rate == 0 || audio.block_align == 0 {
        Some(ErrorKind::InvalidData)
    } else if audio.bits_per_sample == 0 || audio.bits_per_sample % 8 != 0 {
        Some(ErrorKind::InvalidData)
    } else if audio.valid_bits_per_sample == 0 || audio.valid_bits_per_sample > audio.bits_per_sample {
        Some(ErrorKind::InvalidData)
    } else if spec_pcm_bits(audio.codec) != Some(audio.bits_per_sample) {
        Some(ErrorKind::InvalidData)
    } else if block != audio.block_align {
        Some(ErrorKind::InvalidData)
    } else if audio.sample_rate * audio.block_align > u32::MAX {
        Some(ErrorKind::Overflow)
    } else if audio.sample_rate * audio.block_align != audio.byte_rate {
        Some(ErrorKind::InvalidData)
    } else {
        None
    }
}

fn validate_wave_audio(audio: WaveAudioInfo) -> (r: Result<()>)
    ensures
        match r {
            Ok(()) => spec_validate(audio) is None,
            Err(e) => spec_validate(audio) == Some(e@),
        },
{
    if audio.channels == 0 {
        return Err(MediaError::invalid_data("WAVE channel count must be non-zero"));
    }
    if audio.sample_rate == 0 {
        return Err(MediaError::invalid_data("WAVE sample rate must be non-zero"));
    }
    if audio.block_align == 0 {
        return Err(MediaError::invalid_data("WAVE block alignment must be non-zero"));
    }
    if audio.bits_per_sample == 0 || audio.bits_per_sample % 8 != 0 {
        return Err(MediaError::invalid_data("supported WAVE PCM sample widths must be byte-aligned"));
    }
    if audio.valid_bits_per_sample == 0 || audio.valid_bits_per_sample > audio.bits_per_sample {
        return Err(MediaError::invalid_data("invalid WAVE valid-bits-per-sample value"));
    }
    match pcm_bits_per_sample(audio.codec) {
        Some(bits) => {
            if bits != audio.bits_per_sample {
                return Err(MediaError::invalid_data("WAVE codec and bits-per-sample disagree"));
            }
        },
        None => return Err(MediaError::invalid_data("WAVE codec and bits-per-sample disagree")),
    }
    assert((audio.channels as u32) * ((audio.bits_per_sample / 8) as u32) <= 0xFFFFu32 * 0x2000u32) by (nonlinear_arith)
        requires audio.channels <= 0xFFFF, audio.bits_per_sample / 8 <= 0x2000;
    let expected_block_align = (audio.channels as u32) * ((audio.bits_per_sample / 8) as u32);
    if expected_block_align != audio.block_align as u32 {
        return Err(MediaError::invalid_data("invalid WAVE block alignment"));
    }
    let expected_byte_rate = match audio.sample_rate.checked_mul(audio.block_align as u32) {
        Some(v) => v,
        None => return Err(MediaError::overflow("WAVE byte rate overflow")),
    };
    if expected_byte_rate != audio.byte_rate {
        return Err(MediaError::invalid_data("invalid WAVE byte rate"));
    }
    Ok(())
}

/// Walks the RIFF chunks in `[pos, end)` of `s`, keeping the first `fmt `
/// chunk (parsed on sight) and the first `data` chunk's range. A chunk whose
/// size runs past `end` stops the walk; odd-sized chunks are followed by a
/// pad byte unless they end the region.
pub open spec fn wave_walk(
    s: Seq<u8>,
    pos: nat,
    end: nat,
    audio: Option<WaveAudioInfo>,
    data: Option<(nat, nat)>,
) -> core::result::Result<(Option<WaveAudioInfo>, Option<(nat, nat)>), ErrorKind>
    decreases end - pos,
{
    if pos + 8 > end {
        Ok((audio, data))
    } else {
        let id = s.subrange(pos as int, pos + 4int);
        let size = le32_at(s, pos + 4int);
        let off = pos + 8;
        if off + size > end {
            Err(ErrorKind::EndOfFile)
        } else {
            let parsed: core::result::Result<Option<WaveAudioInfo>, ErrorKind> = if id == fourcc_fmt()
                && audio is None {
                match spec_parse_fmt(s.subrange(off as int, (off + size) as int)) {
                    Ok(a) => Ok(Some(a)),
                    Err(k) => Err(k),
                }
            } else {
                Ok(audio)
            };
            match parsed {
                Err(k) => Err(k),
                Ok(audio2) => {
                    let data2 = if id == fourcc_data() && data is None {
                        Some((off, size))
                    } else {
                        data
                    };
                    let next: nat = if size % 2 == 1 && off + size != end {
                        off + size + 1
                    } else {
                        off + size
                    };
                    wave_walk(s, next, end, audio2, data2)
                },
            }
        }
    }
}

/// What `parse_wave` makes of `s`: the first check it fails, or the file's
/// parameters and sample range.
pub open spec fn spec_parse_wave(s: Seq<u8>) -> core::result::Result<WaveInfo, ErrorKind> {
    if s.len() < 12 || s.subrange(0, 4) != fourcc_riff() || s.subrange(8, 12) != fourcc_wave() {
        Err(ErrorKind::InvalidData)
    } else {
        let riff = le32_at(s, 4);
        if riff < 4 || riff + 8 > s.len() {
            Err(ErrorKind::InvalidData)
        } else {
            match wave_walk(s, 12, riff + 8, None, None) {
                Err(k) => Err(k),
                Ok((audio, data)) => match (audio, data) {
                    (None, _) => Err(ErrorKind::InvalidData),
                    (Some(_), None) => Err(ErrorKind::InvalidData),
                    (Some(a), Some((off, size))) => if spec_validate(a) is Some {
                        Err(spec_validate(a)->0)
                    } else if size % (a.block_align as nat) != 0 {
                        Err(ErrorKind::InvalidData)
                    } else {
                        Ok(
                            WaveInfo {
                                riff_size: riff as u32,
                                audio: a,
                                data_offset: off as usize,
                                data_size: size as usize,
                                sample_count: (size / (a.block_align as nat)) as u64,
                            },
                        )
                    },
                },
            }
        }
    }
}

/// Parses a RIFF/WAVE file: header, chunk walk, `fmt ` and `data` chunks.
pub fn parse_wave(bytes: &[u8]) -> (r: Result<WaveFile<'_>>)
    ensures
        match r {
            Ok(f) => spec_parse_wave(bytes@) == Ok::<WaveInfo, ErrorKind>(f.info) && f.data@
                == bytes@.subrange(
                f.info.data_offset as int,
                f.info.data_offset + f.info.data_size,
            ),
            Err(e) => spec_parse_wave(bytes@) == Err::<WaveInfo, ErrorKind>(e@),
        },
{
    let ghost s = bytes@;
    if bytes.len() < 12 {
        return Err(MediaError::invalid_data("WAVE input is shorter than a RIFF header"));
    }
    if !fourcc_at(bytes, 0, 82, 73, 70, 70) {
        return Err(MediaError::invalid_data("missing RIFF signature"));
    }
    let riff_size = read_le32(bytes, 4);
    if !fourcc_at(bytes, 8, 87, 65, 86, 69) {
        return Err(MediaError::invalid_data("RIFF form type is not WAVE"));
    }
    if riff_size < 4 {
        return Err(MediaError::invalid_data("invalid RIFF size"));
    }
    let n = bytes.len();
    if riff_size as u64 + 8 > n as u64 {
        return Err(MediaError::invalid_data("RIFF size exceeds available input"));
    }
    let end = riff_size as usize + 8;
    let mut pos: usize = 12;
    let mut audio: Option<WaveAudioInfo> = None;
    let mut data_range: Option<(usize, usize)> = None;
    while end - pos >= 8
        invariant
            n == bytes@.len(),
            end <= n,
            12 <= pos <= end,
            wave_walk(s, 12, end as nat, None, None) == wave_walk(
                s,
                pos as nat,
                end as nat,
                audio,
                match data_range {
                    Some((o, z)) => Some((o as nat, z as nat)),
                    None => None,
                },
            ),
            s == bytes@,
            s.len() >= 12,
            s.subrange(0, 4) == fourcc_riff(),
            s.subrange(8, 12) == fourcc_wave(),
            le32_at(s, 4) >= 4,
            end == le32_at(s, 4) + 8,
            data_range matches Some((o, z)) ==> o + z <= end,
        decreases end - pos,
    {
        let ghost dr = match data_range {
            Some((o, z)) => Some((o as nat, z as nat)),
            None => None,
        };
        let is_fmt = fourcc_at(bytes, pos, 102, 109, 116, 32);
        let is_data = fourcc_at(bytes, pos, 100, 97, 116, 97);
        let chunk_size = read_le32(bytes, pos + 4) as usize;
        let chunk_offset = pos + 8;
        if chunk_size > end - chunk_offset {
            return Err(MediaError::eof("RIFF chunk runs past the end of the file"));
        }
        let chunk_end = chunk_offset + chunk_size;
        if is_fmt && audio.is_none() {
            let chunk = vstd::slice::slice_subrange(bytes, chunk_offset, chunk_end);
            match parse_wave_fmt(chunk) {
                Ok(a) => {
                    audio = Some(a);
                },
                Err(e) => return Err(e),
            }
        }
        if is_data && data_range.is_none() {
            data_range = Some((chunk_offset, chunk_size));
        }
        if chunk_size % 2 == 1 && chunk_end != end {
            pos = chunk_end + 1;
        } else {
            pos = chunk_end;
        }
    }
    let audio = match audio {
        Some(a) => a,
        None => return Err(MediaError::invalid_data("WAVE file has no fmt chunk")),
    };
    let (data_offset, data_size) = match data_range {
        Some(d) => d,
        None => return Err(MediaError::invalid_data("WAVE file has no data chunk")),
    };
    validate_wave_audio(audio)?;
    if data_size % (audio.block_align as usize) != 0 {
        return Err(MediaError::invalid_data("WAVE data size is not aligned to complete audio sample frames"));
    }
    let sample_count = (data_size / (audio.block_align as usize)) as u64;
    let data = vstd::slice::slice_subrange(bytes, data_offset, data_offset + data_size);
    Ok(
        WaveFile {
            info: WaveInfo { riff_size, audio, data_offset, data_size, sample_count },
            data,
        },
    )
}

/// The first reason `mux_wave` refuses `audio` with a payload of `len`
/// bytes, or `None`.
pub open spec fn spec_mux_error(audio: WaveAudioInfo, len: nat) -> Option<ErrorKind> {
    if spec_validate(audio) is Some {
        spec_validate(audio)
    } else if len % (audio.block_align as nat) != 0 {
        Some(ErrorKind::InvalidArgument)
    } else if spec_wave_format_tag(audio.codec) is None {
        Some(ErrorKind::InvalidArgument)
    } else if len > u32::MAX {
        Some(ErrorKind::Unsupported)
    } else if len == u32::MAX {
        Some(ErrorKind::Overflow)
    } else if 36 + len + len % 2 > u32::MAX {
        Some(ErrorKind::Unsupported)
    } else {
        None
    }
}

/// The 44-byte header of a canonical WAVE file whose payload is `len` bytes.
pub open spec fn wave_header(audio: WaveAudioInfo, tag: u16, len: nat) -> Seq<u8> {
    let riff = 36 + len + len % 2;
    fourcc_riff() + le_bytes(riff, 4) + fourcc_wave() + fourcc_fmt() + le_bytes(16, 4) + le_bytes(tag as nat, 2)
        + le_bytes(audio.channels as nat, 2) + le_bytes(audio.sample_rate as nat, 4) + le_bytes(
        audio.byte_rate as nat,
        4,
    ) + le_bytes(audio.block_align as nat, 2) + le_bytes(audio.bits_per_sample as nat, 2) + fourcc_data()
        + le_bytes(len, 4)
}

/// The canonical WAVE file for `audio` and `data`, with a pad byte after an
/// odd-sized payload.
pub open spec fn wave_bytes(audio: WaveAudioInfo, tag: u16, data: Seq<u8>) -> Seq<u8> {
    wave_header(audio, tag, data.len()) + data + (if data.len() % 2 == 1 { seq![0u8] } else { Seq::empty() })
}

fn write_fourcc(w: &mut ByteWriter, a: u8, b: u8, c: u8, d: u8)
    ensures
        final(w)@ == old(w)@ + seq![a, b, c, d],
{
    w.write_u8(a);
    w.write_u8(b);
    w.write_u8(c);
    w.write_u8(d);
    assert(w@ =~= old(w)@ + seq![a, b, c, d]);
}

fn write_wave_header(w: &mut ByteWriter, audio: WaveAudioInfo, tag: u16, data_size: u32)
    requires
        36 + data_size + data_size % 2 <= u32::MAX,
    ensures
        final(w)@ == old(w)@ + wave_header(audio, tag, data_size as nat),
{
    let riff_size = 36 + data_size + data_size % 2;
    let ghost o = old(w)@;
    write_fourcc(w, 82, 73, 70, 70);
    w.write_u32_le(riff_size);
    write_fourcc(w, 87, 65, 86, 69);
    write_fourcc(w, 102, 109, 116, 32);
    let ghost p1 = w@;
    w.write_u32_le(16);
    w.write_u16_le(tag);
    w.write_u16_le(audio.channels);
    w.write_u32_le(audio.sample_rate);
    w.write_u32_le(audio.byte_rate);
    w.write_u16_le(audio.block_align);
    w.write_u16_le(audio.bits_per_sample);
    let ghost p2 = w@;
    write_fourcc(w, 100, 97, 116, 97);
    w.write_u32_le(data_size);
    proof {
        let a = fourcc_riff() + le_bytes(riff_size as nat, 4) + fourcc_wave() + fourcc_fmt();
        assert(p1 =~= o + a);
        let b = le_bytes(16, 4) + le_bytes(tag as nat, 2) + le_bytes(audio.channels as nat, 2) + le_bytes(
            audio.sample_rate as nat,
            4,
        ) + le_bytes(audio.byte_rate as nat, 4) + le_bytes(audio.block_align as nat, 2) + le_bytes(
            audio.bits_per_sample as nat,
            2,
        );
        assert(p2 =~= p1 + b);
        let c = fourcc_data() + le_bytes(data_size as nat, 4);
        assert(w@ =~= p2 + c);
        assert(wave_header(audio, tag, data_size as nat) =~= a + b + c);
        assert(w@ =~= o + wave_header(audio, tag, data_size as nat));
    }
}

/// Writes canonical PCM WAVE: RIFF header, a 16-byte `fmt ` chunk, the `data`
/// chunk.
pub fn mux_wave(audio: WaveAudioInfo, data: &[u8]) -> (r: Result<Vec<u8>>)
    ensures
        match r {
            Ok(out) => spec_mux_error(audio, data@.len()) is None && out@ == wave_bytes(
                audio,
                spec_wave_format_tag(audio.codec)->0,
                data@,
            ),
            Err(e) => spec_mux_error(audio, data@.len()) == Some(e@),
        },
{
    validate_wave_audio(audio)?;
    if data.len() % (audio.block_align as usize) != 0 {
        return Err(MediaError::invalid_argument("PCM payload does not contain complete sample frames"));
    }
    let format_tag = match pcm_wave_format_tag(audio.codec) {
        Some(t) => t,
        None => return Err(MediaError::invalid_argument("WAVE muxer requires a PCM codec")),
    };
    if data.len() > 0xFFFF_FFFF {
        return Err(MediaError::unsupported("classic RIFF/WAVE output is limited to 4 GiB; RF64 is not implemented yet"));
    }
    let data_size = data.len() as u32;
    if data_size == 0xFFFF_FFFF {
        return Err(MediaError::overflow("WAVE padded data size overflow"));
    }
    let padded_data_size = data_size + data_size % 2;
    if padded_data_size > 0xFFFF_FFFF - 36 {
        return Err(MediaError::unsupported("classic RIFF/WAVE size exceeds 4 GiB"));
    }
    let mut writer = ByteWriter::new();
    write_wave_header(&mut writer, audio, format_tag, data_size);
    writer.write(data);
    if data_size % 2 != 0 {
        writer.write_u8(0);
    }
    let out = writer.into_inner();
    proof {
        if data_size % 2 != 0 {
            assert(out@ =~= wave_bytes(audio, format_tag, data@));
        } else {
            assert(out@ =~= wave_bytes(audio, format_tag, data@));
        }
    }
    Ok(out)
}

/// `audio` as a plain `fmt ` chunk describes it: valid bits equal to the
/// sample width, no channel mask.
pub open spec fn plain_fmt(audio: WaveAudioInfo) -> WaveAudioInfo {
    WaveAudioInfo { valid_bits_per_sample: audio.bits_per_sample, channel_mask: None, ..audio }
}

proof fn lemma_wave_header_fields(audio: WaveAudioInfo, tag: u16, len: nat)
    requires
        36 + len + len % 2 <= u32::MAX,
    ensures
        ({
            let h = wave_header(audio, tag, len);
            &&& h.len() == 44
            &&& h.subrange(0, 4) == fourcc_riff()
            &&& h.subrange(4, 8) == le_bytes(36 + len + len % 2, 4)
            &&& h.subrange(8, 12) == fourcc_wave()
            &&& h.subrange(12, 16) == fourcc_fmt()
            &&& h.subrange(16, 20) == le_bytes(16, 4)
            &&& h.subrange(20, 22) == le_bytes(tag as nat, 2)
            &&& h.subrange(22, 24) == le_bytes(audio.channels as nat, 2)
            &&& h.subrange(24, 28) == le_bytes(audio.sample_rate as nat, 4)
            &&& h.subrange(28, 32) == le_bytes(audio.byte_rate as nat, 4)
            &&& h.subrange(32, 34) == le_bytes(audio.block_align as nat, 2)
            &&& h.subrange(34, 36) == le_bytes(audio.bits_per_sample as nat, 2)
            &&& h.subrange(36, 40) == fourcc_data()
            &&& h.subrange(40, 44) == le_bytes(len, 4)
        }),
{
    let p0 = fourcc_riff();
    let p1 = le_bytes(36 + len + len % 2, 4);
    let p2 = fourcc_wave();
    let p3 = fourcc_fmt();
    let p4 = le_bytes(16, 4);
    let p5 = le_bytes(tag as nat, 2);
    let p6 = le_bytes(audio.channels as nat, 2);
    let p7 = le_bytes(audio.sample_rate as nat, 4);
    let p8 = le_bytes(audio.byte_rate as nat, 4);
    let p9 = le_bytes(audio.block_align as nat, 2);
    let p10 = le_bytes(audio.bits_per_sample as nat, 2);
    let p11 = fourcc_data();
    let p12 = le_bytes(len, 4);
    crate::byteio::lemma_le_roundtrip_len(36 + len + len % 2, 4);
    crate::byteio::lemma_le_roundtrip_len(16, 4);
    crate::byteio::lemma_le_roundtrip_len(tag as nat, 2);
    crate::byteio::lemma_le_roundtrip_len(audio.channels as nat, 2);
    crate::byteio::lemma_le_roundtrip_len(audio.sample_rate as nat, 4);
    crate::byteio::lemma_le_roundtrip_len(audio.byte_rate as nat, 4);
    crate::byteio::lemma_le_roundtrip_len(audio.block_align as nat, 2);
    crate::byteio::lemma_le_roundtrip_len(audio.bits_per_sample as nat, 2);
    crate::byteio::lemma_le_roundtrip_len(len, 4);
    let h = wave_header(audio, tag, len);
    let a = p0 + p1 + p2 + p3;
    let b = p4 + p5 + p6 + p7 + p8 + p9 + p10;
    let c = p11 + p12;
    assert(h =~= a + b + c);
    assert(h.subrange(0, 4) =~= p0);
    assert(h.subrange(4, 8) =~= p1);
    assert(h.subrange(8, 12) =~= p2);
    assert(h.subrange(12, 16) =~= p3);
    assert(h.subrange(16, 36) =~= b);
    assert(h.subrange(16, 20) =~= b.subrange(0, 4));
    assert(h.subrange(20, 22) =~= b.subrange(4, 6));
    assert(h.subrange(22, 24) =~= b.subrange(6, 8));
    assert(h.subrange(24, 28) =~= b.subrange(8, 12));
    assert(h.subrange(28, 32) =~= b.subrange(12, 16));
    assert(h.subrange(32, 34) =~= b.subrange(16, 18));
    assert(h.subrange(34, 36) =~= b.subrange(18, 20));
    assert(b.subrange(0, 4) =~= p4);
    assert(b.subrange(4, 6) =~= p5);
    assert(b.subrange(6, 8) =~= p6);
    assert(b.subrange(8, 12) =~= p7);
    assert(b.subrange(12, 16) =~= p8);
    assert(b.subrange(16, 18) =~= p9);
    assert(b.subrange(18, 20) =~= p10);
    assert(h.subrange(36, 40) =~= p11);
    assert(h.subrange(40, 44) =~= p12);
}

proof fn lemma_wave_out_fields(audio: WaveAudioInfo, tag: u16, data: Seq<u8>)
    requires
        36 + data.len() + data.len() % 2 <= u32::MAX,
    ensures
        ({
            let out = wave_bytes(audio, tag, data);
            let len = data.len();
            let chunk = out.subrange(20, 36);
            &&& out.len() == 44 + len + len % 2
            &&& out.subrange(0, 4) == fourcc_riff()
            &&& out.subrange(8, 12) == fourcc_wave()
            &&& out.subrange(12, 16) == fourcc_fmt()
            &&& out.subrange(36, 40) == fourcc_data()
            &&& le32_at(out, 4) == 36 + len + len % 2
            &&& le32_at(out, 16) == 16
            &&& le32_at(out, 40) == len
            &&& out.subrange(44, 44 + len as int) == data
            &&& chunk.len() == 16
            &&& le16_at(chunk, 0) == tag
            &&& le16_at(chunk, 2) == audio.channels
            &&& le32_at(chunk, 4) == audio.sample_rate
            &&& le32_at(chunk, 8) == audio.byte_rate
            &&& le16_at(chunk, 12) == audio.block_align
            &&& le16_at(chunk, 14) == audio.bits_per_sample
        }),
{
    let len = data.len();
    let out = wave_bytes(audio, tag, data);
    let h = wave_header(audio, tag, len);
    lemma_wave_header_fields(audio, tag, len);
    let pad: Seq<u8> = if len % 2 == 1 { seq![0u8] } else { Seq::empty() };
    assert(out == h + data + pad);
    assert forall|a: int, b: int| 0 <= a <= b <= 44 implies #[trigger] out.subrange(a, b) == h.subrange(a, b) by {
        assert(out.subrange(a, b) =~= h.subrange(a, b));
    }
    assert(out.subrange(44, 44 + len as int) =~= data);
    lemma_le32_of(out, 4, 36 + len + len % 2);
    lemma_le32_of(out, 16, 16);
    lemma_le32_of(out, 40, len);
    let chunk = out.subrange(20, 36);
    assert(chunk.subrange(0, 2) =~= out.subrange(20, 22));
    assert(chunk.subrange(2, 4) =~= out.subrange(22, 24));
    assert(chunk.subrange(4, 8) =~= out.subrange(24, 28));
    assert(chunk.subrange(8, 12) =~= out.subrange(28, 32));
    assert(chunk.subrange(12, 14) =~= out.subrange(32, 34));
    assert(chunk.subrange(14, 16) =~= out.subrange(34, 36));
    lemma_le16_of(chunk, 0, tag as nat);
    lemma_le16_of(chunk, 2, audio.channels as nat);
    lemma_le32_of(chunk, 4, audio.sample_rate as nat);
    lemma_le32_of(chunk, 8, audio.byte_rate as nat);
    lemma_le16_of(chunk, 12, audio.block_align as nat);
    lemma_le16_of(chunk, 14, audio.bits_per_sample as nat);
}

proof fn lemma_plain_fmt_chunk(audio: WaveAudioInfo, chunk: Seq<u8>)
    requires
        spec_validate(audio) is None,
        spec_wave_format_tag(audio.codec) is Some,
        chunk.len() == 16,
        le16_at(chunk, 0) == spec_wave_format_tag(audio.codec)->0,
        le16_at(chunk, 2) == audio.channels,
        le32_at(chunk, 4) == audio.sample_rate,
        le32_at(chunk, 8) == audio.byte_rate,
        le16_at(chunk, 12) == audio.block_align,
        le16_at(chunk, 14) == audio.bits_per_sample,
    ensures
        spec_parse_fmt(chunk) == Ok::<WaveAudioInfo, ErrorKind>(plain_fmt(audio)),
{
    assert(is_pcm_spec(audio.codec));
    lemma_wave_tag_roundtrip(audio.codec);
}

proof fn lemma_walk_fmt_step(out: Seq<u8>, end: nat, a: WaveAudioInfo)
    requires
        44 <= end <= out.len(),
        out.subrange(12, 16) == fourcc_fmt(),
        le32_at(out, 16) == 16,
        spec_parse_fmt(out.subrange(20, 36)) == Ok::<WaveAudioInfo, ErrorKind>(a),
    ensures
        wave_walk(out, 12, end, None, None) == wave_walk(out, 36, end, Some(a), None),
{
}

proof fn lemma_walk_data_step(out: Seq<u8>, len: nat, a: WaveAudioInfo)
    requires
        44 + len + len % 2 <= out.len(),
        out.subrange(36, 40) == fourcc_data(),
        le32_at(out, 40) == len,
    ensures
        wave_walk(out, 36, 44 + len + len % 2, Some(a), None) == Ok::<(Option<WaveAudioInfo>, Option<(nat, nat)>), ErrorKind>((Some(a), Some((44nat, len)))),
{
    let end: nat = 44 + len + len % 2;
    assert(fourcc_data()[0] != fourcc_fmt()[0]);
    assert(wave_walk(out, 36, end, Some(a), None) == wave_walk(out, end, end, Some(a), Some((44nat, len))));
}

/// Parsing what `mux_wave` writes gives back the audio parameters (as a
/// plain `fmt ` chunk states them), the sample count and the payload.
#[verifier::spinoff_prover]
#[verifier::rlimit(60)]
pub proof fn lemma_wave_roundtrip(audio: WaveAudioInfo, data: Seq<u8>)
    requires
        spec_mux_error(audio, data.len()) is None,
    ensures
        ({
            let out = wave_bytes(audio, spec_wave_format_tag(audio.codec)->0, data);
            let len = data.len();
            &&& spec_parse_wave(out) == Ok::<WaveInfo, ErrorKind>(
                WaveInfo {
                    riff_size: (36 + len + len % 2) as u32,
                    audio: plain_fmt(audio),
                    data_offset: 44,
                    data_size: len as usize,
                    sample_count: (len / (audio.block_align as nat)) as u64,
                },
            )
            &&& out.subrange(44, 44 + len as int) == data
        }),
{
    let tag = spec_wave_format_tag(audio.codec)->0;
    let len = data.len();
    let out = wave_bytes(audio, tag, data);
    lemma_wave_out_fields(audio, tag, data);
    let end: nat = 44 + len + len % 2;
    let chunk = out.subrange(20, 36);
    lemma_plain_fmt_chunk(audio, chunk);
    let a = plain_fmt(audio);
    lemma_walk_fmt_step(out, end, a);
    lemma_walk_data_step(out, len, a);
    assert(spec_validate(a) is None);
}

/// What a file `parse_wave` accepts has: the RIFF and WAVE tags, a RIFF
/// size of at least 4 that fits in the file, a format with non-zero
/// channels, rate and block alignment, byte-aligned samples of the codec's
/// width, a block alignment of one sample per channel, a byte rate of rate
/// times block alignment, and a data chunk of whole blocks. A file missing
/// any of these is refused.
pub proof fn lemma_accepted_wave_is_well_formed(s: Seq<u8>)
    requires
        s.len() <= usize::MAX,
        spec_parse_wave(s) is Ok,
    ensures
        ({
            let info = spec_parse_wave(s)->Ok_0;
            let a = info.audio;
            &&& s.len() >= 12
            &&& s.subrange(0, 4) == fourcc_riff()
            &&& s.subrange(8, 12) == fourcc_wave()
            &&& 4 <= info.riff_size
            &&& info.riff_size + 8 <= s.len()
            &&& a.channels > 0 && a.sample_rate > 0 && a.block_align > 0
            &&& a.bits_per_sample > 0 && a.bits_per_sample % 8 == 0
            &&& spec_pcm_bits(a.codec) == Some(a.bits_per_sample)
            &&& a.block_align == a.channels * (a.bits_per_sample / 8)
            &&& a.byte_rate == a.sample_rate * a.block_align
            &&& (info.data_size as nat) % (a.block_align as nat) == 0
            &&& info.data_offset + info.data_size <= info.riff_size + 8
        }),
{
    let riff = crate::bytes_util::le32_at(s, 4);
    lemma_walk_data_bound(s, 12, riff + 8, None, None);
}

/// The data chunk the walk records lies inside the region it walks.
proof fn lemma_walk_data_bound(s: Seq<u8>, pos: nat, end: nat, audio: Option<WaveAudioInfo>, data: Option<(nat, nat)>)
    requires
        data matches Some((o, z)) ==> o + z <= end,
        wave_walk(s, pos, end, audio, data) is Ok,
    ensures
        wave_walk(s, pos, end, audio, data)->Ok_0.1 matches Some((o, z)) ==> o + z <= end,
    decreases end - pos,
{
    if pos + 8 <= end {
        let id = s.subrange(pos as int, pos + 4int);
        let size = crate::bytes_util::le32_at(s, pos + 4int);
        let off = pos + 8;
        let audio2 = if id == fourcc_fmt() && audio is None {
            Some(spec_parse_fmt(s.subrange(off as int, (off + size) as int))->Ok_0)
        } else {
            audio
        };
        let data2 = if id == fourcc_data() && data is None {
            Some((off, size))
        } else {
            data
        };
        let next: nat = if size % 2 == 1 && off + size != end {
            off + size + 1
        } else {
            off + size
        };
        lemma_walk_data_bound(s, next, end, audio2, data2);
    }
}

/// WAVE format tag 3 (IEEE float) names exactly the PCM codecs whose
/// samples are floating point (reported as `flt` or `dbl`); every integer
/// PCM codec (unsigned 8-bit, signed 16, 24 and 32-bit) is tag 1
/// (WAVE_FORMAT_PCM); and a tag with a sample width names the codec that
/// carries that tag and that width.
pub proof fn lemma_wave_tag_integer_or_float(c: CodecId, tag: u16, bits: u16)
    ensures
        is_pcm_spec(c) ==> (spec_wave_format_tag(c) == Some(3u16) <==> (crate::ffprobe::spec_sample_format_name(c) == "flt"@
            || crate::ffprobe::spec_sample_format_name(c) == "dbl"@)),
        is_pcm_spec(c) ==> (spec_wave_format_tag(c) == Some(1u16) <==> !(crate::ffprobe::spec_sample_format_name(c) == "flt"@
            || crate::ffprobe::spec_sample_format_name(c) == "dbl"@)),
        spec_wave_format_tag(c) == Some(1u16) <==> (c == CodecId::PcmU8 || c == CodecId::PcmS16Le || c == CodecId::PcmS24Le
            || c == CodecId::PcmS32Le),
        spec_wave_format_tag(c) == Some(3u16) <==> (c == CodecId::PcmF32Le || c == CodecId::PcmF64Le),
        spec_pcm_from_wave_tag(tag, bits) == Some(c) <==> (spec_wave_format_tag(c) == Some(tag) && spec_pcm_bits(c) == Some(
            bits,
        )),
{
    reveal_strlit("u8");
    reveal_strlit("s16");
    reveal_strlit("s32");
    reveal_strlit("flt");
    reveal_strlit("dbl");
    assert("s32"@[0] != "flt"@[0] && "s32"@[0] != "dbl"@[0]);
    assert("s16"@[0] != "flt"@[0] && "s16"@[0] != "dbl"@[0]);
    assert("u8"@[0] != "flt"@[0] && "u8"@[0] != "dbl"@[0]);
    assert("s32"@ != "flt"@ && "s32"@ != "dbl"@ && "u8"@ != "flt"@ && "u8"@ != "dbl"@);
    assert("s16"@ != "flt"@ && "s16"@ != "dbl"@);
}

} // verus!
