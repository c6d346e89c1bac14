use vstd::prelude::*;

use crate::error::{ErrorKind, MediaError, Result};

verus! {

pub const SOI: u8 = 0xd8;

pub const EOI: u8 = 0xd9;

pub const SOS: u8 = 0xda;

pub const DQT: u8 = 0xdb;

pub const DHT: u8 = 0xc4;

pub const DRI: u8 = 0xdd;

pub const SOF0: u8 = 0xc0;

pub const SOF2: u8 = 0xc2;

#[derive(Debug, Clone, Copy, PartialEq, Eq, Structural)]
pub enum JpegCoding {
    Baseline,
    Progressive,
}

/// The frame header facts the prober reports.
#[derive(Debug, Clone, Copy, PartialEq, Eq, Structural)]
pub struct JpegInfo {
    pub width: u16,
    pub height: u16,
    pub precision: u8,
    pub components: u8,
    pub coding: JpegCoding,
}

/// Counts of the tables and scans a stream declares.
#[derive(Debug, Clone, Copy, PartialEq, Eq, Structural)]
pub struct MarkerSummary {
    pub quantization_tables: u8,
    pub huffman_tables: u8,
    pub restart_interval: Option<u16>,
    pub scans: u16,
}

#[derive(Debug, Clone, Copy, PartialEq, Eq, Structural)]
pub struct JpegProbe {
    pub info: JpegInfo,
    pub markers: MarkerSummary,
}

pub open spec fn spec_probe_jpeg(s: Seq<u8>) -> bool {
    s.len() >= 4 && s[0] == 0xff && s[1] == SOI && s[2] == 0xff
}

pub fn probe_jpeg(bytes: &[u8]) -> (score: u8)
    ensures
        score == if spec_probe_jpeg(bytes@) { 100u8 } else { 0u8 },
{
    if bytes.len() >= 4 && bytes[0] == 0xff && bytes[1] == SOI && bytes[2] == 0xff {
        100
    } else {
        0
    }
}

pub open spec fn be16_at(s: Seq<u8>, off: int) -> nat {
    256 * s[off] as nat + s[off + 1] as nat
}

/// The first index at or after `i` that does not hold a fill byte 0xFF.
pub open spec fn ff_run_end(s: Seq<u8>, i: int) -> int
    decreases s.len() - i,
{
    if 0 <= i < s.len() && s[i] == 0xff {
        ff_run_end(s, i + 1)
    } else {
        i
    }
}

pub proof fn lemma_ff_run_end(s: Seq<u8>, i: int)
    requires
        0 <= i,
    ensures
        ff_run_end(s, i) >= i,
        i <= s.len() ==> ff_run_end(s, i) <= s.len(),
        ff_run_end(s, i) < s.len() ==> s[ff_run_end(s, i)] != 0xff,
    decreases s.len() - i,
{
    if 0 <= i < s.len() && s[i] == 0xff {
        lemma_ff_run_end(s, i + 1);
    }
}

/// The marker at `pos`: 0xFF, any further fill bytes, then a code that is
/// neither 0x00 nor 0xFF. Gives the code and the position after it.
pub open spec fn spec_next_marker(s: Seq<u8>, pos: nat) -> core::result::Result<(u8, nat), ErrorKind> {
    if pos >= s.len() || s[pos as int] != 0xff {
        Err(ErrorKind::InvalidData)
    } else {
        let p = ff_run_end(s, pos as int);
        if p >= s.len() {
            Err(ErrorKind::EndOfFile)
        } else if s[p] == 0 {
            Err(ErrorKind::InvalidData)
        } else {
            Ok((s[p], (p + 1) as nat))
        }
    }
}

fn next_marker(bytes: &[u8], pos: usize) -> (r: Result<(u8, usize)>)
    ensures
        match r {
            Ok((m, p)) => spec_next_marker(bytes@, pos as nat) == Ok::<(u8, nat), ErrorKind>((m, p as nat)),
            Err(e) => spec_next_marker(bytes@, pos as nat) == Err::<(u8, nat), ErrorKind>(e@),
        },
{
    if pos >= bytes.len() || bytes[pos] != 0xff {
        return Err(MediaError::invalid_data("expected JPEG marker prefix"));
    }
    proof {
        lemma_ff_run_end(bytes@, pos as int);
    }
    let mut p = pos;
    while p < bytes.len() && bytes[p] == 0xff
        invariant
            pos <= p <= bytes@.len(),
            ff_run_end(bytes@, p as int) == ff_run_end(bytes@, pos as int),
        decreases bytes@.len() - p,
    {
        p += 1;
    }
    if p >= bytes.len() {
        return Err(MediaError::eof("truncated JPEG marker"));
    }
    let marker = bytes[p];
    if marker == 0x00 || marker == 0xff {
        return Err(MediaError::invalid_data("invalid JPEG marker code"));
    }
    Ok((marker, p + 1))
}

/// The segment at `pos`: a big-endian length of at least 2 that counts
/// itself, then the payload. Gives the payload and the position after it.
pub open spec fn spec_segment(s: Seq<u8>, pos: nat) -> core::result::Result<(Seq<u8>, nat), ErrorKind> {
    if pos + 2 > s.len() {
        Err(ErrorKind::EndOfFile)
    } else {
        let length = be16_at(s, pos as int);
        if length < 2 {
            Err(ErrorKind::InvalidData)
        } else if pos + length > s.len() {
            Err(ErrorKind::EndOfFile)
        } else {
            Ok((s.subrange(pos + 2int, pos + length as int), pos + length))
        }
    }
}

pub(crate) fn segment(bytes: &[u8], pos: usize) -> (r: Result<(&[u8], usize)>)
    ensures
        match r {
            Ok((d, p)) => spec_segment(bytes@, pos as nat) == Ok::<(Seq<u8>, nat), ErrorKind>((d@, p as nat)),
            Err(e) => spec_segment(bytes@, pos as nat) == Err::<(Seq<u8>, nat), ErrorKind>(e@),
        },
{
    let n = bytes.len();
    if pos > n || n - pos < 2 {
        return Err(MediaError::eof("truncated JPEG segment length"));
    }
    let length = (bytes[pos] as usize) * 256 + bytes[pos + 1] as usize;
    if length < 2 {
        return Err(MediaError::invalid_data("JPEG segment length is smaller than 2"));
    }
    if length > n - pos {
        return Err(MediaError::eof("truncated JPEG segment payload"));
    }
    let payload = vstd::slice::slice_subrange(bytes, pos + 2, pos + length);
    Ok((payload, pos + length))
}

/// A frame component with sampling factors in 1..=4 and a table id <= 3.
pub open spec fn component_ok(d: Seq<u8>, j: int) -> bool {
    let sampling = d[6 + 3 * j + 1];
    let h = sampling / 16;
    let v = sampling % 16;
    1 <= h <= 4 && 1 <= v <= 4 && d[6 + 3 * j + 2] <= 3
}

/// What a SOF0/SOF2 payload declares, or why it is refused.
pub open spec fn spec_parse_frame(marker: u8, d: Seq<u8>) -> core::result::Result<JpegInfo, ErrorKind> {
    if d.len() < 6 {
        Err(ErrorKind::EndOfFile)
    } else if d[0] != 8 {
        Err(ErrorKind::Unsupported)
    } else if be16_at(d, 3) == 0 || be16_at(d, 1) == 0 || d[5] == 0 {
        Err(ErrorKind::InvalidData)
    } else if d.len() != 6 + 3 * d[5] {
        Err(ErrorKind::InvalidData)
    } else if exists|j: int| 0 <= j < d[5] && !#[trigger] component_ok(d, j) {
        Err(ErrorKind::InvalidData)
    } else {
        Ok(
            JpegInfo {
                width: be16_at(d, 3) as u16,
                height: be16_at(d, 1) as u16,
                precision: d[0],
                components: d[5],
                coding: if marker == SOF0 {
                    JpegCoding::Baseline
                } else {
                    JpegCoding::Progressive
                },
            },
        )
    }
}

fn parse_frame(marker: u8, data: &[u8]) -> (r: Result<JpegInfo>)
    ensures
        match r {
            Ok(info) => spec_parse_frame(marker, data@) == Ok::<JpegInfo, ErrorKind>(info),
            Err(e) => spec_parse_frame(marker, data@) == Err::<JpegInfo, ErrorKind>(e@),
        },
{
    if data.len() < 6 {
        return Err(MediaError::eof("truncated JPEG frame header"));
    }
    let precision = data[0];
    let height = (data[1] as u16) * 256 + data[2] as u16;
    let width = (data[3] as u16) * 256 + data[4] as u16;
    let components = data[5];
    if precision != 8 {
        return Err(MediaError::unsupported("JPEG sample precision is not implemented"));
    }
    if width == 0 || height == 0 || components == 0 {
        return Err(MediaError::invalid_data("JPEG frame dimensions/components must be non-zero"));
    }
    if data.len() != 6 + (components as usize) * 3 {
        return Err(MediaError::invalid_data("JPEG frame component table length mismatch"));
    }
    let mut j: usize = 0;
    while j < components as usize
        invariant
            data@.len() == 6 + 3 * components,
            components == data@[5],
            data@[0] == 8,
            be16_at(data@, 1) != 0,
            be16_at(data@, 3) != 0,
            components != 0,
            j <= components,
            forall|k: int| 0 <= k < j ==> #[trigger] component_ok(data@, k),
        decreases components - j,
    {
        let sampling = data[6 + 3 * j + 1];
        let h = sampling / 16;
        let v = sampling % 16;
        if h == 0 || v == 0 || h > 4 || v > 4 || data[6 + 3 * j + 2] > 3 {
            assert(!component_ok(data@, j as int));
            return Err(MediaError::invalid_data("invalid JPEG sampling factor or quantization table id"));
        }
        j += 1;
    }
    let coding = if marker == SOF0 {
        JpegCoding::Baseline
    } else {
        JpegCoding::Progressive
    };
    Ok(JpegInfo { width, height, precision, components, coding })
}

/// The number of quantization tables in a DQT payload from `pos` on, given
/// `acc` already counted; more than 255 in one segment overflows.
pub open spec fn spec_count_dqt(d: Seq<u8>, pos: nat, acc: nat) -> core::result::Result<nat, ErrorKind>
    decreases d.len() - pos,
{
    if pos >= d.len() {
        Ok(acc)
    } else {
        let t = d[pos as int];
        if t / 16 > 1 || t % 16 > 3 {
            Err(ErrorKind::InvalidData)
        } else {
            let next = pos + 1 + (if t / 16 == 0 { 64nat } else { 128nat });
            if next > d.len() {
                Err(ErrorKind::EndOfFile)
            } else if acc >= 255 {
                Err(ErrorKind::Overflow)
            } else {
                spec_count_dqt(d, next, acc + 1)
            }
        }
    }
}

fn count_dqt(data: &[u8]) -> (r: Result<u8>)
    ensures
        match r {
            Ok(c) => spec_count_dqt(data@, 0, 0) == Ok::<nat, ErrorKind>(c as nat),
            Err(e) => spec_count_dqt(data@, 0, 0) == Err::<nat, ErrorKind>(e@),
        },
{
    let n = data.len();
    let mut pos: usize = 0;
    let mut count: u8 = 0;
    while pos < n
        invariant
            n == data@.len(),
            pos <= n,
            spec_count_dqt(data@, 0, 0) == spec_count_dqt(data@, pos as nat, count as nat),
        decreases n - pos,
    {
        let spec = data[pos];
        if spec / 16 > 1 || spec % 16 > 3 {
            return Err(MediaError::invalid_data("invalid JPEG DQT table specifier"));
        }
        let bytes: usize = if spec / 16 == 0 {
            64
        } else {
            128
        };
        if bytes + 1 > n - pos {
            return Err(MediaError::eof("truncated JPEG quantization table"));
        }
        if count == 255 {
            return Err(MediaError::overflow("JPEG DQT count overflow"));
        }
        pos = pos + 1 + bytes;
        count = count + 1;
    }
    Ok(count)
}

/// The sum of the first `k` of the sixteen code-length counts at `pos`.
pub open spec fn count_sum(d: Seq<u8>, pos: int, k: nat) -> nat
    decreases k,
{
    if k == 0 {
        0
    } else {
        count_sum(d, pos, (k - 1) as nat) + d[pos + k - 1] as nat
    }
}

/// The number of Huffman tables in a DHT payload from `pos` on, given `acc`
/// already counted.
pub open spec fn spec_count_dht(d: Seq<u8>, pos: nat, acc: nat) -> core::result::Result<nat, ErrorKind>
    decreases d.len() - pos,
{
    if pos >= d.len() {
        Ok(acc)
    } else {
        let t = d[pos as int];
        if t / 16 > 1 || t % 16 > 3 {
            Err(ErrorKind::InvalidData)
        } else if pos + 17 > d.len() {
            Err(ErrorKind::EndOfFile)
        } else {
            let symbols = count_sum(d, pos + 1int, 16);
            if symbols == 0 || symbols > 256 {
                Err(ErrorKind::InvalidData)
            } else if pos + 17 + symbols > d.len() {
                Err(ErrorKind::EndOfFile)
            } else if acc >= 255 {
                Err(ErrorKind::Overflow)
            } else {
                spec_count_dht(d, pos + 17 + symbols, acc + 1)
            }
        }
    }
}

fn count_dht(data: &[u8]) -> (r: Result<u8>)
    ensures
        match r {
            Ok(c) => spec_count_dht(data@, 0, 0) == Ok::<nat, ErrorKind>(c as nat),
            Err(e) => spec_count_dht(data@, 0, 0) == Err::<nat, ErrorKind>(e@),
        },
{
    let n = data.len();
    let mut pos: usize = 0;
    let mut count: u8 = 0;
    while pos < n
        invariant
            n == data@.len(),
            pos <= n,
            spec_count_dht(data@, 0, 0) == spec_count_dht(data@, pos as nat, count as nat),
        decreases n - pos,
    {
        let spec = data[pos];
        if spec / 16 > 1 || spec % 16 > 3 {
            return Err(MediaError::invalid_data("invalid JPEG Huffman table specifier"));
        }
        if n - pos < 17 {
            return Err(MediaError::eof("truncated JPEG Huffman code counts"));
        }
        let mut symbols: usize = 0;
        let mut k: usize = 0;
        while k < 16
            invariant
                pos + 17 <= n,
                n == data@.len(),
                k <= 16,
                symbols == count_sum(data@, pos + 1, k as nat),
                symbols <= 255 * k,
            decreases 16 - k,
        {
            symbols = symbols + data[pos + 1 + k] as usize;
            k += 1;
        }
        if symbols == 0 || symbols > 256 {
            return Err(MediaError::invalid_data("invalid JPEG Huffman symbol count"));
        }
        if symbols > n - pos - 17 {
            return Err(MediaError::eof("truncated JPEG Huffman symbols"));
        }
        if count == 255 {
            return Err(MediaError::overflow("JPEG DHT count overflow"));
        }
        pos = pos + 17 + symbols;
        count = count + 1;
    }
    Ok(count)
}

/// A scan header: one to four components, two bytes each, then three.
pub open spec fn spec_scan_header(d: Seq<u8>) -> Option<ErrorKind> {
    if d.len() == 0 {
        Some(ErrorKind::EndOfFile)
    } else if d[0] == 0 || d[0] > 4 {
        Some(ErrorKind::InvalidData)
    } else if d.len() != 1 + 2 * d[0] + 3 {
        Some(ErrorKind::InvalidData)
    } else {
        None
    }
}

fn validate_scan_header(data: &[u8]) -> (r: Result<()>)
    ensures
        match r {
            Ok(()) => spec_scan_header(data@) is None,
            Err(e) => spec_scan_header(data@) == Some(e@),
        },
{
    if data.len() == 0 {
        return Err(MediaError::eof("empty JPEG SOS"));
    }
    let components = data[0] as usize;
    if components == 0 || components > 4 {
        return Err(MediaError::invalid_data("invalid JPEG SOS component count"));
    }
    if data.len() != 1 + components * 2 + 3 {
        return Err(MediaError::invalid_data("JPEG SOS header length mismatch"));
    }
    Ok(())
}

/// Skips entropy-coded data from `pos` to the next marker that ends it:
/// stuffed 0xFF 0x00 and restart markers RST0-RST7 belong to the scan.
/// Gives the position of that marker's 0xFF.
pub open spec fn spec_skip_entropy(s: Seq<u8>, pos: nat) -> core::result::Result<nat, ErrorKind>
    decreases s.len() - pos,
{
    if pos >= s.len() {
        Err(ErrorKind::EndOfFile)
    } else if s[pos as int] != 0xff {
        spec_skip_entropy(s, pos + 1)
    } else {
        let mp = ff_run_end(s, pos + 1int);
        if mp >= s.len() {
            Err(ErrorKind::EndOfFile)
        } else if s[mp] == 0 || (0xd0 <= s[mp] && s[mp] <= 0xd7) {
            proof {
                lemma_ff_run_end(s, pos + 1int);
            }
            spec_skip_entropy(s, (mp + 1) as nat)
        } else {
            Ok(pos)
        }
    }
}

pub(crate) fn skip_entropy_data(bytes: &[u8], pos: usize) -> (r: Result<usize>)
    ensures
        match r {
            Ok(p) => spec_skip_entropy(bytes@, pos as nat) == Ok::<nat, ErrorKind>(p as nat),
            Err(e) => spec_skip_entropy(bytes@, pos as nat) == Err::<nat, ErrorKind>(e@),
        },
{
    let n = bytes.len();
    let mut p = pos;
    while p < n
        invariant
            n == bytes@.len(),
            spec_skip_entropy(bytes@, pos as nat) == spec_skip_entropy(bytes@, p as nat),
        decreases n - p,
    {
        if bytes[p] != 0xff {
            p += 1;
            continue;
        }
        proof {
            lemma_ff_run_end(bytes@, p + 1);
        }
        let mut marker_pos = p + 1;
        while marker_pos < n && bytes[marker_pos] == 0xff
            invariant
                n == bytes@.len(),
                p + 1 <= marker_pos <= n,
                ff_run_end(bytes@, marker_pos as int) == ff_run_end(bytes@, p + 1),
            decreases n - marker_pos,
        {
            marker_pos += 1;
        }
        if marker_pos >= n {
            return Err(MediaError::eof("truncated JPEG entropy marker"));
        }
        let code = bytes[marker_pos];
        if code == 0x00 || (0xd0 <= code && code <= 0xd7) {
            p = marker_pos + 1;
            continue;
        }
        return Ok(p);
    }
    Err(MediaError::eof("JPEG entropy data has no following marker"))
}

/// Frame codes this prober refuses: the SOF variants other than baseline
/// and progressive Huffman.
pub open spec fn unsupported_sof(m: u8) -> bool {
    m == 0xc1 || m == 0xc3 || (0xc5 <= m && m <= 0xc7) || (0xc9 <= m && m <= 0xcb) || (0xcd <= m && m <= 0xcf)
}

/// The state of the marker walk: the frame header once seen, and the counts.
pub open spec fn empty_summary() -> MarkerSummary {
    MarkerSummary { quantization_tables: 0, huffman_tables: 0, restart_interval: None, scans: 0 }
}

/// Walks markers from `pos` until EOI or the end of the input. Gives the
/// frame header, the counts, the position reached and whether EOI ended
/// the walk.
pub open spec fn jpeg_walk(s: Seq<u8>, pos: nat, frame: Option<JpegInfo>, m: MarkerSummary) -> core::result::Result<(Option<JpegInfo>, MarkerSummary, nat, bool), ErrorKind>
    decreases s.len() - pos,
{
    if pos >= s.len() {
        Ok((frame, m, pos, false))
    } else {
        match spec_next_marker(s, pos) {
            Err(k) => Err(k),
            Ok((code, p)) => if code == EOI {
                Ok((frame, m, p, true))
            } else if code == 0x01 || (0xd0 <= code && code <= 0xd7) {
                Err(ErrorKind::InvalidData)
            } else if unsupported_sof(code) {
                Err(ErrorKind::Unsupported)
            } else {
                proof {
                    lemma_ff_run_end(s, pos as int);
                }
                match spec_segment(s, p) {
                    Err(k) => Err(k),
                    Ok((seg, p2)) => if code == SOF0 || code == SOF2 {
                        if frame is Some {
                            Err(ErrorKind::InvalidData)
                        } else {
                            match spec_parse_frame(code, seg) {
                                Err(k) => Err(k),
                                Ok(info) => jpeg_walk(s, p2, Some(info), m),
                            }
                        }
                    } else if code == DQT {
                        match spec_count_dqt(seg, 0, 0) {
                            Err(k) => Err(k),
                            Ok(c) => if m.quantization_tables + c > 255 {
                                Err(ErrorKind::Overflow)
                            } else {
                                jpeg_walk(s, p2, frame, MarkerSummary { quantization_tables: (m.quantization_tables + c) as u8, ..m })
                            },
                        }
                    } else if code == DHT {
                        match spec_count_dht(seg, 0, 0) {
                            Err(k) => Err(k),
                            Ok(c) => if m.huffman_tables + c > 255 {
                                Err(ErrorKind::Overflow)
                            } else {
                                jpeg_walk(s, p2, frame, MarkerSummary { huffman_tables: (m.huffman_tables + c) as u8, ..m })
                            },
                        }
                    } else if code == DRI {
                        if seg.len() != 2 {
                            Err(ErrorKind::InvalidData)
                        } else {
                            jpeg_walk(s, p2, frame, MarkerSummary { restart_interval: Some(be16_at(seg, 0) as u16), ..m })
                        }
                    } else if code == SOS {
                        if spec_scan_header(seg) is Some {
                            Err(spec_scan_header(seg)->0)
                        } else if m.scans >= 0xFFFF {
                            Err(ErrorKind::Overflow)
                        } else {
                            match spec_skip_entropy(s, p2) {
                                Err(k) => Err(k),
                                Ok(p3) => {
                                    proof {
                                        lemma_skip_advances(s, p2);
                                    }
                                    jpeg_walk(s, p3, frame, MarkerSummary { scans: (m.scans + 1) as u16, ..m })
                                },
                            }
                        }
                    } else {
                        jpeg_walk(s, p2, frame, m)
                    },
                }
            },
        }
    }
}

pub proof fn lemma_skip_advances(s: Seq<u8>, pos: nat)
    ensures
        spec_skip_entropy(s, pos) matches Ok(p) ==> pos <= p < s.len(),
    decreases s.len() - pos,
{
    if pos < s.len() {
        if s[pos as int] != 0xff {
            lemma_skip_advances(s, pos + 1);
        } else {
            lemma_ff_run_end(s, pos + 1int);
            let mp = ff_run_end(s, pos + 1int);
            if mp < s.len() && (s[mp] == 0 || (0xd0 <= s[mp] && s[mp] <= 0xd7)) {
                lemma_skip_advances(s, (mp + 1) as nat);
            }
        }
    }
}

/// What `parse_jpeg` reports for `s`, or the first rule `s` breaks.
pub open spec fn spec_parse_jpeg(s: Seq<u8>) -> core::result::Result<JpegProbe, ErrorKind> {
    if s.len() < 4 || s[0] != 0xff || s[1] != SOI {
        Err(ErrorKind::InvalidData)
    } else {
        match jpeg_walk(s, 2, None, empty_summary()) {
            Err(k) => Err(k),
            Ok((frame, m, pos, eoi)) => if !eoi {
                Err(ErrorKind::EndOfFile)
            } else if pos != s.len() {
                Err(ErrorKind::InvalidData)
            } else {
                match frame {
                    None => Err(ErrorKind::InvalidData),
                    Some(info) => if m.scans == 0 {
                        Err(ErrorKind::InvalidData)
                    } else {
                        Ok(JpegProbe { info, markers: m })
                    },
                }
            },
        }
    }
}

/// Walks a JPEG stream's markers and segments and reports its frame header
/// and table/scan counts; entropy-coded data is skipped, not decoded.
pub fn parse_jpeg(bytes: &[u8]) -> (r: Result<JpegProbe>)
    ensures
        match r {
            Ok(p) => spec_parse_jpeg(bytes@) == Ok::<JpegProbe, ErrorKind>(p),
            Err(e) => spec_parse_jpeg(bytes@) == Err::<JpegProbe, ErrorKind>(e@),
        },
{
    let ghost s = bytes@;
    if bytes.len() < 4 || bytes[0] != 0xff || bytes[1] != SOI {
        return Err(MediaError::invalid_data("missing JPEG SOI marker"));
    }
    let n = bytes.len();
    let mut pos: usize = 2;
    let mut frame: Option<JpegInfo> = None;
    let mut qtables: u8 = 0;
    let mut htables: u8 = 0;
    let mut restart_interval: Option<u16> = None;
    let mut scans: u16 = 0;
    let mut saw_eoi = false;
    while pos < n
        invariant_except_break
            !saw_eoi,
            jpeg_walk(s, 2, None, empty_summary()) == jpeg_walk(
                s,
                pos as nat,
                frame,
                MarkerSummary { quantization_tables: qtables, huffman_tables: htables, restart_interval, scans },
            ),
        invariant
            n == s.len(),
            s == bytes@,
            s.len() >= 4 && s[0] == 0xff && s[1] == SOI,
        ensures
            saw_eoi ==> jpeg_walk(s, 2, None, empty_summary()) == Ok::<(Option<JpegInfo>, MarkerSummary, nat, bool), ErrorKind>(
                (
                    frame,
                    MarkerSummary { quantization_tables: qtables, huffman_tables: htables, restart_interval, scans },
                    pos as nat,
                    true,
                ),
            ),
            !saw_eoi ==> pos >= n && jpeg_walk(s, 2, None, empty_summary()) == jpeg_walk(
                s,
                pos as nat,
                frame,
                MarkerSummary { quantization_tables: qtables, huffman_tables: htables, restart_interval, scans },
            ),
        decreases n - pos,
    {
        let ghost m = MarkerSummary { quantization_tables: qtables, huffman_tables: htables, restart_interval, scans };
        proof {
            lemma_ff_run_end(s, pos as int);
        }
        let (marker, p) = next_marker(bytes, pos)?;
        if marker == EOI {
            pos = p;
            saw_eoi = true;
            break;
        }
        if marker == 0x01 || (0xd0 <= marker && marker <= 0xd7) {
            return Err(MediaError::invalid_data("standalone JPEG marker found outside entropy-coded scan"));
        }
        if marker == 0xc1 || marker == 0xc3 || (0xc5 <= marker && marker <= 0xc7) || (0xc9 <= marker
            && marker <= 0xcb) || (0xcd <= marker && marker <= 0xcf) {
            return Err(MediaError::unsupported("unsupported JPEG frame marker"));
        }
        let (seg, p2) = segment(bytes, p)?;
        if marker == SOF0 || marker == SOF2 {
            if frame.is_some() {
                return Err(MediaError::invalid_data("multiple JPEG frame headers"));
            }
            frame = Some(parse_frame(marker, seg)?);
            pos = p2;
        } else if marker == DQT {
            let c = count_dqt(seg)?;
            if c as u16 + qtables as u16 > 255 {
                return Err(MediaError::overflow("JPEG quantization table count overflow"));
            }
            qtables = qtables + c;
            pos = p2;
        } else if marker == DHT {
            let c = count_dht(seg)?;
            if c as u16 + htables as u16 > 255 {
                return Err(MediaError::overflow("JPEG Huffman table count overflow"));
            }
            htables = htables + c;
            pos = p2;
        } else if marker == DRI {
            if seg.len() != 2 {
                return Err(MediaError::invalid_data("JPEG DRI payload must be 2 bytes"));
            }
            restart_interval = Some((seg[0] as u16) * 256 + seg[1] as u16);
            pos = p2;
        } else if marker == SOS {
            validate_scan_header(seg)?;
            if scans == 0xFFFF {
                return Err(MediaError::overflow("JPEG scan count overflow"));
            }
            scans = scans + 1;
            pos = skip_entropy_data(bytes, p2)?;
            proof {
                lemma_skip_advances(s, p2 as nat);
            }
        } else {
            pos = p2;
        }
    }
    if !saw_eoi {
        return Err(MediaError::eof("JPEG stream has no EOI marker"));
    }
    if pos != n {
        return Err(MediaError::invalid_data("bytes found after JPEG EOI marker"));
    }
    let info = match frame {
        Some(i) => i,
        None => return Err(MediaError::invalid_data("JPEG stream has no supported SOF")),
    };
    if scans == 0 {
        return Err(MediaError::invalid_data("JPEG stream has no SOS scan"));
    }
    Ok(
        JpegProbe {
            info,
            markers: MarkerSummary { quantization_tables: qtables, huffman_tables: htables, restart_interval, scans },
        },
    )
}

/// A start-of-frame payload lists, in order, the sample precision P, the
/// number of lines Y (the height, big-endian in bytes 1 and 2), the number
/// of samples per line X (the width, big-endian in bytes 3 and 4) and the
/// component count; an accepted frame reports exactly these.
pub proof fn lemma_frame_dimensions(marker: u8, d: Seq<u8>)
    requires
        spec_parse_frame(marker, d) is Ok,
    ensures
        d.len() >= 6,
        spec_parse_frame(marker, d)->Ok_0.precision == d[0],
        spec_parse_frame(marker, d)->Ok_0.height as int == d[1] as int * 256 + d[2] as int,
        spec_parse_frame(marker, d)->Ok_0.width as int == d[3] as int * 256 + d[4] as int,
        spec_parse_frame(marker, d)->Ok_0.components == d[5],
        spec_parse_frame(marker, d)->Ok_0.width > 0 && spec_parse_frame(marker, d)->Ok_0.height > 0,
{
}

} // verus!
