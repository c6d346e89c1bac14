use vstd::prelude::*;

use crate::error::{ErrorKind, MediaError, Result};

verus! {

/// The widest zero-padded placeholder, `%018d`.
pub const MAX_PATTERN_WIDTH: usize = 18;

/// The default and largest number of frames or start numbers scanned.
pub const DEFAULT_SCAN_LIMIT: usize = 1_000_000;

/// An input or output path: one file, or a template with one `%d` / `%0Nd`
/// placeholder for the frame number (`%%` stands for a literal percent sign).
#[derive(Debug, Clone, PartialEq, Eq)]
pub enum ImagePattern {
    Single(String),
    Numbered(String),
}

pub open spec fn is_digit(c: char) -> bool {
    '0' <= c && c <= '9'
}

pub open spec fn digit_value(c: char) -> nat {
    (c as int - '0' as int) as nat
}

/// The first index at or after `i` that does not hold a digit.
pub open spec fn digits_end(t: Seq<char>, i: int) -> int
    decreases t.len() - i,
{
    if i < 0 || i >= t.len() || !is_digit(t[i]) {
        i
    } else {
        digits_end(t, i + 1)
    }
}

/// The decimal value of the digits `t[i..j]`.
pub open spec fn digits_value(t: Seq<char>, i: int, j: int) -> nat
    decreases j - i,
{
    if j <= i {
        0
    } else {
        digits_value(t, i, j - 1) * 10 + digit_value(t[j - 1])
    }
}

pub proof fn lemma_digits_end_ge(t: Seq<char>, i: int)
    ensures
        digits_end(t, i) >= i,
        0 <= i ==> digits_end(t, i) <= t.len() || digits_end(t, i) == i,
        forall|k: int| i <= k < digits_end(t, i) ==> is_digit(#[trigger] t[k]),
        0 <= i && digits_end(t, i) < t.len() ==> !is_digit(t[digits_end(t, i)]),
    decreases t.len() - i,
{
    if !(i < 0 || i >= t.len() || !is_digit(t[i])) {
        lemma_digits_end_ge(t, i + 1);
    }
}

proof fn lemma_digits_value_mono(t: Seq<char>, i: int, j: int, k: int)
    requires
        i <= j <= k,
    ensures
        digits_value(t, i, j) <= digits_value(t, i, k),
    decreases k - j,
{
    if j < k {
        lemma_digits_value_mono(t, i, j, k - 1);
    }
}

/// A placeholder after a `%` at `i`: an optional zero-pad width `0N`
/// (1 <= N <= 18), then `d`. Gives the width (0 for plain `%d`) and the
/// index after the `d`.
pub open spec fn spec_placeholder(t: Seq<char>, i: int) -> core::result::Result<(nat, int), ErrorKind> {
    let (width, k): (nat, int) = if 0 <= i < t.len() && t[i] == '0' {
        (digits_value(t, i + 1, digits_end(t, i + 1)), digits_end(t, i + 1))
    } else {
        (0, i)
    };
    if 0 <= i < t.len() && t[i] == '0' && width > usize::MAX {
        Err(ErrorKind::Overflow)
    } else if 0 <= i < t.len() && t[i] == '0' && (k == i + 1 || width == 0 || width > 18) {
        Err(ErrorKind::InvalidArgument)
    } else if k < 0 || k >= t.len() || t[k] != 'd' {
        Err(ErrorKind::InvalidArgument)
    } else {
        Ok((width, k + 1))
    }
}

pub proof fn lemma_placeholder_advances(t: Seq<char>, i: int)
    requires
        0 <= i,
    ensures
        spec_placeholder(t, i) matches Ok((w, next)) ==> i < next <= t.len() && w <= 18,
{
    lemma_digits_end_ge(t, i + 1);
}

fn parse_placeholder(t: &str, index: usize) -> (r: Result<(usize, usize)>)
    requires
        index < t@.len(),
    ensures
        match r {
            Ok((w, next)) => spec_placeholder(t@, index as int) == Ok::<(nat, int), ErrorKind>((w as nat, next as int)),
            Err(e) => spec_placeholder(t@, index as int) == Err::<(nat, int), ErrorKind>(e@),
        },
{
    let len = t.unicode_len();
    let mut i = index;
    let mut width: usize = 0;
    proof {
        lemma_digits_end_ge(t@, index + 1);
    }
    if t.get_char(i) == '0' {
        i += 1;
        let start = i;
        while i < len && '0' <= t.get_char(i) && t.get_char(i) <= '9'
            invariant
                len == t@.len(),
                index < len,
                t@[index as int] == '0',
                start == index + 1,
                start <= i <= len,
                i <= digits_end(t@, start as int),
                digits_end(t@, start as int) <= len,
                forall|k: int| start <= k < digits_end(t@, start as int) ==> is_digit(#[trigger] t@[k]),
                digits_end(t@, start as int) < len ==> !is_digit(t@[digits_end(t@, start as int)]),
                width == digits_value(t@, start as int, i as int),
            decreases len - i,
        {
            let c = t.get_char(i);
            let d = (c as u32 - '0' as u32) as usize;
            assert(d == digit_value(t@[i as int]));
            if width > (usize::MAX - d) / 10 {
                proof {
                    assert(i < digits_end(t@, start as int));
                    assert(digits_value(t@, start as int, i + 1) == digits_value(t@, start as int, i as int) * 10 + digit_value(t@[i as int]));
                    assert(digits_value(t@, start as int, i + 1) > usize::MAX) by (nonlinear_arith)
                        requires
                            digits_value(t@, start as int, i + 1) == width * 10 + d,
                            width > (usize::MAX - d) / 10,
                            d <= 9;
                    lemma_digits_value_mono(t@, start as int, i + 1, digits_end(t@, start as int));
                    assert(digits_value(t@, index + 1, digits_end(t@, index + 1)) > usize::MAX);
                    assert(t@[index as int] == '0');
                    assert(spec_placeholder(t@, index as int) == Err::<(nat, int), ErrorKind>(ErrorKind::Overflow));
                }
                return Err(MediaError::overflow("image2 pattern width overflow"));
            }
            width = width * 10 + d;
            i += 1;
        }
        if i == start || width == 0 || width > MAX_PATTERN_WIDTH {
            return Err(MediaError::invalid_argument("image2 zero-pad width must be in 1..=18"));
        }
    }
    if i >= len || t.get_char(i) != 'd' {
        return Err(MediaError::invalid_argument("image2 supports only %d and %0Nd numeric placeholders"));
    }
    Ok((width, i + 1))
}

/// How many numeric placeholders the template holds, or the first error in it.
pub open spec fn spec_count_from(t: Seq<char>, i: int) -> core::result::Result<nat, ErrorKind>
    decreases t.len() - i,
{
    if i < 0 || i >= t.len() {
        Ok(0)
    } else if t[i] != '%' {
        spec_count_from(t, i + 1)
    } else if i + 1 >= t.len() {
        Err(ErrorKind::InvalidArgument)
    } else if t[i + 1] == '%' {
        spec_count_from(t, i + 2)
    } else {
        proof {
            lemma_placeholder_advances(t, i + 1);
        }
        match spec_placeholder(t, i + 1) {
            Err(k) => Err(k),
            Ok((_, next)) => match spec_count_from(t, next) {
                Ok(c) => Ok(c + 1),
                Err(k) => Err(k),
            },
        }
    }
}

fn count_placeholders(t: &str) -> (r: Result<usize>)
    ensures
        match r {
            Ok(c) => spec_count_from(t@, 0) == Ok::<nat, ErrorKind>(c as nat),
            Err(e) => spec_count_from(t@, 0) == Err::<nat, ErrorKind>(e@),
        },
{
    let len = t.unicode_len();
    let mut index: usize = 0;
    let mut count: usize = 0;
    while index < len
        invariant
            len == t@.len(),
            index <= len,
            count <= index,
            spec_count_from(t@, 0) == match spec_count_from(t@, index as int) {
                Ok(c) => Ok::<nat, ErrorKind>(c + count as nat),
                Err(k) => Err(k),
            },
        decreases len - index,
    {
        if t.get_char(index) != '%' {
            index += 1;
            continue;
        }
        if index + 1 >= len {
            return Err(MediaError::invalid_argument("image2 pattern ends with an incomplete '%' escape"));
        }
        if t.get_char(index + 1) == '%' {
            index += 2;
            continue;
        }
        proof {
            lemma_placeholder_advances(t@, index + 1);
        }
        match parse_placeholder(t, index + 1) {
            Ok((_, next)) => {
                index = next;
                count += 1;
            },
            Err(e) => return Err(e),
        }
    }
    Ok(count)
}

/// The decimal digits of `v`, most significant first.
pub open spec fn decimal_chars(v: nat) -> Seq<char>
    decreases v,
{
    if v < 10 {
        seq![(('0' as nat) + v) as char]
    } else {
        decimal_chars(v / 10) + seq![(('0' as nat) + v % 10) as char]
    }
}

/// `s` left-padded with zeros to `width` characters.
pub open spec fn zero_pad(s: Seq<char>, width: nat) -> Seq<char> {
    if s.len() >= width {
        s
    } else {
        Seq::new((width - s.len()) as nat, |_i: int| '0') + s
    }
}

/// `number` as `%d` (width 0) or `%0Nd` prints it; a negative number keeps
/// its sign in front of the zero padding.
pub open spec fn format_number(number: i64, width: nat) -> Seq<char> {
    let magnitude: nat = if number < 0 { (-number) as nat } else { number as nat };
    if number < 0 {
        seq!['-'] + zero_pad(decimal_chars(magnitude), if width == 0 { 0 } else { (width - 1) as nat })
    } else {
        zero_pad(decimal_chars(magnitude), width)
    }
}

fn decimal_len(v: u64) -> (n: usize)
    ensures
        n == decimal_chars(v as nat).len(),
        n <= 20,
    decreases v,
{
    proof {
        reveal_with_fuel(pow10, 21);
        assert(pow10(20) == 100000000000000000000nat);
        lemma_decimal_len_bound(v as nat, 20);
    }
    if v < 10 {
        1
    } else {
        let k = decimal_len(v / 10);
        assert(decimal_chars(v as nat).len() == decimal_chars((v / 10) as nat).len() + 1);
        k + 1
    }
}

proof fn lemma_decimal_len_bound(v: nat, k: nat)
    requires
        v < pow10(k),
    ensures
        decimal_chars(v).len() <= k + 1,
        k >= 1 ==> decimal_chars(v).len() <= k,
    decreases v,
{
    if v >= 10 {
        assert(k >= 2) by {
            if k == 0 {
                assert(pow10(0) == 1);
            } else if k == 1 {
                assert(pow10(1) == 10 * pow10(0));
            }
        }
        assert(v / 10 < pow10((k - 1) as nat)) by {
            assert(pow10(k) == 10 * pow10((k - 1) as nat));
        }
        lemma_decimal_len_bound(v / 10, (k - 1) as nat);
    }
}

pub open spec fn pow10(k: nat) -> nat
    decreases k,
{
    if k == 0 {
        1
    } else {
        10 * pow10((k - 1) as nat)
    }
}

fn push_digit(out: &mut String, d: u64)
    requires
        d < 10,
    ensures
        final(out)@ == old(out)@ + seq![(('0' as nat) + d) as char],
{
    let digits = "0123456789";
    proof {
        reveal_strlit("0123456789");
    }
    let s = digits.substring_char(d as usize, d as usize + 1);
    out.append(s);
    assert(s@ =~= seq![(('0' as nat) + d) as char]);
}

fn push_decimal_chars(out: &mut String, v: u64)
    ensures
        final(out)@ == old(out)@ + decimal_chars(v as nat),
    decreases v,
{
    if v < 10 {
        push_digit(out, v);
    } else {
        push_decimal_chars(out, v / 10);
        push_digit(out, v % 10);
        assert(out@ =~= old(out)@ + decimal_chars(v as nat));
    }
}

fn push_zero_padded(out: &mut String, v: u64, width: usize)
    ensures
        final(out)@ == old(out)@ + zero_pad(decimal_chars(v as nat), width as nat),
{
    let n = decimal_len(v);
    let ghost start = out@;
    if n < width {
        let mut k: usize = 0;
        while k < width - n
            invariant
                k <= width - n,
                n < width,
                out@ == start + Seq::new(k as nat, |_i: int| '0'),
            decreases width - n - k,
        {
            push_digit(out, 0);
            k += 1;
            assert(out@ =~= start + Seq::new(k as nat, |_i: int| '0'));
        }
    }
    let ghost mid = out@;
    push_decimal_chars(out, v);
    assert(out@ =~= start + zero_pad(decimal_chars(v as nat), width as nat));
}

fn push_number(out: &mut String, number: i64, width: usize)
    ensures
        final(out)@ == old(out)@ + format_number(number, width as nat),
{
    if number < 0 {
        let dash = "-";
        proof {
            reveal_strlit("-");
        }
        out.append(dash);
        let magnitude = (-(number as i128)) as u64;
        let pad = if width == 0 {
            0
        } else {
            width - 1
        };
        push_zero_padded(out, magnitude, pad);
        assert(out@ =~= old(out)@ + format_number(number, width as nat));
    } else {
        push_zero_padded(out, number as u64, width);
    }
}

/// The template with its placeholder replaced by `number`, from index `i` on.
pub open spec fn spec_render_from(t: Seq<char>, i: int, number: i64, rendered: bool) -> core::result::Result<Seq<char>, ErrorKind>
    decreases t.len() - i,
{
    if i < 0 || i >= t.len() {
        if rendered {
            Ok(Seq::empty())
        } else {
            Err(ErrorKind::InvalidArgument)
        }
    } else if t[i] != '%' {
        match spec_render_from(t, i + 1, number, rendered) {
            Ok(rest) => Ok(seq![t[i]] + rest),
            Err(k) => Err(k),
        }
    } else if i + 1 < t.len() && t[i + 1] == '%' {
        match spec_render_from(t, i + 2, number, rendered) {
            Ok(rest) => Ok(seq!['%'] + rest),
            Err(k) => Err(k),
        }
    } else if rendered || i + 1 >= t.len() {
        Err(ErrorKind::InvalidArgument)
    } else {
        proof {
            lemma_placeholder_advances(t, i + 1);
        }
        match spec_placeholder(t, i + 1) {
            Err(k) => Err(k),
            Ok((w, next)) => match spec_render_from(t, next, number, true) {
                Ok(rest) => Ok(format_number(number, w) + rest),
                Err(k) => Err(k),
            },
        }
    }
}

fn render_pattern(template: &str, number: i64) -> (r: Result<String>)
    ensures
        match r {
            Ok(s) => spec_render_from(template@, 0, number, false) == Ok::<Seq<char>, ErrorKind>(s@),
            Err(e) => spec_render_from(template@, 0, number, false) == Err::<Seq<char>, ErrorKind>(e@),
        },
{
    let len = template.unicode_len();
    let mut output = String::new();
    let mut index: usize = 0;
    let mut rendered = false;
    while index < len
        invariant
            len == template@.len(),
            index <= len,
            spec_render_from(template@, 0, number, false) == match spec_render_from(
                template@,
                index as int,
                number,
                rendered,
            ) {
                Ok(rest) => Ok::<Seq<char>, ErrorKind>(output@ + rest),
                Err(k) => Err(k),
            },
        decreases len - index,
    {
        let ghost before = output@;
        let c = template.get_char(index);
        if c != '%' {
            let s = template.substring_char(index, index + 1);
            output.append(s);
            proof {
                assert(s@ =~= seq![c]);
                let tail = spec_render_from(template@, index + 1, number, rendered);
                if tail is Ok {
                    assert(before + (seq![c] + tail->Ok_0) =~= output@ + tail->Ok_0);
                }
            }
            index += 1;
            continue;
        }
        if index + 1 < len && template.get_char(index + 1) == '%' {
            let pct = "%";
            proof {
                reveal_strlit("%");
            }
            output.append(pct);
            proof {
                let tail = spec_render_from(template@, index + 2, number, rendered);
                if tail is Ok {
                    assert(before + (seq!['%'] + tail->Ok_0) =~= output@ + tail->Ok_0);
                }
            }
            index += 2;
            continue;
        }
        if rendered || index + 1 >= len {
            return Err(MediaError::invalid_argument("image2 pattern may contain only one numeric placeholder"));
        }
        proof {
            lemma_placeholder_advances(template@, index + 1);
        }
        let (width, next) = match parse_placeholder(template, index + 1) {
            Ok(v) => v,
            Err(e) => return Err(e),
        };
        push_number(&mut output, number, width);
        proof {
            let tail = spec_render_from(template@, next as int, number, true);
            if tail is Ok {
                assert(before + (format_number(number, width as nat) + tail->Ok_0) =~= output@ + tail->Ok_0);
            }
        }
        index = next;
        rendered = true;
    }
    if !rendered {
        return Err(MediaError::invalid_argument("image2 numbered pattern has no numeric placeholder"));
    }
    proof {
        assert(output@ + Seq::<char>::empty() =~= output@);
    }
    Ok(output)
}

impl ImagePattern {
    /// A numbered template holds exactly one well-formed placeholder.
    pub open spec fn wf(&self) -> bool {
        match self {
            ImagePattern::Single(_) => true,
            ImagePattern::Numbered(t) => spec_count_from(t@, 0) == Ok::<nat, ErrorKind>(1),
        }
    }

    /// Classifies a path: no placeholder makes a single file, one makes a
    /// numbered sequence, more are refused.
    pub fn parse(path: &str) -> (r: Result<Self>)
        ensures
            match r {
                Ok(p) => p.wf() && match p {
                    ImagePattern::Single(s) => s@ == path@ && spec_count_from(path@, 0) == Ok::<nat, ErrorKind>(0),
                    ImagePattern::Numbered(s) => s@ == path@ && spec_count_from(path@, 0) == Ok::<nat, ErrorKind>(1),
                },
                Err(e) => match spec_count_from(path@, 0) {
                    Err(k) => e@ == k,
                    Ok(c) => c > 1 && e@ == ErrorKind::InvalidArgument,
                },
            },
    {
        let placeholders = count_placeholders(path)?;
        if placeholders == 0 {
            Ok(ImagePattern::Single(path.to_owned()))
        } else if placeholders == 1 {
            Ok(ImagePattern::Numbered(path.to_owned()))
        } else {
            Err(MediaError::invalid_argument("image2 pattern may contain only one numeric placeholder"))
        }
    }

    pub fn is_sequence(&self) -> (b: bool)
        ensures
            b == (self is Numbered),
    {
        match self {
            ImagePattern::Numbered(_) => true,
            ImagePattern::Single(_) => false,
        }
    }

    /// The path of frame `number`: the single path, or the template rendered.
    pub fn path_for(&self, number: i64) -> (r: Result<String>)
        requires
            self.wf(),
        ensures
            match self {
                ImagePattern::Single(p) => r matches Ok(s) && s@ == p@,
                ImagePattern::Numbered(t) => match r {
                    Ok(s) => spec_render_from(t@, 0, number, false) == Ok::<Seq<char>, ErrorKind>(s@),
                    Err(e) => spec_render_from(t@, 0, number, false) == Err::<Seq<char>, ErrorKind>(e@),
                },
            },
    {
        match self {
            ImagePattern::Single(p) => Ok(p.clone()),
            ImagePattern::Numbered(t) => render_pattern(t.as_str(), number),
        }
    }
}

/// The scan limit: `limit`, or the default when none is given; it must be in
/// `1..=DEFAULT_SCAN_LIMIT`.
pub fn validate_limit(limit: Option<usize>) -> (r: Result<usize>)
    ensures
        match r {
            Ok(n) => n == match limit {
                Some(l) => l,
                None => DEFAULT_SCAN_LIMIT,
            } && 1 <= n <= DEFAULT_SCAN_LIMIT,
            Err(e) => e@ == ErrorKind::InvalidArgument && (limit matches Some(l) && (l == 0 || l > DEFAULT_SCAN_LIMIT)),
        },
{
    let limit = match limit {
        Some(l) => l,
        None => DEFAULT_SCAN_LIMIT,
    };
    if limit == 0 || limit > DEFAULT_SCAN_LIMIT {
        return Err(MediaError::invalid_argument("image2 scan limit must be in 1..=1000000"));
    }
    Ok(limit)
}

/// The start-number search range must be in `1..=DEFAULT_SCAN_LIMIT`.
pub fn validate_start_range(range: usize) -> (r: Result<()>)
    ensures
        r is Ok <==> 1 <= range <= DEFAULT_SCAN_LIMIT,
        r matches Err(e) ==> e@ == ErrorKind::InvalidArgument,
{
    if range == 0 || range > DEFAULT_SCAN_LIMIT {
        return Err(MediaError::invalid_argument("image2 start-number range must be in 1..=1000000"));
    }
    Ok(())
}

/// Where the scan of a numbered image2 input stands: looking for the first
/// frame at `offset` into the start range, collecting frames from `first`
/// with `count` found so far, or finished.
#[derive(Debug, Clone, Copy, PartialEq, Eq, Structural)]
pub enum ScanState {
    Searching { offset: usize },
    Collecting { first: i64, count: usize },
    Finished,
}

/// The frame number the scan probes next, `None` once it is finished.
pub open spec fn spec_scan_probe(start: i64, range: usize, limit: usize, state: ScanState) -> core::result::Result<Option<int>, ErrorKind> {
    match state {
        ScanState::Searching { offset } => if offset >= range {
            Err(ErrorKind::InvalidArgument)
        } else if start + offset > i64::MAX {
            Err(ErrorKind::Overflow)
        } else {
            Ok(Some(start + offset))
        },
        ScanState::Collecting { first, count } => if count >= limit {
            Ok(None)
        } else if first + count > i64::MAX {
            Err(ErrorKind::Overflow)
        } else {
            Ok(Some(first + count))
        },
        ScanState::Finished => Ok(None),
    }
}

/// The frame number to probe next: the start range is searched for a first
/// frame, refused when none is found in it; then frames are collected from
/// it up to `limit`.
pub fn scan_probe(start: i64, range: usize, limit: usize, state: ScanState) -> (r: Result<Option<i64>>)
    requires
        range <= DEFAULT_SCAN_LIMIT,
        limit <= DEFAULT_SCAN_LIMIT,
    ensures
        match r {
            Ok(None) => spec_scan_probe(start, range, limit, state) == Ok::<Option<int>, ErrorKind>(None),
            Ok(Some(n)) => spec_scan_probe(start, range, limit, state) == Ok::<Option<int>, ErrorKind>(Some(n as int)),
            Err(e) => spec_scan_probe(start, range, limit, state) == Err::<Option<int>, ErrorKind>(e@),
        },
{
    match state {
        ScanState::Searching { offset } => {
            if offset >= range {
                return Err(MediaError::invalid_argument("no image2 frame found in the start range"));
            }
            match frame_number(start, offset) {
                Ok(n) => Ok(Some(n)),
                Err(e) => Err(e),
            }
        },
        ScanState::Collecting { first, count } => {
            if count >= limit {
                return Ok(None);
            }
            match frame_number(first, count) {
                Ok(n) => Ok(Some(n)),
                Err(e) => Err(e),
            }
        },
        ScanState::Finished => Ok(None),
    }
}

/// The scan after probing frame `number`: a found first frame starts the
/// collection (from that frame), a missing one moves the search on; while
/// collecting, a found frame is counted and a missing one ends the scan.
pub open spec fn spec_scan_next(state: ScanState, number: i64, exists: bool) -> ScanState {
    match state {
        ScanState::Searching { offset } => if exists {
            ScanState::Collecting { first: number, count: 0 }
        } else {
            ScanState::Searching { offset: (offset + 1) as usize }
        },
        ScanState::Collecting { first, count } => if exists {
            ScanState::Collecting { first, count: (count + 1) as usize }
        } else {
            ScanState::Finished
        },
        ScanState::Finished => ScanState::Finished,
    }
}

pub fn scan_next(state: ScanState, number: i64, exists: bool) -> (next: ScanState)
    requires
        state matches ScanState::Searching { offset } ==> offset < usize::MAX,
        state matches ScanState::Collecting { count, .. } ==> count < usize::MAX,
    ensures
        next == spec_scan_next(state, number, exists),
{
    match state {
        ScanState::Searching { offset } => if exists {
            ScanState::Collecting { first: number, count: 0 }
        } else {
            ScanState::Searching { offset: offset + 1 }
        },
        ScanState::Collecting { first, count } => if exists {
            ScanState::Collecting { first, count: count + 1 }
        } else {
            ScanState::Finished
        },
        ScanState::Finished => ScanState::Finished,
    }
}

/// The frame number `offset` places after `base`.
pub fn frame_number(base: i64, offset: usize) -> (r: Result<i64>)
    ensures
        match r {
            Ok(n) => offset <= i64::MAX && n == base + offset,
            Err(e) => e@ == ErrorKind::Overflow && (offset > i64::MAX || base + offset > i64::MAX),
        },
{
    if offset as u128 > 0x7fff_ffff_ffff_ffff {
        return Err(MediaError::overflow("image2 sequence offset exceeds i64"));
    }
    match base.checked_add(offset as i64) {
        None => Err(MediaError::overflow("image2 frame number overflow")),
        Some(n) => Ok(n),
    }
}

} // verus!
