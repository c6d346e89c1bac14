use vstd::prelude::*;

use crate::error::{ErrorKind, MediaError, Result};

verus! {

/// The Paeth predictor: whichever of left, up and up-left is closest to
/// `left + up - up_left`, preferring left, then up.
pub open spec fn paeth_spec(left: u8, up: u8, up_left: u8) -> u8 {
    let p = left + up - up_left;
    let pa = if p >= left { p - left } else { left - p };
    let pb = if p >= up { p - up } else { up - p };
    let pc = if p >= up_left { p - up_left } else { up_left - p };
    if pa <= pb && pa <= pc {
        left
    } else if pb <= pc {
        up
    } else {
        up_left
    }
}

/// The distance between two numbers.
pub open spec fn gap(a: int, b: int) -> int {
    if a >= b {
        a - b
    } else {
        b - a
    }
}

/// The Paeth predictor is whichever neighbour lies nearest the estimate
/// `left + up - up_left`: left whenever no other neighbour is nearer, up
/// only when it is strictly nearer than left, and up-left only when it is
/// strictly nearer than both.
pub proof fn lemma_paeth_nearest(left: u8, up: u8, up_left: u8)
    ensures
        ({
            let r = paeth_spec(left, up, up_left) as int;
            let p = left + up - up_left;
            &&& r == left || r == up || r == up_left
            &&& gap(p, r) <= gap(p, left as int) && gap(p, r) <= gap(p, up as int) && gap(p, r) <= gap(p, up_left as int)
            &&& gap(p, left as int) <= gap(p, up as int) && gap(p, left as int) <= gap(p, up_left as int) ==> r == left
            &&& r != left ==> gap(p, r) < gap(p, left as int)
            &&& r != left && r != up ==> gap(p, r) < gap(p, up as int)
        }),
{
}

/// What each PNG filter type predicts a byte from: None nothing (0), Sub
/// the byte to the left, Up the byte above, Average the mean of left and
/// up rounded down, Paeth the Paeth predictor.
pub proof fn lemma_filter_predictions(left: u8, up: u8, up_left: u8)
    ensures
        predictor(0, left, up, up_left) == 0,
        predictor(1, left, up, up_left) == left,
        predictor(2, left, up, up_left) == up,
        2 * predictor(3, left, up, up_left) <= left + up < 2 * predictor(3, left, up, up_left) + 2,
        predictor(4, left, up, up_left) == paeth_spec(left, up, up_left),
{
}

/// The value PNG filter type `filter` predicts from the neighbouring bytes.
pub open spec fn predictor(filter: u8, left: u8, up: u8, up_left: u8) -> u8 {
    if filter == 1 {
        left
    } else if filter == 2 {
        up
    } else if filter == 3 {
        ((left + up) / 2) as u8
    } else if filter == 4 {
        paeth_spec(left, up, up_left)
    } else {
        0
    }
}

/// Byte `i` of a row, or 0 left of the row's start.
pub open spec fn byte_or_zero(s: Seq<u8>, i: int) -> u8 {
    if 0 <= i < s.len() {
        s[i]
    } else {
        0
    }
}

/// The first `n` bytes a decoder reconstructs from the filtered row `raw`
/// above the already reconstructed row `prev`: each byte is the stored one
/// plus the predictor, modulo 256, with "left" read from the bytes already
/// reconstructed.
pub open spec fn unfiltered_prefix(filter: u8, raw: Seq<u8>, prev: Seq<u8>, bpp: nat, n: nat) -> Seq<u8>
    decreases n,
{
    if n == 0 {
        Seq::empty()
    } else {
        let done = unfiltered_prefix(filter, raw, prev, bpp, (n - 1) as nat);
        let i = n - 1;
        let left = byte_or_zero(done, i - bpp);
        let up = byte_or_zero(prev, i);
        let up_left = byte_or_zero(prev, i - bpp);
        done.push(((raw[i] + predictor(filter, left, up, up_left)) % 256) as u8)
    }
}

pub open spec fn unfilter_spec(filter: u8, raw: Seq<u8>, prev: Seq<u8>, bpp: nat) -> Seq<u8> {
    unfiltered_prefix(filter, raw, prev, bpp, raw.len())
}

/// The bytes an encoder stores for `raw` above `prev` with filter type
/// `filter`: each byte minus its predictor, modulo 256, with every
/// neighbour read from the unfiltered rows.
pub open spec fn filter_spec(filter: u8, raw: Seq<u8>, prev: Seq<u8>, bpp: nat) -> Seq<u8> {
    Seq::new(
        raw.len(),
        |i: int|
            ((raw[i] - predictor(filter, byte_or_zero(raw, i - bpp), byte_or_zero(prev, i), byte_or_zero(prev, i - bpp))
                + 256) % 256) as u8,
    )
}

/// Reconstruction keeps the row's length.
pub proof fn lemma_unfilter_len(filter: u8, raw: Seq<u8>, prev: Seq<u8>, bpp: nat)
    ensures
        unfilter_spec(filter, raw, prev, bpp).len() == raw.len(),
{
    lemma_unfiltered_prefix_len(filter, raw, prev, bpp, raw.len());
}

proof fn lemma_unfiltered_prefix_len(filter: u8, raw: Seq<u8>, prev: Seq<u8>, bpp: nat, n: nat)
    ensures
        unfiltered_prefix(filter, raw, prev, bpp, n).len() == n,
    decreases n,
{
    if n > 0 {
        lemma_unfiltered_prefix_len(filter, raw, prev, bpp, (n - 1) as nat);
    }
}

/// Unfiltering undoes filtering: for every filter type 0 to 4, every row
/// and every row above it, reconstructing what the filter stored gives the
/// row back.
pub proof fn lemma_unfilter_inverts_filter(filter: u8, raw: Seq<u8>, prev: Seq<u8>, bpp: nat)
    requires
        filter <= 4,
        bpp >= 1,
    ensures
        unfilter_spec(filter, filter_spec(filter, raw, prev, bpp), prev, bpp) == raw,
{
    let stored = filter_spec(filter, raw, prev, bpp);
    lemma_prefix_matches(filter, raw, prev, bpp, raw.len());
}

proof fn lemma_prefix_matches(filter: u8, raw: Seq<u8>, prev: Seq<u8>, bpp: nat, n: nat)
    requires
        filter <= 4,
        bpp >= 1,
        n <= raw.len(),
    ensures
        unfiltered_prefix(filter, filter_spec(filter, raw, prev, bpp), prev, bpp, n) == raw.subrange(0, n as int),
    decreases n,
{
    let stored = filter_spec(filter, raw, prev, bpp);
    if n == 0 {
        assert(raw.subrange(0, 0) =~= Seq::<u8>::empty());
    } else {
        lemma_prefix_matches(filter, raw, prev, bpp, (n - 1) as nat);
        let done = unfiltered_prefix(filter, stored, prev, bpp, (n - 1) as nat);
        let i = n - 1;
        assert(done == raw.subrange(0, i));
        assert(byte_or_zero(done, i - bpp) == byte_or_zero(raw, i - bpp));
        let p = predictor(filter, byte_or_zero(raw, i - bpp), byte_or_zero(prev, i), byte_or_zero(prev, i - bpp));
        assert(stored[i] == ((raw[i] - p + 256) % 256) as u8);
        assert(((((raw[i] - p + 256) % 256) as u8) + p) % 256 == raw[i]) by (nonlinear_arith)
            requires 0 <= raw[i] < 256, 0 <= p < 256;
        assert(unfiltered_prefix(filter, stored, prev, bpp, n) =~= raw.subrange(0, n as int));
    }
}

/// The Paeth predictor.
pub fn paeth(left: u8, up: u8, up_left: u8) -> (r: u8)
    ensures
        r == paeth_spec(left, up, up_left),
{
    let l = left as i32;
    let u = up as i32;
    let ul = up_left as i32;
    let estimate = l + u - ul;
    let left_distance = if estimate >= l { estimate - l } else { l - estimate };
    let up_distance = if estimate >= u { estimate - u } else { u - estimate };
    let up_left_distance = if estimate >= ul { estimate - ul } else { ul - estimate };
    if left_distance <= up_distance && left_distance <= up_left_distance {
        left
    } else if up_distance <= up_left_distance {
        up
    } else {
        up_left
    }
}

fn predict(filter: u8, left: u8, up: u8, up_left: u8) -> (r: u8)
    ensures
        r == predictor(filter, left, up, up_left),
{
    if filter == 1 {
        left
    } else if filter == 2 {
        up
    } else if filter == 3 {
        ((left as u16 + up as u16) / 2) as u8
    } else if filter == 4 {
        paeth(left, up, up_left)
    } else {
        0
    }
}

/// Reconstructs one scanline; `previous` is the row above (all zeros for the
/// first row). A filter type above 4 is refused.
pub fn unfilter_row(filter: u8, raw: &[u8], previous: &[u8], bytes_per_pixel: usize) -> (r: Result<Vec<u8>>)
    requires
        previous@.len() == raw@.len(),
        bytes_per_pixel >= 1,
    ensures
        match r {
            Ok(out) => (filter <= 4 || raw@.len() == 0) && out@.len() == raw@.len() && out@ == unfilter_spec(
                filter,
                raw@,
                previous@,
                bytes_per_pixel as nat,
            ),
            Err(e) => filter > 4 && raw@.len() > 0 && e@ == ErrorKind::InvalidData,
        },
{
    let n = raw.len();
    if filter > 4 && n > 0 {
        return Err(MediaError::invalid_data("PNG scanline uses invalid filter type"));
    }
    let bpp = bytes_per_pixel;
    let mut output: Vec<u8> = Vec::with_capacity(n);
    let mut index: usize = 0;
    while index < n
        invariant
            n == raw@.len(),
            previous@.len() == n,
            bpp == bytes_per_pixel,
            bpp >= 1,
            index <= n,
            output@ == unfiltered_prefix(filter, raw@, previous@, bpp as nat, index as nat),
        decreases n - index,
    {
        proof {
            lemma_unfiltered_prefix_len(filter, raw@, previous@, bpp as nat, index as nat);
        }
        let left = if index >= bpp {
            output[index - bpp]
        } else {
            0
        };
        let up = previous[index];
        let up_left = if index >= bpp {
            previous[index - bpp]
        } else {
            0
        };
        let p = predict(filter, left, up, up_left);
        let value = ((raw[index] as u16 + p as u16) % 256) as u8;
        output.push(value);
        index += 1;
    }
    proof {
        lemma_unfiltered_prefix_len(filter, raw@, previous@, bpp as nat, n as nat);
    }
    Ok(output)
}

/// Filters one scanline with filter type `filter` (0 to 4).
pub fn filter_row(filter: u8, raw: &[u8], previous: &[u8], bytes_per_pixel: usize) -> (out: Vec<u8>)
    requires
        previous@.len() == raw@.len(),
        bytes_per_pixel >= 1,
    ensures
        out@ == filter_spec(filter, raw@, previous@, bytes_per_pixel as nat),
{
    let n = raw.len();
    let bpp = bytes_per_pixel;
    let mut output: Vec<u8> = Vec::with_capacity(n);
    let mut index: usize = 0;
    while index < n
        invariant
            n == raw@.len(),
            previous@.len() == n,
            bpp == bytes_per_pixel,
            bpp >= 1,
            index <= n,
            output@.len() == index,
            forall|i: int| 0 <= i < index ==> #[trigger] output@[i] == filter_spec(filter, raw@, previous@, bpp as nat)[i],
        decreases n - index,
    {
        let left = if index >= bpp {
            raw[index - bpp]
        } else {
            0
        };
        let up = previous[index];
        let up_left = if index >= bpp {
            previous[index - bpp]
        } else {
            0
        };
        let p = predict(filter, left, up, up_left);
        let value = ((raw[index] as u16 + 256 - p as u16) % 256) as u8;
        output.push(value);
        index += 1;
    }
    assert(output@ =~= filter_spec(filter, raw@, previous@, bpp as nat));
    output
}

/// The encoder's cost of a filtered row: the sum over its bytes of the
/// distance of the byte, read as a signed value, from zero.
pub open spec fn filter_score_spec(s: Seq<u8>) -> nat
    decreases s.len(),
{
    if s.len() == 0 {
        0
    } else {
        let b = s.last();
        filter_score_spec(s.drop_last()) + (if b <= 128 { b as nat } else { (256 - b) as nat })
    }
}

/// The cheapest of filter types 0 to `k` for the row, the lower type on a tie.
pub open spec fn best_filter_upto(raw: Seq<u8>, prev: Seq<u8>, bpp: nat, k: nat) -> u8
    decreases k,
{
    if k == 0 {
        0
    } else {
        let b = best_filter_upto(raw, prev, bpp, (k - 1) as nat);
        if filter_score_spec(filter_spec(k as u8, raw, prev, bpp)) < filter_score_spec(filter_spec(b, raw, prev, bpp)) {
            k as u8
        } else {
            b
        }
    }
}

pub open spec fn best_filter(raw: Seq<u8>, prev: Seq<u8>, bpp: nat) -> u8 {
    best_filter_upto(raw, prev, bpp, 4)
}

pub proof fn lemma_best_filter_bound(raw: Seq<u8>, prev: Seq<u8>, bpp: nat, k: nat)
    ensures
        best_filter_upto(raw, prev, bpp, k) <= k,
    decreases k,
{
    if k > 0 {
        lemma_best_filter_bound(raw, prev, bpp, (k - 1) as nat);
    }
}

/// The cost of a row under filter type `g`.
pub open spec fn row_cost(g: u8, raw: Seq<u8>, prev: Seq<u8>, bpp: nat) -> nat {
    filter_score_spec(filter_spec(g, raw, prev, bpp))
}

proof fn lemma_best_upto_cheapest(raw: Seq<u8>, prev: Seq<u8>, bpp: nat, k: nat)
    requires
        k <= 4,
    ensures
        best_filter_upto(raw, prev, bpp, k) <= k,
        forall|g: u8| g <= k ==> row_cost(best_filter_upto(raw, prev, bpp, k), raw, prev, bpp) <= #[trigger] row_cost(g, raw, prev, bpp),
        forall|g: u8| g < best_filter_upto(raw, prev, bpp, k) ==> row_cost(best_filter_upto(raw, prev, bpp, k), raw, prev, bpp) < #[trigger] row_cost(g, raw, prev, bpp),
    decreases k,
{
    if k > 0 {
        lemma_best_upto_cheapest(raw, prev, bpp, (k - 1) as nat);
        let b = best_filter_upto(raw, prev, bpp, (k - 1) as nat);
        assert(row_cost(k as u8, raw, prev, bpp) == filter_score_spec(filter_spec(k as u8, raw, prev, bpp)));
        assert(row_cost(b, raw, prev, bpp) == filter_score_spec(filter_spec(b, raw, prev, bpp)));
    }
}

/// The adaptive encoder's filter for a row is one of the five types, costs
/// no more than any of them, and costs strictly less than every lower type:
/// the cheapest filter is chosen and ties go to the lowest type.
pub proof fn lemma_best_filter_cheapest(raw: Seq<u8>, prev: Seq<u8>, bpp: nat)
    ensures
        best_filter(raw, prev, bpp) <= 4,
        forall|g: u8| g <= 4 ==> row_cost(best_filter(raw, prev, bpp), raw, prev, bpp) <= #[trigger] row_cost(g, raw, prev, bpp),
        forall|g: u8| g < best_filter(raw, prev, bpp) ==> row_cost(best_filter(raw, prev, bpp), raw, prev, bpp) < #[trigger] row_cost(g, raw, prev, bpp),
{
    lemma_best_upto_cheapest(raw, prev, bpp, 4);
}

/// The cost of a filtered row.
pub fn filter_score(bytes: &[u8]) -> (r: u128)
    ensures
        r == filter_score_spec(bytes@),
{
    let mut total: u128 = 0;
    let mut i: usize = 0;
    while i < bytes.len()
        invariant
            i <= bytes@.len(),
            total == filter_score_spec(bytes@.subrange(0, i as int)),
            total <= 128 * i,
        decreases bytes@.len() - i,
    {
        proof {
            assert(bytes@.subrange(0, i + 1).drop_last() =~= bytes@.subrange(0, i as int));
        }
        let b = bytes[i];
        let m: u128 = if b <= 128 {
            b as u128
        } else {
            (256 - b as u16) as u128
        };
        total = total + m;
        i += 1;
    }
    proof {
        assert(bytes@.subrange(0, i as int) =~= bytes@);
    }
    total
}

/// Tries all five filters on a row and keeps the cheapest, the lowest type
/// on a tie.
pub fn choose_filter(raw: &[u8], previous: &[u8], bytes_per_pixel: usize) -> (r: (u8, Vec<u8>))
    requires
        previous@.len() == raw@.len(),
        bytes_per_pixel >= 1,
    ensures
        r.0 == best_filter(raw@, previous@, bytes_per_pixel as nat),
        r.0 <= 4,
        r.1@ == filter_spec(r.0, raw@, previous@, bytes_per_pixel as nat),
{
    let mut best_filter: u8 = 0;
    let mut best = filter_row(0, raw, previous, bytes_per_pixel);
    let mut best_score = filter_score(best.as_slice());
    let mut filter: u8 = 1;
    while filter <= 4
        invariant
            previous@.len() == raw@.len(),
            bytes_per_pixel >= 1,
            1 <= filter <= 5,
            best_filter == best_filter_upto(raw@, previous@, bytes_per_pixel as nat, (filter - 1) as nat),
            best@ == filter_spec(best_filter, raw@, previous@, bytes_per_pixel as nat),
            best_score == filter_score_spec(best@),
        decreases 5 - filter,
    {
        let candidate = filter_row(filter, raw, previous, bytes_per_pixel);
        let score = filter_score(candidate.as_slice());
        if score < best_score {
            best_filter = filter;
            best_score = score;
            best = candidate;
        }
        filter += 1;
    }
    proof {
        lemma_best_filter_bound(raw@, previous@, bytes_per_pixel as nat, 4);
    }
    (best_filter, best)
}

} // verus!
