use vstd::prelude::*;

use crate::deflate_encode::{
    common_run, fixed_block_bits, fixed_block_encodes, hash3, spec_hash3, lemma_copy_matches, lemma_match_bits_len, lemma_match_codes_cover, lsb_first_bits, lz_expand,
    packed_lsb, tokens_bits, tokens_valid, write_fixed_symbol, write_length_distance, BitWriter, LzToken, HASH_SIZE,
    MAX_MATCH, MIN_MATCH, WINDOW,
};
use crate::error::{ErrorKind, MediaError, Result};
use crate::inflate::spec_inflate;

verus! {

pub const NONE: usize = usize::MAX;

/// How many chain candidates a compression level examines.
pub open spec fn spec_search_limit(level: u8) -> nat {
    if level == 1 {
        1
    } else if level == 2 {
        2
    } else if level == 3 {
        4
    } else if level == 4 {
        8
    } else if level == 5 {
        16
    } else if level == 6 {
        32
    } else if level == 7 {
        64
    } else if level == 8 {
        128
    } else {
        256
    }
}

fn search_limit(level: u8) -> (n: usize)
    requires
        1 <= level <= 9,
    ensures
        n == spec_search_limit(level),
{
    if level == 1 {
        1
    } else if level == 2 {
        2
    } else if level == 3 {
        4
    } else if level == 4 {
        8
    } else if level == 5 {
        16
    } else if level == 6 {
        32
    } else if level == 7 {
        64
    } else if level == 8 {
        128
    } else {
        256
    }
}

/// The hash chains after remembering position `p`, when three bytes remain
/// there: it becomes the head of its hash, linked to the old head.
pub open spec fn chain_remember(chains: (Seq<usize>, Seq<usize>), s: Seq<u8>, p: nat) -> (Seq<usize>, Seq<usize>) {
    if p <= s.len() && s.len() - p >= MIN_MATCH {
        let h = spec_hash3(s, p as int) as int;
        (chains.0.update(h, p as usize), chains.1.update(p as int, chains.0[h]))
    } else {
        chains
    }
}

/// The hash chains after remembering positions `p .. p + k`.
pub open spec fn chain_remember_range(chains: (Seq<usize>, Seq<usize>), s: Seq<u8>, p: nat, k: nat) -> (Seq<usize>, Seq<usize>)
    decreases k,
{
    if k == 0 {
        chains
    } else {
        chain_remember(chain_remember_range(chains, s, p, (k - 1) as nat), s, (p + k - 1) as nat)
    }
}

/// The greedy parse of the level encoder from `position` with hash chains
/// `chains` (heads, previous): the match `spec_find_best` finds within
/// `limit` candidates where three bytes remain, else a literal; every
/// position passed is remembered.
pub open spec fn chain_parse(s: Seq<u8>, position: nat, chains: (Seq<usize>, Seq<usize>), limit: nat) -> Seq<LzToken>
    decreases s.len() - position,
{
    if position >= s.len() {
        Seq::empty()
    } else {
        let m = if s.len() - position >= MIN_MATCH { spec_find_best(s, position, chains.0, chains.1, limit) } else { None };
        match m {
            Some((d, l)) => if l == 0 || position + l > s.len() {
                Seq::empty()
            } else {
                seq![LzToken::Copy { length: l, distance: d }] + chain_parse(
                    s,
                    position + l,
                    chain_remember_range(chains, s, position, l),
                    limit,
                )
            },
            None => seq![LzToken::Literal(s[position as int])] + chain_parse(s, position + 1, chain_remember(chains, s, position), limit),
        }
    }
}

/// Empty hash chains for `n` input bytes.
pub open spec fn empty_chains(n: nat) -> (Seq<usize>, Seq<usize>) {
    (Seq::new(HASH_SIZE as nat, |_i: int| NONE), Seq::new(n, |_i: int| NONE))
}

/// Encodes one final fixed-Huffman RFC 1951 block with a hash-chain search
/// whose depth grows with `level` (1..=9).
#[verifier::spinoff_prover]
#[verifier::rlimit(60)]
pub fn compress_fixed_level(bytes: &[u8], level: u8) -> (r: Result<Vec<u8>>)
    ensures
        match r {
            Ok(out) => 1 <= level <= 9 && fixed_block_encodes(out@, bytes@) && out@.len() <= 2 * bytes@.len() + 3,
            Err(e) => !(1 <= level <= 9) && e@ == ErrorKind::InvalidArgument,
        },
        r matches Ok(out) ==> out@ == packed_lsb(
            fixed_block_bits(chain_parse(bytes@, 0, empty_chains(bytes@.len()), spec_search_limit(level))),
        ),
        r matches Ok(out) ==> spec_inflate(out@, bytes@.len()) == Ok::<Seq<u8>, ErrorKind>(bytes@),
{
    if level < 1 || level > 9 {
        return Err(MediaError::invalid_argument("DEFLATE level must be in 1..=9"));
    }
    let limit = search_limit(level);
    let mut writer = BitWriter::new();
    writer.write_bits_lsb(1, 1);
    writer.write_bits_lsb(1, 2);
    let n = bytes.len();
    let mut heads: Vec<usize> = vec![NONE; HASH_SIZE];
    let mut previous: Vec<usize> = vec![NONE; n];
    let mut position: usize = 0;
    let ghost mut ts: Seq<LzToken> = Seq::empty();
    let ghost lim = spec_search_limit(level);
    assert((heads@, previous@) =~= empty_chains(bytes@.len()));
    assert(ts + chain_parse(bytes@, 0, (heads@, previous@), lim) =~= chain_parse(bytes@, 0, empty_chains(bytes@.len()), lim));
    assert(bytes@.subrange(0, 0) =~= Seq::<u8>::empty());
    assert(writer.bits() =~= lsb_first_bits(1, 1) + lsb_first_bits(1, 2) + tokens_bits(ts));
    while position < bytes.len()
        invariant
            writer.inner_wf(),
            n == bytes@.len(),
            heads@.len() == HASH_SIZE,
            previous@.len() == n,
            position <= n,
            tokens_valid(ts),
            lz_expand(ts) == bytes@.subrange(0, position as int),
            writer.bits() == lsb_first_bits(1, 1) + lsb_first_bits(1, 2) + tokens_bits(ts),
            writer.bit_len() <= 3 + 11 * position,
            limit == lim,
            ts + chain_parse(bytes@, position as nat, (heads@, previous@), lim) == chain_parse(
                bytes@,
                0,
                empty_chains(bytes@.len()),
                lim,
            ),
        decreases n - position,
    {
        let best = if n - position >= MIN_MATCH {
            find_best(bytes, position, &heads, &previous, limit)
        } else {
            None
        };
        match best {
            Some((distance, length)) => {
                proof {
                    lemma_match_codes_cover(length as nat, distance as nat);
                    lemma_match_bits_len(length as nat, distance as nat);
                }
                match write_length_distance(&mut writer, length, distance) {
                    Ok(()) => {},
                    Err(e) => return Err(e),
                }
                let ghost chains0 = (heads@, previous@);
                let ghost ts0 = ts;
                proof {
                    let ts2 = ts.push(LzToken::Copy { length: length as nat, distance: distance as nat });
                    assert(ts2.drop_last() =~= ts);
                    lemma_copy_matches(bytes@, position as nat, distance as nat, length as nat);
                    assert(writer.bits() =~= lsb_first_bits(1, 1) + lsb_first_bits(1, 2) + tokens_bits(ts2));
                    ts = ts2;
                }
                let mut consumed: usize = 0;
                while consumed < length
                    invariant
                        heads@.len() == HASH_SIZE,
                        previous@.len() == n,
                        n == bytes@.len(),
                        consumed <= length,
                        position + length <= n,
                        (heads@, previous@) == chain_remember_range(chains0, bytes@, position as nat, consumed as nat),
                    decreases length - consumed,
                {
                    insert(bytes, position + consumed, &mut heads, &mut previous);
                    consumed += 1;
                }
                proof {
                    assert(chain_parse(bytes@, position as nat, chains0, lim) == seq![
                        LzToken::Copy { length: length as nat, distance: distance as nat },
                    ] + chain_parse(bytes@, (position + length) as nat, (heads@, previous@), lim));
                    assert(ts0 + chain_parse(bytes@, position as nat, chains0, lim) =~= ts + chain_parse(
                        bytes@,
                        (position + length) as nat,
                        (heads@, previous@),
                        lim,
                    ));
                }
                position = position + length;
            },
            None => {
                let ghost chains0 = (heads@, previous@);
                let ghost ts0 = ts;
                write_fixed_symbol(&mut writer, bytes[position] as u16);
                proof {
                    let ts2 = ts.push(LzToken::Literal(bytes@[position as int]));
                    assert(ts2.drop_last() =~= ts);
                    assert(bytes@.subrange(0, position + 1) =~= bytes@.subrange(0, position as int).push(bytes@[position as int]));
                    assert(writer.bits() =~= lsb_first_bits(1, 1) + lsb_first_bits(1, 2) + tokens_bits(ts2));
                    ts = ts2;
                }
                insert(bytes, position, &mut heads, &mut previous);
                proof {
                    assert(chain_parse(bytes@, position as nat, chains0, lim) == seq![LzToken::Literal(bytes@[position as int])]
                        + chain_parse(bytes@, (position + 1) as nat, (heads@, previous@), lim));
                    assert(ts0 + chain_parse(bytes@, position as nat, chains0, lim) =~= ts + chain_parse(
                        bytes@,
                        (position + 1) as nat,
                        (heads@, previous@),
                        lim,
                    ));
                }
                position += 1;
            },
        }
    }
    write_fixed_symbol(&mut writer, 256);
    let out = writer.finish();
    assert(out@.len() <= 2 * bytes@.len() + 3) by (nonlinear_arith)
        requires
            out@.len() * 8 < writer.bit_len() + 8,
            writer.bit_len() <= 10 + 11 * bytes@.len(),
    ;
    proof {
        assert(bytes@.subrange(0, n as int) =~= bytes@);
        assert(tokens_valid(ts) && lz_expand(ts) == bytes@ && out@ == packed_lsb(fixed_block_bits(ts)));
        assert(ts + chain_parse(bytes@, position as nat, (heads@, previous@), lim) =~= ts);
        assert(bytes@.len() == bytes.len());
        crate::fixed_roundtrip::lemma_fixed_block_inflates(ts, bytes@.len());
    }
    Ok(out)
}

/// The hash-chain search from `candidate`, having examined `searched`
/// candidates, with best match so far `best` (length, distance): each
/// candidate before `position` within the window whose first byte agrees
/// is measured, a longer match of at least three bytes replaces the best,
/// and one reaching `max` ends the search; the chain goes on through
/// `previous` until `limit` candidates were examined.
pub open spec fn chain_search(
    s: Seq<u8>,
    position: nat,
    previous: Seq<usize>,
    limit: nat,
    max: nat,
    candidate: usize,
    searched: nat,
    best: (nat, nat),
) -> (nat, nat)
    decreases limit - searched,
{
    if candidate == NONE || candidate >= position || searched >= limit {
        best
    } else {
        let distance = (position - candidate) as nat;
        if distance > WINDOW {
            best
        } else {
            let agrees = s[candidate as int] == s[position as int];
            let length = common_run(s, candidate as int, position as int, 1, max);
            if agrees && length >= MIN_MATCH && length > best.0 && length == max {
                (length, distance)
            } else {
                let best2 = if agrees && length >= MIN_MATCH && length > best.0 { (length, distance) } else { best };
                chain_search(s, position, previous, limit, max, previous[candidate as int], searched + 1, best2)
            }
        }
    }
}

/// The match `find_best` picks: the chain search from the head of the hash
/// chain of the next three bytes, as (distance, length), when it found one.
pub open spec fn spec_find_best(s: Seq<u8>, position: nat, heads: Seq<usize>, previous: Seq<usize>, limit: nat) -> Option<(nat, nat)> {
    let avail = (s.len() - position) as nat;
    let max = if MAX_MATCH < avail { MAX_MATCH as nat } else { avail };
    let best = chain_search(s, position, previous, limit, max, heads[spec_hash3(s, position as int) as int], 0, (0, 0));
    if best.0 >= MIN_MATCH {
        Some((best.1, best.0))
    } else {
        None
    }
}

/// The longest match (at least three bytes) among the first `search_limit`
/// chain candidates within the window; earlier candidates win ties.
#[verifier::spinoff_prover]
fn find_best(
    bytes: &[u8],
    position: usize,
    heads: &Vec<usize>,
    previous: &Vec<usize>,
    search_limit: usize,
) -> (r: Option<(usize, usize)>)
    requires
        position + MIN_MATCH <= bytes@.len(),
        heads@.len() == HASH_SIZE,
        previous@.len() == bytes@.len(),
    ensures
        match r {
            None => spec_find_best(bytes@, position as nat, heads@, previous@, search_limit as nat) is None,
            Some((d, l)) => spec_find_best(bytes@, position as nat, heads@, previous@, search_limit as nat) == Some(
                (d as nat, l as nat),
            ),
        },
        r matches Some((d, l)) ==> {
            &&& 1 <= d <= WINDOW
            &&& d <= position
            &&& MIN_MATCH <= l <= MAX_MATCH
            &&& position + l <= bytes@.len()
            &&& forall|k: int| 0 <= k < l ==> bytes@[position - d + k] == #[trigger] bytes@[position + k]
        },
{
    let n = bytes.len();
    let mut candidate = heads[hash3(bytes, position)];
    let mut searched: usize = 0;
    let mut best_length: usize = 0;
    let mut best_distance: usize = 0;
    let avail = n - position;
    let max_length = if MAX_MATCH < avail {
        MAX_MATCH
    } else {
        avail
    };
    let ghost target = chain_search(
        bytes@,
        position as nat,
        previous@,
        search_limit as nat,
        max_length as nat,
        candidate,
        0,
        (0, 0),
    );
    while candidate != NONE && candidate < position && searched < search_limit
        invariant_except_break
            chain_search(
                bytes@,
                position as nat,
                previous@,
                search_limit as nat,
                max_length as nat,
                candidate,
                searched as nat,
                (best_length as nat, best_distance as nat),
            ) == target,
        invariant
            n == bytes@.len(),
            previous@.len() == n,
            position + max_length <= n,
            position + MIN_MATCH <= n,
            MIN_MATCH <= max_length <= MAX_MATCH,
            searched <= search_limit,
            best_length <= max_length,
            best_length == 0 || (MIN_MATCH <= best_length && 1 <= best_distance <= WINDOW
                && best_distance <= position && forall|k: int| 0 <= k < best_length ==> bytes@[position - best_distance + k] == #[trigger] bytes@[position + k]),
        ensures
            (best_length as nat, best_distance as nat) == target,
        decreases search_limit - searched,
    {
        let distance = position - candidate;
        if distance > WINDOW {
            break;
        }
        if bytes[candidate] == bytes[position] {
            let mut length: usize = 1;
            while length < max_length && bytes[candidate + length] == bytes[position + length]
                invariant
                    n == bytes@.len(),
                    position + max_length <= n,
                    candidate < position,
                    1 <= length <= max_length,
                    forall|k: int| 0 <= k < length ==> bytes@[candidate + k] == #[trigger] bytes@[position + k],
                    bytes@[candidate as int] == bytes@[position as int],
                    common_run(bytes@, candidate as int, position as int, length as nat, max_length as nat) == common_run(
                        bytes@,
                        candidate as int,
                        position as int,
                        1,
                        max_length as nat,
                    ),
                decreases max_length - length,
            {
                length += 1;
            }
            if length >= MIN_MATCH && length > best_length {
                best_length = length;
                best_distance = distance;
                if length == max_length {
                    break;
                }
            }
        }
        candidate = previous[candidate];
        searched += 1;
    }
    if best_length >= MIN_MATCH {
        Some((best_distance, best_length))
    } else {
        None
    }
}

fn insert(bytes: &[u8], position: usize, heads: &mut Vec<usize>, previous: &mut Vec<usize>)
    requires
        old(heads)@.len() == HASH_SIZE,
        old(previous)@.len() == bytes@.len(),
    ensures
        final(heads)@.len() == HASH_SIZE,
        final(previous)@.len() == bytes@.len(),
        position <= bytes@.len() && bytes@.len() - position >= MIN_MATCH ==> {
            &&& final(previous)@ == old(previous)@.update(position as int, old(heads)@[spec_hash3(bytes@, position as int) as int])
            &&& final(heads)@ == old(heads)@.update(spec_hash3(bytes@, position as int) as int, position)
        },
        !(position <= bytes@.len() && bytes@.len() - position >= MIN_MATCH) ==> final(heads)@ == old(heads)@,
        !(position <= bytes@.len() && bytes@.len() - position >= MIN_MATCH) ==> final(previous)@ == old(previous)@,
{
    if position <= bytes.len() && bytes.len() - position >= MIN_MATCH {
        let hash = hash3(bytes, position);
        previous.set(position, heads[hash]);
        heads.set(hash, position);
    }
}

} // verus!
