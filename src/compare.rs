//! Scoring the similarity of two fuzzy hashes.
use vstd::prelude::*;

use crate::constants::{MIN_BLOCK_SIZE, ROLLING_WINDOW, SPAM_SUM_LENGTH};
use crate::error::Error;
use crate::roll::{last_seven, lemma_window_after, window_after, window_hash, Roll};
use crate::text::{fields, parse_u32, parse_u32_exec};
use vstd::utf8::encode_utf8;

verus! {

/// Longest signature the edit distance is computed on.
pub const MAX_LENGTH: usize = 64;

pub const INSERT_COST: u32 = 1;

pub const REMOVE_COST: u32 = 1;

pub const REPLACE_COST: u32 = 2;

// ---------------------------------------------------------------------------------------------
// Run-length elimination
/// Whether the last three bytes of `r` are all `c`.
pub open spec fn ends_in_three(r: Seq<u8>, c: u8) -> bool {
    r.len() >= 3 && r[r.len() - 1] == c && r[r.len() - 2] == c && r[r.len() - 3] == c
}

/// `s` copied byte by byte, skipping a byte whenever the three bytes already copied equal it:
/// no run in the result is longer than three.
pub open spec fn eliminated(s: Seq<u8>) -> Seq<u8>
    decreases s.len(),
{
    if s.len() == 0 {
        s
    } else {
        let r = eliminated(s.drop_last());
        if ends_in_three(r, s.last()) {
            r
        } else {
            r.push(s.last())
        }
    }
}

/// Whether no four consecutive bytes of `r` are equal.
pub open spec fn no_long_runs(r: Seq<u8>) -> bool {
    forall|k: int|
        3 <= k < r.len() ==> !(#[trigger] r[k] == r[k - 1] && r[k] == r[k - 2] && r[k] == r[k - 3])
}

pub proof fn lemma_eliminated_has_no_long_runs(s: Seq<u8>)
    ensures
        no_long_runs(eliminated(s)),
        eliminated(s).len() <= s.len(),
    decreases s.len(),
{
    if s.len() > 0 {
        lemma_eliminated_has_no_long_runs(s.drop_last());
    }
}

pub proof fn lemma_eliminated_keeps_short_runs(r: Seq<u8>)
    requires
        no_long_runs(r),
    ensures
        eliminated(r) == r,
    decreases r.len(),
{
    if r.len() > 0 {
        let p = r.drop_last();
        assert forall|k: int| 3 <= k < p.len() implies !(#[trigger] p[k] == p[k - 1] && p[k] == p[k
            - 2] && p[k] == p[k - 3]) by {
            assert(p[k] == r[k] && p[k - 1] == r[k - 1] && p[k - 2] == r[k - 2] && p[k - 3] == r[k
                - 3]);
        }
        lemma_eliminated_keeps_short_runs(p);
        if r.len() >= 4 {
            assert(!(r[r.len() - 1] == r[r.len() - 2] && r[r.len() - 1] == r[r.len() - 3] && r[r.len()
                - 1] == r[r.len() - 4]));
        }
        assert(p.push(r.last()) =~= r);
    }
}

/// Eliminating runs twice gives what eliminating once gives.
pub proof fn lemma_eliminate_idempotent(s: Seq<u8>)
    ensures
        eliminated(eliminated(s)) == eliminated(s),
{
    lemma_eliminated_has_no_long_runs(s);
    lemma_eliminated_keeps_short_runs(eliminated(s));
}

/// Copies `input`, leaving out each byte that would make a run of four.
pub(crate) fn eliminate_sequences(input: &[u8]) -> (r: Vec<u8>)
    ensures
        r@ == eliminated(input@),
{
    let mut result: Vec<u8> = Vec::new();
    let mut i: usize = 0;
    while i < input.len()
        invariant
            i <= input.len(),
            result@ == eliminated(input@.take(i as int)),
        decreases input.len() - i,
    {
        let c = input[i];
        let n = result.len();
        assert(input@.take(i + 1).drop_last() =~= input@.take(i as int));
        if !(n >= 3 && result[n - 1] == c && result[n - 2] == c && result[n - 3] == c) {
            result.push(c);
        }
        i += 1;
    }
    assert(input@.take(input.len() as int) =~= input@);
    result
}

// ---------------------------------------------------------------------------------------------
// Edit distance
pub open spec fn min2(a: int, b: int) -> int {
    if a <= b {
        a
    } else {
        b
    }
}

/// Weighted edit distance: inserting or removing a byte costs 1, replacing one costs 2.
pub open spec fn edit_distance(s: Seq<u8>, t: Seq<u8>) -> int
    decreases s.len() + t.len(),
{
    if s.len() == 0 {
        t.len() as int
    } else if t.len() == 0 {
        s.len() as int
    } else {
        min2(
            min2(
                edit_distance(s.drop_last(), t) + INSERT_COST,
                edit_distance(s, t.drop_last()) + REMOVE_COST,
            ),
            edit_distance(s.drop_last(), t.drop_last()) + if s.last() == t.last() {
                0
            } else {
                REPLACE_COST as int
            },
        )
    }
}

pub proof fn lemma_edit_distance_bounds(s: Seq<u8>, t: Seq<u8>)
    ensures
        0 <= edit_distance(s, t) <= s.len() + t.len(),
    decreases s.len() + t.len(),
{
    if s.len() > 0 && t.len() > 0 {
        lemma_edit_distance_bounds(s.drop_last(), t);
        lemma_edit_distance_bounds(s, t.drop_last());
        lemma_edit_distance_bounds(s.drop_last(), t.drop_last());
    }
}

pub proof fn lemma_edit_distance_symmetric(s: Seq<u8>, t: Seq<u8>)
    ensures
        edit_distance(s, t) == edit_distance(t, s),
    decreases s.len() + t.len(),
{
    if s.len() > 0 && t.len() > 0 {
        lemma_edit_distance_symmetric(s.drop_last(), t);
        lemma_edit_distance_symmetric(s, t.drop_last());
        lemma_edit_distance_symmetric(s.drop_last(), t.drop_last());
    }
}

/// The weighted edit distance of `s1` and `s2`, row by row in two rows.
fn compute_distance(s1: &[u8], s2: &[u8]) -> (r: u32)
    requires
        s1.len() <= MAX_LENGTH,
        s2.len() <= MAX_LENGTH,
    ensures
        r == edit_distance(s1@, s2@),
{
    let mut t1: Vec<u32> = vec![0u32; MAX_LENGTH + 1];
    let mut t2: Vec<u32> = vec![0u32; MAX_LENGTH + 1];
    let mut i2: usize = 0;
    while i2 <= s2.len()
        invariant
            s2.len() <= MAX_LENGTH,
            i2 <= s2.len() + 1,
            t1.len() == MAX_LENGTH + 1,
            forall|k: int| 0 <= k < i2 ==> #[trigger] t1@[k] == edit_distance(Seq::empty(), s2@.take(k)),
        decreases s2.len() + 1 - i2,
    {
        t1.set(i2, i2 as u32 * REMOVE_COST);
        i2 += 1;
    }
    let mut i1: usize = 0;
    while i1 < s1.len()
        invariant
            s1.len() <= MAX_LENGTH,
            s2.len() <= MAX_LENGTH,
            i1 <= s1.len(),
            t1.len() == MAX_LENGTH + 1,
            t2.len() == MAX_LENGTH + 1,
            forall|k: int|
                0 <= k <= s2.len() ==> #[trigger] t1@[k] == edit_distance(s1@.take(i1 as int), s2@.take(k)),
        decreases s1.len() - i1,
    {
        let ghost a = s1@.take(i1 + 1);
        assert(a.drop_last() =~= s1@.take(i1 as int));
        t2.set(0, (i1 as u32 + 1) * INSERT_COST);
        let mut i2: usize = 0;
        while i2 < s2.len()
            invariant
                s1.len() <= MAX_LENGTH,
                s2.len() <= MAX_LENGTH,
                i1 < s1.len(),
                i2 <= s2.len(),
                a == s1@.take(i1 + 1),
                a.drop_last() == s1@.take(i1 as int),
                t1.len() == MAX_LENGTH + 1,
                t2.len() == MAX_LENGTH + 1,
                forall|k: int|
                    0 <= k <= s2.len() ==> #[trigger] t1@[k] == edit_distance(s1@.take(i1 as int), s2@.take(k)),
                forall|k: int| 0 <= k <= i2 ==> #[trigger] t2@[k] == edit_distance(a, s2@.take(k)),
            decreases s2.len() - i2,
        {
            let ghost b = s2@.take(i2 + 1);
            assert(b.drop_last() =~= s2@.take(i2 as int));
            proof {
                lemma_edit_distance_bounds(a.drop_last(), b);
                lemma_edit_distance_bounds(a, b.drop_last());
                lemma_edit_distance_bounds(a.drop_last(), b.drop_last());
            }
            let cost_a = t1[i2 + 1] + INSERT_COST;
            let cost_d = t2[i2] + REMOVE_COST;
            let cost_r = t1[i2] + if s1[i1] == s2[i2] {
                0
            } else {
                REPLACE_COST
            };
            let m = if cost_a <= cost_d {
                cost_a
            } else {
                cost_d
            };
            t2.set(i2 + 1, if m <= cost_r { m } else { cost_r });
            i2 += 1;
        }
        let t3 = t1;
        t1 = t2;
        t2 = t3;
        i1 += 1;
    }
    assert(s1@.take(s1.len() as int) =~= s1@);
    assert(s2@.take(s2.len() as int) =~= s2@);
    t1[s2.len()]
}

// ---------------------------------------------------------------------------------------------
// Common substrings
/// The seven bytes of `s` that end at position `j`.
pub open spec fn window_at(s: Seq<u8>, j: int) -> Seq<u8> {
    s.subrange(j - 6, j + 1)
}

/// Whether the first `n` bytes of `s` are all non-zero.
pub open spec fn no_nul_before(s: Seq<u8>, n: int) -> bool {
    forall|k: int| 0 <= k < n ==> #[trigger] s[k] != 0
}

/// Whether `s` ending at `j` and `t` ending at `i` hold the same seven bytes, none of them
/// preceded by a zero byte, and their rolling hash is not zero.
pub open spec fn windows_match(s: Seq<u8>, j: int, t: Seq<u8>, i: int) -> bool {
    &&& 6 <= j < s.len()
    &&& 6 <= i < t.len()
    &&& no_nul_before(s, j + 1)
    &&& no_nul_before(t, i + 1)
    &&& window_at(s, j) == window_at(t, i)
    &&& window_hash(window_at(s, j)) != 0
}

/// Whether `s` and `t` share a seven-byte substring (before any zero byte) whose rolling hash
/// is not zero.
pub open spec fn common_substring(s: Seq<u8>, t: Seq<u8>) -> bool {
    exists|j: int, i: int| windows_match(s, j, t, i)
}

pub proof fn lemma_common_substring_symmetric(s: Seq<u8>, t: Seq<u8>)
    ensures
        common_substring(s, t) == common_substring(t, s),
{
    if common_substring(s, t) {
        let (j, i) = choose|j: int, i: int| windows_match(s, j, t, i);
        assert(windows_match(t, i, s, j));
    }
    if common_substring(t, s) {
        let (i, j) = choose|i: int, j: int| windows_match(t, i, s, j);
        assert(windows_match(s, j, t, i));
    }
}

/// The rolling hash after the first `j + 1` bytes of `s` is the hash of the window ending at `j`.
proof fn lemma_prefix_hash(s: Seq<u8>, j: int)
    requires
        6 <= j < s.len(),
    ensures
        window_after(s.take(j + 1)) == window_at(s, j),
{
    lemma_window_after(s.take(j + 1));
    assert(last_seven(s.take(j + 1)) =~= window_at(s, j));
}

/// Whether `first` and `second` share a seven-byte substring, found through their rolling hashes.
fn has_common_substring(first: &[u8], second: &[u8]) -> (r: bool)
    requires
        first.len() <= SPAM_SUM_LENGTH,
    ensures
        r == common_substring(first@, second@),
{
    let mut hashes: Vec<u32> = vec![0u32; SPAM_SUM_LENGTH as usize];
    let mut state = Roll::new();
    let mut i: usize = 0;
    while i < first.len() && first[i] != 0
        invariant
            first.len() <= SPAM_SUM_LENGTH,
            i <= first.len(),
            hashes.len() == SPAM_SUM_LENGTH,
            state.wf(),
            state@ == window_after(first@.take(i as int)),
            no_nul_before(first@, i as int),
            forall|k: int| 6 <= k < i ==> #[trigger] hashes@[k] == window_hash(window_at(first@, k)),
        decreases first.len() - i,
    {
        assert(first@.take(i + 1).drop_last() =~= first@.take(i as int));
        state.hash(first[i]);
        let h = state.sum();
        proof {
            if i >= 6 {
                lemma_prefix_hash(first@, i as int);
            }
        }
        hashes.set(i, h);
        i += 1;
    }
    let num_hashes = i;
    state = Roll::new();
    i = 0;
    while i < second.len() && second[i] != 0
        invariant
            first.len() <= SPAM_SUM_LENGTH,
            num_hashes <= first.len(),
            num_hashes == first.len() || first@[num_hashes as int] == 0,
            no_nul_before(first@, num_hashes as int),
            hashes.len() == SPAM_SUM_LENGTH,
            forall|k: int|
                6 <= k < num_hashes ==> #[trigger] hashes@[k] == window_hash(window_at(first@, k)),
            i <= second.len(),
            state.wf(),
            state@ == window_after(second@.take(i as int)),
            no_nul_before(second@, i as int),
            forall|j: int, i2: int| 0 <= i2 < i ==> !windows_match(first@, j, second@, i2),
        decreases second.len() - i,
    {
        assert(second@.take(i + 1).drop_last() =~= second@.take(i as int));
        state.hash(second[i]);
        let h = state.sum();
        if i >= ROLLING_WINDOW - 1 {
            proof {
                lemma_prefix_hash(second@, i as int);
            }
            let mut j: usize = ROLLING_WINDOW - 1;
            while j < num_hashes
                invariant
                    first.len() <= SPAM_SUM_LENGTH,
                    num_hashes <= first.len(),
                    num_hashes == first.len() || first@[num_hashes as int] == 0,
                    no_nul_before(first@, num_hashes as int),
                    hashes.len() == SPAM_SUM_LENGTH,
                    forall|k: int|
                        6 <= k < num_hashes ==> #[trigger] hashes@[k] == window_hash(
                            window_at(first@, k),
                        ),
                    6 <= i < second.len(),
                    second@[i as int] != 0,
                    no_nul_before(second@, i as int),
                    h == window_hash(window_at(second@, i as int)),
                    6 <= j,
                    forall|j2: int| 0 <= j2 < j ==> !windows_match(first@, j2, second@, i as int),
                decreases num_hashes - j,
            {
                if hashes[j] != 0 && hashes[j] == h {
                    let mut matched = true;
                    let mut pos: usize = 0;
                    while pos < ROLLING_WINDOW && matched
                        invariant
                            6 <= j < num_hashes,
                            num_hashes <= first.len(),
                            6 <= i < second.len(),
                            pos <= 7,
                            matched ==> forall|p: int|
                                0 <= p < pos ==> #[trigger] window_at(first@, j as int)[p]
                                    == window_at(second@, i as int)[p],
                            !matched ==> window_at(first@, j as int) != window_at(second@, i as int),
                        decreases 7 - pos + if matched { 1int } else { 0int },
                    {
                        if first[j - 6 + pos] != second[i - 6 + pos] {
                            assert(window_at(first@, j as int)[pos as int] != window_at(second@, i as int)[pos as int]);
                            matched = false;
                        } else {
                            pos += 1;
                        }
                    }
                    if matched {
                        assert(window_at(first@, j as int) =~= window_at(second@, i as int));
                        assert(windows_match(first@, j as int, second@, i as int));
                        return true;
                    }
                }
                j += 1;
            }
            assert forall|j2: int| !windows_match(first@, j2, second@, i as int) by {
                if windows_match(first@, j2, second@, i as int) && j2 >= num_hashes {
                    assert(first@[num_hashes as int] != 0);
                }
            }
        }
        i += 1;
    }
    assert forall|j: int, i2: int| !windows_match(first@, j, second@, i2) by {
        if windows_match(first@, j, second@, i2) && i2 >= i {
            assert(second@[i as int] != 0);
        }
    }
    false
}

// ---------------------------------------------------------------------------------------------
// Scores
pub open spec fn min_len(s: Seq<u8>, t: Seq<u8>) -> int {
    min2(s.len() as int, t.len() as int)
}

/// The score of two signatures compared at `block_size`: 0 when either is longer than
/// `SPAM_SUM_LENGTH`; an error when they share no seven-byte substring; otherwise 100 less the
/// edit distance scaled to their length, capped by `block_size / MIN_BLOCK_SIZE` times the
/// shorter length.
pub open spec fn score_spec(s: Seq<u8>, t: Seq<u8>, block_size: int) -> Result<u32, Error> {
    if s.len() > SPAM_SUM_LENGTH || t.len() > SPAM_SUM_LENGTH {
        Ok(0)
    } else if !common_substring(s, t) {
        Err(Error::NoCommonSubstrings)
    } else {
        let scaled = edit_distance(s, t) * SPAM_SUM_LENGTH / (s.len() + t.len()) as int;
        let d = 100 * scaled / 64;
        if d >= 100 {
            Ok(0)
        } else {
            Ok(min2(100 - d, block_size / MIN_BLOCK_SIZE as int * min_len(s, t)) as u32)
        }
    }
}

/// A score, or 0 for an error.
pub open spec fn or_zero(r: Result<u32, Error>) -> u32 {
    match r {
        Ok(v) => v,
        Err(_) => 0,
    }
}

fn score_strings(first: &[u8], second: &[u8], block_size: u64) -> (r: Result<u32, Error>)
    requires
        block_size <= 2 * u32::MAX,
    ensures
        r == score_spec(first@, second@, block_size as int),
{
    if first.len() > SPAM_SUM_LENGTH as usize || second.len() > SPAM_SUM_LENGTH as usize {
        return Ok(0);
    }
    if !has_common_substring(first, second) {
        return Err(Error::NoCommonSubstrings);
    }
    proof {
        let (j, i) = choose|j: int, i: int| windows_match(first@, j, second@, i);
        lemma_edit_distance_bounds(first@, second@);
    }
    let total = (first.len() + second.len()) as u64;
    let mut score = compute_distance(first, second) as u64;
    score = (score * SPAM_SUM_LENGTH as u64) / total;
    score = (100 * score) / 64;
    if score >= 100 {
        return Ok(0);
    }
    score = 100 - score;
    let shorter = if first.len() < second.len() { first.len() } else { second.len() } as u64;
    let per_byte = block_size / MIN_BLOCK_SIZE as u64;
    assert(per_byte * shorter <= 64 * per_byte) by (nonlinear_arith)
        requires
            shorter <= 64,
    ;
    let match_size = per_byte * shorter;
    Ok(if score > match_size { match_size as u32 } else { score as u32 })
}

// ---------------------------------------------------------------------------------------------
// Comparing hashes
pub open spec fn max2(a: u32, b: u32) -> u32 {
    if a >= b {
        a
    } else {
        b
    }
}

/// The similarity of two hashes `<blocksize>:<sig1>:<sig2>`, given as bytes.
///
/// Each must split into exactly three fields at `:` and start with a block size in decimal.
/// The block sizes must be equal or one twice the other. Runs longer than three are taken out
/// of every signature. Equal block sizes with equal first signatures score 100; otherwise
/// signatures of the same block size are scored against each other, and with equal block sizes
/// the better of the two scores counts, an error there counting as 0.
pub open spec fn compare_spec(a: Seq<u8>, b: Seq<u8>) -> Result<u32, Error> {
    let fa = fields(a);
    let fb = fields(b);
    if fa.len() != 3 || fb.len() != 3 {
        Err(Error::MalformedInput)
    } else if parse_u32(fa[0]) is None || parse_u32(fb[0]) is None {
        Err(Error::BlockSizeParse)
    } else {
        let ba = parse_u32(fa[0])->0 as int;
        let bb = parse_u32(fb[0])->0 as int;
        let a1 = eliminated(fa[1]);
        let a2 = eliminated(fa[2]);
        let b1 = eliminated(fb[1]);
        let b2 = eliminated(fb[2]);
        if ba != bb && ba != 2 * bb && bb != 2 * ba {
            Err(Error::IncompatibleBlockSizes)
        } else if ba == bb && a1 == b1 {
            Ok(100)
        } else if ba == bb {
            Ok(max2(or_zero(score_spec(a1, b1, ba)), or_zero(score_spec(a2, b2, 2 * ba))))
        } else if ba == 2 * bb {
            score_spec(a1, b2, ba)
        } else {
            score_spec(a2, b1, bb)
        }
    }
}

/// The bytes of a string, as UTF-8 encodes them.
pub open spec fn bytes_of(s: Seq<char>) -> Seq<u8> {
    encode_utf8(s)
}

pub proof fn lemma_score_symmetric(s: Seq<u8>, t: Seq<u8>, block_size: int)
    ensures
        score_spec(s, t, block_size) == score_spec(t, s, block_size),
{
    lemma_common_substring_symmetric(s, t);
    lemma_edit_distance_symmetric(s, t);
    assert((s.len() + t.len()) as int == (t.len() + s.len()) as int);
}

pub proof fn lemma_score_at_most_100(s: Seq<u8>, t: Seq<u8>, block_size: int)
    requires
        block_size >= 0,
    ensures
        score_spec(s, t, block_size) is Ok ==> score_spec(s, t, block_size)->Ok_0 <= 100,
{
    lemma_edit_distance_bounds(s, t);
    if s.len() <= SPAM_SUM_LENGTH && t.len() <= SPAM_SUM_LENGTH && common_substring(s, t) {
        let (j, i) = choose|j: int, i: int| windows_match(s, j, t, i);
        let scaled = edit_distance(s, t) * SPAM_SUM_LENGTH / (s.len() + t.len()) as int;
        assert(scaled >= 0) by (nonlinear_arith)
            requires
                edit_distance(s, t) >= 0,
                s.len() + t.len() > 0,
                scaled == edit_distance(s, t) * SPAM_SUM_LENGTH / (s.len() + t.len()) as int,
        ;
        assert(block_size / MIN_BLOCK_SIZE as int * min_len(s, t) >= 0) by (nonlinear_arith)
            requires
                block_size >= 0,
                min_len(s, t) >= 0,
        ;
    }
}

/// Comparing `a` with `b` gives what comparing `b` with `a` gives.
pub proof fn lemma_compare_symmetric(a: Seq<u8>, b: Seq<u8>)
    ensures
        compare_spec(a, b) == compare_spec(b, a),
{
    let fa = fields(a);
    let fb = fields(b);
    if fa.len() == 3 && fb.len() == 3 {
        lemma_score_symmetric(eliminated(fa[1]), eliminated(fb[1]), parse_u32(fa[0])->0 as int);
        lemma_score_symmetric(eliminated(fa[2]), eliminated(fb[2]), 2 * parse_u32(fa[0])->0 as int);
        lemma_score_symmetric(eliminated(fa[1]), eliminated(fb[2]), parse_u32(fa[0])->0 as int);
        lemma_score_symmetric(eliminated(fa[2]), eliminated(fb[1]), parse_u32(fb[0])->0 as int);
    }
}

/// A comparison that succeeds scores from 0 to 100.
pub proof fn lemma_compare_at_most_100(a: Seq<u8>, b: Seq<u8>)
    ensures
        compare_spec(a, b) is Ok ==> compare_spec(a, b)->Ok_0 <= 100,
{
    let fa = fields(a);
    let fb = fields(b);
    if fa.len() == 3 && fb.len() == 3 && parse_u32(fa[0]) is Some && parse_u32(fb[0]) is Some {
        let ba = parse_u32(fa[0])->0 as int;
        let bb = parse_u32(fb[0])->0 as int;
        lemma_score_at_most_100(eliminated(fa[1]), eliminated(fb[1]), ba);
        lemma_score_at_most_100(eliminated(fa[2]), eliminated(fb[2]), 2 * ba);
        lemma_score_at_most_100(eliminated(fa[1]), eliminated(fb[2]), ba);
        lemma_score_at_most_100(eliminated(fa[2]), eliminated(fb[1]), bb);
    }
}

/// Splits `s` at `:` when it holds exactly three fields.
fn split_fields(s: &[u8]) -> (r: Option<(Vec<u8>, Vec<u8>, Vec<u8>)>)
    ensures
        match r {
            Some((a, b, c)) => fields(s@) == seq![a@, b@, c@],
            None => fields(s@).len() != 3,
        },
{
    let mut a: Vec<u8> = Vec::new();
    let mut b: Vec<u8> = Vec::new();
    let mut c: Vec<u8> = Vec::new();
    // Number of separators seen so far.
    let mut k: usize = 0;
    let mut i: usize = 0;
    proof {
        assert(s@.take(0) =~= Seq::<u8>::empty());
    }
    while i < s.len()
        invariant
            i <= s.len(),
            k <= i,
            fields(s@.take(i as int)).len() == k + 1,
            k <= 2 ==> fields(s@.take(i as int))[0] == a@,
            1 <= k <= 2 ==> fields(s@.take(i as int))[1] == b@,
            k == 2 ==> fields(s@.take(i as int))[2] == c@,
            k == 0 ==> b@.len() == 0,
            k <= 1 ==> c@.len() == 0,
        decreases s.len() - i,
    {
        let x = s[i];
        assert(s@.take(i + 1).drop_last() =~= s@.take(i as int));
        if x == crate::constants::SEPARATOR {
            k += 1;
        } else if k == 0 {
            a.push(x);
        } else if k == 1 {
            b.push(x);
        } else if k == 2 {
            c.push(x);
        }
        i += 1;
    }
    assert(s@.take(s.len() as int) =~= s@);
    if k == 2 {
        assert(fields(s@) =~= seq![a@, b@, c@]);
        Some((a, b, c))
    } else {
        None
    }
}

/// Whether `a` and `b` hold the same bytes.
fn same_bytes(a: &[u8], b: &[u8]) -> (r: bool)
    ensures
        r == (a@ == b@),
{
    if a.len() != b.len() {
        return false;
    }
    let mut i: usize = 0;
    while i < a.len()
        invariant
            a.len() == b.len(),
            i <= a.len(),
            forall|k: int| 0 <= k < i ==> a@[k] == b@[k],
        decreases a.len() - i,
    {
        if a[i] != b[i] {
            return false;
        }
        i += 1;
    }
    assert(a@ =~= b@);
    true
}

/// Compares two hashes given as bytes.
pub(crate) fn compare(first: &[u8], second: &[u8]) -> (r: Result<u32, Error>)
    ensures
        r == compare_spec(first@, second@),
{
    let (first0, first1, first2) = match split_fields(first) {
        Some(parts) => parts,
        None => {
            return Err(Error::MalformedInput);
        },
    };
    let (second0, second1, second2) = match split_fields(second) {
        Some(parts) => parts,
        None => {
            return Err(Error::MalformedInput);
        },
    };
    let first_block_size = match parse_u32_exec(first0.as_slice()) {
        Some(v) => v as u64,
        None => {
            return Err(Error::BlockSizeParse);
        },
    };
    let second_block_size = match parse_u32_exec(second0.as_slice()) {
        Some(v) => v as u64,
        None => {
            return Err(Error::BlockSizeParse);
        },
    };
    if first_block_size != second_block_size && first_block_size != second_block_size * 2
        && second_block_size != first_block_size * 2 {
        return Err(Error::IncompatibleBlockSizes);
    }
    let first_block1 = eliminate_sequences(first1.as_slice());
    let first_block2 = eliminate_sequences(first2.as_slice());
    let second_block1 = eliminate_sequences(second1.as_slice());
    let second_block2 = eliminate_sequences(second2.as_slice());
    if first_block_size == second_block_size && same_bytes(
        first_block1.as_slice(),
        second_block1.as_slice(),
    ) {
        return Ok(100);
    }
    if first_block_size == second_block_size {
        let score1 = match score_strings(
            first_block1.as_slice(),
            second_block1.as_slice(),
            first_block_size,
        ) {
            Ok(v) => v,
            Err(_) => 0,
        };
        let score2 = match score_strings(
            first_block2.as_slice(),
            second_block2.as_slice(),
            first_block_size * 2,
        ) {
            Ok(v) => v,
            Err(_) => 0,
        };
        Ok(if score1 >= score2 { score1 } else { score2 })
    } else if first_block_size == second_block_size * 2 {
        score_strings(first_block1.as_slice(), second_block2.as_slice(), first_block_size)
    } else {
        score_strings(first_block2.as_slice(), second_block1.as_slice(), second_block_size)
    }
}

/// Compares two hashes, with 0 for every failure.
pub fn strings(first: String, second: String) -> (r: u32)
    ensures
        r == or_zero(compare_spec(bytes_of(first@), bytes_of(second@))),
{
    match compare(first.as_str().as_bytes(), second.as_str().as_bytes()) {
        Ok(v) => v,
        Err(_) => 0,
    }
}

} // verus!
