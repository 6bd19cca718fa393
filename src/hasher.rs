use vstd::arithmetic::power2::{lemma2_to64, lemma_pow2_strictly_increases, pow2};
use vstd::prelude::*;

use crate::blockhash::{hash_view, reset_view, Context, ContextView, HASH_INIT};
use crate::compare::{bytes_of, compare_spec, eliminate_sequences, eliminated, ends_in_three};
use crate::constants::{
    all_base64, base64_char, get_base64_char, is_base64, lemma_base64_char, Modes,
    MIN_BLOCK_SIZE, NUM_BLOCKHASHES, SEPARATOR, SPAM_SUM_LENGTH,
};
use crate::error::Error;
use crate::roll::{empty_window, slide, window_hash, Roll};
use crate::text::{
    all_digits, decimal, fields, lemma_decimal, lemma_fields_of_three, lemma_parse_decimal,
    no_separator, parse_u32, push_decimal,
};

verus! {

/// What a hasher holds: the active range of the ladder, its contexts, the number of bytes fed,
/// and the rolling hash's window.
pub struct HasherView {
    pub bh_start: u32,
    pub bh_end: u32,
    pub bh: Seq<ContextView>,
    pub total_size: u64,
    pub window: Seq<u8>,
}

/// Block size of ladder index `i`: `MIN_BLOCK_SIZE` times 2^i.
pub open spec fn block_size(i: int) -> int {
    MIN_BLOCK_SIZE * pow2(i as nat)
}

/// Whether the rolling sum `h` marks the end of a block at ladder index `i`.
pub open spec fn triggers(h: u32, i: int) -> bool {
    h as int % block_size(i) == block_size(i) - 1
}

/// A context whose signature so far is base64, with a pending character and half character
/// that are each either unset (0) or base64.
pub open spec fn context_ok(b: ContextView) -> bool {
    &&& b.digest.len() == SPAM_SUM_LENGTH
    &&& b.d_len < SPAM_SUM_LENGTH
    &&& all_base64(b.digest.take(b.d_len as int))
    &&& (b.digest[b.d_len as int] == 0 || is_base64(b.digest[b.d_len as int]))
    &&& (b.half_digest == 0 || is_base64(b.half_digest))
}

/// The invariant of a hasher's state.
pub open spec fn state_ok(s: HasherView) -> bool {
    &&& s.bh.len() == NUM_BLOCKHASHES
    &&& s.bh_start < s.bh_end <= NUM_BLOCKHASHES
    &&& s.window.len() == 7
    &&& forall|i: int| 0 <= i < NUM_BLOCKHASHES ==> context_ok(#[trigger] s.bh[i])
}

/// Admits the next block size, seeded with the accumulators of the largest active one.
pub open spec fn fork(s: HasherView) -> HasherView {
    if s.bh_end < NUM_BLOCKHASHES {
        let prev = s.bh[s.bh_end - 1];
        let next = s.bh[s.bh_end as int];
        HasherView {
            bh: s.bh.update(
                s.bh_end as int,
                ContextView {
                    h: prev.h,
                    half_h: prev.half_h,
                    digest: next.digest.update(0, 0u8),
                    half_digest: 0,
                    d_len: 0,
                },
            ),
            bh_end: (s.bh_end + 1) as u32,
            ..s
        }
    } else {
        s
    }
}

/// Drops the smallest active block size once there are two, the input is too long for it to
/// be chosen, and the next one has at least half a signature.
pub open spec fn retire(s: HasherView) -> HasherView {
    if s.bh_end - s.bh_start >= 2 && block_size(s.bh_start as int) * SPAM_SUM_LENGTH < s.total_size
        && s.bh[s.bh_start + 1].d_len >= SPAM_SUM_LENGTH / 2 {
        HasherView { bh_start: (s.bh_start + 1) as u32, ..s }
    } else {
        s
    }
}

/// Writes at ladder index `j` the character of `h` into the signature's current slot and the
/// character of `half_h` as the half character.
pub open spec fn write_chars(s: HasherView, j: int) -> HasherView {
    let b = s.bh[j];
    HasherView {
        bh: s.bh.update(
            j,
            ContextView {
                digest: b.digest.update(b.d_len as int, base64_char(b.h as int % 64)),
                half_digest: base64_char(b.half_h as int % 64),
                ..b
            },
        ),
        ..s
    }
}

/// A block ends at ladder index `j`: fork first if its signature is empty; then write its
/// characters; then reset the context, or, when its signature is full, try to retire the
/// smallest block size.
pub open spec fn emit(s: HasherView, j: int) -> HasherView {
    let s1 = if s.bh[j].d_len == 0 { fork(s) } else { s };
    let w = write_chars(s1, j);
    if s1.bh[j].d_len < SPAM_SUM_LENGTH - 1 {
        HasherView { bh: w.bh.update(j, reset_view(w.bh[j], false)), ..w }
    } else {
        retire(w)
    }
}

/// Emits at `j`, `j + 1`, ... for as long as the rolling sum `h` triggers there.
pub open spec fn trigger_from(s: HasherView, h: u32, j: int) -> HasherView
    decreases NUM_BLOCKHASHES - j,
{
    if 0 <= j < s.bh_end && j < NUM_BLOCKHASHES && triggers(h, j) {
        trigger_from(emit(s, j), h, j + 1)
    } else {
        s
    }
}

/// The byte `c` enters the rolling window and every active context.
pub open spec fn advance(s: HasherView, c: u8) -> HasherView {
    HasherView {
        window: slide(s.window, c),
        bh: s.bh.map(
            |i: int, b: ContextView|
                if s.bh_start <= i < s.bh_end {
                    hash_view(b, c)
                } else {
                    b
                },
        ),
        ..s
    }
}

/// One byte through the hasher.
pub open spec fn step(s: HasherView, c: u8) -> HasherView {
    trigger_from(advance(s, c), window_hash(slide(s.window, c)), s.bh_start as int)
}

/// The bytes of `bytes` through the hasher, in order.
pub open spec fn feed(s: HasherView, bytes: Seq<u8>) -> HasherView
    decreases bytes.len(),
{
    if bytes.len() == 0 {
        s
    } else {
        step(feed(s, bytes.drop_last()), bytes.last())
    }
}

/// An update with `len` bytes of `buffer`: the count grows by `len` (held at `u64::MAX`), then
/// the first `len` bytes of the buffer, as far as it reaches, are fed.
pub open spec fn update_spec(s: HasherView, buffer: Seq<u8>, len: int) -> HasherView {
    let total = if s.total_size + len > u64::MAX { u64::MAX } else { (s.total_size + len) as u64 };
    let n = if len < buffer.len() { len } else { buffer.len() as int };
    feed(HasherView { total_size: total, ..s }, buffer.take(n))
}

/// A context as `Context::new` makes it.
pub open spec fn blank_context() -> ContextView {
    ContextView {
        h: 0,
        half_h: 0,
        digest: Seq::new(SPAM_SUM_LENGTH as nat, |k: int| 0u8),
        half_digest: 0,
        d_len: 0,
    }
}

/// A fresh hasher: only the smallest block size is active, and it has been reset.
pub open spec fn initial_state() -> HasherView {
    HasherView {
        bh_start: 0,
        bh_end: 1,
        bh: Seq::new(NUM_BLOCKHASHES as nat, |i: int| blank_context()).update(
            0,
            reset_view(blank_context(), true),
        ),
        total_size: 0,
        window: empty_window(),
    }
}

/// Steps up from ladder index `bi` while its block size is too small for `total` bytes.
pub open spec fn climb(bi: int, total: int) -> int
    decreases NUM_BLOCKHASHES - bi,
{
    if 0 <= bi < NUM_BLOCKHASHES && block_size(bi) * SPAM_SUM_LENGTH < total {
        climb(bi + 1, total)
    } else {
        bi
    }
}

/// Steps down from ladder index `bi` while it is above `bh_start` and its signature is shorter
/// than half.
pub open spec fn descend(s: HasherView, bi: int) -> int
    decreases bi,
{
    if bi > s.bh_start && s.bh[bi].d_len < SPAM_SUM_LENGTH / 2 {
        descend(s, bi - 1)
    } else {
        bi
    }
}

/// The ladder index whose block size the digest reports: the first block size large enough
/// for the input, at most the largest active one, then lowered while its signature is short.
pub open spec fn chosen_index(s: HasherView) -> int {
    let bi = climb(s.bh_start as int, s.total_size as int);
    descend(s, if bi >= s.bh_end { s.bh_end - 1 } else { bi })
}

/// `body` with `c` appended, unless eliminating sequences and `body` already ends in three `c`.
pub open spec fn tail(body: Seq<u8>, c: u8, elim: bool) -> Seq<u8> {
    if elim && ends_in_three(body, c) {
        body
    } else {
        body.push(c)
    }
}

/// The first `n` characters of the signature of `b`, with runs taken out when eliminating.
pub open spec fn body_of(b: ContextView, n: int, elim: bool) -> Seq<u8> {
    if elim {
        eliminated(b.digest.take(n))
    } else {
        b.digest.take(n)
    }
}

/// The signature of ladder index `bi`, closed by the character of its running `h` when the
/// rolling sum is not zero, or else by the character pending in its current slot.
pub open spec fn first_signature(s: HasherView, bi: int, mode: Modes) -> Seq<u8> {
    let b = s.bh[bi];
    let elim = mode is EliminateSequences;
    let body = body_of(b, b.d_len as int, elim);
    if window_hash(s.window) != 0 {
        tail(body, base64_char(b.h as int % 64), elim)
    } else if b.digest[b.d_len as int] != 0 {
        tail(body, b.digest[b.d_len as int], elim)
    } else {
        body
    }
}

/// The signature of ladder index `bi + 1`, cut to `SPAM_SUM_LENGTH / 2 - 1` characters unless
/// the mode says not to, and closed by the character of its `half_h` (its `h` when not cutting)
/// when the rolling sum is not zero, or else by its pending half character (its pending
/// character when not cutting). With no larger active block size, only the closing character
/// of index `bi` itself, when the rolling sum is not zero.
pub open spec fn second_signature(s: HasherView, bi: int, mode: Modes) -> Seq<u8> {
    let elim = mode is EliminateSequences;
    let full = mode is DoNotTruncate;
    if bi < s.bh_end - 1 {
        let b = s.bh[bi + 1];
        let n = if !full && b.d_len > SPAM_SUM_LENGTH / 2 - 1 {
            SPAM_SUM_LENGTH / 2 - 1
        } else {
            b.d_len as int
        };
        let body = body_of(b, n as int, elim);
        if window_hash(s.window) != 0 {
            tail(body, base64_char((if full { b.h } else { b.half_h }) as int % 64), elim)
        } else {
            let c = if full { b.digest[b.d_len as int] } else { b.half_digest };
            if c != 0 {
                tail(body, c, elim)
            } else {
                body
            }
        }
    } else if window_hash(s.window) != 0 {
        seq![base64_char(s.bh[bi].h as int % 64)]
    } else {
        Seq::empty()
    }
}

/// The hash `<blocksize>:<sig1>:<sig2>` of a hasher's state.
pub open spec fn digest_spec(s: HasherView, mode: Modes) -> Seq<u8> {
    let bi = chosen_index(s);
    decimal(block_size(bi) as nat) + seq![SEPARATOR] + first_signature(s, bi, mode) + seq![
        SEPARATOR,
    ] + second_signature(s, bi, mode)
}

/// Whether every byte of `s` is ASCII.
pub open spec fn all_ascii(s: Seq<u8>) -> bool {
    forall|k: int| 0 <= k < s.len() ==> #[trigger] s[k] < 128
}

/// Whether `h` has the form `<digits>:<sig1>:<sig2>`, with signatures of at most
/// `SPAM_SUM_LENGTH` base64 characters.
pub open spec fn well_formed_hash(h: Seq<u8>) -> bool {
    let f = fields(h);
    &&& f.len() == 3
    &&& all_digits(f[0])
    &&& all_base64(f[1])
    &&& f[1].len() <= SPAM_SUM_LENGTH
    &&& all_base64(f[2])
    &&& f[2].len() <= SPAM_SUM_LENGTH
}

/// Whether the block size field of `h` is a block size of the ladder.
pub open spec fn reports_ladder_size(h: Seq<u8>) -> bool {
    exists|k: int|
        0 <= k < NUM_BLOCKHASHES && #[trigger] parse_u32(fields(h)[0]) == Some(block_size(k) as u32)
}

proof fn lemma_eliminated_base64(s: Seq<u8>)
    requires
        all_base64(s),
    ensures
        all_base64(eliminated(s)),
        eliminated(s).len() <= s.len(),
    decreases s.len(),
{
    if s.len() > 0 {
        lemma_eliminated_base64(s.drop_last());
    }
}

proof fn lemma_base64_text(s: Seq<u8>)
    requires
        all_base64(s),
    ensures
        no_separator(s),
        all_ascii(s),
{
}

proof fn lemma_climb(bi: int, total: int)
    ensures
        climb(bi, total) >= bi,
    decreases NUM_BLOCKHASHES - bi,
{
    if 0 <= bi < NUM_BLOCKHASHES && block_size(bi) * SPAM_SUM_LENGTH < total {
        lemma_climb(bi + 1, total);
    }
}

proof fn lemma_descend(s: HasherView, bi: int)
    requires
        s.bh_start <= bi,
    ensures
        s.bh_start <= descend(s, bi) <= bi,
    decreases bi,
{
    if bi > s.bh_start && s.bh[bi].d_len < SPAM_SUM_LENGTH / 2 {
        lemma_descend(s, bi - 1);
    }
}

proof fn lemma_chosen_index(s: HasherView)
    requires
        state_ok(s),
    ensures
        s.bh_start <= chosen_index(s) < s.bh_end,
{
    let bi = climb(s.bh_start as int, s.total_size as int);
    lemma_climb(s.bh_start as int, s.total_size as int);
    lemma_descend(s, if bi >= s.bh_end { s.bh_end - 1 } else { bi });
}

proof fn lemma_body(b: ContextView, n: int, elim: bool)
    requires
        context_ok(b),
        0 <= n <= b.d_len,
    ensures
        all_base64(body_of(b, n, elim)),
        body_of(b, n, elim).len() <= n,
{
    assert forall|k: int| 0 <= k < n implies is_base64(#[trigger] b.digest.take(n)[k]) by {
        assert(b.digest.take(n)[k] == b.digest.take(b.d_len as int)[k]);
    }
    if elim {
        lemma_eliminated_base64(b.digest.take(n));
    }
}

proof fn lemma_tail(body: Seq<u8>, c: u8, elim: bool)
    requires
        all_base64(body),
        is_base64(c),
    ensures
        all_base64(tail(body, c, elim)),
        tail(body, c, elim).len() <= body.len() + 1,
{
}

/// The three parts of a digest: the block size in decimal and two short base64 signatures.
proof fn lemma_digest_parts(s: HasherView, mode: Modes)
    requires
        state_ok(s),
    ensures
        all_base64(first_signature(s, chosen_index(s), mode)),
        first_signature(s, chosen_index(s), mode).len() <= SPAM_SUM_LENGTH,
        all_base64(second_signature(s, chosen_index(s), mode)),
        second_signature(s, chosen_index(s), mode).len() <= SPAM_SUM_LENGTH,
        0 <= chosen_index(s) < NUM_BLOCKHASHES,
        block_size(chosen_index(s)) <= u32::MAX,
{
    lemma_chosen_index(s);
    let bi = chosen_index(s);
    let elim = mode is EliminateSequences;
    let full = mode is DoNotTruncate;
    let b = s.bh[bi];
    assert(context_ok(b));
    lemma_base64_char(b.h as int % 64);
    lemma_body(b, b.d_len as int, elim);
    let body = body_of(b, b.d_len as int, elim);
    lemma_tail(body, base64_char(b.h as int % 64), elim);
    if b.digest[b.d_len as int] != 0 {
        lemma_tail(body, b.digest[b.d_len as int], elim);
    }
    if bi < s.bh_end - 1 {
        let b2 = s.bh[bi + 1];
        assert(context_ok(b2));
        let n = if !full && b2.d_len > SPAM_SUM_LENGTH / 2 - 1 {
            SPAM_SUM_LENGTH / 2 - 1
        } else {
            b2.d_len as int
        };
        lemma_body(b2, n as int, elim);
        let body2 = body_of(b2, n as int, elim);
        let v = if full { b2.h } else { b2.half_h };
        lemma_base64_char(v as int % 64);
        lemma_tail(body2, base64_char(v as int % 64), elim);
        let c = if full { b2.digest[b2.d_len as int] } else { b2.half_digest };
        if c != 0 {
            lemma_tail(body2, c, elim);
        }
    }
    lemma2_to64();
    if bi < 30 {
        lemma_pow2_strictly_increases(bi as nat, 30);
    }
}

/// Every digest has the form `<digits>:<sig1>:<sig2>`, each signature at most
/// `SPAM_SUM_LENGTH` base64 characters, and its block size is `MIN_BLOCK_SIZE * 2^k` for some
/// `k < NUM_BLOCKHASHES`.
pub proof fn lemma_digest_well_formed(s: HasherView, mode: Modes)
    requires
        state_ok(s),
    ensures
        well_formed_hash(digest_spec(s, mode)),
        reports_ladder_size(digest_spec(s, mode)),
        all_ascii(digest_spec(s, mode)),
        fields(digest_spec(s, mode)) == seq![
            decimal(block_size(chosen_index(s)) as nat),
            first_signature(s, chosen_index(s), mode),
            second_signature(s, chosen_index(s), mode),
        ],
{
    lemma_digest_parts(s, mode);
    let bi = chosen_index(s);
    let d = decimal(block_size(bi) as nat);
    let a = first_signature(s, bi, mode);
    let b = second_signature(s, bi, mode);
    lemma_decimal(block_size(bi) as nat);
    lemma_base64_text(a);
    lemma_base64_text(b);
    lemma_fields_of_three(d, a, b);
    lemma_parse_decimal(block_size(bi) as u32);
    assert(parse_u32(fields(digest_spec(s, mode))[0]) == Some(block_size(bi) as u32));
    let all = digest_spec(s, mode);
    assert forall|k: int| 0 <= k < all.len() implies #[trigger] all[k] < 128 by {
        if k < d.len() {
            assert(all[k] == d[k]);
        } else if k == d.len() {
        } else if k < d.len() + 1 + a.len() {
            assert(all[k] == a[k - d.len() - 1]);
        } else if k == d.len() + 1 + a.len() {
        } else {
            assert(all[k] == b[k - d.len() - 2 - a.len()]);
        }
    }
}

/// A hash that the hasher produced, compared with itself, scores 100.
pub proof fn lemma_compare_own_digest(s: HasherView, mode: Modes)
    requires
        state_ok(s),
    ensures
        compare_spec(digest_spec(s, mode), digest_spec(s, mode)) == Ok::<u32, Error>(100),
{
    lemma_digest_well_formed(s, mode);
}

/// A fresh hasher is in good order, and updates keep it so.
pub proof fn lemma_updates_keep_state_ok(s: HasherView, buffer: Seq<u8>, len: int)
    ensures
        state_ok(initial_state()),
        state_ok(s) ==> state_ok(update_spec(s, buffer, len)),
{
    let i = initial_state();
    assert(blank_context().digest.take(0) =~= Seq::<u8>::empty());
    assert(reset_view(blank_context(), true).digest.take(0) =~= Seq::<u8>::empty());
    assert forall|k: int| 0 <= k < NUM_BLOCKHASHES implies context_ok(#[trigger] i.bh[k]) by {
        if k > 0 {
            assert(i.bh[k] == blank_context());
        }
    }
    if state_ok(s) {
        let total = if s.total_size + len > u64::MAX { u64::MAX } else { (s.total_size + len) as u64 };
        let n = if len < buffer.len() { len } else { buffer.len() as int };
        lemma_feed_ok(HasherView { total_size: total, ..s }, buffer.take(n));
    }
}

/// The hash of any input, compared with itself, scores 100.
pub proof fn lemma_compare_hash_of_input(data: Seq<u8>, mode: Modes)
    ensures
        ({
            let h = digest_spec(update_spec(initial_state(), data, data.len() as int), mode);
            compare_spec(h, h) == Ok::<u32, Error>(100)
        }),
{
    lemma_updates_keep_state_ok(initial_state(), data, data.len() as int);
    lemma_compare_own_digest(update_spec(initial_state(), data, data.len() as int), mode);
}

/// The first character of a signature is the character of the context's `h` as it stands
/// when the first block ends, just before the reset that follows.
pub proof fn lemma_first_character(s: HasherView, i: int)
    requires
        state_ok(s),
        0 <= i < s.bh_end,
        s.bh[i].d_len == 0,
    ensures
        emit(s, i).bh[i].digest[0] == base64_char(s.bh[i].h as int % 64),
        emit(s, i).bh[i].d_len == 1,
        emit(s, i).bh[i].h == HASH_INIT,
{
    lemma_fork_ok(s);
}

/// Relies on std's `String::from_utf8`: ASCII bytes are valid UTF-8, and each becomes the
/// character with the same code.
#[verifier::external_body]
fn ascii_string(bytes: Vec<u8>) -> (r: String)
    requires
        all_ascii(bytes@),
    ensures
        r@ == bytes@.map_values(|b: u8| b as char),
{
    match String::from_utf8(bytes) {
        Ok(s) => s,
        Err(_) => String::new(),
    }
}

proof fn lemma_ascii_bytes(bytes: Seq<u8>)
    requires
        all_ascii(bytes),
    ensures
        bytes_of(bytes.map_values(|b: u8| b as char)) == bytes,
{
    let chars = bytes.map_values(|b: u8| b as char);
    assert(vstd::utf8::is_ascii_chars(chars));
    vstd::utf8::is_ascii_chars_encode_utf8(chars);
    assert(bytes_of(chars) =~= bytes);
}

proof fn lemma_fork_ok(s: HasherView)
    requires
        state_ok(s),
    ensures
        state_ok(fork(s)),
        fork(s).bh_start == s.bh_start,
        fork(s).bh_end >= s.bh_end,
        fork(s).total_size == s.total_size,
        fork(s).window == s.window,
        forall|i: int| 0 <= i < s.bh_end ==> fork(s).bh[i] == s.bh[i],
{
    if s.bh_end < NUM_BLOCKHASHES {
        let f = fork(s);
        let nb = f.bh[s.bh_end as int];
        assert(nb.digest.take(0) =~= Seq::<u8>::empty());
        assert forall|i: int| 0 <= i < NUM_BLOCKHASHES implies context_ok(#[trigger] f.bh[i]) by {
            if i != s.bh_end {
                assert(f.bh[i] == s.bh[i]);
            }
        }
    }
}

proof fn lemma_write_chars_ok(s: HasherView, j: int)
    requires
        state_ok(s),
        0 <= j < s.bh_end,
    ensures
        state_ok(write_chars(s, j)),
{
    let b = s.bh[j];
    assert(context_ok(b));
    lemma_base64_char(b.h as int % 64);
    lemma_base64_char(b.half_h as int % 64);
    let w = write_chars(s, j);
    let b1 = w.bh[j];
    assert(b1.digest.take(b.d_len as int) =~= b.digest.take(b.d_len as int));
    assert forall|i: int| 0 <= i < NUM_BLOCKHASHES implies context_ok(#[trigger] w.bh[i]) by {
        if i != j {
            assert(w.bh[i] == s.bh[i]);
        }
    }
}

proof fn lemma_emit_ok(s: HasherView, j: int)
    requires
        state_ok(s),
        0 <= j < s.bh_end,
    ensures
        state_ok(emit(s, j)),
        state_ok(write_chars(if s.bh[j].d_len == 0 { fork(s) } else { s }, j)),
        emit(s, j).bh_end >= s.bh_end,
        emit(s, j).total_size == s.total_size,
        emit(s, j).window == s.window,
{
    let s1 = if s.bh[j].d_len == 0 { fork(s) } else { s };
    lemma_fork_ok(s);
    lemma_write_chars_ok(s1, j);
    let w = write_chars(s1, j);
    let b1 = w.bh[j];
    if s1.bh[j].d_len < SPAM_SUM_LENGTH - 1 {
        let b2 = reset_view(b1, false);
        assert(b1.digest[b1.d_len as int] == base64_char(s1.bh[j].h as int % 64));
        lemma_base64_char(s1.bh[j].h as int % 64);
        assert(b2.digest.take(b2.d_len as int) =~= b1.digest.take(b1.d_len + 1));
        assert(context_ok(b2));
        let s2 = HasherView { bh: w.bh.update(j, b2), ..w };
        assert forall|i: int| 0 <= i < NUM_BLOCKHASHES implies context_ok(#[trigger] s2.bh[i]) by {
            if i != j {
                assert(s2.bh[i] == w.bh[i]);
            }
        }
    }
}

proof fn lemma_trigger_from_ok(s: HasherView, h: u32, j: int)
    requires
        state_ok(s),
    ensures
        state_ok(trigger_from(s, h, j)),
        trigger_from(s, h, j).total_size == s.total_size,
        trigger_from(s, h, j).window == s.window,
    decreases NUM_BLOCKHASHES - j,
{
    if 0 <= j < s.bh_end && j < NUM_BLOCKHASHES && triggers(h, j) {
        lemma_emit_ok(s, j);
        lemma_trigger_from_ok(emit(s, j), h, j + 1);
    }
}

proof fn lemma_advance_ok(s: HasherView, c: u8)
    requires
        state_ok(s),
    ensures
        state_ok(advance(s, c)),
{
    let a = advance(s, c);
    assert forall|i: int| 0 <= i < NUM_BLOCKHASHES implies context_ok(#[trigger] a.bh[i]) by {
        assert(context_ok(s.bh[i]));
    }
}

proof fn lemma_step_ok(s: HasherView, c: u8)
    requires
        state_ok(s),
    ensures
        state_ok(step(s, c)),
        step(s, c).total_size == s.total_size,
{
    let a = advance(s, c);
    lemma_advance_ok(s, c);
    lemma_trigger_from_ok(a, window_hash(slide(s.window, c)), s.bh_start as int);
}

proof fn lemma_feed_ok(s: HasherView, bytes: Seq<u8>)
    requires
        state_ok(s),
    ensures
        state_ok(feed(s, bytes)),
        feed(s, bytes).total_size == s.total_size,
    decreases bytes.len(),
{
    if bytes.len() > 0 {
        lemma_feed_ok(s, bytes.drop_last());
        lemma_step_ok(feed(s, bytes.drop_last()), bytes.last());
    }
}

/// The block size of ladder index `i`.
fn block_size_of(i: u32) -> (r: u32)
    requires
        i < NUM_BLOCKHASHES,
    ensures
        r == block_size(i as int),
        r >= MIN_BLOCK_SIZE,
{
    proof {
        vstd::arithmetic::power2::lemma_pow2_pos(i as nat);
        lemma2_to64();
        if i < 30 {
            lemma_pow2_strictly_increases(i as nat, 30);
        }
        vstd::bits::lemma_u32_shl_is_mul(MIN_BLOCK_SIZE, i);
    }
    MIN_BLOCK_SIZE << i
}

/// Whether the rolling sum `h` triggers at ladder index `j`.
fn triggered(h: u32, j: u32) -> (r: bool)
    requires
        j < NUM_BLOCKHASHES,
    ensures
        r == triggers(h, j as int),
{
    let bs = block_size_of(j);
    h % bs == bs - 1
}

/// The first `n` bytes of `v`.
fn prefix(v: &Vec<u8>, n: usize) -> (r: Vec<u8>)
    requires
        n <= v.len(),
    ensures
        r@ == v@.take(n as int),
{
    let mut r: Vec<u8> = Vec::new();
    let mut i: usize = 0;
    while i < n
        invariant
            n <= v.len(),
            i <= n,
            r@ == v@.take(i as int),
        decreases n - i,
    {
        r.push(v[i]);
        i += 1;
        assert(r@ =~= v@.take(i as int));
    }
    r
}

/// The first `n` characters of a signature, with runs taken out when eliminating.
fn signature_body(b: &Context, n: usize, elim: bool) -> (r: Vec<u8>)
    requires
        n <= b.digest@.len(),
    ensures
        r@ == body_of(b@, n as int, elim),
{
    let raw = prefix(&b.digest, n);
    if elim {
        eliminate_sequences(raw.as_slice())
    } else {
        raw
    }
}

/// Appends `c` to `body` unless eliminating sequences and `body` already ends in three `c`.
fn push_tail(body: &mut Vec<u8>, c: u8, elim: bool)
    ensures
        final(body)@ == tail(old(body)@, c, elim),
{
    let n = body.len();
    if !elim || n < 3 || body[n - 1] != c || body[n - 2] != c || body[n - 3] != c {
        body.push(c);
    }
}

/// The fuzzy hasher
pub struct Hasher {
    bh_start: u32,
    bh_end: u32,
    bh: Vec<Context>,
    total_size: u64,
    roll: Roll,
}

impl View for Hasher {
    type V = HasherView;

    closed spec fn view(&self) -> HasherView {
        HasherView {
            bh_start: self.bh_start,
            bh_end: self.bh_end,
            bh: self.bh@.map_values(|b: Context| b@),
            total_size: self.total_size,
            window: self.roll@,
        }
    }
}

impl Hasher {
    /// The ladder has all its contexts, the rolling hash is consistent, and the state
    /// satisfies `state_ok`.
    pub closed spec fn wf(&self) -> bool {
        &&& self.bh@.len() == NUM_BLOCKHASHES
        &&& forall|i: int| 0 <= i < NUM_BLOCKHASHES ==> (#[trigger] self.bh@[i]).wf()
        &&& self.roll.wf()
        &&& state_ok(self@)
    }

    /// Build a new fuzzy hasher
    pub fn new() -> (r: Hasher)
        ensures
            r.wf(),
            r@ == initial_state(),
    {
        let mut bh: Vec<Context> = Vec::new();
        let mut i: u32 = 0;
        while i < NUM_BLOCKHASHES
            invariant
                i <= NUM_BLOCKHASHES,
                bh@.len() == i,
                forall|k: int| 0 <= k < i ==> (#[trigger] bh@[k]).wf() && bh@[k]@ == blank_context(),
            decreases NUM_BLOCKHASHES - i,
        {
            bh.push(Context::new());
            i += 1;
        }
        let mut h = Hasher { bh_start: 0, bh_end: 1, bh, total_size: 0, roll: Roll::new() };
        h.bh[0].reset(true);
        proof {
            assert(h@.bh =~= initial_state().bh);
            lemma_updates_keep_state_ok(initial_state(), Seq::empty(), 0);
        }
        h
    }

    fn try_fork_blockhash(&mut self)
        requires
            old(self).wf(),
        ensures
            final(self).wf(),
            final(self)@ == fork(old(self)@),
    {
        proof {
            lemma_fork_ok(self@);
        }
        if self.bh_end < NUM_BLOCKHASHES {
            let e = self.bh_end as usize;
            let h = self.bh[e - 1].h;
            let half_h = self.bh[e - 1].half_h;
            self.bh[e].h = h;
            self.bh[e].half_h = half_h;
            self.bh[e].digest.set(0, 0);
            self.bh[e].half_digest = 0;
            self.bh[e].d_len = 0;
            self.bh_end += 1;
            assert(self@.bh =~= fork(old(self)@).bh);
        }
    }

    fn try_reduce_blockhash(&mut self)
        requires
            old(self).wf(),
        ensures
            final(self).wf(),
            final(self)@ == retire(old(self)@),
    {
        if self.bh_end - self.bh_start < 2 {
            return;
        }
        if block_size_of(self.bh_start) as u64 * SPAM_SUM_LENGTH as u64 >= self.total_size {
            return;
        }
        if self.bh[(self.bh_start + 1) as usize].d_len < SPAM_SUM_LENGTH / 2 {
            return;
        }
        self.bh_start += 1;
    }

    /// Ends a block at ladder index `j`.
    fn emit_at(&mut self, j: u32)
        requires
            old(self).wf(),
            j < old(self).bh_end,
        ensures
            final(self).wf(),
            final(self)@ == emit(old(self)@, j as int),
    {
        proof {
            lemma_emit_ok(self@, j as int);
        }
        let ju = j as usize;
        if self.bh[ju].d_len == 0 {
            self.try_fork_blockhash();
        }
        let pos = self.bh[ju].d_len as usize;
        let c = get_base64_char((self.bh[ju].h % 64) as usize);
        let half = get_base64_char((self.bh[ju].half_h % 64) as usize);
        self.bh[ju].digest.set(pos, c);
        self.bh[ju].half_digest = half;
        let ghost s1 = if old(self)@.bh[j as int].d_len == 0 { fork(old(self)@) } else { old(self)@ };
        assert(self@.bh =~= write_chars(s1, j as int).bh);
        if self.bh[ju].d_len < SPAM_SUM_LENGTH - 1 {
            self.bh[ju].reset(false);
            assert(self@.bh =~= emit(old(self)@, j as int).bh);
        } else {
            self.try_reduce_blockhash();
        }
    }

    fn engine_step(&mut self, c: u8)
        requires
            old(self).wf(),
        ensures
            final(self).wf(),
            final(self)@ == step(old(self)@, c),
    {
        self.roll.hash(c);
        let h = self.roll.sum();
        let ghost before = old(self)@;
        let mut i = self.bh_start;
        while i < self.bh_end
            invariant
                before == old(self)@,
                state_ok(before),
                self.bh_start == before.bh_start,
                self.bh_end == before.bh_end,
                self.total_size == before.total_size,
                self.roll.wf(),
                self.roll@ == slide(before.window, c),
                self.bh@.len() == NUM_BLOCKHASHES,
                forall|k: int| 0 <= k < NUM_BLOCKHASHES ==> (#[trigger] self.bh@[k]).wf(),
                before.bh_start <= i <= before.bh_end,
                forall|k: int|
                    0 <= k < NUM_BLOCKHASHES ==> (#[trigger] self.bh@[k])@ == (if before.bh_start <= k
                        < i {
                        hash_view(before.bh[k], c)
                    } else {
                        before.bh[k]
                    }),
            decreases before.bh_end - i,
        {
            self.bh[i as usize].hash(c);
            i += 1;
        }
        proof {
            assert(self@.bh =~= advance(before, c).bh);
            lemma_advance_ok(before, c);
        }
        let mut j = self.bh_start;
        while j < self.bh_end && triggered(h, j)
            invariant
                self.wf(),
                j <= self.bh_end,
                h == window_hash(slide(before.window, c)),
                trigger_from(self@, h, j as int) == step(before, c),
            decreases NUM_BLOCKHASHES - j,
        {
            self.emit_at(j);
            j += 1;
        }
    }

    /// Add data to the `Hasher`.
    pub fn update(&mut self, buffer: &[u8], len: usize)
        requires
            old(self).wf(),
        ensures
            final(self).wf(),
            final(self)@ == update_spec(old(self)@, buffer@, len as int),
    {
        self.total_size = self.total_size.saturating_add(len as u64);
        let n = if len < buffer.len() {
            len
        } else {
            buffer.len()
        };
        let ghost start = self@;
        let mut i: usize = 0;
        assert(buffer@.take(0) =~= Seq::<u8>::empty());
        while i < n
            invariant
                self.wf(),
                n <= buffer.len(),
                i <= n,
                self@ == feed(start, buffer@.take(i as int)),
            decreases n - i,
        {
            assert(buffer@.take(i + 1).drop_last() =~= buffer@.take(i as int));
            self.engine_step(buffer[i]);
            i += 1;
        }
    }

    /// The ladder index whose block size the digest reports.
    fn select_index(&self) -> (r: u32)
        requires
            self.wf(),
        ensures
            r == chosen_index(self@),
            self@.bh_start <= r < self@.bh_end,
    {
        let mut bi = self.bh_start;
        while bi < NUM_BLOCKHASHES && (block_size_of(bi) as u64) * (SPAM_SUM_LENGTH as u64)
            < self.total_size
            invariant
                self.wf(),
                self.bh_start <= bi <= NUM_BLOCKHASHES,
                climb(bi as int, self.total_size as int) == climb(
                    self.bh_start as int,
                    self.total_size as int,
                ),
            decreases NUM_BLOCKHASHES - bi,
        {
            bi += 1;
        }
        if bi >= self.bh_end {
            bi = self.bh_end - 1;
        }
        let ghost clamped = bi;
        while bi > self.bh_start && self.bh[bi as usize].d_len < SPAM_SUM_LENGTH / 2
            invariant
                self.wf(),
                self.bh_start <= bi < self.bh_end,
                descend(self@, bi as int) == descend(self@, clamped as int),
            decreases bi,
        {
            bi -= 1;
        }
        bi
    }

    /// The bytes of the hash.
    fn digest_bytes(&self, flags: Modes) -> (r: Vec<u8>)
        requires
            self.wf(),
        ensures
            r@ == digest_spec(self@, flags),
    {
        let elim = matches!(flags, Modes::EliminateSequences);
        let full = matches!(flags, Modes::DoNotTruncate);
        let h = self.roll.sum();
        let bi = self.select_index();
        let ghost s = self@;
        assert(context_ok(s.bh[bi as int]));
        let mut result: Vec<u8> = Vec::new();
        push_decimal(block_size_of(bi), &mut result);
        result.push(SEPARATOR);

        let b = &self.bh[bi as usize];
        let mut sig1 = signature_body(b, b.d_len as usize, elim);
        if h != 0 {
            push_tail(&mut sig1, get_base64_char((b.h % 64) as usize), elim);
        } else if b.digest[b.d_len as usize] != 0 {
            push_tail(&mut sig1, b.digest[b.d_len as usize], elim);
        }
        assert(sig1@ == first_signature(s, bi as int, flags));
        result.append(&mut sig1);
        result.push(SEPARATOR);

        let mut sig2: Vec<u8> = Vec::new();
        if bi < self.bh_end - 1 {
            let b2 = &self.bh[(bi + 1) as usize];
            assert(context_ok(s.bh[bi + 1]));
            let mut n = b2.d_len as usize;
            if !full && n > (SPAM_SUM_LENGTH / 2 - 1) as usize {
                n = (SPAM_SUM_LENGTH / 2 - 1) as usize;
            }
            sig2 = signature_body(b2, n, elim);
            if h != 0 {
                let v = if full {
                    b2.h
                } else {
                    b2.half_h
                };
                push_tail(&mut sig2, get_base64_char((v % 64) as usize), elim);
            } else {
                let c = if full {
                    b2.digest[b2.d_len as usize]
                } else {
                    b2.half_digest
                };
                if c != 0 {
                    push_tail(&mut sig2, c, elim);
                }
            }
        } else if h != 0 {
            sig2.push(get_base64_char((b.h % 64) as usize));
            assert(sig2@ =~= seq![base64_char(b.h as int % 64)]);
        }
        assert(sig2@ == second_signature(s, bi as int, flags));
        result.append(&mut sig2);
        result
    }

    /// Compute the hash of the data and return a `String` representation
    pub fn digest(&self, flags: Modes) -> (r: String)
        requires
            self.wf(),
        ensures
            r@ == digest_spec(self@, flags).map_values(|b: u8| b as char),
            bytes_of(r@) == digest_spec(self@, flags),
            well_formed_hash(bytes_of(r@)),
            reports_ladder_size(bytes_of(r@)),
    {
        let bytes = self.digest_bytes(flags);
        proof {
            lemma_digest_well_formed(self@, flags);
            lemma_ascii_bytes(bytes@);
        }
        ascii_string(bytes)
    }
}

impl Default for Hasher {
    fn default() -> (r: Self)
        ensures
            r.wf(),
            r@ == initial_state(),
    {
        Self::new()
    }
}

} // verus!
