use vstd::prelude::*;

use crate::constants::ROLLING_WINDOW;

verus! {

/// Modulus of the 32-bit accumulators.
pub open spec fn word() -> int {
    0x1_0000_0000
}

/// The seven bytes a fresh rolling hash holds.
pub open spec fn empty_window() -> Seq<u8> {
    Seq::new(7, |k: int| 0u8)
}

/// Sum of a window (oldest byte first).
pub open spec fn window_sum(w: Seq<u8>) -> int {
    w[0] + w[1] + w[2] + w[3] + w[4] + w[5] + w[6]
}

/// Sum of a window where the `k`-th oldest byte counts `k + 1` times.
pub open spec fn window_weighted(w: Seq<u8>) -> int {
    w[0] + 2 * w[1] + 3 * w[2] + 4 * w[3] + 5 * w[4] + 6 * w[5] + 7 * w[6]
}

/// Shift register: each value is xored in after the earlier ones moved five bits left.
pub open spec fn shift_mix(a: u32, b: u32, c: u32, d: u32, e: u32, f: u32, g: u32) -> u32 {
    ((((((((((((a << 5u32) ^ b) << 5u32) ^ c) << 5u32) ^ d) << 5u32) ^ e) << 5u32) ^ f)
        << 5u32) ^ g)
}

/// The shift register over a window.
pub open spec fn window_shift(w: Seq<u8>) -> u32 {
    shift_mix(w[0] as u32, w[1] as u32, w[2] as u32, w[3] as u32, w[4] as u32, w[5] as u32, w[6] as u32)
}

/// The rolling hash of a window: its sum, weighted sum and shift register, added modulo 2^32.
pub open spec fn window_hash(w: Seq<u8>) -> u32 {
    ((window_sum(w) + window_weighted(w) + window_shift(w)) % word()) as u32
}

/// The window after byte `c` enters: the oldest byte leaves, `c` becomes the newest.
pub open spec fn slide(w: Seq<u8>, c: u8) -> Seq<u8> {
    w.subrange(1, 7).push(c)
}

/// The window of a fresh rolling hash after the bytes of `s` were fed in order.
pub open spec fn window_after(s: Seq<u8>) -> Seq<u8>
    decreases s.len(),
{
    if s.len() == 0 {
        empty_window()
    } else {
        slide(window_after(s.drop_last()), s.last())
    }
}

/// The last seven bytes of `s`, with zeros in front when `s` is shorter.
pub open spec fn last_seven(s: Seq<u8>) -> Seq<u8> {
    Seq::new(7, |k: int| if s.len() - 7 + k >= 0 { s[s.len() - 7 + k] } else { 0u8 })
}

proof fn lemma_shift_slide(a: u32, b: u32, c: u32, d: u32, e: u32, f: u32, g: u32, x: u32)
    by (bit_vector)
    ensures
        (shift_mix(a, b, c, d, e, f, g) << 5u32) ^ x == shift_mix(b, c, d, e, f, g, x),
{
}

/// The window after feeding `s` holds the last seven bytes of `s`.
pub proof fn lemma_window_after(s: Seq<u8>)
    ensures
        window_after(s) == last_seven(s),
    decreases s.len(),
{
    if s.len() == 0 {
        assert(window_after(s) =~= last_seven(s));
    } else {
        lemma_window_after(s.drop_last());
        assert(window_after(s) =~= last_seven(s));
    }
}

/// After fewer than seven bytes the rolling hash depends on those bytes alone: its window is
/// the bytes behind as many zeros as are missing.
pub proof fn lemma_short_stream(s: Seq<u8>)
    requires
        s.len() < 7,
    ensures
        window_after(s) == Seq::new((7 - s.len()) as nat, |k: int| 0u8) + s,
        window_hash(window_after(s)) == window_hash(Seq::new((7 - s.len()) as nat, |k: int| 0u8) + s),
{
    lemma_window_after(s);
    assert(window_after(s) =~= Seq::new((7 - s.len()) as nat, |k: int| 0u8) + s);
}

/// Two streams that end in the same seven bytes leave the rolling hash with the same sum.
pub proof fn lemma_sum_depends_on_last_seven(s: Seq<u8>, t: Seq<u8>)
    requires
        s.len() >= 7,
        t.len() >= 7,
        s.subrange(s.len() - 7, s.len() as int) == t.subrange(t.len() - 7, t.len() as int),
    ensures
        window_hash(window_after(s)) == window_hash(window_after(t)),
{
    lemma_window_after(s);
    lemma_window_after(t);
    assert forall|k: int| 0 <= k < 7 implies last_seven(s)[k] == last_seven(t)[k] by {
        assert(s.subrange(s.len() - 7, s.len() as int)[k] == s[s.len() - 7 + k]);
        assert(t.subrange(t.len() - 7, t.len() as int)[k] == t[t.len() - 7 + k]);
    }
    assert(last_seven(s) =~= last_seven(t));
}

/// The rolling hash over a seven-byte window.
pub struct Roll {
    h1: u32,
    h2: u32,
    h3: u32,
    /// Slot of `window` that holds the oldest byte.
    n: u32,
    window: Vec<u8>,
}

impl View for Roll {
    type V = Seq<u8>;

    /// The window, oldest byte first.
    closed spec fn view(&self) -> Seq<u8> {
        Seq::new(7, |k: int| self.window@[(self.n + k) % 7])
    }
}

impl Roll {
    /// The accumulators agree with the window.
    pub closed spec fn wf(&self) -> bool {
        &&& self.window@.len() == 7
        &&& self.n < 7
        &&& self.h1 == window_sum(self@) % word()
        &&& self.h2 == window_weighted(self@) % word()
        &&& self.h3 == window_shift(self@)
    }

    pub fn sum(&self) -> (r: u32)
        requires
            self.wf(),
        ensures
            r == window_hash(self@),
    {
        let r = self.h3.wrapping_add(self.h1.wrapping_add(self.h2));
        proof {
            lemma_sum_of_parts(self@);
        }
        r
    }

    pub fn hash(&mut self, c: u8)
        requires
            old(self).wf(),
        ensures
            final(self).wf(),
            final(self)@ == slide(old(self)@, c),
    {
        let ghost w = self@;
        let pos = self.n as usize;
        let leaving = self.window[pos];
        assert(leaving == w[0]);
        self.h2 = self.h2.wrapping_sub(self.h1).wrapping_add(7 * (c as u32));
        self.h1 = self.h1.wrapping_add(c as u32).wrapping_sub(leaving as u32);
        self.window.set(pos, c);
        self.n = if self.n == 6 { 0 } else { self.n + 1 };
        self.h3 = (self.h3 << 5u32) ^ (c as u32);
        proof {
            lemma_ring_slide(old(self).window@, old(self).n, c);
            lemma_hash_step(old(self).h1, old(self).h2, old(self).h3, w, c);
        }
    }

    pub fn new() -> (r: Roll)
        ensures
            r.wf(),
            r@ == empty_window(),
    {
        let r = Roll { h1: 0, h2: 0, h3: 0, n: 0, window: vec![0u8; ROLLING_WINDOW] };
        proof {
            assert(r@ =~= empty_window());
            assert(shift_mix(0, 0, 0, 0, 0, 0, 0) == 0) by (bit_vector);
        }
        r
    }
}

proof fn lemma_ring_slide(window: Seq<u8>, n: u32, c: u8)
    requires
        window.len() == 7,
        n < 7,
    ensures
        Seq::new(7, |k: int| window.update(n as int, c)[((if n == 6 { 0 } else { n + 1 }) + k) % 7])
            == slide(Seq::new(7, |k: int| window[(n + k) % 7]), c),
{
    let n2: int = if n == 6 { 0 } else { n + 1 };
    let a = Seq::new(7, |k: int| window.update(n as int, c)[(n2 + k) % 7]);
    let b = slide(Seq::new(7, |k: int| window[(n + k) % 7]), c);
    assert forall|k: int| 0 <= k < 7 implies a[k] == b[k] by {
        if k == 6 {
            assert((n2 + k) % 7 == n);
        } else {
            assert((n2 + k) % 7 == (n + k + 1) % 7);
            assert((n2 + k) % 7 != n);
        }
    }
    assert(a =~= b);
}

proof fn lemma_wrapping_add(a: int, y: int)
    requires
        0 <= y <= u32::MAX,
    ensures
        vstd::wrapping::u32_specs::wrapping_add((a % word()) as u32, y as u32) == (a + y) % word(),
{
    vstd::arithmetic::div_mod::lemma_add_mod_noop(a, y, word());
    vstd::arithmetic::div_mod::lemma_small_mod(y as nat, word() as nat);
    vstd::arithmetic::div_mod::lemma_mod_bound(a, word());
    let s = a % word() + y;
    if s >= word() {
        vstd::arithmetic::div_mod::lemma_mod_sub_multiples_vanish(s, word());
        vstd::arithmetic::div_mod::lemma_small_mod((s - word()) as nat, word() as nat);
    } else {
        vstd::arithmetic::div_mod::lemma_small_mod(s as nat, word() as nat);
    }
}

proof fn lemma_wrapping_sub(a: int, y: int)
    requires
        0 <= y <= u32::MAX,
    ensures
        vstd::wrapping::u32_specs::wrapping_sub((a % word()) as u32, (y % word()) as u32) == (a - y) % word(),
{
    vstd::arithmetic::div_mod::lemma_sub_mod_noop(a, y, word());
    vstd::arithmetic::div_mod::lemma_small_mod(y as nat, word() as nat);
    vstd::arithmetic::div_mod::lemma_mod_bound(a, word());
    let s = a % word() - y;
    if s < 0 {
        vstd::arithmetic::div_mod::lemma_mod_add_multiples_vanish(s, word());
        vstd::arithmetic::div_mod::lemma_small_mod((s + word()) as nat, word() as nat);
    } else {
        vstd::arithmetic::div_mod::lemma_small_mod(s as nat, word() as nat);
    }
}

proof fn lemma_sum_of_parts(w: Seq<u8>)
    requires
        w.len() == 7,
    ensures
        vstd::wrapping::u32_specs::wrapping_add(
            window_shift(w),
            vstd::wrapping::u32_specs::wrapping_add(
                (window_sum(w) % word()) as u32,
                (window_weighted(w) % word()) as u32,
            ),
        ) == window_hash(w),
{
    let a = window_sum(w);
    let b = window_weighted(w);
    let c = window_shift(w) as int;
    vstd::arithmetic::div_mod::lemma_mod_bound(b, word());
    lemma_wrapping_add(a, b % word());
    vstd::arithmetic::div_mod::lemma_add_mod_noop_right(a, b, word());
    vstd::arithmetic::div_mod::lemma_mod_bound(a + b, word());
    vstd::arithmetic::div_mod::lemma_small_mod(c as nat, word() as nat);
    lemma_wrapping_add(c, (a + b) % word());
    vstd::arithmetic::div_mod::lemma_add_mod_noop_right(c, a + b, word());
    assert(c + (a + b) == a + b + c);
}

proof fn lemma_hash_step(h1: u32, h2: u32, h3: u32, w: Seq<u8>, c: u8)
    requires
        w.len() == 7,
        h1 == window_sum(w) % word(),
        h2 == window_weighted(w) % word(),
        h3 == window_shift(w),
    ensures
        vstd::wrapping::u32_specs::wrapping_add(
            vstd::wrapping::u32_specs::wrapping_sub(h2, h1),
            (7 * c) as u32,
        ) == window_weighted(slide(w, c)) % word(),
        vstd::wrapping::u32_specs::wrapping_sub(
            vstd::wrapping::u32_specs::wrapping_add(h1, c as u32),
            w[0] as u32,
        ) == window_sum(slide(w, c)) % word(),
        (h3 << 5u32) ^ (c as u32) == window_shift(slide(w, c)),
{
    let s = window_sum(w);
    let v = window_weighted(w);
    lemma_slide_sums(w, c);
    lemma_wrapping_sub(v, s);
    lemma_wrapping_add(v - s, 7 * c);
    lemma_wrapping_add(s, c as int);
    vstd::arithmetic::div_mod::lemma_small_mod(w[0] as nat, word() as nat);
    lemma_wrapping_sub(s + c, w[0] as int);
    lemma_shift_slide(
        w[0] as u32, w[1] as u32, w[2] as u32, w[3] as u32, w[4] as u32, w[5] as u32,
        w[6] as u32, c as u32,
    );
}

proof fn lemma_slide_sums(w: Seq<u8>, c: u8)
    requires
        w.len() == 7,
    ensures
        window_sum(slide(w, c)) == window_sum(w) - w[0] + c,
        window_weighted(slide(w, c)) == window_weighted(w) - window_sum(w) + 7 * c,
{
}

} // verus!
