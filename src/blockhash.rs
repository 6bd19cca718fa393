use vstd::prelude::*;

use crate::constants::SPAM_SUM_LENGTH;
use crate::roll::word;

verus! {

/// Multiplier of the block hash.
pub const HASH_PRIME: u32 = 0x01000193;

/// Value of the block hash after every reset.
pub const HASH_INIT: u32 = 0x28021967;

/// One step of the block hash: multiply by `HASH_PRIME` modulo 2^32, then xor in the byte.
pub open spec fn fnv_step(h: u32, c: u8) -> u32 {
    (((h as int * HASH_PRIME as int) % word()) as u32) ^ (c as u32)
}

/// What a context holds, with its digest buffer as a sequence.
pub struct ContextView {
    pub h: u32,
    pub half_h: u32,
    pub digest: Seq<u8>,
    pub half_digest: u8,
    pub d_len: u32,
}

/// The context after byte `c`: both accumulators take one step.
pub open spec fn hash_view(v: ContextView, c: u8) -> ContextView {
    ContextView { h: fnv_step(v.h, c), half_h: fnv_step(v.half_h, c), ..v }
}

/// The context after a reset. Unless `init`, the current character is kept and `d_len` moves
/// past it. The slot at `d_len` is cleared and `h` starts over; while the signature is still
/// in its first half, so do `half_h` and `half_digest`.
pub open spec fn reset_view(v: ContextView, init: bool) -> ContextView {
    let d_len: u32 = if init { v.d_len } else { (v.d_len + 1) as u32 };
    let restart_half = d_len < SPAM_SUM_LENGTH / 2;
    ContextView {
        h: HASH_INIT,
        half_h: if restart_half { HASH_INIT } else { v.half_h },
        digest: v.digest.update(d_len as int, 0u8),
        half_digest: if restart_half { 0u8 } else { v.half_digest },
        d_len,
    }
}

/// The block hash of one block size: two accumulators and the signature built so far.
#[derive(Clone)]
pub struct Context {
    pub h: u32,
    pub half_h: u32,
    pub digest: Vec<u8>,
    pub half_digest: u8,
    pub d_len: u32,
}

impl View for Context {
    type V = ContextView;

    open spec fn view(&self) -> ContextView {
        ContextView {
            h: self.h,
            half_h: self.half_h,
            digest: self.digest@,
            half_digest: self.half_digest,
            d_len: self.d_len,
        }
    }
}

impl Context {
    /// The digest buffer has room for a full signature and `d_len` points into it.
    pub open spec fn wf(&self) -> bool {
        self.digest@.len() == SPAM_SUM_LENGTH && self.d_len < SPAM_SUM_LENGTH
    }

    pub fn new() -> (r: Context)
        ensures
            r.wf(),
            r@ == (ContextView {
                h: 0,
                half_h: 0,
                digest: Seq::new(SPAM_SUM_LENGTH as nat, |k: int| 0u8),
                half_digest: 0,
                d_len: 0,
            }),
    {
        let r = Context {
            h: 0,
            half_h: 0,
            digest: vec![0u8; SPAM_SUM_LENGTH as usize],
            half_digest: 0,
            d_len: 0,
        };
        assert(r.digest@ =~= Seq::new(SPAM_SUM_LENGTH as nat, |k: int| 0u8));
        r
    }

    pub fn hash(&mut self, c: u8)
        ensures
            final(self)@ == hash_view(old(self)@, c),
    {
        let h1 = self.h;
        self.h = self.hash_full(c, h1);
        let h2 = self.half_h;
        self.half_h = self.hash_full(c, h2);
    }

    pub fn hash_full(&self, c: u8, h: u32) -> (r: u32)
        ensures
            r == fnv_step(h, c),
    {
        h.wrapping_mul(HASH_PRIME) ^ (c as u32)
    }

    pub fn reset(&mut self, init: bool)
        requires
            old(self).wf(),
            !init ==> old(self).d_len + 1 < SPAM_SUM_LENGTH,
        ensures
            final(self).wf(),
            final(self)@ == reset_view(old(self)@, init),
    {
        if !init {
            self.d_len += 1;
        }
        self.digest.set(self.d_len as usize, 0);
        self.h = HASH_INIT;
        if self.d_len < SPAM_SUM_LENGTH / 2 {
            self.half_h = HASH_INIT;
            self.half_digest = 0;
        }
    }
}

} // verus!
