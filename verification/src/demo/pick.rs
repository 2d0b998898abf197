//! Choices by chance.
use vstd::prelude::*;

use crate::context::Ctx;
use crate::flt::convert;
use crate::flt::{Flt, TWO53};
use crate::rng;
use crate::world::{World, WorldView};

verus! {

impl WorldView {
    /// After one of `len` choices was picked by chance, and which.
    pub open spec fn picked(self, ctx: u64, len: int) -> (WorldView, int) {
        let (w, x) = self.drawn(ctx);
        (w, x.times(convert::of_nat(len)).whole())
    }
}

/// What is picked is one of the choices.
pub proof fn pick_is_a_choice(w: WorldView, ctx: u64, len: int)
    requires
        0 < len < TWO53,
    ensures
        0 <= w.picked(ctx, len).1 < len,
{
    let draw = rng::mixed(rng::advanced(w.rngs[w.ctxs[ctx].rng]));
    let x = rng::unit(draw).times(convert::of_nat(len));
    assert(x.whole() < len) by {
        rng::scaled_draw_stays_below(draw, len);
    }
    assert(x.whole() >= 0) by {
        x.lemma_whole();
    }
    assert(w.picked(ctx, len).1 == x.whole());
}

/// Picks one of `len` choices by chance.
pub fn pick(w: &mut World, ctx: &Ctx, len: u64) -> (r: u64)
    requires
        ctx.alive(old(w)),
        0 < len < TWO53,
    ensures
        ctx.alive(final(w)),
        final(w)@ == old(w)@.picked(ctx.id, len as int).0,
        r == old(w)@.picked(ctx.id, len as int).1,
        r < len,
{
    proof {
        pick_is_a_choice(w@, ctx.id, len as int);
    }
    let x: Flt = ctx.random(w);
    x.product(Flt::from_u64(len)).trunc_u64()
}

} // verus!
