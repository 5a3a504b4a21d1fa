//! Collapse and expansion of a residual state of `n_hc` channels per token.
//!
//! The state is stored token by token, and within a token channel by channel.
use crate::exact::{lemma_sum_same, lemma_sum_start, lossless, plain_sum};
use crate::rows::{fill_grid, GridWork};
use crate::scalar::{sum_from, whole, Scalar, Storage};
use crate::tensor::{cell, filled2, lemma_flat, read};
use vstd::prelude::*;

verus! {

/// The channels of element `d` of token `t`, each under its weight.
pub open spec fn channel_terms<A: Scalar, T: Storage<A>>(
    state: Seq<T>,
    weights: Seq<A>,
    hidden: int,
    n_hc: int,
    t: int,
    at: int,
    d: int,
) -> spec_fn(int) -> A {
    |c: int|
        cell(weights, n_hc, at, c).times_spec(cell(state, hidden, t * n_hc + c, d).widen_spec())
}

/// The collapsed state: `x[t, d] = sum_c pre[t, c] * H[t, c, d]`.
pub open spec fn collapsed<A: Scalar, T: Storage<A>>(
    state: Seq<T>,
    pre: Seq<A>,
    hidden: int,
    n_hc: int,
) -> spec_fn(int, int) -> T {
    |t: int, d: int|
        T::narrow_spec(
            sum_from(
                whole(0),
                0,
                n_hc,
                channel_terms::<A, T>(state, pre, hidden, n_hc, t, t, d),
            ),
        )
}

/// The expanded state. Row `r` is channel `r % n_hc` of token `r / n_hc`:
/// `H'[t, dst, d] = y[t, d] * post[t, dst] + sum_src comb[t, dst, src] * H[t, src, d]`.
pub open spec fn expanded<A: Scalar, T: Storage<A>>(
    block_out: Seq<T>,
    post: Seq<A>,
    comb: Seq<A>,
    residual: Seq<T>,
    hidden: int,
    n_hc: int,
) -> spec_fn(int, int) -> T {
    |r: int, d: int|
        T::narrow_spec(
            sum_from(
                cell(block_out, hidden, r / n_hc, d).widen_spec().times_spec(post[r]),
                0,
                n_hc,
                channel_terms::<A, T>(residual, comb, hidden, n_hc, r / n_hc, r, d),
            ),
        )
}

/// Adds the weighted channels to `init`.
#[allow(clippy::too_many_arguments)]
#[verifier::loop_isolation(false)]
fn mix<A: Scalar, T: Storage<A>>(
    init: A,
    state: &[T],
    weights: &[A],
    hidden: usize,
    n_hc: usize,
    tokens: usize,
    weight_rows: Ghost<int>,
    t: usize,
    at: usize,
    d: usize,
) -> (r: A)
    requires
        t < tokens,
        at < weight_rows@,
        d < hidden,
        (tokens * n_hc) * hidden <= state@.len(),
        weight_rows@ * n_hc <= weights@.len(),
    ensures
        r == sum_from(
            init,
            0,
            n_hc as int,
            channel_terms::<A, T>(
                state@,
                weights@,
                hidden as int,
                n_hc as int,
                t as int,
                at as int,
                d as int,
            ),
        ),
{
    let ghost terms = channel_terms::<A, T>(
        state@,
        weights@,
        hidden as int,
        n_hc as int,
        t as int,
        at as int,
        d as int,
    );
    assert(state@.len() == state.len());
    let mut acc: A = init;
    let mut c: usize = 0;
    while c < n_hc
        invariant
            c <= n_hc,
            acc == sum_from(init, 0, c as int, terms),
        decreases n_hc - c,
    {
        proof {
            lemma_flat(tokens as int, n_hc as int, t as int, c as int);
            let all = tokens * n_hc;
            assert(all <= all * hidden) by (nonlinear_arith)
                requires
                    0 <= all,
                    1 <= hidden,
            ;
        }
        let w: A = read(weights, weight_rows, n_hc, at, c);
        let h: T = read(state, Ghost(tokens * n_hc), hidden, t * n_hc + c, d);
        acc = acc.plus(w.times(h.widen()));
        c = c + 1;
    }
    acc
}

struct Collapse<'a, A, T> {
    state: &'a [T],
    pre: &'a [A],
    hidden: usize,
    n_hc: usize,
    tokens: usize,
}

impl<'a, A: Scalar, T: Storage<A>> GridWork<T> for Collapse<'a, A, T> {
    closed spec fn ready(&self) -> bool {
        &&& (self.tokens * self.n_hc) * self.hidden <= self.state@.len()
        &&& self.tokens * self.n_hc <= self.pre@.len()
    }

    closed spec fn rows(&self) -> int {
        self.tokens as int
    }

    closed spec fn cols(&self) -> int {
        self.hidden as int
    }

    closed spec fn values(&self) -> spec_fn(int, int) -> T {
        collapsed::<A, T>(self.state@, self.pre@, self.hidden as int, self.n_hc as int)
    }

    fn at(&self, r: usize, c: usize) -> (v: T) {
        T::narrow(
            mix(
                A::dyadic(0, 0),
                self.state,
                self.pre,
                self.hidden,
                self.n_hc,
                self.tokens,
                Ghost(self.tokens as int),
                r,
                r,
                c,
            ),
        )
    }
}

/// Collapses the channels of every token under the weights `pre`.
pub fn iron_mhc_collapse<A: Scalar, T: Storage<A>>(
    state: &[T],
    pre: &[A],
    out: &mut Vec<T>,
    hidden_dim: u32,
    n_hc: u32,
    n_tokens: u32,
)
    requires
        (n_tokens * n_hc) * hidden_dim <= state@.len(),
        n_tokens * n_hc <= pre@.len(),
        n_tokens * hidden_dim <= old(out)@.len(),
        hidden_dim < u32::MAX,
    ensures
        filled2(
            old(out)@,
            final(out)@,
            n_tokens as int,
            hidden_dim as int,
            collapsed::<A, T>(state@, pre@, hidden_dim as int, n_hc as int),
        ),
{
    let work = Collapse {
        state,
        pre,
        hidden: hidden_dim as usize,
        n_hc: n_hc as usize,
        tokens: n_tokens as usize,
    };
    fill_grid(&work, out, n_tokens as usize, hidden_dim as usize, 1);
}

struct Expand<'a, A, T> {
    block_out: &'a [T],
    post: &'a [A],
    comb: &'a [A],
    residual: &'a [T],
    hidden: usize,
    n_hc: usize,
    tokens: usize,
}

impl<'a, A: Scalar, T: Storage<A>> GridWork<T> for Expand<'a, A, T> {
    closed spec fn ready(&self) -> bool {
        &&& (self.tokens * self.n_hc) * self.hidden <= self.residual@.len()
        &&& self.tokens * self.hidden <= self.block_out@.len()
        &&& self.tokens * self.n_hc <= self.post@.len()
        &&& (self.tokens * self.n_hc) * self.n_hc <= self.comb@.len()
    }

    closed spec fn rows(&self) -> int {
        self.tokens * self.n_hc
    }

    closed spec fn cols(&self) -> int {
        self.hidden as int
    }

    closed spec fn values(&self) -> spec_fn(int, int) -> T {
        expanded::<A, T>(
            self.block_out@,
            self.post@,
            self.comb@,
            self.residual@,
            self.hidden as int,
            self.n_hc as int,
        )
    }

    fn at(&self, r: usize, c: usize) -> (v: T) {
        proof {
            assert(self.n_hc > 0) by (nonlinear_arith)
                requires
                    r < self.tokens * self.n_hc,
                    r >= 0,
            ;
            let q = r as int / self.n_hc as int;
            vstd::arithmetic::div_mod::lemma_fundamental_div_mod(r as int, self.n_hc as int);
            assert(q < self.tokens) by (nonlinear_arith)
                requires
                    r == self.n_hc * q + r as int % self.n_hc as int,
                    0 <= r as int % self.n_hc as int,
                    r < self.tokens * self.n_hc,
                    self.n_hc > 0,
            ;
        }
        let t: usize = r / self.n_hc;
        let out: A = read(self.block_out, Ghost(self.tokens as int), self.hidden, t, c).widen();
        T::narrow(
            mix(
                out.times(self.post[r]),
                self.residual,
                self.comb,
                self.hidden,
                self.n_hc,
                self.tokens,
                Ghost(self.tokens * self.n_hc),
                t,
                r,
                c,
            ),
        )
    }
}

/// Expands the block outputs into the channels of every token and remixes the residual.
#[allow(clippy::too_many_arguments)]
pub fn iron_mhc_expand<A: Scalar, T: Storage<A>>(
    block_out: &[T],
    post: &[A],
    comb: &[A],
    residual_state: &[T],
    state: &mut Vec<T>,
    hidden_dim: u32,
    n_hc: u32,
    n_tokens: u32,
)
    requires
        (n_tokens * n_hc) * hidden_dim <= residual_state@.len(),
        n_tokens * hidden_dim <= block_out@.len(),
        n_tokens * n_hc <= post@.len(),
        (n_tokens * n_hc) * n_hc <= comb@.len(),
        (n_tokens * n_hc) * hidden_dim <= old(state)@.len(),
        hidden_dim < u32::MAX,
    ensures
        filled2(
            old(state)@,
            final(state)@,
            n_tokens * n_hc,
            hidden_dim as int,
            expanded::<A, T>(
                block_out@,
                post@,
                comb@,
                residual_state@,
                hidden_dim as int,
                n_hc as int,
            ),
        ),
{
    let work = Expand {
        block_out,
        post,
        comb,
        residual: residual_state,
        hidden: hidden_dim as usize,
        n_hc: n_hc as usize,
        tokens: n_tokens as usize,
    };
    assert(post@.len() == post.len());
    fill_grid(
        &work,
        state,
        n_tokens as usize * n_hc as usize,
        hidden_dim as usize,
        1,
    );
}

/// Element `d` of a collapsed token is the sum of the token's channels at `d`, each under its
/// weight.
#[allow(clippy::too_many_arguments)]
pub proof fn law_collapse<A: Scalar, T: Storage<A>>(
    state: Seq<T>,
    pre: Seq<A>,
    before: Seq<T>,
    out: Seq<T>,
    hidden: int,
    n_hc: int,
    tokens: int,
    t: int,
    d: int,
    p: spec_fn(int) -> A,
    h: spec_fn(int) -> A,
)
    requires
        filled2(before, out, tokens, hidden, collapsed::<A, T>(state, pre, hidden, n_hc)),
        0 <= t < tokens,
        0 <= d < hidden,
        forall|c: int| 0 <= c < n_hc ==> pre[t * n_hc + c] == #[trigger] p(c),
        forall|c: int|
            0 <= c < n_hc ==> state[(t * n_hc + c) * hidden + d].widen_spec() == #[trigger] h(c),
    ensures
        out[t * hidden + d] == T::narrow_spec(
            plain_sum(n_hc, |c: int| p(c).times_spec(h(c))),
        ),
{
    let terms = channel_terms::<A, T>(state, pre, hidden, n_hc, t, t, d);
    let plain = |c: int| p(c).times_spec(h(c));
    assert forall|c: int| 0 <= c < n_hc implies #[trigger] terms(c) == plain(c) by {
        assert(pre[t * n_hc + c] == p(c));
        assert(Storage::<A>::widen_spec(state[(t * n_hc + c) * hidden + d]) == h(c));
    }
    lemma_sum_same(whole(0), 0, n_hc, terms, plain);
    assert(cell(out, hidden, t, d) == (collapsed::<A, T>(state, pre, hidden, n_hc))(t, d));
}

/// In exact arithmetic element `d` of channel `dst` of an expanded token is the block's output
/// under the channel's weight, and the sum of the token's residual channels, each under its
/// weight for `dst`.
#[allow(clippy::too_many_arguments)]
pub proof fn law_expand<A: Scalar, T: Storage<A>>(
    block_out: Seq<T>,
    post: Seq<A>,
    comb: Seq<A>,
    residual: Seq<T>,
    before: Seq<T>,
    out: Seq<T>,
    hidden: int,
    n_hc: int,
    tokens: int,
    t: int,
    dst: int,
    d: int,
    w: spec_fn(int) -> A,
    h: spec_fn(int) -> A,
)
    requires
        lossless::<A>(),
        filled2(
            before,
            out,
            tokens * n_hc,
            hidden,
            expanded::<A, T>(block_out, post, comb, residual, hidden, n_hc),
        ),
        0 <= t < tokens,
        0 <= dst < n_hc,
        0 <= d < hidden,
        forall|src: int|
            0 <= src < n_hc ==> comb[(t * n_hc + dst) * n_hc + src] == #[trigger] w(src),
        forall|src: int|
            0 <= src < n_hc ==> residual[(t * n_hc + src) * hidden + d].widen_spec()
                == #[trigger] h(src),
    ensures
        out[(t * n_hc + dst) * hidden + d] == T::narrow_spec(
            block_out[t * hidden + d].widen_spec().times_spec(post[t * n_hc + dst]).plus_spec(
                plain_sum(n_hc, |src: int| w(src).times_spec(h(src))),
            ),
        ),
{
    let r = t * n_hc + dst;
    lemma_flat(tokens, n_hc, t, dst);
    vstd::arithmetic::div_mod::lemma_fundamental_div_mod_converse(r, n_hc, t, dst);
    let terms = channel_terms::<A, T>(residual, comb, hidden, n_hc, t, r, d);
    let plain = |src: int| w(src).times_spec(h(src));
    assert forall|src: int| 0 <= src < n_hc implies #[trigger] terms(src) == plain(src) by {
        assert(comb[r * n_hc + src] == w(src));
        assert(Storage::<A>::widen_spec(residual[(t * n_hc + src) * hidden + d]) == h(src));
    }
    let first: A = Storage::<A>::widen_spec(block_out[t * hidden + d]).times_spec(post[r]);
    lemma_sum_same(first, 0, n_hc, terms, plain);
    lemma_sum_start(first, 0, n_hc, plain);
    assert(cell(out, hidden, r, d) == (expanded::<A, T>(
        block_out,
        post,
        comb,
        residual,
        hidden,
        n_hc,
    ))(r, d));
}

} // verus!
