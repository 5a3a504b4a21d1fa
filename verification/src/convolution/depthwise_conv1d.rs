//! Depthwise one-dimensional convolution: every channel with its own taps.
use crate::exact::{lemma_sum_same, lemma_sum_start, lossless, plain_sum, times_comm};
use crate::gemm::packed_rows::holds_values;
use crate::rows::{fill_grid, GridWork};
use crate::scalar::{sum_from, whole, Scalar, Storage};
use crate::tensor::{cell, filled2, read};
use std::marker::PhantomData;
use vstd::prelude::*;

verus! {

/// The stride, padding and dilation of a convolution.
#[derive(Clone, Copy)]
pub struct Window {
    pub k: u32,
    pub stride: u32,
    pub pad: u32,
    pub dilation: u32,
}

/// The products of output `op` of channel `c`; taps outside the input meet zeros.
pub open spec fn tap_terms<A: Scalar, T: Storage<A>>(
    input: Seq<T>,
    weight: Seq<T>,
    in_len: int,
    window: Window,
    c: int,
    op: int,
) -> spec_fn(int) -> A {
    |kx: int|
        {
            let at = op * window.stride + kx * window.dilation - window.pad;
            let x = if 0 <= at < in_len {
                cell(input, in_len, c, at).widen_spec()
            } else {
                whole(0)
            };
            x.times_spec(cell(weight, window.k as int, c, kx).widen_spec())
        }
}

/// The outputs: `bias[c] + sum_kx input[c, op * stride + kx * dilation - pad] * weight[c, kx]`.
pub open spec fn convolved<A: Scalar, T: Storage<A>>(
    input: Seq<T>,
    weight: Seq<T>,
    bias: Seq<T>,
    in_len: int,
    window: Window,
) -> spec_fn(int, int) -> T {
    |c: int, op: int|
        T::narrow_spec(
            sum_from(
                bias[c].widen_spec(),
                0,
                window.k as int,
                tap_terms::<A, T>(input, weight, in_len, window, c, op),
            ),
        )
}

struct Channels<'a, A, T> {
    input: &'a [T],
    weight: &'a [T],
    bias: &'a [T],
    channels: usize,
    in_len: usize,
    out_len: usize,
    window: Window,
    registers: PhantomData<A>,
}

/// The last tap's position, before the padding is taken off, is a `u32`.
pub open spec fn window_fits(out_len: int, window: Window) -> bool {
    out_len > 0 && window.k > 0 ==> (out_len - 1) * window.stride + (window.k - 1) * window.dilation
        <= u32::MAX
}

impl<'a, A: Scalar, T: Storage<A>> GridWork<T> for Channels<'a, A, T> {
    closed spec fn ready(&self) -> bool {
        &&& self.channels * self.in_len <= self.input@.len()
        &&& self.channels * self.window.k <= self.weight@.len()
        &&& self.channels <= self.bias@.len()
        &&& window_fits(self.out_len as int, self.window)
    }

    closed spec fn rows(&self) -> int {
        self.channels as int
    }

    closed spec fn cols(&self) -> int {
        self.out_len as int
    }

    closed spec fn values(&self) -> spec_fn(int, int) -> T {
        convolved::<A, T>(self.input@, self.weight@, self.bias@, self.in_len as int, self.window)
    }

    #[verifier::loop_isolation(false)]
    fn at(&self, r: usize, c: usize) -> (v: T) {
        let w = self.window;
        let ghost terms = tap_terms::<A, T>(
            self.input@,
            self.weight@,
            self.in_len as int,
            w,
            r as int,
            c as int,
        );
        let mut acc: A = self.bias[r].widen();
        let mut kx: u32 = 0;
        while kx < w.k
            invariant
                kx <= w.k,
                acc == sum_from(self.bias@[r as int].widen_spec(), 0, kx as int, terms),
            decreases w.k - kx,
        {
            proof {
                let (a, b, st, di) = (
                    self.out_len - 1,
                    w.k - 1,
                    w.stride as int,
                    w.dilation as int,
                );
                assert(0 <= c * st <= a * st && 0 <= kx * di <= b * di) by (nonlinear_arith)
                    requires
                        0 <= c <= a,
                        0 <= kx <= b,
                        0 <= st,
                        0 <= di,
                ;
            }
            let pos_plus: usize = c * (w.stride as usize) + (kx as usize) * (w.dilation as usize);
            let pad: usize = w.pad as usize;
            let x: A = if pos_plus >= pad && pos_plus - pad < self.in_len {
                read(
                    self.input,
                    Ghost(self.channels as int),
                    self.in_len,
                    r,
                    pos_plus - pad,
                ).widen()
            } else {
                A::dyadic(0, 0)
            };
            let tap: T = read(
                self.weight,
                Ghost(self.channels as int),
                w.k as usize,
                r,
                kx as usize,
            );
            acc = acc.plus(x.times(tap.widen()));
            kx = kx + 1;
        }
        T::narrow(acc)
    }
}

/// Convolves every channel; positions outside the input count as zeros.
#[allow(clippy::too_many_arguments)]
pub fn iron_depthwise_conv1d<A: Scalar, T: Storage<A>>(
    input: &[T],
    weight: &[T],
    bias: &[T],
    out: &mut Vec<T>,
    channels: u32,
    in_len: u32,
    out_len: u32,
    k: u32,
    stride: u32,
    pad: u32,
    dilation: u32,
)
    requires
        channels * in_len <= input@.len(),
        channels * k <= weight@.len(),
        channels <= bias@.len(),
        channels * out_len <= old(out)@.len(),
        out_len < u32::MAX,
        window_fits(out_len as int, (Window { k, stride, pad, dilation })),
    ensures
        filled2(
            old(out)@,
            final(out)@,
            channels as int,
            out_len as int,
            convolved::<A, T>(
                input@,
                weight@,
                bias@,
                in_len as int,
                (Window { k, stride, pad, dilation }),
            ),
        ),
{
    let work = Channels::<A, T> {
        input,
        weight,
        bias,
        channels: channels as usize,
        in_len: in_len as usize,
        out_len: out_len as usize,
        window: Window { k, stride, pad, dilation },
        registers: PhantomData,
    };
    fill_grid(&work, out, channels as usize, out_len as usize, 1);
}

/// In exact arithmetic output `op` of a channel is its bias and the products of its taps with
/// the signal that the channel's input is a stretch of, zero before and behind it: tap `kx`
/// meets the signal `dilation` places behind the tap before it, and output `op` starts
/// `stride` places behind the output before it, `pad` places before the stretch.
#[allow(clippy::too_many_arguments)]
pub proof fn law_convolution<A: Scalar, T: Storage<A>>(
    input: Seq<T>,
    weight: Seq<T>,
    bias: Seq<T>,
    before: Seq<T>,
    out: Seq<T>,
    channels: int,
    in_len: int,
    out_len: int,
    window: Window,
    c: int,
    op: int,
    signal: spec_fn(int) -> A,
    taps: spec_fn(int) -> A,
)
    requires
        lossless::<A>(),
        filled2(
            before,
            out,
            channels,
            out_len,
            convolved::<A, T>(input, weight, bias, in_len, window),
        ),
        0 <= c < channels,
        0 <= op < out_len,
        forall|p: int|
            #[trigger] signal(p) == (if 0 <= p < in_len {
                input[c * in_len + p].widen_spec()
            } else {
                whole(0)
            }),
        holds_values::<A, T>(weight, c * window.k, window.k as int, taps),
    ensures
        out[c * out_len + op] == T::narrow_spec(
            bias[c].widen_spec().plus_spec(
                plain_sum(
                    window.k as int,
                    |kx: int|
                        taps(kx).times_spec(
                            signal(op * window.stride - window.pad + kx * window.dilation),
                        ),
                ),
            ),
        ),
{
    let k = window.k as int;
    let terms = tap_terms::<A, T>(input, weight, in_len, window, c, op);
    let plain = |kx: int|
        taps(kx).times_spec(signal(op * window.stride - window.pad + kx * window.dilation));
    assert forall|kx: int| 0 <= kx < k implies #[trigger] terms(kx) == plain(kx) by {
        assert(Storage::<A>::widen_spec(weight[c * window.k + kx]) == taps(kx));
        times_comm(taps(kx), signal(op * window.stride - window.pad + kx * window.dilation));
    }
    let first: A = bias[c].widen_spec();
    lemma_sum_same(first, 0, k, terms, plain);
    lemma_sum_start(first, 0, k, plain);
    assert(cell(out, out_len, c, op) == (convolved::<A, T>(input, weight, bias, in_len, window))(
        c,
        op,
    ));
}

/// Outputs move with the signal: a stretch that starts `stride` places later gives at `op` what
/// the first gives at `op + 1`, wherever neither reaches past its stretch.
#[allow(clippy::too_many_arguments)]
pub proof fn law_outputs_move_with_the_signal<A: Scalar, T: Storage<A>>(
    input: Seq<T>,
    moved: Seq<T>,
    weight: Seq<T>,
    bias: Seq<T>,
    in_len: int,
    window: Window,
    c: int,
    op: int,
)
    requires
        0 <= op,
        0 <= c,
        window.pad <= op * window.stride,
        (op + 1) * window.stride + (window.k - 1) * window.dilation < window.pad + in_len,
        forall|p: int|
            0 <= p < in_len - window.stride ==> #[trigger] moved[c * in_len + p] == input[c * in_len
                + p + window.stride],
    ensures
        (convolved::<A, T>(moved, weight, bias, in_len, window))(c, op) == (convolved::<A, T>(
            input,
            weight,
            bias,
            in_len,
            window,
        ))(c, op + 1),
{
    let k = window.k as int;
    let f = tap_terms::<A, T>(moved, weight, in_len, window, c, op);
    let g = tap_terms::<A, T>(input, weight, in_len, window, c, op + 1);
    assert((op + 1) * window.stride == op * window.stride + window.stride) by (nonlinear_arith);
    assert forall|kx: int| 0 <= kx < k implies #[trigger] f(kx) == g(kx) by {
        assert(0 <= kx * window.dilation <= (k - 1) * window.dilation) by (nonlinear_arith)
            requires
                0 <= kx <= k - 1,
                0 <= window.dilation,
        ;
        let p = op * window.stride + kx * window.dilation - window.pad;
        assert(moved[c * in_len + p] == input[c * in_len + p + window.stride]);
    }
    lemma_sum_same(Storage::<A>::widen_spec(bias[c]), 0, k, f, g);
}

} // verus!
