# wh_iron_std

Verified kernels for quantised inference: dequantising matrix products, mixture-of-experts
routing and products, tile plans, normalisation, convolution and the data movement around
them.

A kernel is a function that runs a whole dispatch. It walks the threadgroups and lanes of its
launch grid and leaves in its output buffers what the launch leaves there. What the host
passes at launch (rows, lanes per threadgroup) is a parameter beside the kernel's own.

- `scalar` holds the arithmetic: `Scalar` is what a lane computes with, `Storage` what a
  buffer holds. The contracts fix every operation and its order, rounding between registers
  and buffers included.
- `exact` says what the kernels compute where nothing is rounded: plain sums, whatever the
  number of lanes or the shape of the tiles. `trit`, the integers modulo three, is a scalar
  type that has all that `exact` asks for.
- `order` says what it is for the arithmetic to go with the order of the numbers; laws that
  compare results rest on it.
- `gemm`, `moe`, `quant`, `norm`, `convolution`, `hyper_connections`, `kv_cache` and `ops` hold
  the kernels. Functions named `law_...` state what holds across kernels.
- `rows`, `tile`, `tensor` and `select` hold what the kernels share: rows of dot products,
  tiled products, row-major buffers and selection of the largest.

`app` runs a few kernels in single precision over half-precision buffers and prints tile
plans.
