//! What the backward pass computes, tile by tile.

use vstd::prelude::*;
use crate::geometry::{element, kv_end, q_start, sees, BLOCK_TILES, HD_TILES, HEAD_DIM, TILE, TILE_ELEMS};
use crate::math::{Model, ZERO};

verus! {

/// A matrix of bf16 bits, by row and column.
pub type Matrix = spec_fn(int, int) -> u16;

/// 16×16 tiles of bf16 bits in row-major order, by the first of the rows that
/// they are multiplied with.
pub type Tiles = spec_fn(int) -> Seq<u16>;

/// The 16×16 tile of `x` whose corner is at `(r0, c0)`, in row-major order.
pub open spec fn tile(x: Matrix, r0: int, c0: int) -> Seq<u16> {
    Seq::new(TILE_ELEMS as nat, |i: int| x(r0 + i / 16, c0 + i % 16))
}

/// The transpose of [`tile`].
pub open spec fn tile_t(x: Matrix, r0: int, c0: int) -> Seq<u16> {
    Seq::new(TILE_ELEMS as nat, |i: int| x(r0 + i % 16, c0 + i / 16))
}

/// A tile of zeros.
pub open spec fn zero_tile() -> Seq<u32> {
    Seq::new(TILE_ELEMS as nat, |i: int| ZERO)
}

/// The rows of the inputs that the backward pass of one call reads.
#[verifier::reject_recursive_types(Q)]
#[verifier::reject_recursive_types(D)]
pub ghost struct Problem<Q, D> {
    pub q: Seq<Q>,
    pub k: Seq<Q>,
    pub v: Seq<Q>,
    pub do_: Seq<D>,
    pub lse: Seq<u32>,
    pub d: Seq<u32>,
    pub seq: int,
    pub scale: u32,
    pub causal: bool,
}

impl<Q, D> Model<Q, D> {
    /// Accumulates `h` head-dimension tiles of `x · yᵀ`, where the rows of the
    /// result are those of `x` from `xr` and its columns the rows of `y` from
    /// `yr`.
    pub open spec fn cross_partial(self, x: Matrix, xr: int, y: Matrix, yr: int, h: nat) -> Seq<u32>
        decreases h,
    {
        if h == 0 {
            zero_tile()
        } else {
            let c0 = (h - 1) * TILE;
            (self.mma)(
                tile(x, xr, c0),
                tile_t(y, yr, c0),
                self.cross_partial(x, xr, y, yr, (h - 1) as nat),
            )
        }
    }

    /// A tile of `x · yᵀ` over the whole head dimension.
    pub open spec fn cross(self, x: Matrix, xr: int, y: Matrix, yr: int) -> Seq<u32> {
        self.cross_partial(x, xr, y, yr, HD_TILES as nat)
    }

    /// Accumulates the products of `n` of the tiles `a`, from tile `start`, with
    /// the rows of `b` at their place, for head-dimension tile `h`.
    pub open spec fn accumulate(self, a: Tiles, b: Matrix, h: int, start: int, n: nat) -> Seq<u32>
        decreases n,
    {
        if n == 0 {
            zero_tile()
        } else {
            let row = (start + n - 1) * TILE;
            (self.mma)(
                a(row),
                tile(b, row, h * TILE),
                self.accumulate(a, b, h, start, (n - 1) as nat),
            )
        }
    }

    /// The softmax weight of a pair: zero where the query does not see the
    /// key.
    pub open spec fn weight(self, visible: bool, s: u32, scale: u32, lse: u32) -> u32 {
        if visible {
            self.prob(s, scale, lse)
        } else {
            ZERO
        }
    }
}

/// The backward pass on the given tensors.
pub open spec fn problem<Q, D>(
    q: Seq<Q>,
    k: Seq<Q>,
    v: Seq<Q>,
    do_: Seq<D>,
    lse: Seq<u32>,
    d: Seq<u32>,
    seq: u32,
    scale: u32,
    causal: bool,
) -> Problem<Q, D> {
    Problem { q, k, v, do_, lse, d, seq: seq as int, scale, causal }
}

impl<Q, D> Problem<Q, D> {
    /// The queries of a head in bf16.
    pub open spec fn q_half(self, m: Model<Q, D>, bh: int) -> Matrix {
        |r: int, c: int| (m.narrow_q)(self.q[element(bh, self.seq, r, c)])
    }

    /// The keys of a head in bf16.
    pub open spec fn k_half(self, m: Model<Q, D>, bh: int) -> Matrix {
        |r: int, c: int| (m.narrow_q)(self.k[element(bh, self.seq, r, c)])
    }

    /// The values of a head in bf16.
    pub open spec fn v_half(self, m: Model<Q, D>, bh: int) -> Matrix {
        |r: int, c: int| (m.narrow_q)(self.v[element(bh, self.seq, r, c)])
    }

    /// The output gradient of a head in bf16.
    pub open spec fn do_half(self, m: Model<Q, D>, bh: int) -> Matrix {
        |r: int, c: int| (m.narrow_do)(self.do_[element(bh, self.seq, r, c)])
    }

    /// The softmax weight of query `q` for key `k`, from their score `s`.
    pub open spec fn p_value(self, m: Model<Q, D>, bh: int, q: int, k: int, s: u32) -> u32 {
        m.weight(sees(self.causal, q, k), s, self.scale, self.lse[bh * self.seq + q])
    }

    /// The score gradient of query `q` for key `k`, from their score `s` and
    /// the gradient `dp` of their softmax weight.
    pub open spec fn ds_value(self, m: Model<Q, D>, bh: int, q: int, k: int, s: u32, dp: u32) -> u32 {
        m.grad(self.p_value(m, bh, q, k, s), dp, self.d[bh * self.seq + q], self.scale)
    }

    /// `S = Q · Kᵀ` for the queries from `qr` and the keys from `kr`.
    pub open spec fn s_tile(self, m: Model<Q, D>, bh: int, qr: int, kr: int) -> Seq<u32> {
        m.cross(self.q_half(m, bh), qr, self.k_half(m, bh), kr)
    }

    /// `dP = dO · Vᵀ` for the queries from `qr` and the keys from `kr`.
    pub open spec fn dp_tile(self, m: Model<Q, D>, bh: int, qr: int, kr: int) -> Seq<u32> {
        m.cross(self.do_half(m, bh), qr, self.v_half(m, bh), kr)
    }

    /// `dS = P ⊙ (dP - D) · scale` in bf16 for the queries from `qr` and the
    /// keys from `kr`.
    pub open spec fn ds_tile(self, m: Model<Q, D>, bh: int, qr: int, kr: int) -> Seq<u16> {
        let s = self.s_tile(m, bh, qr, kr);
        let dp = self.dp_tile(m, bh, qr, kr);
        Seq::new(
            TILE_ELEMS as nat,
            |i: int| (m.narrow)(self.ds_value(m, bh, qr + i / 16, kr + i % 16, s[i], dp[i])),
        )
    }

    /// The tiles of `dS` for the queries from `qr`, by first key.
    pub open spec fn ds_tiles(self, m: Model<Q, D>, bh: int, qr: int) -> Tiles {
        |kr: int| self.ds_tile(m, bh, qr, kr)
    }

    /// `dQ = dS · K` for the queries from `qr` and head-dimension tile `h`,
    /// accumulated over the first `n` key tiles.
    pub open spec fn dq_acc(self, m: Model<Q, D>, bh: int, qr: int, h: int, n: nat) -> Seq<u32> {
        m.accumulate(self.ds_tiles(m, bh, qr), self.k_half(m, bh), h, 0, n)
    }

    /// The query gradient at row `row` and column `col`.
    pub open spec fn dq_value(self, m: Model<Q, D>, bh: int, row: int, col: int) -> u32 {
        let tiles = kv_end(self.causal, row / 64, self.seq) * BLOCK_TILES;
        self.dq_acc(m, bh, (row / 16) * 16, col / 16, tiles as nat)[(row % 16) * 16 + col % 16]
    }

    /// `Sᵀ = K · Qᵀ` for the keys from `kr` and the queries from `qr`.
    pub open spec fn st_tile(self, m: Model<Q, D>, bh: int, kr: int, qr: int) -> Seq<u32> {
        m.cross(self.k_half(m, bh), kr, self.q_half(m, bh), qr)
    }

    /// `dPᵀ = V · dOᵀ` for the keys from `kr` and the queries from `qr`.
    pub open spec fn dpt_tile(self, m: Model<Q, D>, bh: int, kr: int, qr: int) -> Seq<u32> {
        m.cross(self.v_half(m, bh), kr, self.do_half(m, bh), qr)
    }

    /// `Pᵀ` in bf16 for the keys from `kr` and the queries from `qr`.
    pub open spec fn pt_tile(self, m: Model<Q, D>, bh: int, kr: int, qr: int) -> Seq<u16> {
        let st = self.st_tile(m, bh, kr, qr);
        Seq::new(
            TILE_ELEMS as nat,
            |i: int| (m.narrow)(self.p_value(m, bh, qr + i % 16, kr + i / 16, st[i])),
        )
    }

    /// `dSᵀ` in bf16 for the keys from `kr` and the queries from `qr`.
    pub open spec fn dst_tile(self, m: Model<Q, D>, bh: int, kr: int, qr: int) -> Seq<u16> {
        let st = self.st_tile(m, bh, kr, qr);
        let dpt = self.dpt_tile(m, bh, kr, qr);
        Seq::new(
            TILE_ELEMS as nat,
            |i: int| (m.narrow)(self.ds_value(m, bh, qr + i % 16, kr + i / 16, st[i], dpt[i])),
        )
    }

    /// The tiles of `Pᵀ` for the keys from `kr`, by first query.
    pub open spec fn pt_tiles(self, m: Model<Q, D>, bh: int, kr: int) -> Tiles {
        |qr: int| self.pt_tile(m, bh, kr, qr)
    }

    /// The tiles of `dSᵀ` for the keys from `kr`, by first query.
    pub open spec fn dst_tiles(self, m: Model<Q, D>, bh: int, kr: int) -> Tiles {
        |qr: int| self.dst_tile(m, bh, kr, qr)
    }

    /// `dV = Pᵀ · dO` for the keys from `kr` and head-dimension tile `h`,
    /// accumulated over `n` query tiles from tile `start`.
    pub open spec fn dv_acc(self, m: Model<Q, D>, bh: int, kr: int, h: int, start: int, n: nat) -> Seq<u32> {
        m.accumulate(self.pt_tiles(m, bh, kr), self.do_half(m, bh), h, start, n)
    }

    /// `dK = dSᵀ · Q` for the keys from `kr` and head-dimension tile `h`,
    /// accumulated over `n` query tiles from tile `start`.
    pub open spec fn dk_acc(self, m: Model<Q, D>, bh: int, kr: int, h: int, start: int, n: nat) -> Seq<u32> {
        m.accumulate(self.dst_tiles(m, bh, kr), self.q_half(m, bh), h, start, n)
    }

    /// The first query tile that the keys of row `row` are swept by.
    pub open spec fn first_q_tile(self, row: int) -> int {
        q_start(self.causal, row / 64) * BLOCK_TILES
    }

    /// The number of query tiles that the keys of row `row` are swept by.
    pub open spec fn q_tiles(self, row: int) -> nat {
        ((self.seq / 64) * BLOCK_TILES - self.first_q_tile(row)) as nat
    }

    /// The value gradient at row `row` and column `col`.
    pub open spec fn dv_value(self, m: Model<Q, D>, bh: int, row: int, col: int) -> u32 {
        self.dv_acc(m, bh, (row / 16) * 16, col / 16, self.first_q_tile(row), self.q_tiles(row))[(row
            % 16) * 16 + col % 16]
    }

    /// The key gradient at row `row` and column `col`.
    pub open spec fn dk_value(self, m: Model<Q, D>, bh: int, row: int, col: int) -> u32 {
        self.dk_acc(m, bh, (row / 16) * 16, col / 16, self.first_q_tile(row), self.q_tiles(row))[(row
            % 16) * 16 + col % 16]
    }

    /// `out` holds the query gradient of every row of the first `heads` heads.
    pub open spec fn dq_written(self, m: Model<Q, D>, heads: int, out: Seq<u32>) -> bool {
        forall|bh: int, row: int, col: int|
            0 <= bh < heads && 0 <= row < self.seq && 0 <= col < HEAD_DIM
                ==> out[#[trigger] element(bh, self.seq, row, col)] == self.dq_value(m, bh, row, col)
    }

    /// `out` holds the key gradient of every row of the first `heads` heads.
    pub open spec fn dk_written(self, m: Model<Q, D>, heads: int, out: Seq<u32>) -> bool {
        forall|bh: int, row: int, col: int|
            0 <= bh < heads && 0 <= row < self.seq && 0 <= col < HEAD_DIM
                ==> out[#[trigger] element(bh, self.seq, row, col)] == self.dk_value(m, bh, row, col)
    }

    /// `out` holds the value gradient of every row of the first `heads` heads.
    pub open spec fn dv_written(self, m: Model<Q, D>, heads: int, out: Seq<u32>) -> bool {
        forall|bh: int, row: int, col: int|
            0 <= bh < heads && 0 <= row < self.seq && 0 <= col < HEAD_DIM
                ==> out[#[trigger] element(bh, self.seq, row, col)] == self.dv_value(m, bh, row, col)
    }

    /// The score of query `q` for key `k` as the query-gradient kernel
    /// recomputes it.
    pub open spec fn s_at(self, m: Model<Q, D>, bh: int, q: int, k: int) -> u32 {
        self.s_tile(m, bh, (q / 16) * 16, (k / 16) * 16)[(q % 16) * 16 + k % 16]
    }

    /// The weight gradient of query `q` for key `k` as the query-gradient
    /// kernel recomputes it.
    pub open spec fn dp_at(self, m: Model<Q, D>, bh: int, q: int, k: int) -> u32 {
        self.dp_tile(m, bh, (q / 16) * 16, (k / 16) * 16)[(q % 16) * 16 + k % 16]
    }

    /// The score gradient of query `q` for key `k` in bf16, as the
    /// query-gradient kernel multiplies it.
    pub open spec fn ds_at(self, m: Model<Q, D>, bh: int, q: int, k: int) -> u16 {
        (m.narrow)(
            self.ds_value(m, bh, q, k, self.s_at(m, bh, q, k), self.dp_at(m, bh, q, k)),
        )
    }

    /// The score of query `q` for key `k` as the key- and value-gradient
    /// kernel recomputes it.
    pub open spec fn st_at(self, m: Model<Q, D>, bh: int, q: int, k: int) -> u32 {
        self.st_tile(m, bh, (k / 16) * 16, (q / 16) * 16)[(k % 16) * 16 + q % 16]
    }

    /// The weight gradient of query `q` for key `k` as the key- and
    /// value-gradient kernel recomputes it.
    pub open spec fn dpt_at(self, m: Model<Q, D>, bh: int, q: int, k: int) -> u32 {
        self.dpt_tile(m, bh, (k / 16) * 16, (q / 16) * 16)[(k % 16) * 16 + q % 16]
    }

    /// The softmax weight of query `q` for key `k` in bf16, as the value
    /// gradient multiplies it.
    pub open spec fn pt_at(self, m: Model<Q, D>, bh: int, q: int, k: int) -> u16 {
        (m.narrow)(self.p_value(m, bh, q, k, self.st_at(m, bh, q, k)))
    }

    /// The score gradient of query `q` for key `k` in bf16, as the key
    /// gradient multiplies it.
    pub open spec fn dst_at(self, m: Model<Q, D>, bh: int, q: int, k: int) -> u16 {
        (m.narrow)(
            self.ds_value(m, bh, q, k, self.st_at(m, bh, q, k), self.dpt_at(m, bh, q, k)),
        )
    }
}

/// The elements of the tiles at rows that are multiples of 16 are those of the
/// pairs of queries and keys.
pub proof fn lemma_tile_elements<Q, D>(
    m: Model<Q, D>,
    p: Problem<Q, D>,
    bh: int,
    qr: int,
    kr: int,
    q: int,
    k: int,
)
    requires
        qr % 16 == 0,
        kr % 16 == 0,
        qr <= q < qr + TILE,
        kr <= k < kr + TILE,
    ensures
        p.ds_tile(m, bh, qr, kr)[(q - qr) * 16 + (k - kr)] == p.ds_at(m, bh, q, k),
        p.pt_tile(m, bh, kr, qr)[(k - kr) * 16 + (q - qr)] == p.pt_at(m, bh, q, k),
        p.dst_tile(m, bh, kr, qr)[(k - kr) * 16 + (q - qr)] == p.dst_at(m, bh, q, k),
{
    let i = (q - qr) * 16 + (k - kr);
    let j = (k - kr) * 16 + (q - qr);
    assert((q / 16) * 16 == qr && q % 16 == q - qr);
    assert((k / 16) * 16 == kr && k % 16 == k - kr);
    assert(i / 16 == q - qr && i % 16 == k - kr);
    assert(j / 16 == k - kr && j % 16 == q - qr);
}

} // verus!
