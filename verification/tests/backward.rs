//! The whole backward pass on fp32 inputs, against a plain evaluation of the
//! gradient formulas.

use cubek_attention::error::AttentionSetupError;
use cubek_attention::launch::{flash_attention_backward_tiled, TensorBinding};
use cubek_attention::math::{Arithmetic, Closures};
use half::bf16;

fn narrow(x: f32) -> u16 {
    bf16::from_f32(x).to_bits()
}

fn widen(x: u16) -> f32 {
    bf16::from_bits(x).to_f32()
}

fn product(a: &[u16; 256], b: &[u16; 256], c: &[u32; 256]) -> [u32; 256] {
    let mut r = [0u32; 256];
    for i in 0..256 {
        let mut sum = f32::from_bits(c[i]);
        for t in 0..16 {
            sum += widen(a[(i / 16) * 16 + t]) * widen(b[t * 16 + i % 16]);
        }
        r[i] = sum.to_bits();
    }
    r
}

fn f(x: u32) -> f32 {
    f32::from_bits(x)
}

/// The arithmetic of the device: bf16 operands, fp32 accumulation.
fn device_math() -> impl Arithmetic<f32, f32> {
    Closures {
        widen_q: |x: f32| x.to_bits(),
        widen_do: |x: f32| x.to_bits(),
        narrow_q: |x: f32| narrow(x),
        narrow_do: |x: f32| narrow(x),
        narrow: |x: u32| narrow(f(x)),
        plus: |x: u32, y: u32| (f(x) + f(y)).to_bits(),
        minus: |x: u32, y: u32| (f(x) - f(y)).to_bits(),
        times: |x: u32, y: u32| (f(x) * f(y)).to_bits(),
        exp: |x: u32| f(x).exp().to_bits(),
        mma: |a: &[u16; 256], b: &[u16; 256], c: &[u32; 256]| product(a, b, c),
    }
}

/// The same with the identity in place of the exponential, so that integers
/// stay integers and nothing rounds.
fn integer_math() -> impl Arithmetic<f32, f32> {
    Closures {
        widen_q: |x: f32| x.to_bits(),
        widen_do: |x: f32| x.to_bits(),
        narrow_q: |x: f32| narrow(x),
        narrow_do: |x: f32| narrow(x),
        narrow: |x: u32| narrow(f(x)),
        plus: |x: u32, y: u32| (f(x) + f(y)).to_bits(),
        minus: |x: u32, y: u32| (f(x) - f(y)).to_bits(),
        times: |x: u32, y: u32| (f(x) * f(y)).to_bits(),
        exp: |x: u32| x,
        mma: |a: &[u16; 256], b: &[u16; 256], c: &[u32; 256]| product(a, b, c),
    }
}

fn noise(seed: &mut u64) -> f32 {
    *seed = seed.wrapping_mul(6364136223846793005).wrapping_add(1442695040888963407);
    ((*seed >> 40) as f32) / 16777216.0 - 0.5
}

fn tensor(shape: &[usize], data: Vec<f32>) -> TensorBinding<f32> {
    TensorBinding { shape: shape.to_vec(), data }
}

fn bits(shape: &[usize], data: Vec<f32>) -> TensorBinding<u32> {
    TensorBinding { shape: shape.to_vec(), data: data.into_iter().map(f32::to_bits).collect() }
}

#[derive(Clone)]
struct Case {
    heads: usize,
    seq: usize,
    q: Vec<f32>,
    k: Vec<f32>,
    v: Vec<f32>,
    o: Vec<f32>,
    g: Vec<f32>,
    lse: Vec<f32>,
    scale: f32,
    causal: bool,
}

struct Grads {
    d: Vec<f32>,
    dq: Vec<f32>,
    dk: Vec<f32>,
    dv: Vec<f32>,
}

fn sees(c: &Case, i: usize, j: usize) -> bool {
    !c.causal || i >= j
}

/// A random problem with the softmax statistics of its own forward pass.
fn random_case(heads: usize, seq: usize, causal: bool, seed: u64) -> Case {
    let mut seed = seed;
    let n = heads * seq * 64;
    let mut fill = || -> Vec<f32> {
        (0..n).map(|_| bf16::from_f32(noise(&mut seed)).to_f32()).collect()
    };
    let (q, k, v, g) = (fill(), fill(), fill(), fill());
    let mut c = Case {
        heads, seq, q, k, v, o: vec![0.0; n], g, lse: vec![0.0; heads * seq], scale: 0.125, causal,
    };
    for b in 0..heads {
        for i in 0..seq {
            let mut w = vec![0.0f64; seq];
            let mut total = 0.0f64;
            for j in 0..seq {
                if sees(&c, i, j) {
                    let s: f64 = (0..64)
                        .map(|x| c.q[(b * seq + i) * 64 + x] as f64 * c.k[(b * seq + j) * 64 + x] as f64)
                        .sum();
                    w[j] = (s * c.scale as f64).exp();
                    total += w[j];
                }
            }
            c.lse[b * seq + i] = total.ln() as f32;
            for x in 0..64 {
                let o: f64 = (0..seq).map(|j| w[j] / total * c.v[(b * seq + j) * 64 + x] as f64).sum();
                c.o[(b * seq + i) * 64 + x] = o as f32;
            }
        }
    }
    c
}

/// `dQ = dS · K`, `dK = dSᵀ · Q` and `dV = Pᵀ · dO` in double precision.
fn reference(c: &Case) -> Grads {
    let n = c.heads * c.seq * 64;
    let (mut dq, mut dk, mut dv) = (vec![0.0f64; n], vec![0.0f64; n], vec![0.0f64; n]);
    let mut d = vec![0.0f64; c.heads * c.seq];
    for b in 0..c.heads {
        let at = |i: usize, x: usize| (b * c.seq + i) * 64 + x;
        for i in 0..c.seq {
            d[b * c.seq + i] = (0..64).map(|x| c.o[at(i, x)] as f64 * c.g[at(i, x)] as f64).sum();
            for j in 0..c.seq {
                if sees(c, i, j) {
                    let s: f64 = (0..64).map(|x| c.q[at(i, x)] as f64 * c.k[at(j, x)] as f64).sum();
                    let dp: f64 = (0..64).map(|x| c.g[at(i, x)] as f64 * c.v[at(j, x)] as f64).sum();
                    let p = (s * c.scale as f64 - c.lse[b * c.seq + i] as f64).exp();
                    let ds = p * (dp - d[b * c.seq + i]) * c.scale as f64;
                    for x in 0..64 {
                        dq[at(i, x)] += ds * c.k[at(j, x)] as f64;
                        dk[at(j, x)] += ds * c.q[at(i, x)] as f64;
                        dv[at(j, x)] += p * c.g[at(i, x)] as f64;
                    }
                }
            }
        }
    }
    let single = |x: Vec<f64>| -> Vec<f32> { x.into_iter().map(|y| y as f32).collect() };
    Grads { d: single(d), dq: single(dq), dk: single(dk), dv: single(dv) }
}

fn run_from<A: Arithmetic<f32, f32>>(math: &A, c: &Case, initial: f32) -> Grads {
    let shape = [c.heads, c.seq, 64];
    let n = c.heads * c.seq * 64;
    let mut d = bits(&[c.heads, c.seq], vec![initial; c.heads * c.seq]);
    let mut dq = bits(&shape, vec![initial; n]);
    let mut dk = bits(&shape, vec![initial; n]);
    let mut dv = bits(&shape, vec![initial; n]);
    let r = flash_attention_backward_tiled(
        math,
        &tensor(&shape, c.q.clone()),
        &tensor(&shape, c.k.clone()),
        &tensor(&shape, c.v.clone()),
        &tensor(&shape, c.o.clone()),
        &tensor(&shape, c.g.clone()),
        &bits(&[c.heads, c.seq], c.lse.clone()),
        &mut d,
        &mut dq,
        &mut dk,
        &mut dv,
        c.scale.to_bits(),
        c.causal,
    );
    assert!(r.is_ok());
    let read = |t: TensorBinding<u32>| -> Vec<f32> { t.data.into_iter().map(f32::from_bits).collect() };
    Grads { d: read(d), dq: read(dq), dk: read(dk), dv: read(dv) }
}

fn run(c: &Case) -> Grads {
    run_from(&device_math(), c, 0.0)
}

fn assert_close(name: &str, got: &[f32], want: &[f32]) {
    assert_eq!(got.len(), want.len());
    let largest = want.iter().fold(0.0f32, |a, b| a.max(b.abs()));
    for i in 0..got.len() {
        let gap = (got[i] - want[i]).abs();
        assert!(gap <= 0.02 * largest, "{name}[{i}] is {} for {}", got[i], want[i]);
    }
}

fn assert_gradients(c: &Case) {
    let got = run(c);
    let want = reference(c);
    assert_close("d", &got.d, &want.d);
    assert_close("dq", &got.dq, &want.dq);
    assert_close("dk", &got.dk, &want.dk);
    assert_close("dv", &got.dv, &want.dv);
}

#[test]
fn gradients_of_one_block() {
    assert_gradients(&random_case(1, 64, false, 1));
}

#[test]
fn gradients_of_one_causal_block() {
    assert_gradients(&random_case(1, 64, true, 2));
}

#[test]
fn gradients_of_several_blocks_and_heads() {
    assert_gradients(&random_case(2, 128, false, 3));
}

#[test]
fn gradients_of_several_causal_blocks_and_heads() {
    assert_gradients(&random_case(2, 192, true, 4));
}

/// A small integer that depends on the position.
fn small(i: usize, salt: usize) -> f32 {
    match (i * 31 + salt * 17 + i / 7) % 11 {
        0 => 1.0,
        5 => -1.0,
        _ => 0.0,
    }
}

fn integer_case(heads: usize, seq: usize, causal: bool) -> Case {
    let n = heads * seq * 64;
    Case {
        heads,
        seq,
        q: (0..n).map(|i| small(i, 1)).collect(),
        k: (0..n).map(|i| small(i, 2)).collect(),
        v: (0..n).map(|i| small(i, 3)).collect(),
        o: (0..n).map(|i| small(i, 4)).collect(),
        g: (0..n).map(|i| small(i, 5)).collect(),
        lse: (0..heads * seq).map(|i| -((i % 3) as f32)).collect(),
        scale: 1.0,
        causal,
    }
}

/// Without rounding the gradients are the matrix products, to the last bit.
fn assert_exact_products(c: &Case) {
    let got = run_from(&integer_math(), c, 7.0);
    let n = c.heads * c.seq * 64;
    let (mut dq, mut dk, mut dv) = (vec![0.0f32; n], vec![0.0f32; n], vec![0.0f32; n]);
    for b in 0..c.heads {
        let at = |i: usize, x: usize| (b * c.seq + i) * 64 + x;
        for i in 0..c.seq {
            let row: f32 = (0..64).map(|x| c.o[at(i, x)] * c.g[at(i, x)]).sum();
            assert_eq!(got.d[b * c.seq + i], row);
            for j in 0..c.seq {
                if sees(c, i, j) {
                    let s: f32 = (0..64).map(|x| c.q[at(i, x)] * c.k[at(j, x)]).sum();
                    let dp: f32 = (0..64).map(|x| c.g[at(i, x)] * c.v[at(j, x)]).sum();
                    let p = s * c.scale - c.lse[b * c.seq + i];
                    let ds = p * (dp - row) * c.scale;
                    assert!(ds.abs() <= 256.0);
                    for x in 0..64 {
                        dq[at(i, x)] += ds * c.k[at(j, x)];
                        dk[at(j, x)] += ds * c.q[at(i, x)];
                        dv[at(j, x)] += p * c.g[at(i, x)];
                    }
                }
            }
        }
    }
    assert_eq!(got.dq, dq);
    assert_eq!(got.dk, dk);
    assert_eq!(got.dv, dv);
    assert!(dq.iter().any(|x| *x != 0.0) && dk.iter().any(|x| *x != 0.0) && dv.iter().any(|x| *x != 0.0));
}

#[test]
fn exact_products_without_a_mask() {
    assert_exact_products(&integer_case(2, 128, false));
}

#[test]
fn exact_products_under_the_causal_mask() {
    assert_exact_products(&integer_case(2, 192, true));
}

#[test]
fn outputs_are_written_whatever_they_held() {
    let c = random_case(1, 128, true, 5);
    let a = run_from(&device_math(), &c, 0.0);
    let b = run_from(&device_math(), &c, f32::NAN);
    assert_eq!(a.d, b.d);
    assert_eq!(a.dq, b.dq);
    assert_eq!(a.dk, b.dk);
    assert_eq!(a.dv, b.dv);
}

#[test]
fn heads_do_not_mix() {
    let c = random_case(2, 64, true, 6);
    let mut other = random_case(2, 64, true, 6);
    for i in 0..64 * 64 {
        other.q[i] += 1.0;
        other.k[i] -= 1.0;
        other.v[i] += 0.5;
        other.g[i] += 0.25;
    }
    let (a, b) = (run(&c), run(&other));
    let half = 64 * 64;
    assert_eq!(a.dq[half..], b.dq[half..]);
    assert_eq!(a.dk[half..], b.dk[half..]);
    assert_eq!(a.dv[half..], b.dv[half..]);
    assert_ne!(a.dq[..half], b.dq[..half]);
}

#[test]
fn later_keys_do_not_reach_earlier_queries() {
    let c = random_case(1, 128, true, 7);
    let mut other = random_case(1, 128, true, 7);
    for i in 64 * 64..128 * 64 {
        other.k[i] += 1.0;
        other.v[i] -= 1.0;
    }
    let (a, b) = (run(&c), run(&other));
    assert_eq!(a.dq[..64 * 64], b.dq[..64 * 64]);
    assert_ne!(a.dq[64 * 64..], b.dq[64 * 64..]);
}

#[test]
fn earlier_queries_do_not_reach_later_keys() {
    let c = random_case(1, 128, true, 8);
    let mut other = random_case(1, 128, true, 8);
    for i in 0..64 * 64 {
        other.q[i] += 1.0;
        other.g[i] -= 1.0;
    }
    let (a, b) = (run(&c), run(&other));
    assert_eq!(a.dk[64 * 64..], b.dk[64 * 64..]);
    assert_eq!(a.dv[64 * 64..], b.dv[64 * 64..]);
    assert_ne!(a.dv[..64 * 64], b.dv[..64 * 64]);
}

#[test]
fn a_query_sees_no_later_key_of_its_own_block() {
    let c = random_case(1, 128, true, 9);
    let mut other = c.clone();
    for i in 71 * 64..128 * 64 {
        other.k[i] += 1.0;
        other.v[i] -= 1.0;
    }
    let (a, b) = (run(&c), run(&other));
    assert_eq!(a.dq[..71 * 64], b.dq[..71 * 64]);
    assert_ne!(a.dq[71 * 64..72 * 64], b.dq[71 * 64..72 * 64]);
}

#[test]
fn a_key_sees_no_earlier_query_of_its_own_block() {
    let c = random_case(1, 128, true, 10);
    let mut other = c.clone();
    for i in 0..70 * 64 {
        other.q[i] += 1.0;
        other.g[i] -= 1.0;
    }
    for i in 0..70 {
        other.lse[i] += 1.0;
    }
    let (a, b) = (run(&c), run(&other));
    assert_eq!(a.dk[70 * 64..], b.dk[70 * 64..]);
    assert_eq!(a.dv[70 * 64..], b.dv[70 * 64..]);
    assert_ne!(a.dv[69 * 64..70 * 64], b.dv[69 * 64..70 * 64]);
}

#[test]
fn a_head_can_be_launched_alone() {
    let c = random_case(3, 64, true, 11);
    let all = run(&c);
    let n = 64 * 64;
    let slice = |x: &Vec<f32>| x[n..2 * n].to_vec();
    let alone = run(&Case {
        heads: 1,
        q: slice(&c.q),
        k: slice(&c.k),
        v: slice(&c.v),
        o: slice(&c.o),
        g: slice(&c.g),
        lse: c.lse[64..128].to_vec(),
        ..c.clone()
    });
    assert_eq!(all.d[64..128], alone.d[..]);
    assert_eq!(all.dq[n..2 * n], alone.dq[..]);
    assert_eq!(all.dk[n..2 * n], alone.dk[..]);
    assert_eq!(all.dv[n..2 * n], alone.dv[..]);
}

#[test]
fn the_mask_spares_the_last_query_and_the_first_key() {
    let c = random_case(1, 128, true, 12);
    let free = Case { causal: false, ..c.clone() };
    let (a, b) = (run(&c), run(&free));
    assert_eq!(a.dq[127 * 64..], b.dq[127 * 64..]);
    assert_eq!(a.dk[..64], b.dk[..64]);
    assert_eq!(a.dv[..64], b.dv[..64]);
    assert_ne!(a.dq[126 * 64..127 * 64], b.dq[126 * 64..127 * 64]);
    assert_ne!(a.dk[64..128], b.dk[64..128]);
}

fn twice(x: &[f32]) -> Vec<f32> {
    x.iter().map(|y| 2.0 * y).collect()
}

#[test]
fn gradients_double_with_the_output_gradient() {
    let c = random_case(1, 128, true, 13);
    let other = Case { g: twice(&c.g), ..c.clone() };
    let (a, b) = (run(&c), run(&other));
    assert_eq!(b.d, twice(&a.d));
    assert_eq!(b.dq, twice(&a.dq));
    assert_eq!(b.dk, twice(&a.dk));
    assert_eq!(b.dv, twice(&a.dv));
}

#[test]
fn gradients_combine_with_the_output_gradient() {
    let a = integer_case(1, 128, true);
    let b = Case { g: (0..128 * 64).map(|i| small(i, 9)).collect(), ..a.clone() };
    let mix = |x: &[f32], y: &[f32]| -> Vec<f32> {
        x.iter().zip(y.iter()).map(|(s, t)| s - t).collect()
    };
    let c = Case { g: mix(&a.g, &b.g), ..a.clone() };
    let go = |x: &Case| run_from(&integer_math(), x, 0.0);
    let (ra, rb, rc) = (go(&a), go(&b), go(&c));
    assert_eq!(rc.d, mix(&ra.d, &rb.d));
    assert_eq!(rc.dq, mix(&ra.dq, &rb.dq));
    assert_eq!(rc.dk, mix(&ra.dk, &rb.dk));
    assert_eq!(rc.dv, mix(&ra.dv, &rb.dv));
}

/// The rows of a head in another order.
fn reordered(x: &[f32], width: usize) -> Vec<f32> {
    let rows = x.len() / width;
    (0..x.len()).map(|i| x[((i / width) * 37 + 5) % rows * width + i % width]).collect()
}

#[test]
fn the_order_of_keys_does_not_matter() {
    let c = integer_case(1, 128, false);
    let other = Case { k: reordered(&c.k, 64), v: reordered(&c.v, 64), ..c.clone() };
    let a = run_from(&integer_math(), &c, 0.0);
    let b = run_from(&integer_math(), &other, 0.0);
    assert_eq!(a.dq, b.dq);
    assert_ne!(a.dk, b.dk);
}

#[test]
fn the_order_of_queries_does_not_matter() {
    let c = integer_case(1, 128, false);
    let other = Case {
        q: reordered(&c.q, 64),
        o: reordered(&c.o, 64),
        g: reordered(&c.g, 64),
        lse: reordered(&c.lse, 1),
        ..c.clone()
    };
    let a = run_from(&integer_math(), &c, 0.0);
    let b = run_from(&integer_math(), &other, 0.0);
    assert_eq!(a.dk, b.dk);
    assert_eq!(a.dv, b.dv);
    assert_ne!(a.dq, b.dq);
}

fn dot(x: &[f32], y: &[f32]) -> f64 {
    x.iter().zip(y.iter()).map(|(s, t)| *s as f64 * *t as f64).sum()
}

#[test]
fn query_and_key_moments_are_equal() {
    for causal in [false, true] {
        let c = integer_case(1, 128, causal);
        let r = run_from(&integer_math(), &c, 0.0);
        assert_eq!(dot(&c.q, &r.dq), dot(&c.k, &r.dk));
        assert_ne!(dot(&c.q, &r.dq), 0.0);
    }
}

#[test]
fn forward_statistics_fix_the_sums_over_the_keys() {
    let c = random_case(1, 128, true, 14);
    let r = run(&c);
    for x in 0..64 {
        let column = |t: &[f32]| -> f32 { (0..128).map(|i| t[i * 64 + x]).sum() };
        assert!((column(&r.dv) - column(&c.g)).abs() < 0.05);
        assert!(column(&r.dk).abs() < 0.01);
    }
}

#[test]
fn row_sums_are_symmetric() {
    let c = random_case(1, 64, false, 15);
    let other = Case { o: c.g.clone(), g: c.o.clone(), ..c.clone() };
    assert_eq!(run(&c).d, run(&other).d);
}

fn refused(q: &[usize], k: &[usize], v: &[usize]) -> String {
    let mut d = bits(&[1], vec![1.5]);
    let mut dq = bits(&[1], vec![2.5]);
    let mut dk = bits(&[1], vec![3.5]);
    let mut dv = bits(&[1], vec![4.5]);
    let r = flash_attention_backward_tiled(
        &device_math(),
        &tensor(q, vec![]),
        &tensor(k, vec![]),
        &tensor(v, vec![]),
        &tensor(q, vec![]),
        &tensor(q, vec![]),
        &bits(&[], vec![]),
        &mut d,
        &mut dq,
        &mut dk,
        &mut dv,
        1.0f32.to_bits(),
        false,
    );
    assert_eq!(d.data, vec![1.5f32.to_bits()]);
    assert_eq!(dq.data, vec![2.5f32.to_bits()]);
    assert_eq!(dk.data, vec![3.5f32.to_bits()]);
    assert_eq!(dv.data, vec![4.5f32.to_bits()]);
    match r {
        Ok(()) => panic!("accepted"),
        Err(AttentionSetupError::InvalidConfig(text)) => text,
    }
}

#[test]
fn another_head_dimension_is_refused() {
    let shape = [2, 3, 64, 128];
    assert_eq!(
        refused(&shape, &shape, &shape),
        "tiled attention backward requires head_dim == 64, got 128",
    );
}

#[test]
fn a_ragged_sequence_is_refused() {
    let shape = [2, 3, 100, 64];
    assert_eq!(
        refused(&shape, &shape, &shape),
        "tiled attention backward requires seq % 64 == 0, got 100",
    );
}

#[test]
fn an_empty_sequence_is_refused() {
    let shape = [2, 3, 0, 64];
    assert_eq!(
        refused(&shape, &shape, &shape),
        "tiled attention backward requires seq % 64 == 0, got 0",
    );
}

#[test]
fn cross_attention_is_refused() {
    let text = "tiled attention backward requires square self-attention";
    assert_eq!(refused(&[2, 64, 64], &[2, 128, 64], &[2, 64, 64]), text);
    assert_eq!(refused(&[2, 64, 64], &[2, 64, 64], &[1, 64, 64]), text);
}

#[test]
fn the_head_dimension_is_checked_first() {
    assert_eq!(
        refused(&[3, 7], &[1], &[2]),
        "tiled attention backward requires head_dim == 64, got 7",
    );
}

#[test]
fn a_rank_below_two_is_refused() {
    assert_eq!(
        refused(&[64], &[64], &[64]),
        "tiled attention backward requires rank >= 2, got 1",
    );
    assert_eq!(refused(&[], &[], &[]), "tiled attention backward requires rank >= 2, got 0");
}

/// The result on `[1, 2, 64, 64]` queries with the given shapes of the others,
/// all of them with room to spare.
fn with_operands(
    o: &[usize],
    g: &[usize],
    lse: &[usize],
    d: &[usize],
    dq: &[usize],
    dk: &[usize],
    dv: &[usize],
) -> Option<String> {
    let shape = [1, 2, 64, 64];
    let n = 4 * 64 * 64;
    let zeros = || vec![0.0f32; n];
    let mut d = bits(d, vec![7.0; n]);
    let mut dq = bits(dq, vec![7.0; n]);
    let mut dk = bits(dk, vec![7.0; n]);
    let mut dv = bits(dv, vec![7.0; n]);
    let r = flash_attention_backward_tiled(
        &device_math(),
        &tensor(&shape, zeros()),
        &tensor(&shape, zeros()),
        &tensor(&shape, zeros()),
        &tensor(o, zeros()),
        &tensor(g, zeros()),
        &bits(lse, zeros()),
        &mut d,
        &mut dq,
        &mut dk,
        &mut dv,
        1.0f32.to_bits(),
        false,
    );
    let seven = 7.0f32.to_bits();
    let touched = |t: &TensorBinding<u32>| t.data.iter().filter(|x| **x != seven).count();
    match r {
        Ok(()) => {
            assert_eq!(touched(&d), 2 * 64);
            assert_eq!(touched(&dq), 2 * 64 * 64);
            assert_eq!(touched(&dk), 2 * 64 * 64);
            assert_eq!(touched(&dv), 2 * 64 * 64);
            None
        }
        Err(e) => {
            assert_eq!(touched(&d) + touched(&dq) + touched(&dk) + touched(&dv), 0);
            Some(e.message())
        }
    }
}

#[test]
fn operands_of_the_right_shapes_are_accepted() {
    let s = [1, 2, 64, 64];
    for d in [&[2usize, 64] as &[usize], &[1, 2, 64], &[128], &[2, 64, 1], &[129], &[4, 64]] {
        assert_eq!(with_operands(&s, &s, &[2, 64], d, &s, &s, &s), None);
    }
    for g in [&[128usize, 64] as &[usize], &[8192], &[2, 64, 64], &[1, 2, 32, 128]] {
        assert_eq!(with_operands(&s, &s, &[2, 64], &[2, 64], g, &s, &s), None);
        assert_eq!(with_operands(&s, &s, &[2, 64], &[2, 64], &s, g, &s), None);
        assert_eq!(with_operands(&s, &s, &[2, 64], &[2, 64], &s, &s, g), None);
    }
}

#[test]
fn outputs_of_another_shape_are_refused() {
    let s = [1, 2, 64, 64];
    let text = Some(String::from("tiled attention backward requires o and do_ of the shape of q"));
    for other in [&[1usize, 2, 64, 32] as &[usize], &[1, 2, 64, 128], &[2, 64, 64], &[1, 2, 128, 64]] {
        assert_eq!(with_operands(other, &s, &[2, 64], &[2, 64], &s, &s, &s), text);
        assert_eq!(with_operands(&s, other, &[2, 64], &[2, 64], &s, &s, &s), text);
    }
}

#[test]
fn row_statistics_of_another_shape_are_refused() {
    let s = [1, 2, 64, 64];
    let text = Some(String::from("tiled attention backward requires lse of shape [B*H, N]"));
    for lse in [&[2usize, 63] as &[usize], &[1, 64], &[64, 2], &[128], &[1, 2, 64]] {
        assert_eq!(with_operands(&s, &s, lse, &[2, 64], &s, &s, &s), text);
    }
    let text = Some(String::from("tiled attention backward requires d to hold an element for each row"));
    for d in [&[2usize, 63] as &[usize], &[], &[2, 0], &[usize::MAX, 0, usize::MAX], &[127]] {
        assert_eq!(with_operands(&s, &s, &[2, 64], d, &s, &s, &s), text);
    }
}

#[test]
fn gradients_of_another_size_are_refused() {
    let s = [1, 2, 64, 64];
    let text = Some(String::from("tiled attention backward requires dq, dk and dv of the size of q"));
    for other in [&[1usize, 2, 64, 128] as &[usize], &[1, 2, 64, 32], &[8191], &[usize::MAX, usize::MAX, 3]] {
        assert_eq!(with_operands(&s, &s, &[2, 64], &[2, 64], other, &s, &s), text);
        assert_eq!(with_operands(&s, &s, &[2, 64], &[2, 64], &s, other, &s), text);
        assert_eq!(with_operands(&s, &s, &[2, 64], &[2, 64], &s, &s, other), text);
    }
}
