//! Plans, indices, tiles, staging and row sums.

use cubek_attention::dkdv::{dkdv_element, dkdv_lane, DkdvShared, DkdvTile};
use cubek_attention::dq::{dq_element, dq_lane, DqShared, DqTile};
use cubek_attention::error::{append_decimal, AttentionSetupError};
use cubek_attention::geometry::{kv_sweep_end, q_sweep_start, visible};
use cubek_attention::launch::{check_operands, check_shapes, plan_launch, LaunchPlan};
use cubek_attention::math::{grad, prob, row_step, Arithmetic, Closures};
use cubek_attention::prepass::{flash_backward_prepass_kernel, launch_prepass};
use cubek_attention::stage::{stage_kv, stage_kv_thread, stage_q_do, stage_q_do_thread, stage_rows, stage_rows_thread};
use cubek_attention::tile::{cross_tile, load_tile, store_block, store_tile, zero_accumulators, zeros, MatrixLayout};

/// Wrapping integers in place of numbers.
fn integers() -> impl Arithmetic<u32, u32> {
    Closures {
        widen_q: |x: u32| x,
        widen_do: |x: u32| x,
        narrow_q: |x: u32| (x % 1000) as u16,
        narrow_do: |x: u32| (x % 1000) as u16 + 1000,
        narrow: |x: u32| (x % 60000) as u16,
        mma: |a: &[u16; 256], b: &[u16; 256], c: &[u32; 256]| {
            let mut r = *c;
            for i in 0..256 {
                for t in 0..16 {
                    r[i] += a[(i / 16) * 16 + t] as u32 * b[t * 16 + i % 16] as u32;
                }
            }
            r
        },
        plus: |x: u32, y: u32| x.wrapping_add(y),
        minus: |x: u32, y: u32| x.wrapping_sub(y),
        times: |x: u32, y: u32| x.wrapping_mul(y),
        exp: |x: u32| x.wrapping_add(1),
    }
}

fn plan(shape: &[usize]) -> LaunchPlan {
    let s = shape.to_vec();
    assert!(check_shapes(&s, &s, &s).is_ok());
    plan_launch(&s)
}

#[test]
fn plan_of_a_batch_of_heads() {
    let p = plan(&[2, 3, 128, 64]);
    assert_eq!(p.total_rows, 768);
    assert_eq!(p.head_dim, 64);
    assert_eq!(p.prepass_count, (6, 1, 1));
    assert_eq!(p.prepass_dim, (128, 1, 1));
    assert_eq!(p.gradient_count, (6, 2, 1));
    assert_eq!(p.gradient_dim, (32, 4, 1));
    assert_eq!(p.seq, 128);
}

#[test]
fn plan_rounds_the_row_sum_cubes_up() {
    let p = plan(&[3, 64, 64]);
    assert_eq!(p.total_rows, 192);
    assert_eq!(p.prepass_count, (2, 1, 1));
    assert_eq!(p.gradient_count, (3, 1, 1));
}

#[test]
fn plan_without_leading_dimensions_has_one_head() {
    let p = plan(&[256, 64]);
    assert_eq!(p.total_rows, 256);
    assert_eq!(p.gradient_count, (1, 4, 1));
}

#[test]
fn plan_of_no_heads_is_empty() {
    let p = plan(&[0, 64, 64]);
    assert_eq!(p.total_rows, 0);
    assert_eq!(p.prepass_count, (0, 1, 1));
    assert_eq!(p.gradient_count, (0, 1, 1));
}

#[test]
fn plan_counts_rows_in_32_bits() {
    let p = plan(&[(1usize << 26) + 1, 64, 64]);
    assert_eq!(p.total_rows, 64);
    assert_eq!(p.prepass_count, (1, 1, 1));
    assert_eq!(p.gradient_count, ((1u32 << 26) + 1, 1, 1));
}

#[test]
fn errors_give_their_reason() {
    let e = AttentionSetupError::InvalidConfig(String::from("no"));
    assert_eq!(e.message(), "no");
}

#[test]
fn decimal_notation() {
    for n in [0usize, 7, 10, 64, 909, 1000, usize::MAX] {
        let mut text = String::from("n = ");
        append_decimal(&mut text, n);
        assert_eq!(text, format!("n = {n}"));
    }
}

#[test]
fn visibility() {
    assert!(visible(false, 3, 9));
    assert!(visible(true, 9, 3));
    assert!(visible(true, 9, 9));
    assert!(!visible(true, 3, 9));
}

#[test]
fn sweeps() {
    assert_eq!(kv_sweep_end(false, 2, 640), 10);
    assert_eq!(kv_sweep_end(true, 2, 640), 3);
    assert_eq!(q_sweep_start(false, 2), 0);
    assert_eq!(q_sweep_start(true, 2), 2);
}

#[test]
fn both_sweeps_visit_the_same_block_pairs() {
    for causal in [false, true] {
        for q in 0..5usize {
            for k in 0..5usize {
                assert_eq!(k < kv_sweep_end(causal, q, 320), q_sweep_start(causal, k) <= q);
            }
        }
    }
}

#[test]
fn tiles_load_by_rows_and_by_columns() {
    let buf: Vec<u16> = (0..4096).collect();
    let rows = load_tile(&buf, 64 * 16 + 32, 64, MatrixLayout::RowMajor);
    let columns = load_tile(&buf, 64 * 16 + 32, 64, MatrixLayout::ColMajor);
    for r in 0..16usize {
        for c in 0..16usize {
            assert_eq!(rows[r * 16 + c] as usize, (16 + r) * 64 + 32 + c);
            assert_eq!(columns[r * 16 + c], rows[c * 16 + r]);
        }
    }
}

#[test]
fn tiles_store_to_their_own_columns() {
    let mut buf = vec![9u32; 2048];
    let mut t = [0u32; 256];
    for i in 0..256 {
        t[i] = 1000 + i as u32;
    }
    store_tile(&mut buf, 70, 64, &t);
    for j in 0..2048usize {
        let (row, col) = if j < 70 { (99, 99) } else { ((j - 70) / 64, (j - 70) % 64) };
        let want = if row < 16 && col < 16 { 1000 + (row * 16 + col) as u32 } else { 9 };
        assert_eq!(buf[j], want);
    }
}

#[test]
fn blocks_store_their_accumulators() {
    assert_eq!(zeros(), [0u32; 256]);
    let mut acc = zero_accumulators();
    assert_eq!(acc.len(), 16);
    for t in 0..16 {
        for i in 0..256 {
            acc[t][i] = (t * 256 + i) as u32;
        }
    }
    let mut out = vec![7u32; 5000];
    store_block(&mut out, 100, &acc);
    assert_eq!(out[99], 7);
    assert_eq!(out[100 + 4096], 7);
    for row in 0..64usize {
        for col in 0..64usize {
            let want = ((row / 16) * 4 + col / 16) * 256 + (row % 16) * 16 + col % 16;
            assert_eq!(out[100 + row * 64 + col] as usize, want);
        }
    }
}

#[test]
fn cross_tiles_multiply_rows() {
    let x: Vec<u16> = (0..4096u32).map(|i| (i % 7) as u16).collect();
    let y: Vec<u16> = (0..4096u32).map(|i| (i % 5) as u16).collect();
    let t = cross_tile(&integers(), &x, 16, &y, 48);
    for i in 0..16usize {
        for j in 0..16usize {
            let want: u32 = (0..64).map(|c| x[(16 + i) * 64 + c] as u32 * y[(48 + j) * 64 + c] as u32).sum();
            assert_eq!(t[i * 16 + j], want);
        }
    }
}

#[test]
fn staging_a_block_of_keys() {
    let math = integers();
    let k: Vec<u32> = (0..20000).collect();
    let v: Vec<u32> = (0..20000).map(|i| i * 3).collect();
    let (mut ks, mut vs) = (vec![0u16; 4096], vec![0u16; 4096]);
    stage_kv(&math, &k, &v, 4096, 64, &mut ks, &mut vs);
    for i in 0..4096usize {
        let at = 4096 + (64 + i / 64) * 64 + i % 64;
        assert_eq!(ks[i] as u32, k[at] % 1000);
        assert_eq!(vs[i] as u32, v[at] % 1000);
    }
}

#[test]
fn threads_stage_in_any_order() {
    let math = integers();
    let q: Vec<u32> = (0..9000).collect();
    let g: Vec<u32> = (0..9000).map(|i| i * 7).collect();
    let (mut a, mut b) = (vec![0u16; 4096], vec![0u16; 4096]);
    stage_q_do(&math, &q, &g, 0, 64, &mut a, &mut b);
    let (mut c, mut d) = (vec![0u16; 4096], vec![0u16; 4096]);
    for tid in (0..128).rev() {
        stage_q_do_thread(&math, &q, &g, 0, 64, &mut c, &mut d, tid);
    }
    assert_eq!(a, c);
    assert_eq!(b, d);
}

#[test]
fn a_thread_stages_its_own_slots() {
    let math = integers();
    let k: Vec<u32> = vec![5; 4096];
    let (mut ks, mut vs) = (vec![0u16; 4096], vec![0u16; 4096]);
    stage_kv_thread(&math, &k, &k, 0, 0, &mut ks, &mut vs, 3);
    for i in 0..4096usize {
        assert_eq!(ks[i], if i % 128 == 3 { 5 } else { 0 });
        assert_eq!(vs[i], ks[i]);
    }
}

#[test]
fn staging_row_statistics() {
    let lse: Vec<u32> = (0..200).collect();
    let d: Vec<u32> = (1000..1200).collect();
    let (mut a, mut b) = (vec![0u32; 64], vec![0u32; 64]);
    stage_rows(&lse, &d, 70, &mut a, &mut b);
    assert_eq!(a, (70..134).collect::<Vec<u32>>());
    assert_eq!(b, (1070..1134).collect::<Vec<u32>>());
    let (mut c, mut e) = (vec![0u32; 64], vec![0u32; 64]);
    stage_rows_thread(&lse, &d, 70, &mut c, &mut e, 100);
    assert_eq!(c, vec![0u32; 64]);
    stage_rows_thread(&lse, &d, 70, &mut c, &mut e, 5);
    assert_eq!(c[5], 75);
    assert_eq!(e[5], 1075);
}

#[test]
fn row_sums() {
    let math = integers();
    let o: Vec<u32> = vec![1, 2, 3, 4, 5, 6];
    let g: Vec<u32> = vec![10, 20, 30, 40, 50, 60];
    let mut d = vec![9u32; 3];
    flash_backward_prepass_kernel(&math, &o, &g, &mut d, 2, 3, 1);
    assert_eq!(d, vec![9, 770, 9]);
    flash_backward_prepass_kernel(&math, &o, &g, &mut d, 2, 3, 2);
    assert_eq!(d, vec![9, 770, 9]);
}

#[test]
fn row_sums_of_all_rows() {
    let math = integers();
    let o: Vec<u32> = (0..300 * 64).map(|i| i % 13).collect();
    let g: Vec<u32> = (0..300 * 64).map(|i| i % 17).collect();
    let mut d = vec![1u32; 301];
    launch_prepass(&math, &o, &g, &mut d, 300, 64, 3, 128);
    for row in 0..300usize {
        let want: u32 = (0..64).map(|i| o[row * 64 + i] * g[row * 64 + i]).sum();
        assert_eq!(d[row], want);
    }
    assert_eq!(d[300], 1);
}

fn dq_tile() -> DqTile {
    DqTile { plane: 2, kv_tile: 1, q0: 64, kv0: 64, scale: 3, causal: true }
}

fn dq_shared() -> DqShared {
    let mut sh = DqShared::new();
    for j in 0..1024usize {
        sh.s[j] = j as u32;
        sh.dp[j] = 2 * j as u32;
    }
    for r in 0..64usize {
        sh.lse[r] = 100 + r as u32;
        sh.d[r] = 500 + r as u32;
    }
    sh
}

#[test]
fn score_gradients_of_the_query_kernel() {
    let sh = dq_shared();
    // Element 18 is query 64 + 32 + 1 and key 64 + 16 + 2.
    let p = (512 + 18) * 3 - 133 + 1;
    assert_eq!(p, 1458);
    let ds: u32 = p * (2 * (512 + 18) - 533) * 3;
    assert_eq!(dq_element(&integers(), &sh, dq_tile(), 18) as u32, ds % 60000);
    // In the last key tile, element 3 is query 96 and key 115, which is masked.
    let at = DqTile { kv_tile: 3, ..dq_tile() };
    assert_eq!(dq_element(&integers(), &sh, at, 3), 0);
}

#[test]
fn lanes_of_the_query_kernel_work_in_any_order() {
    let math = integers();
    let (mut a, mut b) = (dq_shared(), dq_shared());
    for lane in 0..32 {
        dq_lane(&math, &mut a, dq_tile(), lane);
    }
    for lane in (0..32).rev() {
        dq_lane(&math, &mut b, dq_tile(), lane);
    }
    assert_eq!(a.ds, b.ds);
    for j in 0..1024usize {
        if (512..768).contains(&j) {
            assert_eq!(a.ds[j], dq_element(&math, &dq_shared(), dq_tile(), j - 512));
        } else {
            assert_eq!(a.ds[j], 0);
        }
    }
}

#[test]
fn elements_of_the_key_and_value_kernel() {
    let math = integers();
    let mut sh = DkdvShared::new();
    for j in 0..1024usize {
        sh.s[j] = j as u32;
        sh.dp[j] = 2 * j as u32;
    }
    for r in 0..64usize {
        sh.lse[r] = 100 + r as u32;
        sh.d[r] = 500 + r as u32;
    }
    let at = DkdvTile { plane: 1, q_tile: 2, kv0: 0, q0: 0, scale: 3, causal: true };
    // Element 18 is key 16 + 1 and query 32 + 2.
    let p: u32 = (256 + 18) * 3 - 134 + 1;
    let ds: u32 = p * (2 * (256 + 18) - 534) * 3;
    let want = (p as u16, (ds % 60000) as u16);
    assert_eq!(dkdv_element(&math, &sh, at, 18), want);
    // Seen from query tile 0, element 18 is query 2, before key 17.
    let early = DkdvTile { q_tile: 0, ..at };
    assert_eq!(dkdv_element(&math, &sh, early, 18), (0, 0));
    dkdv_lane(&math, &mut sh, at, 18);
    assert_eq!((sh.p[256 + 18], sh.ds[256 + 18]), want);
    assert_eq!((sh.p[256 + 19], sh.ds[256 + 19]), (0, 0));
    assert_eq!((sh.p[18], sh.ds[18]), (0, 0));
}

#[test]
fn operations_on_numbers() {
    let math = integers();
    assert_eq!(row_step(&math, 5, 6, 7), 47);
    assert_eq!(prob(&math, 5, 6, 7), 24);
    assert_eq!(grad(&math, 2, 9, 4, 3), 30);
}

#[test]
fn operands_are_compared_with_the_queries() {
    let q = vec![2usize, 3, 64, 64];
    let stats = vec![6usize, 64];
    assert!(check_operands(&q, &q, &q, &stats, &stats, &q, &q, &q).is_ok());
    assert!(check_operands(&q, &q, &q, &q, &stats, &q, &q, &q).is_err());
    let none = vec![0usize, usize::MAX, 64, 64];
    let no_stats = vec![0usize, 64];
    assert!(check_operands(&none, &none, &none, &no_stats, &no_stats, &none, &none, &none).is_ok());
    let flat = vec![2 * 3 * 64 * 64usize];
    assert!(check_operands(&q, &q, &q, &stats, &flat, &flat, &flat, &flat).is_ok());
    assert!(check_operands(&q, &q, &q, &stats, &flat, &flat, &stats, &flat).is_err());
}
