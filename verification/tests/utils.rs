//! How a trace is split into a grid.

use hekate::utils::{compute_split_vars, Instant, Q_VECTOR_ELEM_BYTES};

const QUERIES: [usize; 4] = [8, 32, 128, 176];
const SUPPORTS: [usize; 4] = [4, 32, 128, 512];
const ROW_BYTES: [usize; 7] = [4, 12, 44, 244, 1024, 4096, 27056];

fn scan_argmin(
    num_vars: usize,
    num_queries: usize,
    support_size: usize,
    row_bytes: usize,
) -> usize {
    let vector_cost = Q_VECTOR_ELEM_BYTES as u128;
    let opened_cost = ((num_queries * row_bytes).max(1)) as u128;

    let support_floor = if support_size > 1 {
        (support_size - 1).ilog2() as usize + 1
    } else {
        1
    };

    let lo = support_floor.clamp(1, num_vars);

    (lo..=num_vars)
        .min_by_key(|&c| vector_cost * (1u128 << c) + opened_cost * (1u128 << (num_vars - c)))
        .unwrap()
}

fn cases() -> Vec<(usize, usize, usize, usize)> {
    let mut out = Vec::new();
    for num_vars in 1..=24 {
        for &q in &QUERIES {
            for &s in &SUPPORTS {
                out.extend(ROW_BYTES.iter().map(|&rb| (num_vars, q, s, rb)));
            }
        }
    }

    out
}

#[test]
fn split_vars_hits_the_discrete_argmin() {
    for (num_vars, q, s, rb) in cases() {
        assert_eq!(
            compute_split_vars(num_vars, q, s, rb),
            scan_argmin(num_vars, q, s, rb),
            "n={num_vars} q={q} s={s} rb={rb}"
        );
    }
}

#[test]
fn split_vars_respects_the_support_floor() {
    for (num_vars, q, s, rb) in cases() {
        let c = compute_split_vars(num_vars, q, s, rb);
        let floor = if s > 1 {
            (s - 1).ilog2() as usize + 1
        } else {
            1
        };

        assert!(
            c >= floor.min(num_vars),
            "n={num_vars} q={q} s={s} rb={rb} gave c={c}"
        );
    }
}

#[test]
fn split_vars_collapses_for_a_single_row() {
    assert_eq!(compute_split_vars(0, 176, 128, 244), 0);
}

#[test]
fn the_clock_without_time_stands_still() {
    assert_eq!(Instant::now().elapsed(), std::time::Duration::from_secs(0));
}
