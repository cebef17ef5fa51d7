use channel_lab::fields::{parse_probability, parse_symbol};
use channel_lab::input::load_csv;
use channel_lab::decision::{
    average_loss, decision_weights, deterministic_average_loss, deterministic_decision_matrix,
    stochastic_average_loss, stochastic_decision_matrix, zero_one_loss,
};
use channel_lab::lab::{EvaluatedProbabilities, LabContext, CONDITIONAL_ONE};
use channel_lab::matrix::{Matrix, MatrixError};
use channel_lab::probabilities::get_ciphertext_probabilities;
use channel_lab::tables::{CipherTable, LoadError, ProbabilityDistributionTables, PRIOR_ONE};

const JOINT_ONE: u128 = (PRIOR_ONE as u128) * (PRIOR_ONE as u128);

fn evaluate(prior_rows: Vec<Vec<u64>>, table_rows: Vec<Vec<u32>>) -> EvaluatedProbabilities {
    let n = table_rows.len();
    EvaluatedProbabilities::eval(LabContext::load(prior_rows, table_rows, n).unwrap())
}

fn column(m: &Matrix<u64>, c: usize) -> Vec<u64> {
    (0..m.rows()).map(|r| m.get(r, c)).collect()
}

fn xor_channel() -> EvaluatedProbabilities {
    evaluate(
        vec![vec![500_000, 500_000], vec![500_000, 500_000]],
        vec![vec![0, 1], vec![1, 0]],
    )
}

#[test]
fn xor_channel_end_to_end() {
    let e = xor_channel();
    let half = (JOINT_ONE / 2) as u64;
    assert_eq!(e.get_ciphertexts_probabilities(), &vec![half, half]);
    let cond = e.get_m_if_c_probabilities();
    for m in 0..2 {
        for c in 0..2 {
            assert_eq!(cond.get(m, c), CONDITIONAL_ONE / 2);
        }
    }
    let d = deterministic_decision_matrix(&e);
    assert_eq!(d.get(0, 0), 0);
    assert_eq!(d.get(0, 1), 0);
    let loss = deterministic_average_loss(&e, &d, &zero_one_loss(2)).unwrap();
    // one half of the full scale JOINT_ONE * CONDITIONAL_ONE
    assert_eq!(loss, JOINT_ONE * CONDITIONAL_ONE as u128 / 2);
}

#[test]
fn unreachable_ciphertext_has_zero_posterior() {
    // ciphertext 2 never occurs
    let e = evaluate(
        vec![vec![200_000, 300_000, 500_000], vec![100_000, 600_000, 300_000]],
        vec![vec![0, 1, 0], vec![1, 0, 1], vec![0, 0, 1]],
    );
    assert_eq!(e.get_ciphertexts_probabilities()[2], 0);
    let cond = e.get_m_if_c_probabilities();
    assert_eq!(column(cond, 2), vec![0, 0, 0]);
    let d = deterministic_decision_matrix(&e);
    assert_eq!(d.get(0, 2), 0);
}

#[test]
fn joint_and_marginal_exact_values() {
    let e = evaluate(
        vec![vec![200_000, 300_000, 500_000], vec![100_000, 600_000, 300_000]],
        vec![vec![0, 1, 0], vec![1, 0, 1], vec![0, 0, 1]],
    );
    let j = e.get_m_and_c_probabilities();
    // plaintext 0 maps to 0 under keys 0 and 2, to 1 under key 1
    assert_eq!(j.get(0, 0), 200_000 * 100_000 + 200_000 * 300_000);
    assert_eq!(j.get(0, 1), 200_000 * 600_000);
    // plaintext 2 maps to 0 under key 0, to 1 under keys 1 and 2
    assert_eq!(j.get(2, 0), 500_000 * 100_000);
    assert_eq!(j.get(2, 1), 500_000 * 600_000 + 500_000 * 300_000);
    let marg = e.get_ciphertexts_probabilities();
    assert_eq!(marg[0], (0..3).map(|m| j.get(m, 0)).sum::<u64>());
    let total: u128 = marg.iter().map(|&x| x as u128).sum();
    assert_eq!(total, JOINT_ONE);
    let joint_total: u128 = (0..3).map(|m| j.row_sum(m)).sum();
    assert_eq!(joint_total, JOINT_ONE);
}

#[test]
fn posterior_columns_sum_to_one() {
    let e = evaluate(
        vec![vec![200_000, 300_000, 500_000], vec![100_000, 600_000, 300_000]],
        vec![vec![0, 1, 0], vec![1, 0, 1], vec![0, 0, 1]],
    );
    let cond = e.get_m_if_c_probabilities().clone();
    for c in 0..2 {
        let s = cond.column_sum(c);
        assert!(s <= CONDITIONAL_ONE as u128 && s > CONDITIONAL_ONE as u128 - 3);
    }
    // posterior of plaintext 0 given ciphertext 1: 0.12 / (0.12 + 0.03 + 0.45)
    assert_eq!(cond.get(0, 1), CONDITIONAL_ONE / 5);
}

#[test]
fn evaluation_is_repeatable() {
    let a = xor_channel();
    let b = EvaluatedProbabilities::eval(a.context().clone());
    assert_eq!(a.get_ciphertexts_probabilities(), b.get_ciphertexts_probabilities());
    for m in 0..2 {
        for c in 0..2 {
            assert_eq!(a.get_m_and_c_probabilities().get(m, c), b.get_m_and_c_probabilities().get(m, c));
            assert_eq!(a.get_m_if_c_probabilities().get(m, c), b.get_m_if_c_probabilities().get(m, c));
        }
    }
}

#[test]
fn ties_break_to_lowest_plaintext() {
    // six symbols; plaintexts 3 and 5 both map to ciphertext 3 under every key
    let table: Vec<Vec<u32>> = (0..6)
        .map(|_| (0..6).map(|m| if m == 5 { 3 } else { m as u32 }).collect())
        .collect();
    let e = evaluate(
        vec![
            vec![100_000, 100_000, 100_000, 250_000, 200_000, 250_000],
            vec![166_667, 166_667, 166_667, 166_667, 166_666, 166_666],
        ],
        table,
    );
    let cond = e.get_m_if_c_probabilities();
    assert_eq!(cond.get(3, 3), cond.get(5, 3));
    let d = deterministic_decision_matrix(&e);
    assert_eq!(d.get(0, 3), 3);
    assert_eq!(d.get(0, 0), 0);
    assert_eq!(d.get(0, 4), 4);
}

fn bayes_risk(e: &EvaluatedProbabilities) -> f64 {
    let n = e.alphabet_size();
    let j = e.get_m_and_c_probabilities();
    let w = JOINT_ONE as f64;
    let mut s = 0.0;
    for c in 0..n {
        let best = (0..n).map(|m| j.get(m, c)).max().unwrap();
        s += best as f64 / w;
    }
    1.0 - s
}

#[test]
fn zero_one_losses_match_bayes_risk() {
    // every ciphertext leaves a uniform posterior over the plaintexts it can come from
    let e = evaluate(
        vec![vec![250_000, 250_000, 500_000], vec![500_000, 500_000, 0]],
        vec![vec![0, 0, 1], vec![2, 2, 1], vec![2, 2, 0]],
    );
    let scale = JOINT_ONE as f64 * CONDITIONAL_ONE as f64;
    let l = zero_one_loss(3);
    let d = deterministic_decision_matrix(&e);
    let det = deterministic_average_loss(&e, &d, &l).unwrap() as f64 / scale;
    let sto = stochastic_average_loss(&e, &l).unwrap() as f64 / scale;
    let risk = bayes_risk(&e);
    assert!((det - risk).abs() < 1e-9);
    assert!((sto - risk).abs() < 1e-9);
    assert!((risk - 0.25).abs() < 1e-9);
}

#[test]
fn stochastic_loss_is_at_least_deterministic_loss() {
    let e = evaluate(
        vec![vec![200_000, 300_000, 500_000], vec![100_000, 600_000, 300_000]],
        vec![vec![0, 1, 0], vec![1, 0, 1], vec![0, 0, 1]],
    );
    let l = zero_one_loss(3);
    let d = deterministic_decision_matrix(&e);
    let det = deterministic_average_loss(&e, &d, &l).unwrap();
    let sto = stochastic_average_loss(&e, &l).unwrap();
    assert!(sto >= det);
    assert!((det as f64 / (JOINT_ONE as f64 * CONDITIONAL_ONE as f64) - bayes_risk(&e)).abs() < 1e-9);
}

#[test]
fn stochastic_decision_is_the_posterior() {
    let e = xor_channel();
    let s = stochastic_decision_matrix(&e);
    for m in 0..2 {
        for c in 0..2 {
            assert_eq!(s.get(m, c), e.get_m_if_c_probabilities().get(m, c));
        }
    }
    let w = decision_weights(&deterministic_decision_matrix(&e), 2);
    assert_eq!(w.get(0, 0), CONDITIONAL_ONE);
    assert_eq!(w.get(1, 0), 0);
    let l = zero_one_loss(2);
    assert_eq!(average_loss(&e, &s, &l), stochastic_average_loss(&e, &l));
}

#[test]
fn weighted_loss_matrix() {
    let e = xor_channel();
    let l = Matrix::from_rows(vec![vec![0u32, 3], vec![5, 0]], 2, 2).unwrap();
    let d = deterministic_decision_matrix(&e);
    // always guess 0: wrong only when the plaintext is 1, at cost 5
    let v = deterministic_average_loss(&e, &d, &l).unwrap();
    assert_eq!(v, JOINT_ONE * CONDITIONAL_ONE as u128 / 2 * 5);
}

#[test]
fn loss_matrix_of_wrong_shape_is_rejected() {
    let e = xor_channel();
    let d = deterministic_decision_matrix(&e);
    assert_eq!(
        deterministic_average_loss(&e, &d, &zero_one_loss(3)),
        Err(MatrixError::DimensionMismatch { expected: 2, actual: 3 })
    );
    let wide = Matrix::new(2, 3, 1u32);
    assert_eq!(
        stochastic_average_loss(&e, &wide),
        Err(MatrixError::DimensionMismatch { expected: 2, actual: 3 })
    );
}

#[test]
fn priors_must_sum_to_one() {
    assert_eq!(
        ProbabilityDistributionTables::new(vec![vec![500_000, 400_000], vec![500_000, 500_000]], 2)
            .unwrap_err(),
        LoadError::NotNormalised { row: 0, total: 900_000 }
    );
    let p = ProbabilityDistributionTables::new(vec![vec![500_000, 499_500], vec![500_000, 500_400]], 2)
        .unwrap();
    assert_eq!(p.open_texts_distribution(), &vec![500_000, 499_500]);
    assert_eq!(p.keys_distribution(), &vec![500_000, 500_400]);
    assert_eq!(p.get_probability_of_key_and_text(1, 0), 499_500 * 500_000);
}

#[test]
fn load_errors() {
    assert_eq!(
        ProbabilityDistributionTables::new(vec![vec![1_000_000, 0]], 2).unwrap_err(),
        LoadError::WrongRowCount { expected: 2, actual: 1 }
    );
    assert_eq!(
        ProbabilityDistributionTables::new(vec![vec![1_000_000, 0], vec![1_000_000]], 2).unwrap_err(),
        LoadError::WrongColumnCount { row: 1, expected: 2, actual: 1 }
    );
    assert_eq!(
        CipherTable::new(vec![vec![0, 1]], 2).unwrap_err(),
        LoadError::WrongRowCount { expected: 2, actual: 1 }
    );
    assert_eq!(
        CipherTable::new(vec![vec![0, 1], vec![1]], 2).unwrap_err(),
        LoadError::WrongColumnCount { row: 1, expected: 2, actual: 1 }
    );
    assert_eq!(
        CipherTable::new(vec![vec![0, 1], vec![2, 0]], 2).unwrap_err(),
        LoadError::SymbolOutOfRange { row: 1, column: 0, value: 2 }
    );
    assert!(LabContext::load(vec![vec![1_000_000, 0], vec![0, 1_000_000]], vec![vec![0, 1]], 2).is_err());
}

#[test]
fn cipher_table_lookup() {
    let t = CipherTable::new(vec![vec![0, 1, 2], vec![2, 0, 1], vec![1, 2, 0]], 3).unwrap();
    // row is the key, column the plaintext
    assert_eq!(t.get_ciphertext(0, 1), 2);
    assert_eq!(t.get_ciphertext(2, 1), 1);
    let p = ProbabilityDistributionTables::new(
        vec![vec![1_000_000, 0, 0], vec![0, 0, 1_000_000]],
        3,
    )
    .unwrap();
    let (marg, joint) = get_ciphertext_probabilities(&t, &p);
    assert_eq!(marg, vec![0, 1_000_000_000_000, 0]);
    assert_eq!(joint.get(0, 1), 1_000_000_000_000);
}

#[test]
fn matrix_operations() {
    let m = Matrix::from_rows(vec![vec![1u64, 2, 3], vec![4, 5, 6]], 2, 3).unwrap();
    assert_eq!(m.row_sum(0), 6);
    assert_eq!(m.row_sum(1), 15);
    assert_eq!(m.column_sum(2), 9);
    let t = m.clone().transpose();
    assert_eq!(t.rows(), 3);
    assert_eq!(t.cols(), 2);
    assert_eq!(t.get(2, 0), 3);
    assert_eq!(t.get(0, 1), 4);
    let mut z = Matrix::new(2, 2, 0u64);
    z.set(1, 0, 7);
    assert_eq!(z.get(1, 0), 7);
    assert_eq!(z.column_sum(0), 7);
    assert_eq!(m.duplicate().get(1, 2), 6);
}

#[test]
fn matrix_shape_is_checked() {
    assert_eq!(
        Matrix::from_rows(vec![vec![1u64, 2]], 2, 2).unwrap_err(),
        MatrixError::DimensionMismatch { expected: 2, actual: 1 }
    );
    assert_eq!(
        Matrix::from_rows(vec![vec![1u64, 2], vec![3]], 2, 2).unwrap_err(),
        MatrixError::DimensionMismatch { expected: 2, actual: 1 }
    );
}

#[test]
fn probability_cells() {
    assert_eq!(parse_probability(&b"0.25".to_vec()), Some(250_000));
    assert_eq!(parse_probability(&b"1".to_vec()), Some(1_000_000));
    assert_eq!(parse_probability(&b"1.0".to_vec()), Some(1_000_000));
    assert_eq!(parse_probability(&b"0.05".to_vec()), Some(50_000));
    assert_eq!(parse_probability(&b"0.0416666667".to_vec()), Some(41_666));
    assert_eq!(parse_probability(&b"0".to_vec()), Some(0));
    assert_eq!(parse_probability(&b"1.5".to_vec()), None);
    assert_eq!(parse_probability(&b"2".to_vec()), None);
    assert_eq!(parse_probability(&b".5".to_vec()), None);
    assert_eq!(parse_probability(&b"0.5.1".to_vec()), None);
    assert_eq!(parse_probability(&b"abc".to_vec()), None);
    assert_eq!(parse_probability(&b"".to_vec()), None);
}

#[test]
fn symbol_cells() {
    assert_eq!(parse_symbol(&b"17".to_vec()), Some(17));
    assert_eq!(parse_symbol(&b"0".to_vec()), Some(0));
    assert_eq!(parse_symbol(&b"1.0".to_vec()), None);
    assert_eq!(parse_symbol(&b"-1".to_vec()), None);
    assert_eq!(parse_symbol(&b"".to_vec()), None);
}

#[test]
fn load_from_csv_text() {
    let ctx = load_csv(b"0.5,0.5\n0.5,0.5\n", b"0,1\n1,0\n", 2).unwrap();
    let e = EvaluatedProbabilities::eval(ctx);
    let half = (JOINT_ONE / 2) as u64;
    assert_eq!(e.get_ciphertexts_probabilities(), &vec![half, half]);
    assert_eq!(e.context().size_of(), 2);
}

#[test]
fn load_from_csv_text_errors() {
    assert_eq!(
        load_csv(b"0.5,x\n0.5,0.5\n", b"0,1\n1,0\n", 2).unwrap_err(),
        LoadError::NotAProbability { row: 0, column: 1 }
    );
    assert_eq!(
        load_csv(b"0.5,0.5\n0.5,0.5\n", b"0,1\n1,0.5\n", 2).unwrap_err(),
        LoadError::NotASymbol { row: 1, column: 1 }
    );
    assert_eq!(
        load_csv(b"0.5,0.5\n0.5,0.4\n", b"0,1\n1,0\n", 2).unwrap_err(),
        LoadError::NotNormalised { row: 1, total: 900_000 }
    );
    assert_eq!(
        load_csv(b"0.5,0.5\n", b"0,1\n1,0\n", 2).unwrap_err(),
        LoadError::WrongRowCount { expected: 2, actual: 1 }
    );
    assert_eq!(
        load_csv(b"0.5,0.5\n0.5,0.5\n", b"0,1\n1,3\n", 2).unwrap_err(),
        LoadError::SymbolOutOfRange { row: 1, column: 1, value: 3 }
    );
}

#[test]
fn stochastic_loss_within_rounding_of_bayes_risk() {
    // Latin square with uniform priors: every posterior is 1/3, which rounds
    let table: Vec<Vec<u32>> = (0..3).map(|k| (0..3).map(|m| ((k + m) % 3) as u32).collect()).collect();
    let e = evaluate(vec![vec![333_333; 3], vec![333_333; 3]], table);
    let total: u128 = e.get_ciphertexts_probabilities().iter().map(|&w| w as u128).sum();
    let scale = total as f64 * CONDITIONAL_ONE as f64;
    let l = zero_one_loss(3);
    let sto = stochastic_average_loss(&e, &l).unwrap() as f64 / scale;
    let d = deterministic_decision_matrix(&e);
    let det = deterministic_average_loss(&e, &d, &l).unwrap() as f64 / scale;
    assert!((det - 2.0 / 3.0).abs() < 1e-9);
    assert!((sto - 2.0 / 3.0).abs() < 1e-9);
    assert!(sto <= det);
}
