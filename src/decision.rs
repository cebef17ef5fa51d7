//! Decision rules that guess the plaintext from the ciphertext, and their
//! average loss under a loss matrix.
use vstd::prelude::*;
use vstd::arithmetic::div_mod::{lemma_fundamental_div_mod, lemma_mod_pos_bound};
use crate::sums::{sum, lemma_sum_take_next, lemma_sum_prefix_le, lemma_sum_mono, lemma_sum_scale, lemma_sum_update, lemma_sum_bounds, lemma_sum_add, lemma_sum_swap};
use crate::matrix::{Matrix, MatrixError, row_of, column_of};
use crate::tables::{ints, total};
use crate::lab::{EvaluatedProbabilities, CONDITIONAL_ONE, lemma_posterior_order};

verus! {

/// Plaintext `g` has the largest entry of column `c`, and no lower
/// plaintext has as large a one.
pub open spec fn is_lowest_argmax(table: Seq<Seq<u64>>, n: int, c: int, g: int) -> bool {
    &&& 0 <= g < n
    &&& forall|m: int| 0 <= m < n ==> #[trigger] table[m][c] <= table[g][c]
    &&& forall|m: int| 0 <= m < g ==> #[trigger] table[m][c] < table[g][c]
}

/// The expected loss of guessing by column `c` of `decision` when the
/// plaintext is `m`: the guess weights times the losses of row `m`.
pub open spec fn guess_loss(decision: Seq<Seq<u64>>, loss: Seq<Seq<u32>>, n: int, m: int, c: int) -> int {
    sum(Seq::new(n as nat, |g: int| decision[g][c] * loss[m][g]))
}

/// The loss carried by plaintext `m`, over every ciphertext.
pub open spec fn row_loss(
    joint: Seq<Seq<u64>>,
    decision: Seq<Seq<u64>>,
    loss: Seq<Seq<u32>>,
    n: int,
    m: int,
) -> int {
    sum(Seq::new(n as nat, |c: int| joint[m][c] * guess_loss(decision, loss, n, m, c)))
}

/// The average loss `sum over m, c of P(m, c) * sum over g of d(c)[g] * L[m][g]`,
/// in millionths of millionths times the units of the decision weights.
pub open spec fn expected_loss(
    joint: Seq<Seq<u64>>,
    decision: Seq<Seq<u64>>,
    loss: Seq<Seq<u32>>,
    n: int,
) -> int {
    sum(Seq::new(n as nat, |m: int| row_loss(joint, decision, loss, n, m)))
}

/// The weight matrix of a deterministic rule: all of a column's weight on
/// the plaintext the rule picks.
pub open spec fn point_weights(choice: Seq<usize>, n: int) -> Seq<Seq<u64>> {
    Seq::new(
        n as nat,
        |g: int| Seq::new(n as nat, |c: int| if choice[c] as int == g { CONDITIONAL_ONE } else { 0u64 }),
    )
}

/// For non-negative `a` summing to `b > 0`, the entries `a[i] * s / b`
/// rounded down sum to at most `s` and lose less than one per entry.
pub proof fn lemma_floor_sum(a: Seq<int>, b: int, s: int)
    requires
        b > 0,
        s >= 0,
        forall|i: int| 0 <= i < a.len() ==> 0 <= #[trigger] a[i],
    ensures
        b * sum(Seq::new(a.len(), |i: int| (a[i] * s) / b)) <= s * sum(a),
        b * sum(Seq::new(a.len(), |i: int| (a[i] * s) / b)) >= s * sum(a) - a.len() * (b - 1),
    decreases a.len(),
{
    let f = Seq::new(a.len(), |i: int| (a[i] * s) / b);
    if a.len() > 0 {
        let a0 = a.drop_last();
        lemma_floor_sum(a0, b, s);
        assert(f.drop_last() =~= Seq::new(a0.len(), |i: int| (a0[i] * s) / b));
        let al = a.last();
        let x = al * s;
        assert(al * s >= 0) by (nonlinear_arith) requires al >= 0, s >= 0;
        lemma_fundamental_div_mod(x, b);
        lemma_mod_pos_bound(x, b);
        let fa = sum(f.drop_last());
        let sa = sum(a0);
        assert(b * (fa + x / b) == b * fa + b * (x / b)) by (nonlinear_arith);
        assert(s * (sa + al) == s * sa + s * al) by (nonlinear_arith);
        assert(s * al == al * s) by (nonlinear_arith);
        assert(a.len() * (b - 1) == a0.len() * (b - 1) + (b - 1)) by (nonlinear_arith)
            requires a.len() == a0.len() + 1;
    }
}

/// The posterior column of a ciphertext sums to at most one, and, where the
/// ciphertext occurs, to more than one less a unit per plaintext.
pub proof fn lemma_posterior_column(p: EvaluatedProbabilities, c: int)
    requires
        p.valid(),
        0 <= c < p.size(),
    ensures
        sum(column_of(p.conditional(), c)) <= CONDITIONAL_ONE,
        p.marginal()[c] > 0 ==> sum(column_of(p.conditional(), c)) > CONDITIONAL_ONE - p.size(),
        p.marginal()[c] == 0 ==> forall|m: int| 0 <= m < p.size() ==> #[trigger] p.conditional()[m][c] == 0,
{
    let n = p.size() as int;
    let a = column_of(p.joint(), c);
    let b = p.marginal()[c] as int;
    let col = column_of(p.conditional(), c);
    if b > 0 {
        lemma_floor_sum(a, b, CONDITIONAL_ONE as int);
        let f = Seq::new(a.len(), |i: int| (a[i] * CONDITIONAL_ONE) / b);
        assert(col =~= f);
        let fs = sum(f);
        let one = CONDITIONAL_ONE as int;
        assert(fs <= one) by (nonlinear_arith)
            requires b * fs <= one * b, b > 0;
        assert(fs > one - n) by (nonlinear_arith)
            requires b * fs >= one * b - n * (b - 1), b > 0, n >= 1;
    } else {
        lemma_sum_bounds(col, 0);
    }
}

/// The deterministic rule: for each ciphertext, the lowest plaintext of
/// largest posterior P(M | C). The result has one row, indexed by ciphertext.
pub fn deterministic_decision_matrix(ctx: &EvaluatedProbabilities) -> (d: Matrix<usize>)
    requires
        ctx.valid(),
    ensures
        d.wf(),
        d.num_rows() == 1,
        d.num_cols() == ctx.size(),
        forall|c: int| 0 <= c < ctx.size() ==> is_lowest_argmax(ctx.conditional(), ctx.size() as int, c, #[trigger] d@[0][c] as int),
        forall|c: int| 0 <= c < ctx.size() ==> is_lowest_argmax(ctx.joint(), ctx.size() as int, c, #[trigger] d@[0][c] as int),
{
    let n = ctx.context.size_of();
    let mut d: Matrix<usize> = Matrix::new(1, n, 0);
    let mut c: usize = 0;
    while c < n
        invariant
            ctx.valid(),
            n == ctx.size(),
            d.wf(),
            d.num_rows() == 1,
            d.num_cols() == n,
            c <= n,
            forall|c2: int| 0 <= c2 < c ==> is_lowest_argmax(ctx.conditional(), n as int, c2, #[trigger] d@[0][c2] as int),
        decreases n - c,
    {
        let mut best: usize = 0;
        let mut m: usize = 1;
        while m < n
            invariant
                ctx.valid(),
                n == ctx.size(),
                c < n,
                1 <= m <= n,
                best < m,
                forall|m2: int| 0 <= m2 < m ==> #[trigger] ctx.conditional()[m2][c as int] <= ctx.conditional()[best as int][c as int],
                forall|m2: int| 0 <= m2 < best ==> #[trigger] ctx.conditional()[m2][c as int] < ctx.conditional()[best as int][c as int],
            decreases n - m,
        {
            if ctx.m_if_c_probabilities.get(m, c) > ctx.m_if_c_probabilities.get(best, c) {
                best = m;
            }
            m += 1;
        }
        d.set(0, c, best);
        c += 1;
    }
    proof {
        assert forall|c: int| 0 <= c < n implies is_lowest_argmax(ctx.joint(), n as int, c, #[trigger] d@[0][c] as int) by {
            let g = d@[0][c] as int;
            assert(is_lowest_argmax(ctx.conditional(), n as int, c, g));
            assert forall|m: int| 0 <= m < n implies #[trigger] ctx.joint()[m][c] <= ctx.joint()[g][c] by {
                lemma_posterior_order(*ctx, c, g, m);
            }
            assert forall|m: int| 0 <= m < g implies #[trigger] ctx.joint()[m][c] < ctx.joint()[g][c] by {
                lemma_posterior_order(*ctx, c, m, g);
                lemma_posterior_order(*ctx, c, g, m);
            }
        }
    }
    d
}

/// The stochastic rule: for each ciphertext, guess each plaintext with its
/// posterior probability. The result is P(M | C), in units of `CONDITIONAL_ONE`.
pub fn stochastic_decision_matrix(ctx: &EvaluatedProbabilities) -> (d: Matrix<u64>)
    requires
        ctx.valid(),
    ensures
        d.wf(),
        d.num_rows() == ctx.size(),
        d.num_cols() == ctx.size(),
        d@ == ctx.conditional(),
{
    ctx.m_if_c_probabilities.duplicate()
}

/// The largest loss of one guess under a decision column of total weight at
/// most `CONDITIONAL_ONE`.
pub open spec fn guess_bound() -> int {
    CONDITIONAL_ONE * 0xffff_ffff
}

/// One guess loss is at most its column's weight times the largest loss.
proof fn lemma_guess_bound(decision: Seq<Seq<u64>>, loss: Seq<Seq<u32>>, n: int, m: int, c: int)
    requires
        decision.len() == n,
        forall|g: int| 0 <= g < n ==> (#[trigger] decision[g]).len() == n,
        sum(column_of(decision, c)) <= CONDITIONAL_ONE,
        0 <= c < n,
    ensures
        0 <= guess_loss(decision, loss, n, m, c) <= guess_bound(),
        forall|g: int| 0 <= g < n ==> 0 <= #[trigger] (decision[g][c] * loss[m][g]),
{
    let s = Seq::new(n as nat, |g: int| decision[g][c] * loss[m][g]);
    let col = column_of(decision, c);
    let t = Seq::new(col.len(), |i: int| 0xffff_ffffint * col[i]);
    assert forall|g: int| 0 <= g < n implies 0 <= #[trigger] s[g] <= t[g] by {
        let x = decision[g][c] as int;
        let y = loss[m][g] as int;
        assert(0 <= x * y <= 0xffff_ffff * x) by (nonlinear_arith)
            requires 0 <= x, 0 <= y <= 0xffff_ffff;
    }
    assert forall|g: int| 0 <= g < n implies 0 <= #[trigger] (decision[g][c] * loss[m][g]) by {
        assert(s[g] >= 0);
    }
    lemma_sum_mono(s, t);
    lemma_sum_scale(col, 0xffff_ffff);
    let cs = sum(col);
    assert(0xffff_ffff * cs <= CONDITIONAL_ONE * 0xffff_ffff) by (nonlinear_arith)
        requires cs <= CONDITIONAL_ONE;
    crate::sums::lemma_sum_nonneg(s);
}

/// The loss of guessing by column `c` when the plaintext is `m`.
fn guess_loss_exec(decision: &Matrix<u64>, loss: &Matrix<u32>, n: usize, m: usize, c: usize) -> (r: u128)
    requires
        decision.wf(),
        decision.num_rows() == n,
        decision.num_cols() == n,
        loss.wf(),
        loss.num_rows() == n,
        loss.num_cols() == n,
        m < n,
        c < n,
        sum(column_of(decision@, c as int)) <= CONDITIONAL_ONE,
    ensures
        r == guess_loss(decision@, loss@, n as int, m as int, c as int),
        r <= guess_bound(),
{
    let ghost s = Seq::new(n as nat, |g: int| decision@[g][c as int] * loss@[m as int][g]);
    proof {
        lemma_guess_bound(decision@, loss@, n as int, m as int, c as int);
    }
    let mut acc: u128 = 0;
    let mut g: usize = 0;
    while g < n
        invariant
            decision.wf(),
            decision.num_rows() == n,
            decision.num_cols() == n,
            loss.wf(),
            loss.num_rows() == n,
            loss.num_cols() == n,
            m < n,
            c < n,
            g <= n,
            s == Seq::new(n as nat, |g: int| decision@[g][c as int] * loss@[m as int][g]),
            sum(s) <= guess_bound(),
            forall|i: int| 0 <= i < n ==> 0 <= #[trigger] s[i],
            acc == sum(s.take(g as int)),
        decreases n - g,
    {
        proof {
            lemma_sum_take_next(s, g as int);
            lemma_sum_prefix_le(s, g as int + 1);
            let x = decision@[g as int][c as int] as int;
            let y = loss@[m as int][g as int] as int;
            assert(x * y <= u64::MAX * u32::MAX) by (nonlinear_arith)
                requires 0 <= x <= u64::MAX, 0 <= y <= u32::MAX;
        }
        acc = acc + decision.get(g, c) as u128 * loss.get(m, g) as u128;
        g += 1;
    }
    proof {
        assert(s.take(n as int) =~= s);
    }
    acc
}

/// The loss carried by plaintext `m` is at most the bound of one guess times
/// its joint row total.
proof fn lemma_row_bound(
    joint: Seq<Seq<u64>>,
    decision: Seq<Seq<u64>>,
    loss: Seq<Seq<u32>>,
    n: int,
    m: int,
)
    requires
        joint.len() == n,
        forall|r: int| 0 <= r < n ==> (#[trigger] joint[r]).len() == n,
        decision.len() == n,
        forall|g: int| 0 <= g < n ==> (#[trigger] decision[g]).len() == n,
        forall|c: int| 0 <= c < n ==> #[trigger] sum(column_of(decision, c)) <= CONDITIONAL_ONE,
        0 <= m < n,
    ensures
        0 <= row_loss(joint, decision, loss, n, m) <= guess_bound() * sum(row_of(joint, m)),
        forall|c: int| 0 <= c < n ==> 0 <= #[trigger] (joint[m][c] * guess_loss(decision, loss, n, m, c)),
{
    let s = Seq::new(n as nat, |c: int| joint[m][c] * guess_loss(decision, loss, n, m, c));
    let row = row_of(joint, m);
    let t = Seq::new(row.len(), |i: int| guess_bound() * row[i]);
    assert forall|c: int| 0 <= c < n implies 0 <= #[trigger] s[c] <= t[c] by {
        lemma_guess_bound(decision, loss, n, m, c);
        let x = joint[m][c] as int;
        let y = guess_loss(decision, loss, n, m, c);
        assert(0 <= x * y <= guess_bound() * x) by (nonlinear_arith)
            requires 0 <= x, 0 <= y <= guess_bound();
    }
    assert forall|c: int| 0 <= c < n implies 0 <= #[trigger] (joint[m][c] * guess_loss(decision, loss, n, m, c)) by {
        assert(s[c] >= 0);
    }
    lemma_sum_mono(s, t);
    lemma_sum_scale(row, guess_bound());
    crate::sums::lemma_sum_nonneg(s);
}

/// The loss carried by plaintext `m`.
fn row_loss_exec(
    joint: &Matrix<u64>,
    decision: &Matrix<u64>,
    loss: &Matrix<u32>,
    n: usize,
    m: usize,
) -> (r: u128)
    requires
        joint.wf(),
        joint.num_rows() == n,
        joint.num_cols() == n,
        decision.wf(),
        decision.num_rows() == n,
        decision.num_cols() == n,
        loss.wf(),
        loss.num_rows() == n,
        loss.num_cols() == n,
        m < n,
        forall|c: int| 0 <= c < n ==> #[trigger] sum(column_of(decision@, c)) <= CONDITIONAL_ONE,
        guess_bound() * sum(row_of(joint@, m as int)) <= u128::MAX,
    ensures
        r == row_loss(joint@, decision@, loss@, n as int, m as int),
{
    let ghost s = Seq::new(
        n as nat,
        |c: int| joint@[m as int][c] * guess_loss(decision@, loss@, n as int, m as int, c),
    );
    proof {
        lemma_row_bound(joint@, decision@, loss@, n as int, m as int);
    }
    let mut acc: u128 = 0;
    let mut c: usize = 0;
    while c < n
        invariant
            joint.wf(),
            joint.num_rows() == n,
            joint.num_cols() == n,
            decision.wf(),
            decision.num_rows() == n,
            decision.num_cols() == n,
            loss.wf(),
            loss.num_rows() == n,
            loss.num_cols() == n,
            m < n,
            c <= n,
            forall|c: int| 0 <= c < n ==> #[trigger] sum(column_of(decision@, c)) <= CONDITIONAL_ONE,
            s == Seq::new(
                n as nat,
                |c: int| joint@[m as int][c] * guess_loss(decision@, loss@, n as int, m as int, c),
            ),
            sum(s) <= u128::MAX,
            forall|i: int| 0 <= i < n ==> 0 <= #[trigger] s[i],
            acc == sum(s.take(c as int)),
        decreases n - c,
    {
        let gl = guess_loss_exec(decision, loss, n, m, c);
        proof {
            lemma_sum_take_next(s, c as int);
            lemma_sum_prefix_le(s, c as int + 1);
        }
        acc = acc + joint.get(m, c) as u128 * gl;
        c += 1;
    }
    proof {
        assert(s.take(n as int) =~= s);
    }
    acc
}

/// The average loss of a decision rule given as guess weights (column `c`
/// holds the weights of the guesses for ciphertext `c`, summing to at most
/// `CONDITIONAL_ONE`) under the loss matrix `loss`; fails when the loss
/// matrix is not square of the alphabet size.
pub fn average_loss(ctx: &EvaluatedProbabilities, decision: &Matrix<u64>, loss: &Matrix<u32>) -> (res: Result<u128, MatrixError>)
    requires
        ctx.valid(),
        decision.wf(),
        decision.num_rows() == ctx.size(),
        decision.num_cols() == ctx.size(),
        forall|c: int| 0 <= c < ctx.size() ==> #[trigger] sum(column_of(decision@, c)) <= CONDITIONAL_ONE,
        loss.wf(),
    ensures
        loss.num_rows() != ctx.size() ==> res == Err::<u128, MatrixError>(
            MatrixError::DimensionMismatch { expected: ctx.size() as usize, actual: loss.num_rows() as usize },
        ),
        loss.num_rows() == ctx.size() && loss.num_cols() != ctx.size() ==> res == Err::<u128, MatrixError>(
            MatrixError::DimensionMismatch { expected: ctx.size() as usize, actual: loss.num_cols() as usize },
        ),
        loss.num_rows() == ctx.size() && loss.num_cols() == ctx.size() ==> res == Ok::<u128, MatrixError>(
            expected_loss(ctx.joint(), decision@, loss@, ctx.size() as int) as u128,
        ),
        res matches Ok(v) ==> v == expected_loss(ctx.joint(), decision@, loss@, ctx.size() as int),
{
    let n = ctx.context.size_of();
    if loss.rows() != n {
        return Err(MatrixError::DimensionMismatch { expected: n, actual: loss.rows() });
    }
    if loss.cols() != n {
        return Err(MatrixError::DimensionMismatch { expected: n, actual: loss.cols() });
    }
    let ghost joint = ctx.joint();
    let ghost pm = ctx.context.plaintext_prior();
    let ghost pk = ctx.context.key_prior();
    let ghost s = Seq::new(n as nat, |m: int| row_loss(joint, decision@, loss@, n as int, m));
    proof {
        let rows = Seq::new(n as nat, |m: int| sum(row_of(joint, m)));
        let scaled = Seq::new(rows.len(), |i: int| guess_bound() * rows[i]);
        let sk = total(pk);
        let sm = total(pm);
        assert forall|m: int| 0 <= m < n implies 0 <= #[trigger] s[m] <= scaled[m] by {
            lemma_row_bound(joint, decision@, loss@, n as int, m);
        }
        lemma_sum_mono(s, scaled);
        lemma_sum_scale(rows, guess_bound());
        assert(rows =~= Seq::new(ints(pm).len(), |i: int| sk * ints(pm)[i])) by {
            assert forall|m: int| 0 <= m < n implies #[trigger] rows[m] == sk * ints(pm)[m] by {
                assert(pm[m] * sk == sk * pm[m]) by (nonlinear_arith);
            }
        }
        lemma_sum_scale(ints(pm), sk);
        assert(0 <= sk * sm <= 1_001_000 * 1_001_000) by (nonlinear_arith)
            requires 0 <= sk <= 1_001_000, 0 <= sm <= 1_001_000;
        assert(guess_bound() * (sk * sm) <= guess_bound() * (1_001_000 * 1_001_000)) by (nonlinear_arith)
            requires sk * sm <= 1_001_000 * 1_001_000;
        assert forall|m: int| 0 <= m < n implies guess_bound() * #[trigger] sum(row_of(joint, m)) <= u128::MAX by {
            crate::sums::lemma_sum_entry_le(rows, m);
            assert(guess_bound() * rows[m] <= guess_bound() * sum(rows)) by (nonlinear_arith)
                requires rows[m] <= sum(rows);
        }
    }
    let mut acc: u128 = 0;
    let mut m: usize = 0;
    while m < n
        invariant
            ctx.valid(),
            n == ctx.size(),
            joint == ctx.joint(),
            decision.wf(),
            decision.num_rows() == n,
            decision.num_cols() == n,
            forall|c: int| 0 <= c < n ==> #[trigger] sum(column_of(decision@, c)) <= CONDITIONAL_ONE,
            loss.wf(),
            loss.num_rows() == n,
            loss.num_cols() == n,
            forall|m: int| 0 <= m < n ==> guess_bound() * #[trigger] sum(row_of(joint, m)) <= u128::MAX,
            s == Seq::new(n as nat, |m: int| row_loss(joint, decision@, loss@, n as int, m)),
            sum(s) <= u128::MAX,
            forall|i: int| 0 <= i < n ==> 0 <= #[trigger] s[i],
            m <= n,
            acc == sum(s.take(m as int)),
        decreases n - m,
    {
        let r = row_loss_exec(&ctx.m_and_c_probabilities, decision, loss, n, m);
        proof {
            lemma_sum_take_next(s, m as int);
            lemma_sum_prefix_le(s, m as int + 1);
        }
        acc = acc + r;
        m += 1;
    }
    proof {
        assert(s.take(n as int) =~= s);
    }
    Ok(acc)
}

/// A column of point weights holds `CONDITIONAL_ONE` once and zero elsewhere.
proof fn lemma_point_column(choice: Seq<usize>, n: int, c: int)
    requires
        0 <= c < n,
        choice.len() == n,
        choice[c] < n,
    ensures
        sum(column_of(point_weights(choice, n), c)) == CONDITIONAL_ONE,
{
    let zeros = Seq::new(n as nat, |g: int| 0int);
    lemma_sum_bounds(zeros, 0);
    assert(column_of(point_weights(choice, n), c) =~= zeros.update(choice[c] as int, CONDITIONAL_ONE as int));
    lemma_sum_update(zeros, choice[c] as int, CONDITIONAL_ONE as int);
}

/// The guess weights of a deterministic rule: for ciphertext `c`, all of
/// `CONDITIONAL_ONE` on the plaintext the rule picks.
pub fn decision_weights(choice: &Matrix<usize>, n: usize) -> (w: Matrix<u64>)
    requires
        choice.wf(),
        choice.num_rows() == 1,
        choice.num_cols() == n,
        forall|c: int| 0 <= c < n ==> #[trigger] choice@[0][c] < n,
        n * n <= usize::MAX,
    ensures
        w.wf(),
        w.num_rows() == n,
        w.num_cols() == n,
        w@ == point_weights(choice@[0], n as int),
        forall|c: int| 0 <= c < n ==> #[trigger] sum(column_of(w@, c)) == CONDITIONAL_ONE,
{
    let mut w: Matrix<u64> = Matrix::new(n, n, 0);
    let mut c: usize = 0;
    while c < n
        invariant
            choice.wf(),
            choice.num_rows() == 1,
            choice.num_cols() == n,
            forall|c: int| 0 <= c < n ==> #[trigger] choice@[0][c] < n,
            w.wf(),
            w.num_rows() == n,
            w.num_cols() == n,
            c <= n,
            forall|g: int, c2: int| 0 <= g < n && 0 <= c2 < n ==> #[trigger] w@[g][c2] == if c2 < c
                && choice@[0][c2] as int == g {
                CONDITIONAL_ONE
            } else {
                0u64
            },
        decreases n - c,
    {
        let g = choice.get(0, c);
        w.set(g, c, CONDITIONAL_ONE);
        c += 1;
    }
    proof {
        let p = point_weights(choice@[0], n as int);
        assert forall|g: int| 0 <= g < n implies #[trigger] w@[g] =~= p[g] by {}
        assert(w@ =~= p);
        assert forall|c: int| 0 <= c < n implies #[trigger] sum(column_of(w@, c)) == CONDITIONAL_ONE by {
            lemma_point_column(choice@[0], n as int, c);
        }
    }
    w
}

/// The average loss of a deterministic rule (one plaintext per ciphertext)
/// under `loss`, in the units of `average_loss`.
pub fn deterministic_average_loss(
    ctx: &EvaluatedProbabilities,
    choice: &Matrix<usize>,
    loss: &Matrix<u32>,
) -> (res: Result<u128, MatrixError>)
    requires
        ctx.valid(),
        choice.wf(),
        choice.num_rows() == 1,
        choice.num_cols() == ctx.size(),
        forall|c: int| 0 <= c < ctx.size() ==> #[trigger] choice@[0][c] < ctx.size(),
        loss.wf(),
    ensures
        loss.num_rows() != ctx.size() ==> res == Err::<u128, MatrixError>(
            MatrixError::DimensionMismatch { expected: ctx.size() as usize, actual: loss.num_rows() as usize },
        ),
        loss.num_rows() == ctx.size() && loss.num_cols() != ctx.size() ==> res == Err::<u128, MatrixError>(
            MatrixError::DimensionMismatch { expected: ctx.size() as usize, actual: loss.num_cols() as usize },
        ),
        loss.num_rows() == ctx.size() && loss.num_cols() == ctx.size() ==> res == Ok::<u128, MatrixError>(
            expected_loss(ctx.joint(), point_weights(choice@[0], ctx.size() as int), loss@, ctx.size() as int) as u128,
        ),
        res matches Ok(v) ==> v == expected_loss(ctx.joint(), point_weights(choice@[0], ctx.size() as int), loss@, ctx.size() as int),
{
    let n = ctx.context.size_of();
    let w = decision_weights(choice, n);
    average_loss(ctx, &w, loss)
}

/// The average loss of the stochastic rule (guess by the posterior) under
/// `loss`, in the units of `average_loss`.
pub fn stochastic_average_loss(ctx: &EvaluatedProbabilities, loss: &Matrix<u32>) -> (res: Result<u128, MatrixError>)
    requires
        ctx.valid(),
        loss.wf(),
    ensures
        loss.num_rows() != ctx.size() ==> res == Err::<u128, MatrixError>(
            MatrixError::DimensionMismatch { expected: ctx.size() as usize, actual: loss.num_rows() as usize },
        ),
        loss.num_rows() == ctx.size() && loss.num_cols() != ctx.size() ==> res == Err::<u128, MatrixError>(
            MatrixError::DimensionMismatch { expected: ctx.size() as usize, actual: loss.num_cols() as usize },
        ),
        loss.num_rows() == ctx.size() && loss.num_cols() == ctx.size() ==> res == Ok::<u128, MatrixError>(
            expected_loss(ctx.joint(), ctx.conditional(), loss@, ctx.size() as int) as u128,
        ),
        res matches Ok(v) ==> v == expected_loss(ctx.joint(), ctx.conditional(), loss@, ctx.size() as int),
{
    let d = stochastic_decision_matrix(ctx);
    proof {
        assert forall|c: int| 0 <= c < ctx.size() implies #[trigger] sum(column_of(d@, c)) <= CONDITIONAL_ONE by {
            lemma_posterior_column(*ctx, c);
        }
    }
    average_loss(ctx, &d, loss)
}

/// The 0/1 loss: nothing for a correct guess, one for a wrong one.
pub open spec fn zero_one(n: int) -> Seq<Seq<u32>> {
    Seq::new(n as nat, |m: int| Seq::new(n as nat, |g: int| if m == g { 0u32 } else { 1u32 }))
}

/// The `n x n` 0/1 loss matrix.
pub fn zero_one_loss(n: usize) -> (l: Matrix<u32>)
    requires
        n * n <= usize::MAX,
    ensures
        l.wf(),
        l.num_rows() == n,
        l.num_cols() == n,
        l@ == zero_one(n as int),
{
    let mut l: Matrix<u32> = Matrix::new(n, n, 1);
    let mut i: usize = 0;
    while i < n
        invariant
            l.wf(),
            l.num_rows() == n,
            l.num_cols() == n,
            i <= n,
            forall|m: int, g: int| 0 <= m < n && 0 <= g < n ==> #[trigger] l@[m][g] == if m == g && m < i {
                0u32
            } else {
                1u32
            },
        decreases n - i,
    {
        l.set(i, i, 0);
        i += 1;
    }
    proof {
        let z = zero_one(n as int);
        assert forall|m: int| 0 <= m < n implies #[trigger] l@[m] =~= z[m] by {}
        assert(l@ =~= z);
    }
    l
}

/// The average loss summed ciphertext by ciphertext.
proof fn lemma_loss_by_columns(jm: Seq<Seq<u64>>, dw: Seq<Seq<u64>>, lz: Seq<Seq<u32>>, n: int)
    requires
        n >= 0,
    ensures
        expected_loss(jm, dw, lz, n) == sum(
            Seq::new(n as nat, |c: int| sum(Seq::new(n as nat, |m: int| jm[m][c] * guess_loss(dw, lz, n, m, c)))),
        ),
{
    let f = |m: int, c: int| jm[m][c] * guess_loss(dw, lz, n, m, c);
    assert forall|m: int| 0 <= m < n implies #[trigger] row_loss(jm, dw, lz, n, m) == sum(
        Seq::new(n as nat, |j: int| f(m, j)),
    ) by {
        assert(Seq::new(n as nat, |c: int| jm[m][c] * guess_loss(dw, lz, n, m, c)) =~= Seq::new(
            n as nat,
            |j: int| f(m, j),
        ));
    }
    assert(Seq::new(n as nat, |m: int| row_loss(jm, dw, lz, n, m)) =~= Seq::new(
        n as nat,
        |i: int| sum(Seq::new(n as nat, |j: int| f(i, j))),
    ));
    lemma_sum_swap(f, n as nat, n as nat);
    let lhs_c = |c: int| sum(Seq::new(n as nat, |i: int| f(i, c)));
    let rhs_c = |c: int| sum(Seq::new(n as nat, |m: int| jm[m][c] * guess_loss(dw, lz, n, m, c)));
    assert forall|c: int| 0 <= c < n implies #[trigger] lhs_c(c) == rhs_c(c) by {
        assert(Seq::new(n as nat, |i: int| f(i, c)) =~= Seq::new(n as nat, |m: int| jm[m][c] * guess_loss(dw, lz, n, m, c)));
    }
    assert(Seq::new(n as nat, |j: int| sum(Seq::new(n as nat, |i: int| f(i, j)))) =~= Seq::new(n as nat, lhs_c));
    assert(Seq::new(n as nat, lhs_c) =~= Seq::new(n as nat, rhs_c));
    assert(Seq::new(n as nat, rhs_c) =~= Seq::new(
        n as nat,
        |c: int| sum(Seq::new(n as nat, |m: int| jm[m][c] * guess_loss(dw, lz, n, m, c))),
    ));
}

/// Summing `CONDITIONAL_ONE * (marginal[c] - mx[c])` over the ciphertexts.
proof fn lemma_risk_sum(marginal: Seq<u64>, mx: Seq<int>, inner: spec_fn(int) -> int, n: int)
    requires
        marginal.len() == n,
        mx.len() == n,
        forall|c: int| 0 <= c < n ==> #[trigger] inner(c) == CONDITIONAL_ONE * (marginal[c] - mx[c]),
    ensures
        sum(Seq::new(n as nat, inner)) == CONDITIONAL_ONE * (total(marginal) - sum(mx)),
{
    let one = CONDITIONAL_ONE as int;
    let a = |c: int| one * (marginal[c] as int);
    let b = |c: int| (-one) * mx[c];
    assert forall|c: int| 0 <= c < n implies #[trigger] inner(c) == a(c) + b(c) by {
        let x = marginal[c] as int;
        let y = mx[c];
        assert(one * (x - y) == one * x + (-one) * y) by (nonlinear_arith);
    }
    assert(Seq::new(n as nat, inner) =~= Seq::new(n as nat, |c: int| a(c) + b(c)));
    lemma_sum_add(a, b, n as nat);
    assert(Seq::new(n as nat, a) =~= Seq::new(ints(marginal).len(), |i: int| one * ints(marginal)[i]));
    lemma_sum_scale(ints(marginal), one);
    assert(Seq::new(n as nat, b) =~= Seq::new(mx.len(), |i: int| (-one) * mx[i]));
    lemma_sum_scale(mx, -one);
    let tm = total(marginal);
    let sx = sum(mx);
    assert(one * tm + (-one) * sx == one * (tm - sx)) by (nonlinear_arith);
}

/// The joint weight of each ciphertext with the plaintext `choice` picks
/// for it.
pub open spec fn column_maxima(joint: Seq<Seq<u64>>, choice: Seq<usize>, n: int) -> Seq<int> {
    Seq::new(n as nat, |c: int| joint[choice[c] as int][c] as int)
}

/// Under the 0/1 loss the deterministic rule attains the Bayes risk
/// `1 - sum over c of P(c) * max over m of P(m | c)`: its average loss is the
/// whole weight less, for each ciphertext, the largest joint weight of its
/// column, in units of `CONDITIONAL_ONE` times the joint weights.
pub proof fn lemma_deterministic_bayes_risk(p: EvaluatedProbabilities, choice: Seq<usize>)
    requires
        p.valid(),
        choice.len() == p.size(),
        forall|c: int| 0 <= c < p.size() ==> is_lowest_argmax(p.joint(), p.size() as int, c, #[trigger] choice[c] as int),
    ensures
        expected_loss(p.joint(), point_weights(choice, p.size() as int), zero_one(p.size() as int), p.size() as int)
            == CONDITIONAL_ONE * (total(p.marginal()) - sum(column_maxima(p.joint(), choice, p.size() as int))),
{
    let n = p.size() as int;
    let jm = p.joint();
    let dw = point_weights(choice, n);
    let lz = zero_one(n);
    let one = CONDITIONAL_ONE as int;
    let mx = column_maxima(jm, choice, n);
    assert forall|m: int, c: int| 0 <= m < n && 0 <= c < n implies #[trigger] guess_loss(dw, lz, n, m, c)
        == if m == choice[c] as int { 0int } else { one } by {
        let zeros = Seq::new(n as nat, |g: int| 0int);
        lemma_sum_bounds(zeros, 0);
        let v = if m == choice[c] as int { 0int } else { one };
        assert(Seq::new(n as nat, |g: int| dw[g][c] * lz[m][g]) =~= zeros.update(choice[c] as int, v));
        lemma_sum_update(zeros, choice[c] as int, v);
    }
    lemma_loss_by_columns(jm, dw, lz, n);
    let inner = |c: int| sum(Seq::new(n as nat, |m: int| jm[m][c] * guess_loss(dw, lz, n, m, c)));
    assert forall|c: int| 0 <= c < n implies #[trigger] inner(c) == one * (p.marginal()[c] - mx[c]) by {
        let col = column_of(jm, c);
        let d = choice[c] as int;
        lemma_sum_update(col, d, 0);
        let upd = col.update(d, 0);
        assert forall|i: int| 0 <= i < n implies #[trigger] (jm[i][c] * guess_loss(dw, lz, n, i, c)) == one * upd[i] by {
            let x = jm[i][c] as int;
            if i == d {
                assert(x * 0 == 0) by (nonlinear_arith);
            } else {
                assert(x * one == one * x) by (nonlinear_arith);
            }
        }
        assert(Seq::new(n as nat, |m: int| jm[m][c] * guess_loss(dw, lz, n, m, c)) =~= Seq::new(
            upd.len(),
            |i: int| one * upd[i],
        ));
        lemma_sum_scale(upd, one);
    }
    lemma_risk_sum(p.marginal(), mx, inner, n);
}

/// Under the 0/1 loss the stochastic rule attains the same Bayes risk where
/// every ciphertext leaves a posterior that is uniform over the plaintexts it
/// can come from (each joint weight of a column is zero or the column's
/// largest), and where each posterior entry is exact in units of
/// `CONDITIONAL_ONE`.
pub proof fn lemma_stochastic_bayes_risk(p: EvaluatedProbabilities, choice: Seq<usize>)
    requires
        p.valid(),
        choice.len() == p.size(),
        forall|c: int| 0 <= c < p.size() ==> is_lowest_argmax(p.joint(), p.size() as int, c, #[trigger] choice[c] as int),
        forall|m: int, c: int|
            0 <= m < p.size() && 0 <= c < p.size() ==> #[trigger] p.joint()[m][c] == 0 || p.joint()[m][c]
                == p.joint()[choice[c] as int][c],
        forall|m: int, c: int|
            0 <= m < p.size() && 0 <= c < p.size() && p.marginal()[c] > 0 ==> (#[trigger] p.joint()[m][c]
                * CONDITIONAL_ONE) % (p.marginal()[c] as int) == 0,
    ensures
        expected_loss(p.joint(), p.conditional(), zero_one(p.size() as int), p.size() as int)
            == CONDITIONAL_ONE * (total(p.marginal()) - sum(column_maxima(p.joint(), choice, p.size() as int))),
{
    let n = p.size() as int;
    let jm = p.joint();
    let cd = p.conditional();
    let lz = zero_one(n);
    let one = CONDITIONAL_ONE as int;
    let mx = column_maxima(jm, choice, n);
    lemma_loss_by_columns(jm, cd, lz, n);
    let inner = |c: int| sum(Seq::new(n as nat, |m: int| jm[m][c] * guess_loss(cd, lz, n, m, c)));
    assert forall|c: int| 0 <= c < n implies #[trigger] inner(c) == one * (p.marginal()[c] - mx[c]) by {
        let ccol = column_of(cd, c);
        let jcol = column_of(jm, c);
        let w = p.marginal()[c] as int;
        let top = mx[c];
        // each guess loss is the column total less the entry of the true plaintext
        assert forall|m: int| 0 <= m < n implies #[trigger] guess_loss(cd, lz, n, m, c) == sum(ccol) - ccol[m] by {
            assert(Seq::new(n as nat, |g: int| cd[g][c] * lz[m][g]) =~= ccol.update(m, 0));
            lemma_sum_update(ccol, m, 0);
        }
        if w > 0 {
            // each posterior entry is exact, so the column sums to one
            assert forall|m: int| 0 <= m < n implies #[trigger] (ccol[m] * w) == one * jcol[m] by {
                let x = jcol[m] * one;
                lemma_fundamental_div_mod(x, w);
                assert(ccol[m] == x / w);
                assert(x / w * w == w * (x / w)) by (nonlinear_arith);
                assert(jcol[m] * one == one * jcol[m]) by (nonlinear_arith);
            }
            assert(Seq::new(ccol.len(), |i: int| w * ccol[i]) =~= Seq::new(jcol.len(), |i: int| one * jcol[i])) by {
                assert forall|i: int| 0 <= i < n implies #[trigger] (w * ccol[i]) == one * jcol[i] by {
                    assert(ccol[i] * w == w * ccol[i]) by (nonlinear_arith);
                }
            }
            lemma_sum_scale(ccol, w);
            lemma_sum_scale(jcol, one);
            let sc = sum(ccol);
            assert(sc == one) by (nonlinear_arith)
                requires w * sc == one * w, w > 0;
            // every entry of the column is zero or the largest, with a zero
            // posterior exactly where the joint weight is zero
            let terms = Seq::new(n as nat, |m: int| jm[m][c] * guess_loss(cd, lz, n, m, c));
            let lhs = Seq::new(n as nat, |m: int| one * jcol[m]);
            let rhs = Seq::new(ccol.len(), |m: int| top * ccol[m]);
            assert forall|m: int| 0 <= m < n implies #[trigger] terms[m] == lhs[m] - rhs[m] by {
                let x = jcol[m];
                let q = ccol[m];
                assert(x == 0 || x == top);
                if x == 0 {
                    assert(q * w == 0);
                    assert(q == 0) by (nonlinear_arith) requires q * w == 0, w > 0;
                    assert(x * (one - q) == 0) by (nonlinear_arith) requires x == 0;
                    assert(top * q == 0) by (nonlinear_arith) requires q == 0;
                } else {
                    assert(x * (one - q) == one * x - top * q) by (nonlinear_arith) requires x == top;
                }
            }
            let la = |m: int| lhs[m];
            let lb = |m: int| (-1) * rhs[m];
            assert(terms =~= Seq::new(n as nat, |m: int| la(m) + lb(m)));
            lemma_sum_add(la, lb, n as nat);
            assert(Seq::new(n as nat, la) =~= lhs);
            assert(Seq::new(n as nat, lb) =~= Seq::new(rhs.len(), |m: int| (-1) * rhs[m]));
            lemma_sum_scale(rhs, -1);
            lemma_sum_scale(ccol, top);
            assert(rhs =~= Seq::new(ccol.len(), |i: int| top * ccol[i]));
            assert(lhs =~= Seq::new(jcol.len(), |i: int| one * jcol[i]));
            assert(sum(jcol) == w);
            assert(sum(lhs) == one * w);
            assert(sum(rhs) == top * sc);
            assert(top * sc == one * top) by (nonlinear_arith) requires sc == one;
            assert(sum(terms) == sum(lhs) - sum(rhs));
            assert(one * w - one * top == one * (w - top)) by (nonlinear_arith);
            assert(inner(c) == sum(terms));
        } else {
            // the ciphertext never occurs: every joint weight of its column is zero
            assert forall|m: int| 0 <= m < n implies #[trigger] jcol[m] == 0 by {
                crate::sums::lemma_sum_entry_le(jcol, m);
            }
            let terms = Seq::new(n as nat, |m: int| jm[m][c] * guess_loss(cd, lz, n, m, c));
            assert forall|m: int| 0 <= m < n implies #[trigger] terms[m] == 0 by {
                assert(jcol[m] == 0);
                let g = guess_loss(cd, lz, n, m, c);
                assert(0 * g == 0) by (nonlinear_arith);
            }
            lemma_sum_bounds(terms, 0);
            assert(top == jcol[choice[c] as int]);
            assert(inner(c) == sum(terms));
        }
    }
    lemma_risk_sum(p.marginal(), mx, inner, n);
}

/// Under the 0/1 loss the deterministic rule minimises the average loss: no
/// decision rule whose guesses for each ciphertext carry a total weight of
/// `CONDITIONAL_ONE` has a smaller one.
pub proof fn lemma_deterministic_optimal(p: EvaluatedProbabilities, choice: Seq<usize>, other: Seq<Seq<u64>>)
    requires
        p.valid(),
        choice.len() == p.size(),
        forall|c: int| 0 <= c < p.size() ==> is_lowest_argmax(p.joint(), p.size() as int, c, #[trigger] choice[c] as int),
        other.len() == p.size(),
        forall|g: int| 0 <= g < p.size() ==> (#[trigger] other[g]).len() == p.size(),
        forall|c: int| 0 <= c < p.size() ==> #[trigger] sum(column_of(other, c)) == CONDITIONAL_ONE,
    ensures
        expected_loss(p.joint(), point_weights(choice, p.size() as int), zero_one(p.size() as int), p.size() as int)
            <= expected_loss(p.joint(), other, zero_one(p.size() as int), p.size() as int),
{
    let n = p.size() as int;
    let jm = p.joint();
    let lz = zero_one(n);
    let one = CONDITIONAL_ONE as int;
    let mx = column_maxima(jm, choice, n);
    lemma_deterministic_bayes_risk(p, choice);
    lemma_loss_by_columns(jm, other, lz, n);
    let inner = |c: int| sum(Seq::new(n as nat, |m: int| jm[m][c] * guess_loss(other, lz, n, m, c)));
    let best = |c: int| one * (p.marginal()[c] - mx[c]);
    assert forall|c: int| 0 <= c < n implies #[trigger] best(c) <= inner(c) by {
        let ocol = column_of(other, c);
        let jcol = column_of(jm, c);
        let top = mx[c];
        assert forall|m: int| 0 <= m < n implies #[trigger] guess_loss(other, lz, n, m, c) == one - ocol[m] by {
            assert(Seq::new(n as nat, |g: int| other[g][c] * lz[m][g]) =~= ocol.update(m, 0));
            lemma_sum_update(ocol, m, 0);
        }
        // the loss of the column is the whole weight less the weight guessed right
        let right = Seq::new(n as nat, |m: int| jcol[m] * ocol[m]);
        let la = |m: int| one * jcol[m];
        let lb = |m: int| (-1) * right[m];
        assert(Seq::new(n as nat, |m: int| jm[m][c] * guess_loss(other, lz, n, m, c)) =~= Seq::new(
            n as nat,
            |m: int| la(m) + lb(m),
        )) by {
            assert forall|m: int| 0 <= m < n implies #[trigger] (jm[m][c] * guess_loss(other, lz, n, m, c)) == la(m) + lb(m) by {
                let x = jcol[m];
                let q = ocol[m];
                assert(x * (one - q) == one * x + (-1) * (x * q)) by (nonlinear_arith);
            }
        }
        lemma_sum_add(la, lb, n as nat);
        assert(Seq::new(n as nat, la) =~= Seq::new(jcol.len(), |i: int| one * jcol[i]));
        lemma_sum_scale(jcol, one);
        assert(Seq::new(n as nat, lb) =~= Seq::new(right.len(), |i: int| (-1) * right[i]));
        lemma_sum_scale(right, -1);
        // the weight guessed right is at most the largest joint weight
        let cap = Seq::new(ocol.len(), |i: int| top * ocol[i]);
        assert forall|m: int| 0 <= m < n implies #[trigger] right[m] <= cap[m] by {
            let x = jcol[m];
            let q = ocol[m];
            assert(x <= top);
            assert(x * q <= top * q) by (nonlinear_arith) requires x <= top, q >= 0;
        }
        lemma_sum_mono(right, cap);
        lemma_sum_scale(ocol, top);
        assert(top * one == one * top) by (nonlinear_arith);
        let w = p.marginal()[c] as int;
        assert(sum(jcol) == w);
        assert(one * (w - top) == one * w - one * top) by (nonlinear_arith);
    }
    lemma_risk_sum(p.marginal(), mx, best, n);
    lemma_sum_mono(Seq::new(n as nat, best), Seq::new(n as nat, inner));
}

/// Under the 0/1 loss the stochastic rule comes within rounding of the Bayes
/// risk wherever every ciphertext leaves a posterior that is uniform over
/// the plaintexts it can come from: its average loss lies between the
/// deterministic rule's less `n` units per unit of joint weight and the
/// deterministic rule's, i.e. within `n / CONDITIONAL_ONE` of the risk.
pub proof fn lemma_stochastic_bayes_risk_bound(p: EvaluatedProbabilities, choice: Seq<usize>)
    requires
        p.valid(),
        choice.len() == p.size(),
        forall|c: int| 0 <= c < p.size() ==> is_lowest_argmax(p.joint(), p.size() as int, c, #[trigger] choice[c] as int),
        forall|m: int, c: int|
            0 <= m < p.size() && 0 <= c < p.size() ==> #[trigger] p.joint()[m][c] == 0 || p.joint()[m][c]
                == p.joint()[choice[c] as int][c],
    ensures
        CONDITIONAL_ONE * (total(p.marginal()) - sum(column_maxima(p.joint(), choice, p.size() as int)))
            - p.size() * total(p.marginal()) <= expected_loss(p.joint(), p.conditional(), zero_one(p.size() as int), p.size() as int),
        expected_loss(p.joint(), p.conditional(), zero_one(p.size() as int), p.size() as int)
            <= CONDITIONAL_ONE * (total(p.marginal()) - sum(column_maxima(p.joint(), choice, p.size() as int))),
{
    let n = p.size() as int;
    let jm = p.joint();
    let cd = p.conditional();
    let lz = zero_one(n);
    let one = CONDITIONAL_ONE as int;
    let mx = column_maxima(jm, choice, n);
    lemma_loss_by_columns(jm, cd, lz, n);
    let inner = |c: int| sum(Seq::new(n as nat, |m: int| jm[m][c] * guess_loss(cd, lz, n, m, c)));
    let best = |c: int| one * (p.marginal()[c] - mx[c]);
    let low = |c: int| best(c) + (-n) * (p.marginal()[c] as int);
    assert forall|c: int| 0 <= c < n implies low(c) <= #[trigger] inner(c) && inner(c) <= best(c) by {
        let ccol = column_of(cd, c);
        let jcol = column_of(jm, c);
        let w = p.marginal()[c] as int;
        let top = mx[c];
        let sc = sum(ccol);
        lemma_posterior_column(p, c);
        crate::sums::lemma_sum_entry_le(jcol, choice[c] as int);
        crate::sums::lemma_sum_nonneg(ccol);
        assert forall|m: int| 0 <= m < n implies #[trigger] guess_loss(cd, lz, n, m, c) == sc - ccol[m] by {
            assert(Seq::new(n as nat, |g: int| cd[g][c] * lz[m][g]) =~= ccol.update(m, 0));
            lemma_sum_update(ccol, m, 0);
        }
        // the loss of the column is the posterior total times the weight guessed wrong
        let la = |m: int| sc * jcol[m];
        let lb = |m: int| (-top) * ccol[m];
        assert forall|m: int| 0 <= m < n implies #[trigger] (jm[m][c] * guess_loss(cd, lz, n, m, c)) == la(m) + lb(m) by {
            let x = jcol[m];
            let q = ccol[m];
            if x == 0 {
                assert(q == 0);
                assert(x * (sc - q) == sc * x + (-top) * q) by (nonlinear_arith) requires x == 0, q == 0;
            } else {
                assert(x * (sc - q) == sc * x + (-top) * q) by (nonlinear_arith) requires x == top;
            }
        }
        assert(Seq::new(n as nat, |m: int| jm[m][c] * guess_loss(cd, lz, n, m, c)) =~= Seq::new(
            n as nat,
            |m: int| la(m) + lb(m),
        ));
        lemma_sum_add(la, lb, n as nat);
        assert(Seq::new(n as nat, la) =~= Seq::new(jcol.len(), |i: int| sc * jcol[i]));
        lemma_sum_scale(jcol, sc);
        assert(Seq::new(n as nat, lb) =~= Seq::new(ccol.len(), |i: int| (-top) * ccol[i]));
        lemma_sum_scale(ccol, -top);
        assert(sum(jcol) == w);
        assert(inner(c) == sc * w + (-top) * sc);
        assert(0 <= top <= w);
        if w > 0 {
            assert(sc * w + (-top) * sc <= one * (w - top)) by (nonlinear_arith)
                requires sc <= one, 0 <= top <= w;
            assert(one * (w - top) + (-n) * w <= sc * w + (-top) * sc) by (nonlinear_arith)
                requires sc > one - n, 0 <= top <= w, n >= 1;
        } else {
            assert(top == 0);
            assert(sc * w + (-top) * sc == 0) by (nonlinear_arith) requires w == 0, top == 0;
            assert(one * (w - top) + (-n) * w == 0) by (nonlinear_arith) requires w == 0, top == 0;
        }
    }
    lemma_risk_sum(p.marginal(), mx, best, n);
    lemma_sum_mono(Seq::new(n as nat, inner), Seq::new(n as nat, best));
    lemma_sum_mono(Seq::new(n as nat, low), Seq::new(n as nat, inner));
    let lb2 = |c: int| (-n) * (p.marginal()[c] as int);
    assert(Seq::new(n as nat, low) =~= Seq::new(n as nat, |c: int| best(c) + lb2(c)));
    lemma_sum_add(best, lb2, n as nat);
    assert(Seq::new(n as nat, lb2) =~= Seq::new(ints(p.marginal()).len(), |i: int| (-n) * ints(p.marginal())[i]));
    lemma_sum_scale(ints(p.marginal()), -n);
    let tm = total(p.marginal());
    assert((-n) * tm == -(n * tm)) by (nonlinear_arith);
    assert(sum(Seq::new(n as nat, low)) == one * (tm - sum(mx)) - n * tm);
}

} // verus!
