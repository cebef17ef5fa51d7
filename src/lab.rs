//! The evaluation of a channel: the derived distributions, the decision
//! rules that guess the plaintext from the ciphertext, and their average loss.
use vstd::prelude::*;
use crate::sums::{sum, lemma_sum_entry_le, lemma_sum_scale};
use crate::matrix::{Matrix, row_of, column_of};
use crate::tables::{CipherTable, ProbabilityDistributionTables, LoadError, total, normalised, ints, PRIOR_ONE, PRIOR_TOLERANCE};
use crate::probabilities::{get_ciphertext_probabilities, joint_weight};

verus! {

/// A probability of one, in the units of the posterior P(M | C) and of a
/// stochastic decision (tenths of millionths of millionths). It exceeds every
/// marginal weight, so rounding a posterior down keeps the order of the
/// joint weights of its column.
pub const CONDITIONAL_ONE: u64 = 10_000_000_000_000;

/// The posterior entry for a joint weight `j` in a column whose marginal
/// weight is `marginal`, rounded down; zero where the ciphertext never occurs.
pub open spec fn posterior(j: int, marginal: int) -> int {
    if marginal > 0 {
        (j * CONDITIONAL_ONE) / marginal
    } else {
        0
    }
}

/// Two prior rows of `n` entries, each summing to one, and `n` table rows of
/// `n` symbols below `n`.
pub open spec fn accepts(prior_rows: Seq<Seq<u64>>, table_rows: Seq<Seq<u32>>, n: int) -> bool {
    &&& prior_rows.len() == 2
    &&& prior_rows[0].len() == n
    &&& prior_rows[1].len() == n
    &&& normalised(total(prior_rows[0]))
    &&& normalised(total(prior_rows[1]))
    &&& table_rows.len() == n
    &&& forall|k: int| 0 <= k < n ==> (#[trigger] table_rows[k]).len() == n
    &&& forall|k: int, m: int| 0 <= k < n && 0 <= m < n ==> (#[trigger] table_rows[k][m]) < n
}

/// The priors and the substitution table of one channel, of a shared side.
#[derive(Debug, Clone)]
pub struct LabContext {
    pub(crate) ciphertable: CipherTable,
    pub(crate) distribution: ProbabilityDistributionTables,
}

impl LabContext {
    /// The alphabet size.
    pub open(crate) spec fn size(&self) -> nat {
        self.ciphertable.size()
    }

    /// The table and both priors agree on the alphabet size.
    pub open(crate) spec fn valid(&self) -> bool {
        self.ciphertable.valid(self.size()) && self.distribution.valid(self.size())
    }

    /// The plaintext prior, in millionths.
    pub open(crate) spec fn plaintext_prior(&self) -> Seq<u64> {
        self.distribution.plaintext_prior()
    }

    /// The key prior, in millionths.
    pub open(crate) spec fn key_prior(&self) -> Seq<u64> {
        self.distribution.key_prior()
    }

    /// The substitution table, by key then plaintext.
    pub open(crate) spec fn cells(&self) -> Seq<Seq<u32>> {
        self.ciphertable.cells()
    }

    /// The channel of alphabet size `n` from the two prior rows (plaintext,
    /// then key) and the `n` rows of the substitution table.
    pub fn load(prior_rows: Vec<Vec<u64>>, table_rows: Vec<Vec<u32>>, n: usize) -> (res: Result<
        Self,
        LoadError,
    >)
        requires
            n * n <= usize::MAX,
        ensures
            res is Ok <==> accepts(prior_rows.deep_view(), table_rows.deep_view(), n as int),
            res matches Ok(ctx) ==> ctx.valid() && ctx.size() == n && ctx.plaintext_prior()
                == prior_rows@[0]@ && ctx.key_prior() == prior_rows@[1]@ && forall|k: int, m: int|
                0 <= k < n && 0 <= m < n ==> #[trigger] ctx.cells()[k][m] == table_rows@[k]@[m],
    {
        let ghost td = table_rows.deep_view();
        let ghost prior_rows_view = prior_rows.deep_view();
        let ghost tv = table_rows@;
        proof {
            assert(forall|i: int| 0 <= i < prior_rows@.len() ==> #[trigger] prior_rows.deep_view()[i] == prior_rows@[i]@);
            assert(forall|i: int| 0 <= i < table_rows@.len() ==> #[trigger] td[i] == tv[i]@);
            assert(td.len() == tv.len());
        }
        let distribution = match ProbabilityDistributionTables::new(prior_rows, n) {
            Ok(d) => d,
            Err(e) => return Err(e),
        };
        let ciphertable = match CipherTable::new(table_rows, n) {
            Ok(t) => t,
            Err(e) => {
                proof {
                    if accepts(prior_rows_view, td, n as int) {
                        assert forall|k: int| 0 <= k < n implies ((#[trigger] tv[k])@.len() == n
                            && forall|m: int| 0 <= m < n ==> (#[trigger] tv[k]@[m]) < n) by {
                            assert(td[k] == tv[k]@);
                        }
                    }
                }
                return Err(e);
            },
        };
        Ok(LabContext { ciphertable, distribution })
    }

    /// The two priors.
    pub fn distribution(&self) -> (d: &ProbabilityDistributionTables)
        ensures
            d.plaintext_prior() == self.plaintext_prior(),
            d.key_prior() == self.key_prior(),
    {
        &self.distribution
    }

    /// The substitution table.
    pub fn ciphertable(&self) -> (t: &CipherTable)
        ensures
            t.cells() == self.cells(),
    {
        &self.ciphertable
    }

    /// The alphabet size.
    pub fn size_of(&self) -> (n: usize)
        ensures
            n == self.size(),
    {
        self.ciphertable.0.rows
    }
}

/// A channel together with the distributions it induces.
#[derive(Debug, Clone)]
pub struct EvaluatedProbabilities {
    pub(crate) context: LabContext,
    pub(crate) ciphertexts_probabilities: Vec<u64>,
    pub(crate) m_and_c_probabilities: Matrix<u64>,
    pub(crate) m_if_c_probabilities: Matrix<u64>,
}

impl EvaluatedProbabilities {
    /// The alphabet size.
    pub open(crate) spec fn size(&self) -> nat {
        self.context.size()
    }

    /// The channel that was evaluated.
    pub open(crate) spec fn channel(&self) -> LabContext {
        self.context
    }

    /// P(C), as weights in millionths of millionths.
    pub open(crate) spec fn marginal(&self) -> Seq<u64> {
        self.ciphertexts_probabilities@
    }

    /// P(M, C), by plaintext then ciphertext, in millionths of millionths.
    pub open(crate) spec fn joint(&self) -> Seq<Seq<u64>> {
        self.m_and_c_probabilities@
    }

    /// P(M | C), by plaintext then ciphertext, in units of `CONDITIONAL_ONE`.
    pub open(crate) spec fn conditional(&self) -> Seq<Seq<u64>> {
        self.m_if_c_probabilities@
    }

    /// The derived distributions are those of the channel.
    pub open(crate) spec fn valid(&self) -> bool {
        let n = self.size() as int;
        let pm = self.context.plaintext_prior();
        let pk = self.context.key_prior();
        &&& self.context.valid()
        &&& self.marginal().len() == n
        &&& self.m_and_c_probabilities.wf()
        &&& self.m_and_c_probabilities.num_rows() == n
        &&& self.m_and_c_probabilities.num_cols() == n
        &&& self.m_if_c_probabilities.wf()
        &&& self.m_if_c_probabilities.num_rows() == n
        &&& self.m_if_c_probabilities.num_cols() == n
        &&& forall|m: int, c: int|
            0 <= m < n && 0 <= c < n ==> #[trigger] self.joint()[m][c] == joint_weight(
                pm,
                pk,
                self.context.cells(),
                m,
                c,
            )
        &&& forall|c: int| 0 <= c < n ==> #[trigger] self.marginal()[c] == sum(column_of(self.joint(), c))
        &&& forall|m: int| 0 <= m < n ==> #[trigger] sum(row_of(self.joint(), m)) == pm[m] * total(pk)
        &&& total(self.marginal()) == total(pm) * total(pk)
        &&& forall|m: int, c: int|
            0 <= m < n && 0 <= c < n ==> #[trigger] self.conditional()[m][c] == posterior(
                self.joint()[m][c] as int,
                self.marginal()[c] as int,
            )
    }

    /// Derives P(C) and P(M, C) from the channel, then P(M | C) by dividing
    /// each joint weight by its ciphertext's marginal; a ciphertext that
    /// never occurs gets a posterior of zero throughout.
    pub fn eval(context: LabContext) -> (res: Self)
        requires
            context.valid(),
        ensures
            res.valid(),
            res.channel() == context,
    {
        let (marg, joint) = get_ciphertext_probabilities(&context.ciphertable, &context.distribution);
        let n = context.size_of();
        let mut cond: Matrix<u64> = Matrix::new(n, n, 0);
        let mut m: usize = 0;
        while m < n
            invariant
                context.valid(),
                n == context.size(),
                marg@.len() == n,
                joint.wf(),
                joint.num_rows() == n,
                joint.num_cols() == n,
                forall|c: int| 0 <= c < n ==> #[trigger] marg@[c] == sum(column_of(joint@, c)),
                cond.wf(),
                cond.num_rows() == n,
                cond.num_cols() == n,
                m <= n,
                forall|r: int, c: int|
                    0 <= r < m && 0 <= c < n ==> #[trigger] cond@[r][c] == posterior(
                        joint@[r][c] as int,
                        marg@[c] as int,
                    ),
            decreases n - m,
        {
            let mut c: usize = 0;
            while c < n
                invariant
                    context.valid(),
                    n == context.size(),
                    marg@.len() == n,
                    joint.wf(),
                    joint.num_rows() == n,
                    joint.num_cols() == n,
                    forall|c: int| 0 <= c < n ==> #[trigger] marg@[c] == sum(column_of(joint@, c)),
                    cond.wf(),
                    cond.num_rows() == n,
                    cond.num_cols() == n,
                    m < n,
                    c <= n,
                    forall|r: int, c2: int|
                        (0 <= r < m && 0 <= c2 < n) || (r == m && 0 <= c2 < c) ==> #[trigger] cond@[r][c2]
                            == posterior(joint@[r][c2] as int, marg@[c2] as int),
                decreases n - c,
            {
                let j = joint.get(m, c);
                let total_c = marg[c];
                let v: u64 = if total_c > 0 {
                    proof {
                        assert(column_of(joint@, c as int)[m as int] == j);
                        lemma_sum_entry_le(column_of(joint@, c as int), m as int);
                        assert((j as int) * CONDITIONAL_ONE <= (total_c as int) * CONDITIONAL_ONE) by (nonlinear_arith)
                            requires j <= total_c;
                        assert((j as int) * CONDITIONAL_ONE <= u64::MAX * CONDITIONAL_ONE) by (nonlinear_arith)
                            requires j <= u64::MAX;
                        assert(((j as int) * CONDITIONAL_ONE) / (total_c as int) <= CONDITIONAL_ONE) by (nonlinear_arith)
                            requires (j as int) * CONDITIONAL_ONE <= (total_c as int) * CONDITIONAL_ONE, total_c > 0;
                    }
                    ((j as u128 * CONDITIONAL_ONE as u128) / total_c as u128) as u64
                } else {
                    0
                };
                cond.set(m, c, v);
                c += 1;
            }
            m += 1;
        }
        EvaluatedProbabilities {
            context,
            ciphertexts_probabilities: marg,
            m_and_c_probabilities: joint,
            m_if_c_probabilities: cond,
        }
    }
}

impl EvaluatedProbabilities {
    /// The alphabet size.
    pub fn alphabet_size(&self) -> (n: usize)
        requires
            self.valid(),
        ensures
            n == self.size(),
    {
        self.context.size_of()
    }

    /// The channel that was evaluated.
    pub fn context(&self) -> (c: &LabContext)
        ensures
            *c == self.channel(),
    {
        &self.context
    }

    /// P(C), in millionths of millionths.
    pub fn get_ciphertexts_probabilities(&self) -> (r: &Vec<u64>)
        ensures
            r@ == self.marginal(),
    {
        &self.ciphertexts_probabilities
    }

    /// P(M, C), by plaintext then ciphertext, in millionths of millionths.
    pub fn get_m_and_c_probabilities(&self) -> (r: &Matrix<u64>)
        ensures
            r@ == self.joint(),
    {
        &self.m_and_c_probabilities
    }

    /// P(M | C), by plaintext then ciphertext, in units of `CONDITIONAL_ONE`.
    pub fn get_m_if_c_probabilities(&self) -> (r: &Matrix<u64>)
        ensures
            r@ == self.conditional(),
    {
        &self.m_if_c_probabilities
    }
}

/// The ciphertext marginal and the joint distribution both carry the whole
/// weight of the priors, the product of their totals; with each prior within
/// its tolerance of one, that product is within the square of the bounds.
pub proof fn lemma_distribution_totals(p: EvaluatedProbabilities)
    requires
        p.valid(),
    ensures
        total(p.marginal()) == total(p.channel().plaintext_prior()) * total(p.channel().key_prior()),
        sum(Seq::new(p.size(), |m: int| sum(row_of(p.joint(), m)))) == total(p.marginal()),
        (PRIOR_ONE - PRIOR_TOLERANCE) * (PRIOR_ONE - PRIOR_TOLERANCE) <= total(p.marginal())
            <= (PRIOR_ONE + PRIOR_TOLERANCE) * (PRIOR_ONE + PRIOR_TOLERANCE),
{
    let pm = p.channel().plaintext_prior();
    let pk = p.channel().key_prior();
    let sm = total(pm);
    let sk = total(pk);
    let rows = Seq::new(p.size(), |m: int| sum(row_of(p.joint(), m)));
    assert forall|m: int| 0 <= m < p.size() implies #[trigger] rows[m] == sk * ints(pm)[m] by {
        assert(pm[m] * sk == sk * pm[m]) by (nonlinear_arith);
    }
    assert(rows =~= Seq::new(ints(pm).len(), |i: int| sk * ints(pm)[i]));
    lemma_sum_scale(ints(pm), sk);
    assert(sk * sm == sm * sk) by (nonlinear_arith);
    assert(999_000 * 999_000 <= sm * sk <= 1_001_000 * 1_001_000) by (nonlinear_arith)
        requires 999_000 <= sm <= 1_001_000, 999_000 <= sk <= 1_001_000;
}

/// Evaluating the same channel twice gives identical distributions.
pub proof fn lemma_eval_repeatable(a: EvaluatedProbabilities, b: EvaluatedProbabilities)
    requires
        a.valid(),
        b.valid(),
        a.channel() == b.channel(),
    ensures
        a.marginal() == b.marginal(),
        a.joint() == b.joint(),
        a.conditional() == b.conditional(),
{
    let n = a.size() as int;
    assert forall|m: int| 0 <= m < n implies #[trigger] a.joint()[m] =~= b.joint()[m] by {}
    assert(a.joint() =~= b.joint());
    assert forall|c: int| 0 <= c < n implies #[trigger] a.marginal()[c] == b.marginal()[c] by {}
    assert(a.marginal() =~= b.marginal());
    assert forall|m: int| 0 <= m < n implies #[trigger] a.conditional()[m] =~= b.conditional()[m] by {}
    assert(a.conditional() =~= b.conditional());
}

/// Within a column, rounding keeps the order of the joint weights: the
/// marginal weight is at most `CONDITIONAL_ONE`.
pub proof fn lemma_posterior_order(p: EvaluatedProbabilities, c: int, m1: int, m2: int)
    requires
        p.valid(),
        0 <= c < p.size(),
        0 <= m1 < p.size(),
        0 <= m2 < p.size(),
    ensures
        p.joint()[m1][c] < p.joint()[m2][c] ==> p.conditional()[m1][c] < p.conditional()[m2][c],
        p.joint()[m1][c] == p.joint()[m2][c] ==> p.conditional()[m1][c] == p.conditional()[m2][c],
{
    let w = p.marginal()[c] as int;
    lemma_distribution_totals(p);
    crate::sums::lemma_sum_entry_le(ints(p.marginal()), c);
    assert(w <= CONDITIONAL_ONE);
    let a = p.joint()[m1][c] as int;
    let b = p.joint()[m2][c] as int;
    let one = CONDITIONAL_ONE as int;
    if a < b && w > 0 {
        assert((a * one) / w < (b * one) / w) by (nonlinear_arith)
            requires a < b, 0 < w <= one, 0 <= a;
    }
    if a < b && w == 0 {
        // a column of zero marginal holds only zero joint weights
        crate::sums::lemma_sum_entry_le(column_of(p.joint(), c), m2);
        assert(column_of(p.joint(), c)[m2] == b);
    }
}

} // verus!
