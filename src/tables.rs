//! The inputs of the channel: the priors over plaintexts and keys, and the
//! substitution table from (key, plaintext) to ciphertext.
use vstd::prelude::*;
use crate::sums::{sum, lemma_sum_take_next, lemma_sum_bounds, lemma_sum_entry_le};
use crate::matrix::{Matrix, MatrixError};

verus! {

/// A probability of one, in the units a prior is given in (millionths).
pub const PRIOR_ONE: u64 = 1_000_000;

/// How far the entries of a prior may sum from `PRIOR_ONE` and still be
/// accepted as a distribution (rounding in the source).
pub const PRIOR_TOLERANCE: u64 = 1_000;

/// Why the inputs of the channel were rejected.
#[derive(Debug, Clone, Copy, PartialEq, Eq)]
pub enum LoadError {
    /// A source has the wrong number of rows.
    WrongRowCount { expected: usize, actual: usize },
    /// A row of a source has the wrong number of entries.
    WrongColumnCount { row: usize, expected: usize, actual: usize },
    /// A cell of the substitution table names no ciphertext symbol.
    SymbolOutOfRange { row: usize, column: usize, value: u32 },
    /// The entries of a prior do not sum to one.
    NotNormalised { row: usize, total: u128 },
    /// A prior cell is not a decimal probability in `[0, 1]`.
    NotAProbability { row: usize, column: usize },
    /// A cell of the substitution table is not a whole number.
    NotASymbol { row: usize, column: usize },
    /// The text of a source is not well-formed CSV.
    Malformed,
}

/// A sequence of machine weights as integers.
pub open spec fn ints(s: Seq<u64>) -> Seq<int> {
    Seq::new(s.len(), |i: int| s[i] as int)
}

/// The sum of a sequence of weights.
pub open spec fn total(s: Seq<u64>) -> int {
    sum(ints(s))
}

/// A prior total accepted as a distribution.
pub open spec fn normalised(t: int) -> bool {
    PRIOR_ONE - PRIOR_TOLERANCE <= t <= PRIOR_ONE + PRIOR_TOLERANCE
}

/// An entry of a prior accepted as a distribution is at most one.
pub proof fn lemma_prior_entry(s: Seq<u64>, i: int)
    requires
        0 <= i < s.len(),
        normalised(total(s)),
    ensures
        s[i] <= PRIOR_ONE + PRIOR_TOLERANCE,
{
    lemma_sum_entry_le(ints(s), i);
}

/// The sum of a row of weights, with the total as its meaning.
pub fn weight_sum(row: &Vec<u64>) -> (s: u128)
    ensures
        s == total(row@),
{
    let ghost entries = ints(row@);
    let mut acc: u128 = 0;
    let mut i: usize = 0;
    while i < row.len()
        invariant
            entries == ints(row@),
            i <= row@.len(),
            acc == sum(entries.take(i as int)),
        decreases row@.len() - i,
    {
        proof {
            lemma_sum_take_next(entries, i as int);
            lemma_sum_bounds(entries.take(i as int + 1), u64::MAX as int);
            assert((i + 1) * u64::MAX <= u128::MAX) by (nonlinear_arith)
                requires i < usize::MAX;
        }
        acc = acc + row[i] as u128;
        i += 1;
    }
    proof {
        assert(entries.take(row@.len() as int) =~= entries);
    }
    acc
}

/// The priors over plaintexts and over keys, as weights in millionths.
#[derive(Debug, Clone)]
pub struct ProbabilityDistributionTables {
    pub(crate) open_texts_distribution: Vec<u64>,
    pub(crate) keys_distribution: Vec<u64>,
}

impl ProbabilityDistributionTables {
    /// Both priors have `n` entries and a total accepted as one.
    pub open(crate) spec fn valid(&self, n: nat) -> bool {
        &&& self.open_texts_distribution@.len() == n
        &&& self.keys_distribution@.len() == n
        &&& normalised(total(self.open_texts_distribution@))
        &&& normalised(total(self.keys_distribution@))
    }

    /// The plaintext prior.
    pub open(crate) spec fn plaintext_prior(&self) -> Seq<u64> {
        self.open_texts_distribution@
    }

    /// The key prior.
    pub open(crate) spec fn key_prior(&self) -> Seq<u64> {
        self.keys_distribution@
    }

    /// Takes the two priors from a source of two rows: the plaintext prior,
    /// then the key prior, each of `n` entries summing to one.
    pub fn new(rows: Vec<Vec<u64>>, n: usize) -> (res: Result<Self, LoadError>)
        ensures
            res is Ok <==> (rows@.len() == 2 && rows@[0]@.len() == n && rows@[1]@.len() == n
                && normalised(total(rows@[0]@)) && normalised(total(rows@[1]@))),
            rows@.len() != 2 ==> res == Err::<Self, LoadError>(
                LoadError::WrongRowCount { expected: 2, actual: rows@.len() as usize },
            ),
            res matches Ok(p) ==> p.valid(n as nat) && p.plaintext_prior() == rows@[0]@
                && p.key_prior() == rows@[1]@,
    {
        if rows.len() != 2 {
            return Err(LoadError::WrongRowCount { expected: 2, actual: rows.len() });
        }
        let mut r: usize = 0;
        while r < 2
            invariant
                rows@.len() == 2,
                r <= 2,
                forall|q: int| 0 <= q < r ==> (#[trigger] rows@[q])@.len() == n && normalised(
                    total(rows@[q]@),
                ),
            decreases 2 - r,
        {
            if rows[r].len() != n {
                return Err(LoadError::WrongColumnCount { row: r, expected: n, actual: rows[r].len() });
            }
            let t = weight_sum(&rows[r]);
            if t < (PRIOR_ONE - PRIOR_TOLERANCE) as u128 || t > (PRIOR_ONE + PRIOR_TOLERANCE) as u128 {
                return Err(LoadError::NotNormalised { row: r, total: t });
            }
            r += 1;
        }
        let mut rows = rows;
        let keys = rows.pop().unwrap();
        let texts = rows.pop().unwrap();
        Ok(ProbabilityDistributionTables { open_texts_distribution: texts, keys_distribution: keys })
    }

    /// The weight of plaintext `m` together with key `k`, in millionths of
    /// millionths. Plaintext and key are taken to be drawn independently:
    /// this is an assumption of the model, not something derived.
    pub fn get_probability_of_key_and_text(&self, m: usize, k: usize) -> (p: u64)
        requires
            self.valid(self.plaintext_prior().len()),
            m < self.plaintext_prior().len(),
            k < self.plaintext_prior().len(),
        ensures
            p == self.plaintext_prior()[m as int] * self.key_prior()[k as int],
    {
        proof {
            lemma_prior_entry(self.open_texts_distribution@, m as int);
            lemma_prior_entry(self.keys_distribution@, k as int);
            let a = self.open_texts_distribution@[m as int] as int;
            let b = self.keys_distribution@[k as int] as int;
            assert(a * b <= 1_001_000 * 1_001_000) by (nonlinear_arith)
                requires 0 <= a <= 1_001_000, 0 <= b <= 1_001_000;
        }
        self.open_texts_distribution[m] * self.keys_distribution[k]
    }

    /// The plaintext prior, in millionths.
    pub fn open_texts_distribution(&self) -> (r: &Vec<u64>)
        ensures
            r@ == self.plaintext_prior(),
    {
        &self.open_texts_distribution
    }

    /// The key prior, in millionths.
    pub fn keys_distribution(&self) -> (r: &Vec<u64>)
        ensures
            r@ == self.key_prior(),
    {
        &self.keys_distribution
    }
}

/// The substitution table: the cell at row `k`, column `m` is the
/// ciphertext of plaintext `m` under key `k`.
#[derive(Debug, Clone)]
pub struct CipherTable(pub(crate) Matrix<u32>);

impl CipherTable {
    /// Square, of side `n`, with every cell a symbol below `n`.
    pub open(crate) spec fn valid(&self, n: nat) -> bool {
        &&& self.0.wf()
        &&& self.0.num_rows() == n
        &&& self.0.num_cols() == n
        &&& forall|k: int, m: int| 0 <= k < n && 0 <= m < n ==> (#[trigger] self.0@[k][m]) < n
    }

    /// The number of rows of the table.
    pub open(crate) spec fn size(&self) -> nat {
        self.0.num_rows()
    }

    /// The table as rows of symbols, indexed by key then plaintext.
    pub open(crate) spec fn cells(&self) -> Seq<Seq<u32>> {
        self.0@
    }

    /// Takes the table from a source of `n` rows of `n` symbols below `n`.
    pub fn new(rows: Vec<Vec<u32>>, n: usize) -> (res: Result<Self, LoadError>)
        requires
            n * n <= usize::MAX,
        ensures
            res is Ok <==> (rows@.len() == n && forall|k: int| 0 <= k < n ==> ((#[trigger] rows@[k])@.len() == n
                && forall|m: int| 0 <= m < n ==> (#[trigger] rows@[k]@[m]) < n)),
            rows@.len() != n ==> res == Err::<Self, LoadError>(
                LoadError::WrongRowCount { expected: n, actual: rows@.len() as usize },
            ),
            res matches Ok(t) ==> t.valid(n as nat) && forall|k: int, m: int|
                0 <= k < n && 0 <= m < n ==> #[trigger] t.cells()[k][m] == rows@[k]@[m],
    {
        if rows.len() != n {
            return Err(LoadError::WrongRowCount { expected: n, actual: rows.len() });
        }
        let mut k: usize = 0;
        while k < n
            invariant
                rows@.len() == n,
                k <= n,
                forall|q: int| 0 <= q < k ==> ((#[trigger] rows@[q])@.len() == n
                    && forall|m: int| 0 <= m < n ==> (#[trigger] rows@[q]@[m]) < n),
            decreases n - k,
        {
            let row = &rows[k];
            if row.len() != n {
                return Err(LoadError::WrongColumnCount { row: k, expected: n, actual: row.len() });
            }
            let mut m: usize = 0;
            while m < n
                invariant
                    rows@.len() == n,
                    k < n,
                    row@ == rows@[k as int]@,
                    row@.len() == n,
                    m <= n,
                    forall|j: int| 0 <= j < m ==> (#[trigger] row@[j]) < n,
                decreases n - m,
            {
                if row[m] as usize >= n {
                    return Err(LoadError::SymbolOutOfRange { row: k, column: m, value: row[m] });
                }
                m += 1;
            }
            k += 1;
        }
        match Matrix::from_rows(rows, n, n) {
            Ok(t) => Ok(CipherTable(t)),
            Err(MatrixError::DimensionMismatch { expected, actual }) => Err(
                LoadError::WrongRowCount { expected, actual },
            ),
        }
    }

    /// The ciphertext of plaintext `m` under key `k`.
    pub fn get_ciphertext(&self, m: u32, k: u32) -> (c: u32)
        requires
            self.valid(self.size()),
            (k as nat) < self.size(),
            (m as nat) < self.size(),
        ensures
            c == self.cells()[k as int][m as int],
    {
        self.0.get(k as usize, m as usize)
    }
}

} // verus!
