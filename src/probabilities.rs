//! The distributions the channel induces: the ciphertext marginal P(C) and
//! the joint distribution P(M, C), as exact weights.
use vstd::prelude::*;
use crate::sums::{sum, lemma_sum_take_next, lemma_sum_update, lemma_sum_entry_le, lemma_sum_prefix_le, lemma_sum_bounds};
use crate::matrix::{Matrix, row_of, column_of, lemma_update_lines};
use crate::tables::{CipherTable, ProbabilityDistributionTables, ints, total, normalised, lemma_prior_entry};

verus! {

/// The weight that key `k` and plaintext `m` give to ciphertext `c`.
pub open spec fn contribution(
    pm: Seq<u64>,
    pk: Seq<u64>,
    t: Seq<Seq<u32>>,
    k: int,
    m: int,
    c: int,
) -> int {
    if t[k][m] as int == c {
        pm[m] * pk[k]
    } else {
        0
    }
}

/// The weight of plaintext `m` with ciphertext `c`, over the keys below `keys`.
pub open spec fn joint_upto(pm: Seq<u64>, pk: Seq<u64>, t: Seq<Seq<u32>>, m: int, c: int, keys: int) -> int
    decreases keys,
{
    if keys <= 0 {
        0
    } else {
        joint_upto(pm, pk, t, m, c, keys - 1) + contribution(pm, pk, t, keys - 1, m, c)
    }
}

/// The weight of plaintext `m` with ciphertext `c`: the sum over every key
/// whose table cell maps `m` to `c`.
pub open spec fn joint_weight(pm: Seq<u64>, pk: Seq<u64>, t: Seq<Seq<u32>>, m: int, c: int) -> int {
    joint_upto(pm, pk, t, m, c, t.len() as int)
}

/// What the accumulation holds once every pair before (key `k`, plaintext
/// `m`) has been added.
pub open spec fn accumulated(
    pm: Seq<u64>,
    pk: Seq<u64>,
    t: Seq<Seq<u32>>,
    n: int,
    marg: Seq<u64>,
    joint: Seq<Seq<u64>>,
    k: int,
    m: int,
) -> bool {
    &&& marg.len() == n
    &&& joint.len() == n
    &&& forall|r: int| 0 <= r < n ==> (#[trigger] joint[r]).len() == n
    &&& forall|r: int, c: int|
        0 <= r < n && 0 <= c < n ==> #[trigger] joint[r][c] == joint_upto(
            pm,
            pk,
            t,
            r,
            c,
            if r < m { k + 1 } else { k },
        )
    &&& forall|c: int| 0 <= c < n ==> #[trigger] marg[c] == sum(column_of(joint, c))
    &&& forall|r: int|
        0 <= r < n ==> #[trigger] sum(row_of(joint, r)) == pm[r] * (sum(ints(pk).take(k)) + if r
            < m {
            pk[k] as int
        } else {
            0
        })
    &&& total(marg) == sum(ints(pk).take(k)) * total(pm) + if m > 0 {
        pk[k] * sum(ints(pm).take(m))
    } else {
        0
    }
}

/// The model behind a derivation: both priors and the table share the side `n`.
pub open spec fn channel_valid(pm: Seq<u64>, pk: Seq<u64>, t: Seq<Seq<u32>>, n: int) -> bool {
    &&& pm.len() == n
    &&& pk.len() == n
    &&& normalised(total(pm))
    &&& normalised(total(pk))
    &&& t.len() == n
    &&& forall|k: int| 0 <= k < n ==> (#[trigger] t[k]).len() == n
    &&& forall|k: int, m: int| 0 <= k < n && 0 <= m < n ==> (#[trigger] t[k][m]) < n
}

/// Adding the pair (key `k`, plaintext `m`) keeps the accumulation in step,
/// and keeps every weight small.
proof fn lemma_accumulate_step(
    pm: Seq<u64>,
    pk: Seq<u64>,
    t: Seq<Seq<u32>>,
    n: int,
    marg: Seq<u64>,
    joint: Seq<Seq<u64>>,
    k: int,
    m: int,
)
    requires
        channel_valid(pm, pk, t, n),
        accumulated(pm, pk, t, n, marg, joint, k, m),
        0 <= k < n,
        0 <= m < n,
    ensures
        ({
            let c = t[k][m] as int;
            let p = pm[m] * pk[k];
            &&& marg[c] + p <= 1_002_001_000_000
            &&& joint[m][c] + p <= 1_002_001_000_000
            &&& forall|mv: u64, jv: u64|
                mv == marg[c] + p && jv == joint[m][c] + p ==> #[trigger] accumulated(
                    pm,
                    pk,
                    t,
                    n,
                    marg.update(c, mv),
                    joint.update(m, joint[m].update(c, jv)),
                    k,
                    m + 1,
                )
        }),
{
    let c = t[k][m] as int;
    let p = pm[m] * pk[k];
    let sm = total(pm);
    let sk = total(pk);
    let pre_k = sum(ints(pk).take(k));
    let pre_m = sum(ints(pm).take(m));
    lemma_sum_take_next(ints(pm), m);
    lemma_sum_prefix_le(ints(pm), m + 1);
    lemma_sum_take_next(ints(pk), k);
    lemma_sum_prefix_le(ints(pk), k + 1);
    lemma_sum_prefix_le(ints(pk), k);
    lemma_sum_prefix_le(ints(pm), m);
    let a = pm[m] as int;
    let b = pk[k] as int;
    assert(p == a * b);
    // the weight processed so far, and after this pair, is at most sm * sk
    assert(pre_k * sm + pk[k] * (pre_m + pm[m]) <= sk * sm) by (nonlinear_arith)
        requires
            0 <= pre_k,
            pre_k + pk[k] <= sk,
            0 <= pre_m + pm[m] <= sm,
            0 <= pk[k],
            0 <= sm;
    assert(sk * sm <= 1_001_000 * 1_001_000) by (nonlinear_arith)
        requires 0 <= sk <= 1_001_000, 0 <= sm <= 1_001_000;
    assert(b * (pre_m + a) == b * pre_m + a * b) by (nonlinear_arith);
    assert(pre_k * sm >= 0 && pk[k] * pre_m >= 0) by (nonlinear_arith)
        requires 0 <= pre_k, 0 <= sm, 0 <= pk[k], 0 <= pre_m;
    // a marginal entry is at most the marginal total
    lemma_sum_entry_le(ints(marg), c);
    // a joint entry is at most its row total
    assert(row_of(joint, m)[c] == joint[m][c]);
    lemma_sum_entry_le(row_of(joint, m), c);
    lemma_prior_entry(pm, m);
    assert(pm[m] * (pre_k + pk[k]) <= 1_001_000 * sk) by (nonlinear_arith)
        requires 0 <= pm[m] <= 1_001_000, 0 <= pre_k, pre_k + pk[k] <= sk;
    assert(1_001_000 * sk <= 1_001_000 * 1_001_000) by (nonlinear_arith)
        requires sk <= 1_001_000;
    assert(a * (pre_k + b) == a * pre_k + a * b) by (nonlinear_arith);
    assert forall|mv: u64, jv: u64|
        mv == marg[c] + p && jv == joint[m][c] + p implies #[trigger] accumulated(
        pm,
        pk,
        t,
        n,
        marg.update(c, mv),
        joint.update(m, joint[m].update(c, jv)),
        k,
        m + 1,
    ) by {
        let marg2 = marg.update(c, mv);
        let joint2 = joint.update(m, joint[m].update(c, jv));
        lemma_update_lines(joint, m, c, jv, n);
        lemma_sum_update(row_of(joint, m), c, jv as int);
        lemma_sum_update(column_of(joint, c), m, jv as int);
        assert(ints(marg2) =~= ints(marg).update(c, mv as int));
        lemma_sum_update(ints(marg), c, mv as int);
        assert forall|r: int, c2: int| 0 <= r < n && 0 <= c2 < n implies #[trigger] joint2[r][c2]
            == joint_upto(pm, pk, t, r, c2, if r < m + 1 { k + 1 } else { k }) by {
            if r == m {
                assert(joint_upto(pm, pk, t, r, c2, k + 1) == joint_upto(pm, pk, t, r, c2, k)
                    + contribution(pm, pk, t, k, r, c2));
            }
        }
        assert forall|c2: int| 0 <= c2 < n implies #[trigger] marg2[c2] == sum(column_of(joint2, c2)) by {
            if c2 != c {
                assert(column_of(joint2, c2) == column_of(joint, c2));
            }
        }
        assert forall|r: int| 0 <= r < n implies #[trigger] sum(row_of(joint2, r)) == pm[r] * (sum(
            ints(pk).take(k),
        ) + if r < m + 1 {
            pk[k] as int
        } else {
            0
        }) by {
            if r != m {
                assert(row_of(joint2, r) == row_of(joint, r));
            }
        }
    }
}

/// At the end of a key's row of pairs, the accumulation moves to the next key.
proof fn lemma_accumulate_next_key(
    pm: Seq<u64>,
    pk: Seq<u64>,
    t: Seq<Seq<u32>>,
    n: int,
    marg: Seq<u64>,
    joint: Seq<Seq<u64>>,
    k: int,
)
    requires
        channel_valid(pm, pk, t, n),
        accumulated(pm, pk, t, n, marg, joint, k, n),
        0 <= k < n,
    ensures
        accumulated(pm, pk, t, n, marg, joint, k + 1, 0),
{
    lemma_sum_take_next(ints(pk), k);
    assert(ints(pm).take(n) =~= ints(pm));
    let pre_k = sum(ints(pk).take(k));
    assert(pre_k * total(pm) + pk[k] * total(pm) == (pre_k + pk[k]) * total(pm)) by (nonlinear_arith);
    assert forall|r: int| 0 <= r < n implies #[trigger] sum(row_of(joint, r)) == pm[r] * (sum(
        ints(pk).take(k + 1),
    ) + if r < 0 {
        pk[k + 1] as int
    } else {
        0
    }) by {}
}

/// The ciphertext marginal P(C) and the joint distribution P(M, C) that the
/// priors and the table induce: for every (key, plaintext) pair, its weight
/// is added to its ciphertext's marginal and to its (plaintext, ciphertext)
/// joint cell. The marginal is the column sum of the joint distribution, and
/// both carry the whole weight of the priors.
pub fn get_ciphertext_probabilities(
    table: &CipherTable,
    distribution: &ProbabilityDistributionTables,
) -> (res: (Vec<u64>, Matrix<u64>))
    requires
        table.valid(table.size()),
        distribution.valid(table.size()),
    ensures
        ({
            let (marg, joint) = res;
            let n = table.size() as int;
            let pm = distribution.plaintext_prior();
            let pk = distribution.key_prior();
            &&& marg@.len() == n
            &&& joint.wf()
            &&& joint.num_rows() == n
            &&& joint.num_cols() == n
            &&& forall|m: int, c: int|
                0 <= m < n && 0 <= c < n ==> #[trigger] joint@[m][c] == joint_weight(
                    pm,
                    pk,
                    table.cells(),
                    m,
                    c,
                )
            &&& forall|c: int| 0 <= c < n ==> #[trigger] marg@[c] == sum(column_of(joint@, c))
            &&& forall|m: int| 0 <= m < n ==> #[trigger] sum(row_of(joint@, m)) == pm[m] * total(pk)
            &&& total(marg@) == total(pm) * total(pk)
        }),
{
    let n = table.0.rows;
    let ghost pm = distribution.plaintext_prior();
    let ghost pk = distribution.key_prior();
    let ghost t = table.cells();
    let mut marg: Vec<u64> = Vec::new();
    let mut i: usize = 0;
    while i < n
        invariant
            i <= n,
            marg@.len() == i,
            forall|j: int| 0 <= j < i ==> marg@[j] == 0,
        decreases n - i,
    {
        marg.push(0);
        i += 1;
    }
    let mut joint: Matrix<u64> = Matrix::new(n, n, 0);
    proof {
        assert forall|k: int| 0 <= k < n implies (#[trigger] t[k]).len() == n by {}
        assert(channel_valid(pm, pk, t, n as int));
        assert forall|c: int| 0 <= c < n implies #[trigger] marg@[c] == sum(column_of(joint@, c)) by {
            lemma_sum_bounds(column_of(joint@, c), 0);
        }
        assert forall|r: int| 0 <= r < n implies #[trigger] sum(row_of(joint@, r)) == pm[r] * (sum(
            ints(pk).take(0),
        ) + if r < 0 {
            pk[0] as int
        } else {
            0
        }) by {
            assert(ints(pk).take(0) =~= Seq::<int>::empty());
            assert(sum(ints(pk).take(0)) == 0);
            lemma_sum_bounds(row_of(joint@, r), 0);
            assert(sum(row_of(joint@, r)) == 0);
            assert(pm[r] * (0int + 0int) == 0) by (nonlinear_arith);
        }
        lemma_sum_bounds(ints(marg@), 0);
        assert(ints(pk).take(0) =~= Seq::<int>::empty());
        assert(accumulated(pm, pk, t, n as int, marg@, joint@, 0, 0));
    }
    let mut k: usize = 0;
    while k < n
        invariant
            n == table.size(),
            table.valid(n as nat),
            distribution.valid(n as nat),
            pm == distribution.plaintext_prior(),
            pk == distribution.key_prior(),
            t == table.cells(),
            channel_valid(pm, pk, t, n as int),
            joint.wf(),
            joint.num_rows() == n,
            joint.num_cols() == n,
            k <= n,
            accumulated(pm, pk, t, n as int, marg@, joint@, k as int, 0),
        decreases n - k,
    {
        let mut m: usize = 0;
        while m < n
            invariant
                n == table.size(),
                table.valid(n as nat),
                distribution.valid(n as nat),
                pm == distribution.plaintext_prior(),
                pk == distribution.key_prior(),
                t == table.cells(),
                channel_valid(pm, pk, t, n as int),
                joint.wf(),
                joint.num_rows() == n,
                joint.num_cols() == n,
                k < n,
                m <= n,
                accumulated(pm, pk, t, n as int, marg@, joint@, k as int, m as int),
            decreases n - m,
        {
            let p = distribution.get_probability_of_key_and_text(m, k);
            let c = table.0.get(k, m) as usize;
            proof {
                lemma_accumulate_step(pm, pk, t, n as int, marg@, joint@, k as int, m as int);
            }
            let mv = marg[c] + p;
            let jv = joint.get(m, c) + p;
            marg.set(c, mv);
            joint.set(m, c, jv);
            m += 1;
        }
        proof {
            lemma_accumulate_next_key(pm, pk, t, n as int, marg@, joint@, k as int);
        }
        k += 1;
    }
    proof {
        assert(ints(pk).take(n as int) =~= ints(pk));
        let sm = total(pm);
        let sk = total(pk);
        assert(sk * sm == sm * sk) by (nonlinear_arith);
        assert(t.len() == n);
        assert forall|m: int, c: int| 0 <= m < n && 0 <= c < n implies #[trigger] joint@[m][c]
            == joint_weight(pm, pk, t, m, c) by {}
        assert forall|m: int| 0 <= m < n implies #[trigger] sum(row_of(joint@, m)) == pm[m] * sk by {}
    }
    (marg, joint)
}

} // verus!
