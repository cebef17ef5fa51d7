//! Reading a channel from CSV text: the cells of each record are parsed
//! here, the records themselves are split by the csv crate.
use vstd::prelude::*;
use crate::fields::{is_probability, is_symbol, millionths, numeral, parse_probability, parse_symbol};
use crate::lab::{LabContext, accepts};
use crate::tables::LoadError;

verus! {

#[verifier::external_type_specification]
#[verifier::external_body]
pub struct ExCsvError(csv::Error);

/// The records of a CSV text without a header row, each as its fields.
pub uninterp spec fn csv_byte_records(text: Seq<u8>) -> Seq<Seq<Seq<u8>>>;

/// Relies on csv::ReaderBuilder (no header row, records of any length) and
/// Reader::byte_records: the records of `text`, each as the bytes of its
/// fields. Over a byte slice the reader meets no I/O error, records of
/// unequal length are allowed and byte records skip the UTF-8 check, so
/// reading always succeeds.
#[verifier::external_body]
fn read_records(text: &[u8]) -> (r: Result<Vec<Vec<Vec<u8>>>, csv::Error>)
    ensures
        r is Ok,
        r matches Ok(rows) ==> rows.deep_view() == csv_byte_records(text@),
{
    let mut reader = csv::ReaderBuilder::new().has_headers(false).flexible(true).from_reader(text);
    let mut rows: Vec<Vec<Vec<u8>>> = Vec::new();
    for record in reader.byte_records() {
        rows.push(record?.iter().map(|field| field.to_vec()).collect());
    }
    Ok(rows)
}

/// Every cell is a probability.
pub open spec fn all_probabilities(rows: Seq<Seq<Seq<u8>>>) -> bool {
    forall|i: int, j: int| 0 <= i < rows.len() && 0 <= j < rows[i].len() ==> is_probability(#[trigger] rows[i][j])
}

/// The cells as millionths.
pub open spec fn prior_values(rows: Seq<Seq<Seq<u8>>>) -> Seq<Seq<u64>> {
    Seq::new(rows.len(), |i: int| Seq::new(rows[i].len(), |j: int| millionths(rows[i][j]) as u64))
}

/// Every cell is a whole number.
pub open spec fn all_symbols(rows: Seq<Seq<Seq<u8>>>) -> bool {
    forall|i: int, j: int| 0 <= i < rows.len() && 0 <= j < rows[i].len() ==> is_symbol(#[trigger] rows[i][j])
}

/// The cells as symbols.
pub open spec fn symbol_values(rows: Seq<Seq<Seq<u8>>>) -> Seq<Seq<u32>> {
    Seq::new(rows.len(), |i: int| Seq::new(rows[i].len(), |j: int| numeral(rows[i][j]) as u32))
}

/// The records of a prior source as millionths.
pub fn parse_prior_records(records: &Vec<Vec<Vec<u8>>>) -> (res: Result<Vec<Vec<u64>>, LoadError>)
    ensures
        res is Ok <==> all_probabilities(records.deep_view()),
        res matches Ok(rows) ==> rows.deep_view() == prior_values(records.deep_view()),
        res matches Err(e) ==> e is NotAProbability,
{
    let ghost d = records.deep_view();
    let mut rows: Vec<Vec<u64>> = Vec::new();
    let mut i: usize = 0;
    while i < records.len()
        invariant
            d == records.deep_view(),
            i <= records@.len(),
            rows@.len() == i,
            forall|r: int, j: int| 0 <= r < i && 0 <= j < d[r].len() ==> is_probability(#[trigger] d[r][j]),
            forall|r: int| 0 <= r < i ==> (#[trigger] rows@[r])@ == prior_values(d)[r],
        decreases records@.len() - i,
    {
        let record = &records[i];
        let mut row: Vec<u64> = Vec::new();
        let mut j: usize = 0;
        while j < record.len()
            invariant
                d == records.deep_view(),
                i < records@.len(),
                record@ == records@[i as int]@,
                j <= record@.len(),
                row@.len() == j,
                forall|q: int| 0 <= q < j ==> is_probability(#[trigger] d[i as int][q]),
                forall|q: int| 0 <= q < j ==> #[trigger] row@[q] == millionths(d[i as int][q]) as u64,
            decreases record@.len() - j,
        {
            proof {
                assert(record[j as int]@ == d[i as int][j as int]);
            }
            match parse_probability(&record[j]) {
                Some(v) => row.push(v),
                None => return Err(LoadError::NotAProbability { row: i, column: j }),
            }
            j += 1;
        }
        proof {
            assert(row@ =~= prior_values(d)[i as int]);
        }
        rows.push(row);
        i += 1;
    }
    proof {
        assert forall|r: int| 0 <= r < rows@.len() implies #[trigger] rows.deep_view()[r] == prior_values(d)[r] by {
            assert(rows.deep_view()[r] =~= rows@[r]@);
        }
        assert(rows.deep_view() =~= prior_values(d));
    }
    Ok(rows)
}

/// The records of a table source as symbols.
pub fn parse_table_records(records: &Vec<Vec<Vec<u8>>>) -> (res: Result<Vec<Vec<u32>>, LoadError>)
    ensures
        res is Ok <==> all_symbols(records.deep_view()),
        res matches Ok(rows) ==> rows.deep_view() == symbol_values(records.deep_view()),
        res matches Err(e) ==> e is NotASymbol,
{
    let ghost d = records.deep_view();
    let mut rows: Vec<Vec<u32>> = Vec::new();
    let mut i: usize = 0;
    while i < records.len()
        invariant
            d == records.deep_view(),
            i <= records@.len(),
            rows@.len() == i,
            forall|r: int, j: int| 0 <= r < i && 0 <= j < d[r].len() ==> is_symbol(#[trigger] d[r][j]),
            forall|r: int| 0 <= r < i ==> (#[trigger] rows@[r])@ == symbol_values(d)[r],
        decreases records@.len() - i,
    {
        let record = &records[i];
        let mut row: Vec<u32> = Vec::new();
        let mut j: usize = 0;
        while j < record.len()
            invariant
                d == records.deep_view(),
                i < records@.len(),
                record@ == records@[i as int]@,
                j <= record@.len(),
                row@.len() == j,
                forall|q: int| 0 <= q < j ==> is_symbol(#[trigger] d[i as int][q]),
                forall|q: int| 0 <= q < j ==> #[trigger] row@[q] == numeral(d[i as int][q]) as u32,
            decreases record@.len() - j,
        {
            proof {
                assert(record[j as int]@ == d[i as int][j as int]);
            }
            match parse_symbol(&record[j]) {
                Some(v) => row.push(v),
                None => return Err(LoadError::NotASymbol { row: i, column: j }),
            }
            j += 1;
        }
        proof {
            assert(row@ =~= symbol_values(d)[i as int]);
        }
        rows.push(row);
        i += 1;
    }
    proof {
        assert forall|r: int| 0 <= r < rows@.len() implies #[trigger] rows.deep_view()[r] == symbol_values(d)[r] by {
            assert(rows.deep_view()[r] =~= rows@[r]@);
        }
        assert(rows.deep_view() =~= symbol_values(d));
    }
    Ok(rows)
}

/// The channel of alphabet size `n` from the records of its two sources:
/// two records of probabilities (plaintext prior, then key prior) and `n`
/// records of symbols (one per key).
pub fn load_records(
    prior_records: &Vec<Vec<Vec<u8>>>,
    table_records: &Vec<Vec<Vec<u8>>>,
    n: usize,
) -> (res: Result<LabContext, LoadError>)
    requires
        n * n <= usize::MAX,
    ensures
        res is Ok <==> (all_probabilities(prior_records.deep_view()) && all_symbols(table_records.deep_view())
            && accepts(prior_values(prior_records.deep_view()), symbol_values(table_records.deep_view()), n as int)),
        res matches Ok(ctx) ==> ctx.valid() && ctx.size() == n
            && ctx.plaintext_prior() == prior_values(prior_records.deep_view())[0]
            && ctx.key_prior() == prior_values(prior_records.deep_view())[1]
            && forall|k: int, m: int| 0 <= k < n && 0 <= m < n ==> #[trigger] ctx.cells()[k][m]
                == symbol_values(table_records.deep_view())[k][m],
{
    let priors = match parse_prior_records(prior_records) {
        Ok(p) => p,
        Err(e) => return Err(e),
    };
    let table = match parse_table_records(table_records) {
        Ok(t) => t,
        Err(e) => return Err(e),
    };
    LabContext::load(priors, table, n)
}

/// The channel of alphabet size `n` from the CSV text of its two sources:
/// the result of `load_records` on their records.
pub fn load_csv(prior_text: &[u8], table_text: &[u8], n: usize) -> (res: Result<LabContext, LoadError>)
    requires
        n * n <= usize::MAX,
    ensures
        res is Ok <==> (all_probabilities(csv_byte_records(prior_text@)) && all_symbols(
            csv_byte_records(table_text@),
        ) && accepts(prior_values(csv_byte_records(prior_text@)), symbol_values(csv_byte_records(table_text@)), n as int)),
        res matches Ok(ctx) ==> ctx.valid() && ctx.size() == n
            && ctx.plaintext_prior() == prior_values(csv_byte_records(prior_text@))[0]
            && ctx.key_prior() == prior_values(csv_byte_records(prior_text@))[1]
            && forall|k: int, m: int| 0 <= k < n && 0 <= m < n ==> #[trigger] ctx.cells()[k][m]
                == symbol_values(csv_byte_records(table_text@))[k][m],
        res matches Ok(ctx) ==> all_probabilities(csv_byte_records(prior_text@)) && all_symbols(
            csv_byte_records(table_text@),
        ) && accepts(prior_values(csv_byte_records(prior_text@)), symbol_values(csv_byte_records(table_text@)), n as int),
{
    let priors = match read_records(prior_text) {
        Ok(r) => r,
        Err(_) => return Err(LoadError::Malformed),
    };
    let table = match read_records(table_text) {
        Ok(r) => r,
        Err(_) => return Err(LoadError::Malformed),
    };
    load_records(&priors, &table, n)
}

} // verus!
