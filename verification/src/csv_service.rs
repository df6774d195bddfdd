//! Reading CSV text into header-named fields, through the `csv` crate.

use vstd::prelude::*;
use crate::text::views;

verus! {

/// Reads CSV documents whose first row names the columns.
#[derive(Debug, Clone)]
pub struct CsvService;

/// A CSV document as the `csv` reader yields it: the header row, then one
/// entry per data row, `None` where the reader reported an error.
pub struct CsvTable {
    pub headers: Vec<String>,
    pub records: Vec<Option<Vec<String>>>,
}

/// The rows that were read before the first failing one, each as
/// `(header, value)` pairs, and whether reading stopped at a failing row.
#[derive(Debug, Clone, PartialEq)]
pub struct CsvRecords {
    pub fields: Vec<Vec<(String, String)>>,
    pub failed: bool,
}

/// Why CSV text could not be read.
#[derive(Debug, PartialEq, Eq, Structural)]
pub enum CsvError {
    /// The header row could not be read.
    Headers,
    /// A data row could not be read.
    Record,
}

/// What the `csv` crate's reader (flexible row lengths, first row as
/// headers) reads from `text`: `None` when the header row fails, else the
/// headers and each data row in order (`None` for a row that fails).
pub uninterp spec fn csv_read(text: Seq<char>) -> Option<(Seq<Seq<char>>, Seq<Option<Seq<Seq<char>>>>)>;

/// The character views of the rows of a table.
pub open spec fn record_views(rs: Seq<Option<Vec<String>>>) -> Seq<Option<Seq<Seq<char>>>> {
    rs.map_values(|r: Option<Vec<String>>| match r {
        Some(v) => Some(views(v@)),
        None => None,
    })
}

/// Reads `text` with `csv::ReaderBuilder::new().flexible(true)`:
/// `csv::Reader::headers` for the header row and `csv::Reader::records`
/// for the data rows, each field taken as a `String`. The contract says
/// only that the result is `csv_read` of the text.
#[verifier::external_body]
fn read_table(text: &str) -> (r: Option<CsvTable>)
    ensures
        r matches Some(t) ==> csv_read(text@) == Some((views(t.headers@), record_views(t.records@))),
        r is None ==> csv_read(text@) is None,
{
    let mut reader = csv::ReaderBuilder::new().flexible(true).from_reader(text.as_bytes());
    let headers = match reader.headers() {
        Ok(h) => h.iter().map(|f| f.to_owned()).collect(),
        Err(_) => return None,
    };
    let records = reader
        .records()
        .map(|r| r.ok().map(|rec| rec.iter().map(|f| f.to_owned()).collect()))
        .collect();
    Some(CsvTable { headers, records })
}

/// Header and value paired column by column, as far as both reach.
pub open spec fn zip_fields(hs: Seq<Seq<char>>, vs: Seq<Seq<char>>) -> Seq<(Seq<char>, Seq<char>)> {
    Seq::new(
        if hs.len() <= vs.len() { hs.len() } else { vs.len() },
        |i: int| (hs[i], vs[i]),
    )
}

/// The character views of `(header, value)` pairs.
pub open spec fn pair_views(s: Seq<(String, String)>) -> Seq<(Seq<char>, Seq<char>)> {
    s.map_values(|p: (String, String)| (p.0@, p.1@))
}

/// The index of the first failing row, or the number of rows.
pub open spec fn first_failure(rs: Seq<Option<Seq<Seq<char>>>>, i: int) -> int
    decreases rs.len() - i,
{
    if i < 0 || i >= rs.len() {
        rs.len() as int
    } else if rs[i] is None {
        i
    } else {
        first_failure(rs, i + 1)
    }
}

/// `headers` and `record` paired column by column.
pub fn record_fields(headers: &Vec<String>, record: &Vec<String>) -> (r: Vec<(String, String)>)
    ensures
        pair_views(r@) == zip_fields(views(headers@), views(record@)),
{
    let n = if headers.len() <= record.len() { headers.len() } else { record.len() };
    let mut r: Vec<(String, String)> = Vec::new();
    let mut i: usize = 0;
    while i < n
        invariant
            i <= n,
            n <= headers.len(),
            n <= record.len(),
            r@.len() == i,
            forall|k: int| 0 <= k < i ==> #[trigger] r@[k].0@ == headers@[k]@ && r@[k].1@ == record@[k]@,
        decreases n - i,
    {
        r.push((headers[i].clone(), record[i].clone()));
        i = i + 1;
    }
    assert(pair_views(r@) == zip_fields(views(headers@), views(record@)));
    r
}

/// The rows of a table as `(header, value)` pairs, up to the first row
/// that failed to read, and whether there was such a row.
pub fn records_of_table(table: &CsvTable) -> (r: CsvRecords)
    ensures
        ({
            let hs = views(table.headers@);
            let rs = record_views(table.records@);
            let k = first_failure(rs, 0);
            &&& r.fields@.len() == k
            &&& r.failed == (k < rs.len())
            &&& forall|i: int| 0 <= i < k ==> pair_views(#[trigger] r.fields@[i]@) == zip_fields(hs, rs[i]->0)
        }),
{
    let ghost hs = views(table.headers@);
    let ghost rs = record_views(table.records@);
    let mut fields: Vec<Vec<(String, String)>> = Vec::new();
    let mut i: usize = 0;
    while i < table.records.len()
        invariant
            i <= table.records.len(),
            hs == views(table.headers@),
            rs == record_views(table.records@),
            rs.len() == table.records.len(),
            fields@.len() == i,
            forall|k: int| 0 <= k < i ==> rs[k] is Some,
            first_failure(rs, 0) == first_failure(rs, i as int),
            forall|k: int| 0 <= k < i ==> pair_views(#[trigger] fields@[k]@) == zip_fields(hs, rs[k]->0),
        decreases table.records.len() - i,
    {
        match &table.records[i] {
            Some(rec) => {
                fields.push(record_fields(&table.headers, rec));
            },
            None => {
                return CsvRecords { fields, failed: true };
            },
        }
        i = i + 1;
    }
    CsvRecords { fields, failed: false }
}

impl CsvService {
    /// The rows of `csv_text` as `(header, value)` pairs, up to the first
    /// row that fails to read.
    pub fn read_records(csv_text: &str) -> (r: Result<CsvRecords, CsvError>)
        ensures
            csv_read(csv_text@) is None ==> r == Err::<CsvRecords, CsvError>(CsvError::Headers),
            csv_read(csv_text@) matches Some((hs, rs)) ==> (r matches Ok(recs) && {
                let k = first_failure(rs, 0);
                &&& recs.fields@.len() == k
                &&& recs.failed == (k < rs.len())
                &&& forall|i: int| 0 <= i < k ==> pair_views(#[trigger] recs.fields@[i]@) == zip_fields(hs, rs[i]->0)
            }),
    {
        match read_table(csv_text) {
            Some(t) => Ok(records_of_table(&t)),
            None => Err(CsvError::Headers),
        }
    }
}


/// The first failure is the position of the first row that failed to
/// read: every row before it was read, and it failed unless it is the end.
pub proof fn law_first_failure(rs: Seq<Option<Seq<Seq<char>>>>, i: int)
    requires
        0 <= i <= rs.len(),
    ensures
        i <= first_failure(rs, i) <= rs.len(),
        forall|j: int| i <= j < first_failure(rs, i) ==> (#[trigger] rs[j]) is Some,
        first_failure(rs, i) < rs.len() ==> rs[first_failure(rs, i)] is None,
    decreases rs.len() - i,
{
    if i < rs.len() && rs[i] is Some {
        law_first_failure(rs, i + 1);
    }
}

} // verus!
