//! Accumulation of per-entity observation sequences from tabular rows.
//!
//! A row is a sequence of text fields.  Field 1 carries the numeric
//! observation, field 3 the entity key; a missing key field counts as the
//! empty key and a missing observation field as the text `"0"`.  Observations
//! are kept as the raw field text, in row-arrival order; interpreting them
//! numerically is left to the caller.

use vstd::prelude::*;

verus! {

/// The observation sequence accumulated for one entity key.
struct SeriesEntry {
    key: String,
    observations: Vec<String>,
}

/// Per-entity observation sequences, keyed by entity, in first-seen order.
pub struct Dataset {
    entries: Vec<SeriesEntry>,
    rows: usize,
}

/// The entity key carried by a row: field 3, or the empty key.
pub open spec fn row_key(row: Seq<Seq<char>>) -> Seq<char> {
    if row.len() > 3 {
        row[3]
    } else {
        Seq::empty()
    }
}

/// The observation text carried by a row: field 1, or `"0"`.
pub open spec fn row_obs(row: Seq<Seq<char>>) -> Seq<char> {
    if row.len() > 1 {
        row[1]
    } else {
        "0"@
    }
}

/// Position of the first entry holding key `k`, or `acc.len()` if none does.
pub open spec fn find_key(acc: Seq<(Seq<char>, Seq<Seq<char>>)>, k: Seq<char>) -> int
    decreases acc.len(),
{
    if acc.len() == 0 {
        0
    } else if acc[0].0 == k {
        0
    } else {
        1 + find_key(acc.drop_first(), k)
    }
}

/// `find_key` returns the position of the first entry with key `k`, and
/// `acc.len()` exactly when no entry has it.
pub proof fn lemma_find_key(acc: Seq<(Seq<char>, Seq<Seq<char>>)>, k: Seq<char>)
    ensures
        0 <= find_key(acc, k) <= acc.len(),
        find_key(acc, k) < acc.len() ==> acc[find_key(acc, k)].0 == k,
        forall|j: int| 0 <= j < find_key(acc, k) ==> (#[trigger] acc[j]).0 != k,
    decreases acc.len(),
{
    if acc.len() > 0 && acc[0].0 != k {
        lemma_find_key(acc.drop_first(), k);
        assert forall|j: int| 0 <= j < find_key(acc, k) implies (#[trigger] acc[j]).0 != k by {
            if j > 0 {
                assert(acc.drop_first()[j - 1] == acc[j]);
            }
        }
    }
}

/// One row folded into the accumulated series: the observation is appended to
/// its key's sequence, a first-seen key gaining a fresh entry at the end.
pub open spec fn ingest_one(
    acc: Seq<(Seq<char>, Seq<Seq<char>>)>,
    row: Seq<Seq<char>>,
) -> Seq<(Seq<char>, Seq<Seq<char>>)> {
    let k = row_key(row);
    let o = row_obs(row);
    let i = find_key(acc, k);
    if i < acc.len() {
        acc.update(i, (k, acc[i].1.push(o)))
    } else {
        acc.push((k, seq![o]))
    }
}

/// All rows folded into the accumulated series, in order.
pub open spec fn ingest_rows(rows: Seq<Seq<Seq<char>>>) -> Seq<(Seq<char>, Seq<Seq<char>>)>
    decreases rows.len(),
{
    if rows.len() == 0 {
        Seq::empty()
    } else {
        ingest_one(ingest_rows(rows.drop_last()), rows.last())
    }
}

impl Dataset {
    /// The accumulated series: one `(key, observations)` pair per entity,
    /// keys in first-seen order, observations in row-arrival order.
    pub closed spec fn view_spec(&self) -> Seq<(Seq<char>, Seq<Seq<char>>)> {
        self.entries@.map_values(|e: SeriesEntry| (e.key@, e.observations.deep_view()))
    }

    /// Number of rows ingested so far.
    pub closed spec fn row_total(&self) -> int {
        self.rows as int
    }

    pub open spec fn wf(&self) -> bool {
        forall|i: int, j: int|
            0 <= i < j < self.view_spec().len() ==> (#[trigger] self.view_spec()[i]).0 != (
            #[trigger] self.view_spec()[j]).0
    }

    /// Create an empty accumulator.
    pub fn new() -> (d: Dataset)
        ensures
            d.wf(),
            d.view_spec() == Seq::<(Seq<char>, Seq<Seq<char>>)>::empty(),
            d.row_total() == 0,
    {
        let d = Dataset { entries: Vec::new(), rows: 0 };
        proof {
            assert(d.view_spec() =~= Seq::<(Seq<char>, Seq<Seq<char>>)>::empty());
        }
        d
    }

    /// Position of the entry holding `key`, if any.
    fn find_entry(&self, key: &String) -> (r: Option<usize>)
        ensures
            match r {
                Some(i) => 0 <= i < self.view_spec().len() && self.view_spec()[i as int].0 == key@,
                None => forall|j: int|
                    0 <= j < self.view_spec().len() ==> (#[trigger] self.view_spec()[j]).0 != key@,
            },
    {
        let mut i: usize = 0;
        while i < self.entries.len()
            invariant
                i <= self.entries.len(),
                forall|j: int| 0 <= j < i ==> (#[trigger] self.view_spec()[j]).0 != key@,
            decreases self.entries.len() - i,
        {
            if self.entries[i].key == *key {
                assert(self.view_spec()[i as int].0 == key@);
                return Some(i);
            }
            i += 1;
        }
        None
    }

    /// Fold one row into the accumulator: append its observation text to its
    /// key's sequence, registering a first-seen key at the end.
    pub fn ingest_row(&mut self, row: &Vec<String>)
        requires
            old(self).wf(),
            old(self).row_total() < usize::MAX,
        ensures
            final(self).wf(),
            final(self).view_spec() == ingest_one(old(self).view_spec(), row.deep_view()),
            final(self).row_total() == old(self).row_total() + 1,
    {
        let ghost acc0 = self.view_spec();
        let ghost rv = row.deep_view();
        let key: String = if row.len() > 3 {
            row[3].clone()
        } else {
            String::new()
        };
        let obs: String = if row.len() > 1 {
            row[1].clone()
        } else {
            "0".to_owned()
        };
        proof {
            assert(key@ == row_key(rv));
            assert(obs@ == row_obs(rv));
            lemma_find_key(acc0, key@);
        }
        match self.find_entry(&key) {
            Some(i) => {
                proof {
                    assert(find_key(acc0, key@) == i as int) by {
                        if find_key(acc0, key@) != i as int {
                            assert(acc0[find_key(acc0, key@)].0 == key@ && acc0[i as int].0
                                == key@);
                        }
                    }
                }
                let entry = &mut self.entries[i];
                entry.observations.push(obs);
                proof {
                    assert(self.entries@[i as int].key == old(self).entries@[i as int].key);
                    assert(self.entries@[i as int].observations.deep_view() =~= acc0[i as int].1
                        .push(row_obs(rv)));
                    assert(self.view_spec() =~= acc0.update(
                        i as int,
                        (key@, acc0[i as int].1.push(row_obs(rv))),
                    ));
                }
            },
            None => {
                proof {
                    assert(find_key(acc0, key@) == acc0.len()) by {
                        if find_key(acc0, key@) < acc0.len() {
                            assert(acc0[find_key(acc0, key@)].0 == key@);
                        }
                    }
                }
                let mut observations: Vec<String> = Vec::new();
                observations.push(obs);
                self.entries.push(SeriesEntry { key, observations });
                proof {
                    assert(self.entries@[acc0.len() as int].observations.deep_view() =~= seq![
                        row_obs(rv),
                    ]);
                    assert(self.view_spec() =~= acc0.push((row_key(rv), seq![row_obs(rv)])));
                    assert forall|i: int, j: int|
                        0 <= i < j < self.view_spec().len() implies (
                        #[trigger] self.view_spec()[i]).0 != (#[trigger] self.view_spec()[j]).0 by {
                        if j < acc0.len() {
                            assert(acc0[i].0 != acc0[j].0);
                        } else {
                            assert(self.view_spec()[j].0 == key@);
                            assert(acc0[i].0 != key@);
                        }
                    }
                }
            },
        }
        self.rows = self.rows + 1;
    }

    /// Number of distinct entity keys seen so far.
    pub fn key_count(&self) -> (r: usize)
        ensures
            r == self.view_spec().len(),
    {
        self.entries.len()
    }

    /// The `i`-th entity key, in first-seen order.
    pub fn key_at(&self, i: usize) -> (r: String)
        requires
            i < self.view_spec().len(),
        ensures
            r@ == self.view_spec()[i as int].0,
    {
        self.entries[i].key.clone()
    }

    /// The observation texts of the `i`-th entity, in row-arrival order.
    pub fn observations_at(&self, i: usize) -> (r: &Vec<String>)
        requires
            i < self.view_spec().len(),
        ensures
            r.deep_view() == self.view_spec()[i as int].1,
    {
        &self.entries[i].observations
    }

    /// Number of rows folded in so far.
    pub fn row_count(&self) -> (r: usize)
        ensures
            r == self.row_total(),
    {
        self.rows
    }
}

/// Rows of a tabular byte source as the parser reads them: the fields of each
/// data row, in order, after the header row.  `None` stands for a source the
/// parser rejects.
pub uninterp spec fn csv_rows_of(data: Seq<u8>) -> Option<Seq<Seq<Seq<char>>>>;

/// Relies on csv::Reader::from_reader and csv::StringRecord: parses the byte
/// buffer as headered CSV and yields each data row's fields in order, or the
/// first error met.  The outcome depends on the bytes alone.
#[verifier::external_body]
fn parse_rows(data: &Vec<u8>) -> (r: Result<Vec<Vec<String>>, csv::Error>)
    ensures
        match r {
            Ok(rows) => csv_rows_of(data@) == Some(rows.deep_view()),
            Err(_) => csv_rows_of(data@) is None,
        },
{
    let mut rows: Vec<Vec<String>> = Vec::new();
    let mut rdr = csv::Reader::from_reader(data.as_slice());
    for rec in rdr.records() {
        match rec {
            Ok(rec) => rows.push(rec.iter().map(|f| f.to_string()).collect()),
            Err(e) => return Err(e),
        }
    }
    Ok(rows)
}

#[verifier::external_type_specification]
#[verifier::external_body]
pub struct ExCsvError(csv::Error);

/// Failure to read the tabular source.
#[derive(Debug, PartialEq, Eq, Structural)]
pub enum IngestError {
    /// The source bytes could not be parsed as tabular rows.
    Unreadable,
}

/// Fold a whole tabular byte source into per-entity observation sequences.
///
/// Succeeds exactly when the parser accepts the source; the result then holds
/// every data row folded in arrival order, and counts the rows.
pub fn ingest(data: &Vec<u8>) -> (r: Result<Dataset, IngestError>)
    ensures
        r is Ok <==> csv_rows_of(data@) is Some,
        r matches Ok(d) ==> {
            &&& d.wf()
            &&& d.view_spec() == ingest_rows(csv_rows_of(data@)->Some_0)
            &&& d.row_total() == csv_rows_of(data@)->Some_0.len()
        },
{
    match parse_rows(data) {
        Err(_) => Err(IngestError::Unreadable),
        Ok(rows) => {
            let ghost rv = rows.deep_view();
            let mut d = Dataset::new();
            let n = rows.len();
            let mut i: usize = 0;
            while i < n
                invariant
                    n == rows@.len(),
                    i <= n,
                    rv == rows.deep_view(),
                    d.wf(),
                    d.view_spec() == ingest_rows(rv.take(i as int)),
                    d.row_total() == i,
                decreases n - i,
            {
                d.ingest_row(&rows[i]);
                proof {
                    assert(rv.take(i as int + 1).drop_last() =~= rv.take(i as int));
                    assert(rv.take(i as int + 1).last() == rv[i as int]);
                    assert(rows@[i as int].deep_view() == rv[i as int]);
                }
                i += 1;
            }
            proof {
                assert(rv.take(n as int) =~= rv);
            }
            Ok(d)
        },
    }
}

} // verus!
