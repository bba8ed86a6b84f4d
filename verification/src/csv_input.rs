use vstd::prelude::*;
use vstd::string::StringExecFns;
use crate::decimal::parse_u32;
use crate::decimal::parse_u64;
use crate::decimal::parses_as_uint;
use crate::decimal::uint_val;
use crate::profile::aggregate;
use crate::profile::durations_fit;
use crate::profile::sum_of;
use crate::profile::sum_values;
use crate::profile::ProfileEntries;
use crate::profile::ProfileEntry;
use crate::profile::ProfileError;
use crate::profile::Profiler;

verus! {

/// What the CSV reader finds in `b`: every record, the header first,
/// each as its list of fields.
pub uninterp spec fn csv_records(b: Seq<u8>) -> Seq<Seq<Seq<char>>>;

/// Whether the CSV reader accepts the bytes at all (valid UTF-8,
/// no ragged rows).
pub uninterp spec fn csv_reads(b: Seq<u8>) -> bool;

/// Relies on csv::Reader (`ReaderBuilder::from_reader`, `headers`,
/// `records`): splits the bytes into records of fields. Reading a fixed
/// byte string is a function of those bytes alone: it succeeds exactly
/// when `csv_reads` holds, with the records `csv_records` names;
/// reader-level failures (bad UTF-8, ragged rows) surface as
/// `CsvFormat`.
#[verifier::external_body]
fn read_csv_records(bytes: &[u8]) -> (r: Result<Vec<Vec<String>>, ProfileError>)
    ensures
        r is Ok <==> csv_reads(bytes@),
        r is Ok ==> r.unwrap().deep_view() == csv_records(bytes@),
        r is Err ==> r->Err_0 == ProfileError::CsvFormat,
{
    let mut rdr = csv::ReaderBuilder::new().from_reader(bytes);
    let mut out: Vec<Vec<String>> = Vec::new();
    match rdr.headers() {
        Ok(h) => out.push(h.iter().map(|f| f.to_string()).collect()),
        Err(_) => return Err(ProfileError::CsvFormat),
    }
    for rec in rdr.records() {
        match rec {
            Ok(row) => out.push(row.iter().map(|f| f.to_string()).collect()),
            Err(_) => return Err(ProfileError::CsvFormat),
        }
    }
    Ok(out)
}

/// Position of the first field equal to `name`, or -1 when absent.
pub open spec fn index_of_name(header: Seq<Seq<char>>, name: Seq<char>) -> int
    decreases header.len(),
{
    if header.len() == 0 {
        -1
    } else if header.first() == name {
        0
    } else if index_of_name(header.drop_first(), name) == -1 {
        -1
    } else {
        index_of_name(header.drop_first(), name) + 1
    }
}

proof fn lemma_index_absent(header: Seq<Seq<char>>, name: Seq<char>)
    requires
        forall|j: int| 0 <= j < header.len() ==> #[trigger] header[j] != name,
    ensures
        index_of_name(header, name) == -1,
    decreases header.len(),
{
    if header.len() > 0 {
        assert(header.first() == header[0]);
        assert(forall|j: int|
            0 <= j < header.drop_first().len() ==> #[trigger] header.drop_first()[j] == header[j
                + 1]);
        lemma_index_absent(header.drop_first(), name);
    }
}

proof fn lemma_index_found(header: Seq<Seq<char>>, name: Seq<char>, i: int)
    requires
        0 <= i < header.len(),
        header[i] == name,
        forall|j: int| 0 <= j < i ==> #[trigger] header[j] != name,
    ensures
        index_of_name(header, name) == i,
    decreases header.len(),
{
    if i == 0 {
        assert(header.first() == name);
    } else {
        assert(header.first() == header[0]);
        assert(header[0] != name);
        assert(forall|j: int|
            0 <= j < header.drop_first().len() ==> #[trigger] header.drop_first()[j] == header[j
                + 1]);
        lemma_index_found(header.drop_first(), name, i - 1);
    }
}

/// Position of the first column whose header is `name`, matching
/// `index_of_name` on the header's view.
fn find_column(header: &Vec<String>, name: &str) -> (r: Option<usize>)
    ensures
        match r {
            Some(i) => 0 <= i < header@.len() && index_of_name(header.deep_view(), name@)
                == i as int,
            None => index_of_name(header.deep_view(), name@) == -1,
        },
{
    let needle = String::from_str(name);
    let mut j: usize = 0;
    while j < header.len()
        invariant
            0 <= j <= header@.len(),
            needle@ == name@,
            forall|t: int| 0 <= t < j ==> #[trigger] header.deep_view()[t] != name@,
        decreases header@.len() - j,
    {
        if header[j].eq(&needle) {
            proof {
                assert(header.deep_view()[j as int] == name@);
                lemma_index_found(header.deep_view(), name@, j as int);
            }
            return Some(j);
        }
        proof {
            assert(header.deep_view()[j as int] != name@);
        }
        j = j + 1;
    }
    proof {
        lemma_index_absent(header.deep_view(), name@);
    }
    None
}

pub open spec fn func_index_col() -> Seq<char> {
    "func_index"@
}

pub open spec fn duration_col() -> Seq<char> {
    "duration"@
}

/// A data row fits the schema: it reaches both columns, and both fields
/// are decimal numerals in range.
pub open spec fn row_ok(row: Seq<Seq<char>>, fi: int, di: int) -> bool {
    &&& 0 <= fi < row.len()
    &&& 0 <= di < row.len()
    &&& parses_as_uint(row[fi], u32::MAX as int)
    &&& parses_as_uint(row[di], u64::MAX as int)
}

/// The sample that a data row denotes.
pub open spec fn entry_of_row(row: Seq<Seq<char>>, fi: int, di: int) -> ProfileEntry {
    ProfileEntry {
        func_index: uint_val(row[fi]) as u32,
        duration: uint_val(row[di]) as u64,
    }
}

/// The whole table fits the schema. A table with no data rows is
/// trivially fine (nothing is decoded from it); otherwise the header
/// must name both columns and every data row must fit.
pub open spec fn csv_ok(rows: Seq<Seq<Seq<char>>>) -> bool {
    ||| rows.len() <= 1
    ||| {
        let header = rows.first();
        let fi = index_of_name(header, func_index_col());
        let di = index_of_name(header, duration_col());
        fi >= 0 && di >= 0 && (forall|i: int| 1 <= i < rows.len() ==> row_ok(#[trigger] rows[i], fi, di))
    }
}

/// The samples a well-formed table denotes, in row order.
pub open spec fn csv_entries(rows: Seq<Seq<Seq<char>>>) -> Seq<ProfileEntry> {
    if rows.len() <= 1 {
        Seq::empty()
    } else {
        let header = rows.first();
        let fi = index_of_name(header, func_index_col());
        let di = index_of_name(header, duration_col());
        Seq::new((rows.len() - 1) as nat, |i: int| entry_of_row(rows[i + 1], fi, di))
    }
}

impl Profiler {
    /// Decode CSV records (header first) into samples and aggregate
    /// them. Succeeds exactly on tables that fit the schema and whose
    /// total duration fits the accumulator; on success the profile is
    /// the aggregation of the table's samples.
    pub fn import_profile_from_rows(rows: &Vec<Vec<String>>) -> (r: Result<Profiler, ProfileError>)
        ensures
            match r {
                Ok(p) => {
                    &&& csv_ok(rows.deep_view())
                    &&& sum_of(csv_entries(rows.deep_view())) <= u64::MAX
                    &&& p.wf()
                    &&& p.profile_map() == aggregate(csv_entries(rows.deep_view()))
                    &&& p.name_map() == Map::<u32, Seq<char>>::empty()
                    &&& sum_values(p.profile@) == sum_of(csv_entries(rows.deep_view()))
                },
                Err(e) => {
                    ||| (e == ProfileError::CsvFormat && !csv_ok(rows.deep_view()))
                    ||| (e == ProfileError::DurationOverflow && csv_ok(rows.deep_view())
                        && sum_of(csv_entries(rows.deep_view())) > u64::MAX)
                },
            },
    {
        let ghost rs = rows.deep_view();
        if rows.len() <= 1 {
            proof {
                assert(csv_entries(rs) =~= Seq::<ProfileEntry>::empty());
            }
            let p = Profiler::new();
            proof {
                assert(p.profile_map() =~= aggregate(csv_entries(rs)));
            }
            return Ok(p);
        }
        let header = &rows[0];
        proof {
            assert(header.deep_view() =~= rs.first());
        }
        let fi = match find_column(header, "func_index") {
            Some(i) => i,
            None => {
                return Err(ProfileError::CsvFormat);
            },
        };
        let di = match find_column(header, "duration") {
            Some(i) => i,
            None => {
                return Err(ProfileError::CsvFormat);
            },
        };
        let mut entries: ProfileEntries = Vec::new();
        let mut i: usize = 1;
        while i < rows.len()
            invariant
                1 <= i <= rows@.len(),
                rs == rows.deep_view(),
                rs.len() == rows@.len(),
                2 <= rows@.len(),
                index_of_name(rs.first(), func_index_col()) == fi as int,
                index_of_name(rs.first(), duration_col()) == di as int,
                forall|t: int| 1 <= t < i ==> row_ok(#[trigger] rs[t], fi as int, di as int),
                entries@.len() == i - 1,
                forall|t: int|
                    0 <= t < i - 1 ==> #[trigger] entries@[t] == entry_of_row(
                        rs[t + 1],
                        fi as int,
                        di as int,
                    ),
            decreases rows@.len() - i,
        {
            let row = &rows[i];
            proof {
                assert(row.deep_view() =~= rs[i as int]);
            }
            if fi >= row.len() || di >= row.len() {
                proof {
                    assert(!row_ok(rs[i as int], fi as int, di as int));
                }
                return Err(ProfileError::CsvFormat);
            }
            let func_index = match parse_u32(row[fi].as_str()) {
                Some(v) => v,
                None => {
                    proof {
                        assert(row@[fi as int]@ == rs[i as int][fi as int]);
                        assert(!row_ok(rs[i as int], fi as int, di as int));
                    }
                    return Err(ProfileError::CsvFormat);
                },
            };
            let duration = match parse_u64(row[di].as_str()) {
                Some(v) => v,
                None => {
                    proof {
                        assert(row@[di as int]@ == rs[i as int][di as int]);
                        assert(!row_ok(rs[i as int], fi as int, di as int));
                    }
                    return Err(ProfileError::CsvFormat);
                },
            };
            entries.push(ProfileEntry { func_index, duration });
            proof {
                assert(row@[fi as int]@ == rs[i as int][fi as int]);
                assert(row@[di as int]@ == rs[i as int][di as int]);
                assert(entries@[i - 1] == entry_of_row(rs[i as int], fi as int, di as int));
            }
            i = i + 1;
        }
        proof {
            assert(csv_ok(rs));
            assert(entries@ =~= csv_entries(rs));
        }
        if !durations_fit(&entries) {
            return Err(ProfileError::DurationOverflow);
        }
        Ok(Profiler::import_profile(entries))
    }

    /// Build a profile from the bytes of a CSV file whose records carry
    /// `func_index` and `duration` columns. Succeeds exactly when the
    /// reader accepts the bytes, the table fits the schema and the
    /// total duration fits the accumulator; the profile is then the
    /// aggregation of the table's samples.
    pub fn import_profile_from_csv(bytes: &[u8]) -> (r: Result<Profiler, ProfileError>)
        ensures
            r is Ok <==> csv_reads(bytes@) && csv_ok(csv_records(bytes@)) && sum_of(
                csv_entries(csv_records(bytes@)),
            ) <= u64::MAX,
            match r {
                Ok(p) => {
                    &&& p.wf()
                    &&& p.profile_map() == aggregate(csv_entries(csv_records(bytes@)))
                    &&& p.name_map() == Map::<u32, Seq<char>>::empty()
                    &&& sum_values(p.profile@) == sum_of(csv_entries(csv_records(bytes@)))
                },
                Err(e) => {
                    &&& (e == ProfileError::CsvFormat <==> !csv_reads(bytes@) || !csv_ok(
                        csv_records(bytes@),
                    ))
                    &&& (e == ProfileError::DurationOverflow <==> csv_reads(bytes@) && csv_ok(
                        csv_records(bytes@),
                    ) && sum_of(csv_entries(csv_records(bytes@))) > u64::MAX)
                },
            },
    {
        match read_csv_records(bytes) {
            Ok(rows) => Profiler::import_profile_from_rows(&rows),
            Err(_) => Err(ProfileError::CsvFormat),
        }
    }
}

} // verus!
