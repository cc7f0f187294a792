//! Word sources: turning dictionary file contents into word/count entries.
use vstd::prelude::*;
use vstd::hash_map::StringHashMap;
use vstd::string::StrSliceExecFns;
use crate::distance::chars_of;
use crate::error::BuildError;
use crate::frequency::entries_view;
use crate::text::{all_digits, is_digit};

verus! {

/// `s` split at every occurrence of `d` (an empty `s` is one empty field).
pub open spec fn split_fields(s: Seq<char>, d: char) -> Seq<Seq<char>>
    decreases s.len(),
{
    if s.len() == 0 {
        seq![Seq::<char>::empty()]
    } else {
        let r = split_fields(s.drop_last(), d);
        if s.last() == d {
            r.push(Seq::empty())
        } else {
            r.update(r.len() - 1, r.last().push(s.last()))
        }
    }
}

/// The value of a string of decimal digits.
pub open spec fn digits_value(s: Seq<char>) -> int
    decreases s.len(),
{
    if s.len() == 0 {
        0
    } else {
        digits_value(s.drop_last()) * 10 + (s.last() as int - '0' as int)
    }
}

/// What `i32::from_str` accepts: an optional sign, then at least one decimal
/// digit, with a value in range.
pub open spec fn parsed_i32(s: Seq<char>) -> Option<i32> {
    let neg = s.len() > 0 && s[0] == '-';
    let body = if s.len() > 0 && (s[0] == '-' || s[0] == '+') {
        s.drop_first()
    } else {
        s
    };
    let v = if neg {
        -digits_value(body)
    } else {
        digits_value(body)
    };
    if body.len() > 0 && all_digits(body) && i32::MIN <= v <= i32::MAX {
        Some(v as i32)
    } else {
        None
    }
}

/// The mapping that a list of entries describes; a later entry for a word
/// replaces an earlier one.
pub open spec fn to_map(e: Seq<(Seq<char>, i32)>) -> Map<Seq<char>, i32>
    decreases e.len(),
{
    if e.len() == 0 {
        Map::empty()
    } else {
        to_map(e.drop_last()).insert(e.last().0, e.last().1)
    }
}

/// No word occurs twice among the entries.
pub open spec fn unique_words(e: Seq<(Seq<char>, i32)>) -> bool {
    forall|i: int, j: int| 0 <= i < j < e.len() ==> (#[trigger] e[i]).0 != (#[trigger] e[j]).0
}

proof fn lemma_split_nonempty(s: Seq<char>, d: char)
    ensures
        split_fields(s, d).len() >= 1,
    decreases s.len(),
{
    if s.len() > 0 {
        lemma_split_nonempty(s.drop_last(), d);
    }
}

/// Extending the text only changes the last field and adds new ones.
proof fn lemma_split_stable(s: Seq<char>, d: char, i: int, k: int)
    requires
        0 <= i <= s.len(),
        0 <= k < split_fields(s.subrange(0, i), d).len() - 1,
    ensures
        k < split_fields(s, d).len(),
        split_fields(s, d)[k] == split_fields(s.subrange(0, i), d)[k],
    decreases s.len() - i,
{
    if i < s.len() {
        let t = s.subrange(0, i + 1);
        assert(t.drop_last() =~= s.subrange(0, i));
        lemma_split_nonempty(s.subrange(0, i), d);
        lemma_split_stable(s, d, i + 1, k);
    } else {
        assert(s.subrange(0, i) =~= s);
    }
}

/// Field `k` of `line` split at `d`, if there is one.
fn nth_field(line: &str, d: char, k: usize) -> (r: Option<String>)
    ensures
        match r {
            Some(f) => k < split_fields(line@, d).len() && f@ == split_fields(line@, d)[k as int],
            None => k >= split_fields(line@, d).len(),
        },
{
    let s = chars_of(line);
    let n = s.len();
    let mut field: usize = 0;
    let mut start: usize = 0;
    let mut i: usize = 0;
    proof {
        assert(s@.subrange(0, 0) =~= Seq::<char>::empty());
    }
    while i < n
        invariant
            s@ == line@,
            n == s.len(),
            start <= i <= n,
            field <= k,
            split_fields(s@.subrange(0, i as int), d).len() == field + 1,
            split_fields(s@.subrange(0, i as int), d).last() == s@.subrange(start as int, i as int),
        decreases n - i,
    {
        let ghost pre = s@.subrange(0, i as int);
        let ghost next = s@.subrange(0, i + 1);
        proof {
            assert(next.drop_last() =~= pre);
            assert(next.last() == s@[i as int]);
        }
        if s[i] == d {
            if field == k {
                let f = line.substring_char(start, i);
                proof {
                    lemma_split_stable(s@, d, i + 1, k as int);
                }
                return Some(f.to_owned());
            }
            field += 1;
            start = i + 1;
            proof {
                assert(s@.subrange(start as int, i + 1) =~= Seq::<char>::empty());
            }
        } else {
            proof {
                assert(s@.subrange(start as int, i + 1) =~= s@.subrange(start as int, i as int).push(
                    s@[i as int],
                ));
            }
        }
        i += 1;
    }
    proof {
        assert(s@.subrange(0, n as int) =~= s@);
    }
    if field == k {
        let f = line.substring_char(start, n);
        Some(f.to_owned())
    } else {
        None
    }
}

proof fn lemma_digits_value_grows(s: Seq<char>, i: int)
    requires
        0 <= i <= s.len(),
        all_digits(s),
    ensures
        digits_value(s.subrange(0, i)) <= digits_value(s),
        0 <= digits_value(s.subrange(0, i)),
    decreases s.len() - i,
{
    if i < s.len() {
        lemma_digits_value_grows(s, i + 1);
        let t = s.subrange(0, i + 1);
        assert(t.drop_last() =~= s.subrange(0, i));
        assert(is_digit(t.last()));
    } else {
        assert(s.subrange(0, i) =~= s);
        lemma_digits_value_nonneg(s);
    }
}

proof fn lemma_digits_value_nonneg(s: Seq<char>)
    requires
        all_digits(s),
    ensures
        0 <= digits_value(s),
    decreases s.len(),
{
    if s.len() > 0 {
        assert(is_digit(s.last()));
        lemma_digits_value_nonneg(s.drop_last());
    }
}

/// The integer that `t` spells, as `i32::from_str` reads it.
fn parse_i32(t: &str) -> (r: Option<i32>)
    ensures
        r == parsed_i32(t@),
{
    let s = chars_of(t);
    let n = s.len();
    let neg = n > 0 && s[0] == '-';
    let start: usize = if n > 0 && (s[0] == '-' || s[0] == '+') {
        1
    } else {
        0
    };
    let ghost body = if n > 0 && (s@[0] == '-' || s@[0] == '+') {
        s@.drop_first()
    } else {
        s@
    };
    proof {
        assert(body =~= s@.subrange(start as int, n as int));
    }
    if start == n {
        return None;
    }
    // Past this magnitude no value fits.
    let limit: i64 = 2147483648;
    let mut value: i64 = 0;
    let mut i: usize = start;
    while i < n
        invariant
            s@ == t@,
            n == s.len(),
            start <= i <= n,
            body == s@.subrange(start as int, n as int),
            body == (if t@.len() > 0 && (t@[0] == '-' || t@[0] == '+') {
                t@.drop_first()
            } else {
                t@
            }),
            neg == (t@.len() > 0 && t@[0] == '-'),
            0 <= value <= limit,
            limit == 2147483648,
            all_digits(s@.subrange(start as int, i as int)),
            value == digits_value(s@.subrange(start as int, i as int)),
        decreases n - i,
    {
        let c = s[i];
        proof {
            let p = s@.subrange(start as int, i + 1);
            assert(p.drop_last() =~= s@.subrange(start as int, i as int));
            assert(p.last() == c);
        }
        if !('0' <= c && c <= '9') {
            proof {
                assert(!is_digit(body[i - start]));
            }
            return None;
        }
        let ghost before = value;
        value = value * 10 + (c as u32 - '0' as u32) as i64;
        proof {
            let p = s@.subrange(start as int, i + 1);
            assert(p =~= s@.subrange(start as int, i as int).push(c));
            assert(digits_value(p) == before * 10 + (c as int - '0' as int));
        }
        if value > limit {
            proof {
                if all_digits(body) {
                    lemma_digits_value_grows(body, i + 1 - start);
                    assert(body.subrange(0, i + 1 - start) =~= s@.subrange(start as int, i + 1));
                }
            }
            return None;
        }
        i += 1;
    }
    proof {
        assert(s@.subrange(start as int, n as int) =~= body);
    }
    if neg {
        Some((0 - value) as i32)
    } else if value <= 2147483647 {
        Some(value as i32)
    } else {
        None
    }
}

proof fn lemma_to_map_replace(e: Seq<(Seq<char>, i32)>, p: int, c: i32)
    requires
        unique_words(e),
        0 <= p < e.len(),
    ensures
        to_map(e.update(p, (e[p].0, c))) == to_map(e).insert(e[p].0, c),
    decreases e.len(),
{
    let u = e.update(p, (e[p].0, c));
    let k = e[p].0;
    if p == e.len() - 1 {
        assert(u.drop_last() =~= e.drop_last());
        assert(to_map(e).insert(k, c) =~= to_map(e.drop_last()).insert(k, c));
    } else {
        let d = e.drop_last();
        assert(unique_words(d));
        lemma_to_map_replace(d, p, c);
        assert(u.drop_last() =~= d.update(p, (d[p].0, c)));
        assert(e.last().0 != k);
        assert(to_map(u) =~= to_map(e).insert(k, c));
    }
}

/// The entries as a mapping: one entry per word, holding its last count.
fn collect_entries(entries: Vec<(String, i32)>) -> (r: Vec<(String, i32)>)
    ensures
        unique_words(entries_view(r@)),
        to_map(entries_view(r@)) == to_map(entries_view(entries@)),
{
    let mut out: Vec<(String, i32)> = Vec::new();
    let mut pos: StringHashMap<usize> = StringHashMap::new();
    let mut i: usize = 0;
    while i < entries.len()
        invariant
            i <= entries.len(),
            unique_words(entries_view(out@)),
            to_map(entries_view(out@)) == to_map(entries_view(entries@).subrange(0, i as int)),
            forall|k: Seq<char>| #[trigger]
                pos@.contains_key(k) ==> pos@[k] < out.len() && out@[pos@[k] as int].0@ == k,
            forall|j: int| 0 <= j < out.len() ==> pos@.contains_key((#[trigger] out@[j]).0@),
        decreases entries.len() - i,
    {
        let w = entries[i].0.clone();
        let c = entries[i].1;
        let ghost ev = entries_view(entries@);
        let ghost before = entries_view(out@);
        proof {
            assert(ev.subrange(0, i + 1).drop_last() =~= ev.subrange(0, i as int));
            assert(ev.subrange(0, i + 1).last() == (w@, c));
        }
        let found: Option<usize> = match pos.get(w.as_str()) {
            Some(p) => Some(*p),
            None => None,
        };
        match found {
            Some(p) => {
                out[p] = (w, c);
                proof {
                    assert(entries_view(out@) =~= before.update(p as int, (before[p as int].0, c)));
                    lemma_to_map_replace(before, p as int, c);
                }
            },
            None => {
                let ghost wv = w@;
                pos.insert(w.clone(), out.len());
                out.push((w, c));
                proof {
                    assert(entries_view(out@) =~= before.push((wv, c)));
                    assert(entries_view(out@).drop_last() =~= before);
                    assert forall|a: int, b: int|
                        0 <= a < b < entries_view(out@).len() implies (#[trigger] entries_view(
                        out@,
                    )[a]).0 != (#[trigger] entries_view(out@)[b]).0 by {
                        if b == before.len() {
                            assert(pos@.contains_key(out@[a].0@));
                        }
                    }
                }
            },
        }
        i += 1;
    }
    proof {
        assert(entries_view(entries@).subrange(0, entries.len() as int) =~= entries_view(
            entries@,
        ));
    }
    out
}

/// The entry that one record yields: the word at `word_index` and the count
/// at `count_index`, or the error for a missing field or a bad count.
pub open spec fn record_entry(
    fields: Seq<Seq<char>>,
    word_index: nat,
    count_index: nat,
    index_error: BuildError,
) -> Result<(Seq<char>, i32), BuildError> {
    if word_index >= fields.len() || count_index >= fields.len() {
        Err(index_error)
    } else {
        match parsed_i32(fields[count_index as int]) {
            Some(c) => Ok((fields[word_index as int], c)),
            None => Err(BuildError::ParseCountError),
        }
    }
}

/// The entries of all records in order, or the error of the first bad record.
pub open spec fn records_entries(
    records: Seq<Seq<Seq<char>>>,
    word_index: nat,
    count_index: nat,
    index_error: BuildError,
) -> Result<Seq<(Seq<char>, i32)>, BuildError>
    decreases records.len(),
{
    if records.len() == 0 {
        Ok(Seq::empty())
    } else {
        match records_entries(records.drop_last(), word_index, count_index, index_error) {
            Err(e) => Err(e),
            Ok(prefix) => match record_entry(records.last(), word_index, count_index, index_error) {
                Err(e) => Err(e),
                Ok(entry) => Ok(prefix.push(entry)),
            },
        }
    }
}

/// A loader's result agrees with the entries that `expected` describes: the
/// same mapping, one entry per word, or the same error.
pub open spec fn loaded_as(
    r: Result<Vec<(String, i32)>, BuildError>,
    expected: Result<Seq<(Seq<char>, i32)>, BuildError>,
) -> bool {
    match (r, expected) {
        (Ok(e), Ok(x)) => unique_words(entries_view(e@)) && to_map(entries_view(e@)) == to_map(x),
        (Err(a), Err(b)) => a == b,
        _ => false,
    }
}

pub open spec fn lines_records(lines: Seq<String>, d: char) -> Seq<Seq<Seq<char>>> {
    lines.map_values(|l: String| split_fields(l@, d))
}

/// Loads `word count` lines: fields split at a single delimiter character.
pub struct TextWordLoader {
    pub word_index: usize,
    pub count_index: usize,
    pub delimiter: u8,
    pub has_headers: bool,
}

impl TextWordLoader {
    /// Word in field 0, count in field 1, fields separated by a space.
    pub fn new() -> (r: TextWordLoader)
        ensures
            r.word_index == 0 && r.count_index == 1 && r.delimiter == 32 && !r.has_headers,
    {
        TextWordLoader { word_index: 0, count_index: 1, delimiter: 32, has_headers: false }
    }

    pub fn with_word_index(self, index: usize) -> (r: TextWordLoader)
        ensures
            r == (TextWordLoader { word_index: index, ..self }),
    {
        TextWordLoader { word_index: index, ..self }
    }

    pub fn with_count_index(self, index: usize) -> (r: TextWordLoader)
        ensures
            r == (TextWordLoader { count_index: index, ..self }),
    {
        TextWordLoader { count_index: index, ..self }
    }

    pub fn with_delimiter(self, delimiter: u8) -> (r: TextWordLoader)
        ensures
            r == (TextWordLoader { delimiter, ..self }),
    {
        TextWordLoader { delimiter, ..self }
    }

    /// Recorded for symmetry with the CSV loader; text lines are never skipped.
    pub fn with_headers(self, has_headers: bool) -> (r: TextWordLoader)
        ensures
            r == (TextWordLoader { has_headers, ..self }),
    {
        TextWordLoader { has_headers, ..self }
    }

    /// The entries of `lines` (each line one record), or the first error.
    pub fn load_words(&self, lines: &Vec<String>) -> (r: Result<Vec<(String, i32)>, BuildError>)
        ensures
            loaded_as(
                r,
                records_entries(
                    lines_records(lines@, self.delimiter as char),
                    self.word_index as nat,
                    self.count_index as nat,
                    BuildError::TXTIndexError,
                ),
            ),
    {
        let d = self.delimiter as char;
        let ghost recs = lines_records(lines@, d);
        let ghost wi = self.word_index as nat;
        let ghost ci = self.count_index as nat;
        let mut entries: Vec<(String, i32)> = Vec::new();
        let mut i: usize = 0;
        proof {
            assert(recs.subrange(0, 0) =~= Seq::<Seq<Seq<char>>>::empty());
            assert(entries_view(entries@) =~= Seq::<(Seq<char>, i32)>::empty());
        }
        while i < lines.len()
            invariant
                i <= lines.len(),
                recs == lines_records(lines@, d),
                wi == self.word_index,
                ci == self.count_index,
                d == self.delimiter as char,
                records_entries(recs.subrange(0, i as int), wi, ci, BuildError::TXTIndexError)
                    == Ok::<Seq<(Seq<char>, i32)>, BuildError>(entries_view(entries@)),
            decreases lines.len() - i,
        {
            let line = lines[i].as_str();
            let ghost pre = recs.subrange(0, i as int);
            let ghost fields = split_fields(line@, d);
            proof {
                assert(recs.subrange(0, i + 1).drop_last() =~= pre);
                assert(recs.subrange(0, i + 1).last() == fields);
            }
            let word = match nth_field(line, d, self.word_index) {
                Some(w) => w,
                None => {
                    proof {
                        assert(record_entry(fields, wi, ci, BuildError::TXTIndexError) is Err);
                        assert(records_entries(recs.subrange(0, i + 1), wi, ci, BuildError::TXTIndexError)
                            == Err::<Seq<(Seq<char>, i32)>, BuildError>(record_entry(fields, wi, ci, BuildError::TXTIndexError)->Err_0));
                        lemma_records_error_sticks(recs, i + 1, wi, ci, BuildError::TXTIndexError);
                    }
                    return Err(BuildError::TXTIndexError);
                },
            };
            let count_text = match nth_field(line, d, self.count_index) {
                Some(c) => c,
                None => {
                    proof {
                        assert(record_entry(fields, wi, ci, BuildError::TXTIndexError) is Err);
                        assert(records_entries(recs.subrange(0, i + 1), wi, ci, BuildError::TXTIndexError)
                            == Err::<Seq<(Seq<char>, i32)>, BuildError>(record_entry(fields, wi, ci, BuildError::TXTIndexError)->Err_0));
                        lemma_records_error_sticks(recs, i + 1, wi, ci, BuildError::TXTIndexError);
                    }
                    return Err(BuildError::TXTIndexError);
                },
            };
            let count = match parse_i32(count_text.as_str()) {
                Some(c) => c,
                None => {
                    proof {
                        assert(record_entry(fields, wi, ci, BuildError::TXTIndexError) is Err);
                        assert(records_entries(recs.subrange(0, i + 1), wi, ci, BuildError::TXTIndexError)
                            == Err::<Seq<(Seq<char>, i32)>, BuildError>(record_entry(fields, wi, ci, BuildError::TXTIndexError)->Err_0));
                        lemma_records_error_sticks(recs, i + 1, wi, ci, BuildError::TXTIndexError);
                    }
                    return Err(BuildError::ParseCountError);
                },
            };
            let ghost before = entries_view(entries@);
            entries.push((word, count));
            proof {
                assert(entries_view(entries@) =~= before.push((fields[wi as int], count)));
            }
            i += 1;
        }
        proof {
            assert(recs.subrange(0, lines.len() as int) =~= recs);
        }
        Ok(collect_entries(entries))
    }
}

/// Once a record fails, every longer run of records fails the same way.
proof fn lemma_records_error_sticks(
    records: Seq<Seq<Seq<char>>>,
    i: int,
    word_index: nat,
    count_index: nat,
    index_error: BuildError,
)
    requires
        0 <= i <= records.len(),
        records_entries(records.subrange(0, i), word_index, count_index, index_error) is Err,
    ensures
        records_entries(records, word_index, count_index, index_error) == records_entries(
            records.subrange(0, i),
            word_index,
            count_index,
            index_error,
        ),
    decreases records.len() - i,
{
    if i < records.len() {
        let t = records.subrange(0, i + 1);
        assert(t.drop_last() =~= records.subrange(0, i));
        lemma_records_error_sticks(records, i + 1, word_index, count_index, index_error);
    } else {
        assert(records.subrange(0, i) =~= records);
    }
}

pub open spec fn rows_view(rows: Seq<Vec<String>>) -> Seq<Seq<Seq<char>>> {
    rows.map_values(|row: Vec<String>| row@.map_values(|f: String| f@))
}

/// What the `csv` crate reads from `bytes`: the records before the first
/// error, and that error's message if there is one.
pub uninterp spec fn csv_read(bytes: Seq<u8>, delimiter: u8, has_headers: bool) -> (
    Seq<Seq<Seq<char>>>,
    Option<Seq<char>>,
);

/// Relies on `csv::ReaderBuilder` (`has_headers`, `delimiter`, `from_reader`) and
/// `Reader::records`: the fields of each record read before the first error.
#[verifier::external_body]
fn read_csv(bytes: &[u8], delimiter: u8, has_headers: bool) -> (r: (
    Vec<Vec<String>>,
    Option<String>,
))
    ensures
        rows_view(r.0@) == csv_read(bytes@, delimiter, has_headers).0,
        match r.1 {
            Some(m) => csv_read(bytes@, delimiter, has_headers).1 == Some(m@),
            None => csv_read(bytes@, delimiter, has_headers).1 is None,
        },
{
    let mut reader = csv::ReaderBuilder::new().has_headers(has_headers).delimiter(delimiter)
        .from_reader(bytes);
    let mut rows = Vec::new();
    for result in reader.records() {
        match result {
            Ok(record) => rows.push(record.iter().map(|f| f.to_owned()).collect()),
            Err(e) => return (rows, Some(e.to_string())),
        }
    }
    (rows, None)
}

/// Loads delimited records (comma-separated by default) with the `csv` crate.
pub struct CsvWordLoader {
    pub word_index: usize,
    pub count_index: usize,
    pub delimiter: u8,
    pub has_headers: bool,
}

impl CsvWordLoader {
    /// Word in column 0, count in column 1, comma-separated, no header row.
    pub fn new() -> (r: CsvWordLoader)
        ensures
            r.word_index == 0 && r.count_index == 1 && r.delimiter == 44 && !r.has_headers,
    {
        CsvWordLoader { word_index: 0, count_index: 1, delimiter: 44, has_headers: false }
    }

    pub fn with_word_index(self, index: usize) -> (r: CsvWordLoader)
        ensures
            r == (CsvWordLoader { word_index: index, ..self }),
    {
        CsvWordLoader { word_index: index, ..self }
    }

    pub fn with_count_index(self, index: usize) -> (r: CsvWordLoader)
        ensures
            r == (CsvWordLoader { count_index: index, ..self }),
    {
        CsvWordLoader { count_index: index, ..self }
    }

    pub fn with_delimiter(self, delimiter: u8) -> (r: CsvWordLoader)
        ensures
            r == (CsvWordLoader { delimiter, ..self }),
    {
        CsvWordLoader { delimiter, ..self }
    }

    /// Whether the first record is a header row, to be skipped.
    pub fn with_headers(self, has_headers: bool) -> (r: CsvWordLoader)
        ensures
            r == (CsvWordLoader { has_headers, ..self }),
    {
        CsvWordLoader { has_headers, ..self }
    }

    /// The entries of the records in `bytes`, or the first error: a bad record
    /// met before a malformed one reports its own error.
    pub fn load_words(&self, bytes: &[u8]) -> (r: Result<Vec<(String, i32)>, BuildError>)
        ensures
            ({
                let read = csv_read(bytes@, self.delimiter, self.has_headers);
                let expected = records_entries(
                    read.0,
                    self.word_index as nat,
                    self.count_index as nat,
                    BuildError::CSVIndexError,
                );
                if expected is Ok && read.1 is Some {
                    r matches Err(BuildError::CSVError(m)) && read.1 == Some(m@)
                } else {
                    loaded_as(r, expected)
                }
            }),
    {
        let (rows, failure) = read_csv(bytes, self.delimiter, self.has_headers);
        let ghost recs = rows_view(rows@);
        let ghost wi = self.word_index as nat;
        let ghost ci = self.count_index as nat;
        let mut entries: Vec<(String, i32)> = Vec::new();
        let mut i: usize = 0;
        proof {
            assert(recs.subrange(0, 0) =~= Seq::<Seq<Seq<char>>>::empty());
            assert(entries_view(entries@) =~= Seq::<(Seq<char>, i32)>::empty());
        }
        while i < rows.len()
            invariant
                i <= rows.len(),
                recs == rows_view(rows@),
                recs == csv_read(bytes@, self.delimiter, self.has_headers).0,
                wi == self.word_index,
                ci == self.count_index,
                records_entries(recs.subrange(0, i as int), wi, ci, BuildError::CSVIndexError)
                    == Ok::<Seq<(Seq<char>, i32)>, BuildError>(entries_view(entries@)),
            decreases rows.len() - i,
        {
            let row = &rows[i];
            let ghost fields = recs[i as int];
            proof {
                assert(recs.subrange(0, i + 1).drop_last() =~= recs.subrange(0, i as int));
                assert(recs.subrange(0, i + 1).last() == fields);
                assert(fields.len() == row.len());
            }
            if self.word_index >= row.len() || self.count_index >= row.len() {
                proof {
                    assert(records_entries(recs.subrange(0, i + 1), wi, ci, BuildError::CSVIndexError)
                        == Err::<Seq<(Seq<char>, i32)>, BuildError>(BuildError::CSVIndexError));
                    lemma_records_error_sticks(recs, i + 1, wi, ci, BuildError::CSVIndexError);
                }
                return Err(BuildError::CSVIndexError);
            }
            let word = row[self.word_index].clone();
            let count = match parse_i32(row[self.count_index].as_str()) {
                Some(c) => c,
                None => {
                    proof {
                        assert(records_entries(recs.subrange(0, i + 1), wi, ci, BuildError::CSVIndexError)
                            == Err::<Seq<(Seq<char>, i32)>, BuildError>(BuildError::ParseCountError));
                        lemma_records_error_sticks(recs, i + 1, wi, ci, BuildError::CSVIndexError);
                    }
                    return Err(BuildError::ParseCountError);
                },
            };
            let ghost before = entries_view(entries@);
            entries.push((word, count));
            proof {
                assert(entries_view(entries@) =~= before.push((fields[wi as int], count)));
            }
            i += 1;
        }
        proof {
            assert(recs.subrange(0, rows.len() as int) =~= recs);
        }
        match failure {
            Some(m) => Err(BuildError::CSVError(m)),
            None => Ok(collect_entries(entries)),
        }
    }
}

/// What `serde_json` reads from `bytes` as an object from words to `i32`
/// counts, if it is one.
pub uninterp spec fn json_words(bytes: Seq<u8>) -> Option<Map<Seq<char>, i32>>;

/// Relies on `serde_json::from_slice` into a `HashMap<String, i32>`: the entries
/// of the object (in the map's arbitrary order), or the error's message.
#[verifier::external_body]
fn read_json(bytes: &[u8]) -> (r: Result<Vec<(String, i32)>, String>)
    ensures
        match r {
            Ok(e) => unique_words(entries_view(e@)) && json_words(bytes@) == Some(
                to_map(entries_view(e@)),
            ),
            Err(_) => json_words(bytes@) is None,
        },
{
    match serde_json::from_slice::<std::collections::HashMap<String, i32>>(bytes) {
        Ok(m) => Ok(m.into_iter().collect()),
        Err(e) => Err(e.to_string()),
    }
}

/// Loads a JSON object from words to counts.
pub struct JsonWordLoader {}

impl JsonWordLoader {
    pub fn new() -> (r: JsonWordLoader) {
        JsonWordLoader {  }
    }

    /// The entries of the object in `bytes`, one per word.
    pub fn load_words(&self, bytes: &[u8]) -> (r: Result<Vec<(String, i32)>, BuildError>)
        ensures
            match r {
                Ok(e) => unique_words(entries_view(e@)) && json_words(bytes@) == Some(
                    to_map(entries_view(e@)),
                ),
                Err(err) => err is JsonError && json_words(bytes@) is None,
            },
    {
        match read_json(bytes) {
            Ok(entries) => Ok(entries),
            Err(m) => Err(BuildError::JsonError(m)),
        }
    }
}

} // verus!
