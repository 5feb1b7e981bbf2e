//! Importing a poll from a table of comma-separated values.
//!
//! The first row is the header. Its first two fields and its last one are not
//! about candidates; each field between names a candidate in square brackets.
//! Every other row is one voter: a field that is skipped, the voter's name, one
//! rank for each candidate in header order, and a last field that is skipped.

use crate::ballots::{well_formed, Ballot, Name};
use crate::candidate::Candidate;
use crate::error::PollError;
use crate::number::{extract_number, number_in};
use crate::voter::Voter;
use std::rc::Rc;
use vstd::prelude::*;

verus! {

/// The error type of the `csv` crate.
#[verifier::external_type_specification]
#[verifier::external_body]
pub struct ExCsvError(csv::Error);

/// What `csv::Reader::headers` reads from `data` with the default settings: the
/// fields of the first row, or nothing where it reports an error.
pub uninterp spec fn csv_header(data: Seq<u8>) -> Option<Seq<Seq<char>>>;

/// What `csv::Reader::records` reads from `data` with the default settings: the
/// fields of every row after the first, or nothing where a row gives an error.
pub uninterp spec fn csv_records(data: Seq<u8>) -> Option<Seq<Seq<Seq<char>>>>;

/// `csv::Reader::headers` on a reader made by `csv::Reader::from_reader`. The
/// contract only names what comes back: the same bytes give the same fields, or
/// an error each time.
#[verifier::external_body]
fn read_header(data: &[u8]) -> (header: Result<Vec<String>, csv::Error>)
    ensures
        match header {
            Ok(fields) => csv_header(data@) == Some(fields.deep_view()),
            Err(_) => csv_header(data@) is None,
        },
{
    let mut reader = csv::Reader::from_reader(data);
    let header = reader.headers()?;
    Ok(header.iter().map(|field| field.to_owned()).collect())
}

/// `csv::Reader::records` on a reader made by `csv::Reader::from_reader`, up to
/// the first error. The contract only names what comes back: the same bytes
/// give the same rows, or an error each time.
#[verifier::external_body]
fn read_records(data: &[u8]) -> (records: Result<Vec<Vec<String>>, csv::Error>)
    ensures
        match records {
            Ok(rows) => csv_records(data@) == Some(rows.deep_view()),
            Err(_) => csv_records(data@) is None,
        },
{
    let mut reader = csv::Reader::from_reader(data);
    let mut rows = Vec::new();
    for record in reader.records() {
        rows.push(record?.iter().map(|field| field.to_owned()).collect());
    }
    Ok(rows)
}

/// Whether `c` is a square bracket.
pub open spec fn is_bracket(c: char) -> bool {
    c == '[' || c == ']'
}

/// Whether the first square bracket of `text` at or after `from` is at `at`.
pub open spec fn first_bracket_at(text: Seq<char>, from: int, at: int) -> bool {
    &&& from <= at < text.len()
    &&& is_bracket(text[at])
    &&& forall|j: int| from <= j < at ==> !is_bracket(#[trigger] text[j])
}

/// Where the first square bracket of `text` at or after `from` is; the length
/// of the text where there is none.
pub open spec fn next_bracket(text: Seq<char>, from: int) -> int {
    if exists|at: int| first_bracket_at(text, from, at) {
        choose|at: int| first_bracket_at(text, from, at)
    } else {
        text.len() as int
    }
}

/// The name that a header field gives in brackets: what stands between its
/// first square bracket and the next one, or the end of the field. A field
/// without a square bracket names nobody.
pub open spec fn bracketed(text: Seq<char>) -> Option<Name> {
    let open = next_bracket(text, 0);
    if open >= text.len() {
        None
    } else {
        Some(text.subrange(open + 1, next_bracket(text, open + 1)))
    }
}

/// The fields of a row that are about candidates: all but the first two and
/// the last.
pub open spec fn rank_columns(row: Seq<Seq<char>>) -> Seq<Seq<char>> {
    if row.len() >= 3 {
        row.subrange(2, row.len() - 1)
    } else {
        Seq::empty()
    }
}

/// The names of a sequence of candidates, in the same order.
pub open spec fn listed(candidates: Seq<Candidate>) -> Seq<Name> {
    Seq::new(candidates.len(), |k: int| candidates[k]@)
}

/// The candidates that a header names, in column order. The header is refused
/// where it has fewer than two fields, where a candidate column names nobody,
/// and where two columns name the same candidate.
pub open spec fn header_names(header: Seq<Seq<char>>) -> Result<Seq<Name>, PollError> {
    let columns = rank_columns(header);
    let names = Seq::new(columns.len(), |k: int| bracketed(columns[k]).unwrap());
    if header.len() >= 2 && (forall|k: int|
        0 <= k < columns.len() ==> bracketed(#[trigger] columns[k]) is Some)
        && names.no_duplicates() {
        Ok(names)
    } else {
        Err(PollError::HeaderFormat)
    }
}

/// Whether the rank that `row` gives the candidate of column `column` is `score`.
pub open spec fn gives_rank(row: Seq<Seq<char>>, column: int, score: int) -> bool {
    &&& 0 <= column < rank_columns(row).len()
    &&& number_in(rank_columns(row)[column]) == Some(score as i32)
    &&& i32::MIN <= score <= i32::MAX
}

/// Whether `column` is the first column of `row` that gives the rank `score`.
pub open spec fn first_with_rank(row: Seq<Seq<char>>, column: int, score: int) -> bool {
    &&& gives_rank(row, column, score)
    &&& forall|j: int| 0 <= j < column ==> !#[trigger] gives_rank(row, j, score)
}

/// Whether some column of `row` gives the rank `score`.
pub open spec fn has_rank(row: Seq<Seq<char>>, score: int) -> bool {
    exists|column: int| gives_rank(row, column, score)
}

/// The first column of `row` that gives the rank `score`.
pub open spec fn column_ranked(row: Seq<Seq<char>>, score: int) -> int {
    choose|column: int| first_with_rank(row, column, score)
}

/// Whether `row` is a valid ballot over `count` candidates: it has the voter's
/// fields and one field for each candidate, every such field holds a number,
/// and every rank from one to `count` is given.
pub open spec fn valid_row(row: Seq<Seq<char>>, count: int) -> bool {
    &&& row.len() >= 3
    &&& rank_columns(row).len() == count
    &&& forall|k: int| 0 <= k < count ==> number_in(#[trigger] rank_columns(row)[k]) is Some
    &&& forall|score: int| 1 <= score <= count ==> #[trigger] has_rank(row, score)
}

/// The ballot that a valid row casts over the candidates `names`: first the
/// candidate ranked one, then the candidate ranked two, and so on.
pub open spec fn row_ballot(names: Seq<Name>, row: Seq<Seq<char>>) -> Ballot {
    Seq::new(names.len(), |r: int| names[column_ranked(row, r + 1)])
}

/// A voter in the model: the name and the ballot.
pub struct Cast {
    pub name: Seq<char>,
    pub ballot: Ballot,
}

/// The voters that a list of voters stands for, in the same order.
pub open spec fn casts_of(voters: Seq<Voter>) -> Seq<Cast> {
    Seq::new(voters.len(), |v: int| Cast { name: voters[v].name@, ballot: voters[v].ballot() })
}

/// The voters that the rows cast over the candidates `names`, or the refusal of
/// the rows where one of them is no valid ballot.
pub open spec fn imported(names: Seq<Name>, rows: Seq<Seq<Seq<char>>>) -> Result<
    Seq<Cast>,
    PollError,
> {
    if forall|v: int| 0 <= v < rows.len() ==> valid_row(#[trigger] rows[v], names.len() as int) {
        Ok(Seq::new(rows.len(), |v: int| Cast { name: rows[v][1], ballot: row_ballot(names, rows[v]) }))
    } else {
        Err(PollError::InvalidBallot)
    }
}

/// The poll that a header and rows hold.
pub open spec fn poll_in(header: Seq<Seq<char>>, rows: Seq<Seq<Seq<char>>>) -> Result<
    Seq<Cast>,
    PollError,
> {
    match header_names(header) {
        Ok(names) => imported(names, rows),
        Err(error) => Err(error),
    }
}

/// The poll that a table of comma-separated values holds, given what the `csv`
/// crate reads as its header and as its rows. The header is read and judged
/// before the rows are.
pub open spec fn poll_read(
    header: Option<Seq<Seq<char>>>,
    rows: Option<Seq<Seq<Seq<char>>>>,
) -> Result<Seq<Cast>, PollError> {
    match header {
        None => Err(PollError::Unreadable),
        Some(fields) => match header_names(fields) {
            Err(error) => Err(error),
            Ok(names) => match rows {
                None => Err(PollError::Unreadable),
                Some(rows) => imported(names, rows),
            },
        },
    }
}

/// What an import gave, in the model.
pub open spec fn import_of(outcome: Result<Vec<Voter>, PollError>) -> Result<Seq<Cast>, PollError> {
    match outcome {
        Ok(voters) => Ok(casts_of(voters@)),
        Err(error) => Err(error),
    }
}

/// There is at most one first bracket.
proof fn lemma_first_bracket(text: Seq<char>, from: int, at: int)
    requires
        first_bracket_at(text, from, at) || (at == text.len() && forall|j: int|
            from <= j < text.len() ==> !is_bracket(#[trigger] text[j])),
    ensures
        next_bracket(text, from) == at,
{
    if first_bracket_at(text, from, at) {
        let other = next_bracket(text, from);
        assert(first_bracket_at(text, from, other));
        if other < at {
            assert(!is_bracket(text[other]));
        }
        if at < other {
            assert(!is_bracket(text[at]));
        }
    } else {
        if exists|at: int| first_bracket_at(text, from, at) {
            let other = choose|at: int| first_bracket_at(text, from, at);
            assert(!is_bracket(text[other]));
        }
    }
}

/// Where the first square bracket of `text` at or after `from` is.
fn find_bracket(text: &str, from: usize, length: usize) -> (at: usize)
    requires
        length == text@.len(),
        from <= length,
    ensures
        at == next_bracket(text@, from as int),
        from <= at <= length,
{
    let mut at = from;
    while at < length
        invariant
            from <= at <= length,
            length == text@.len(),
            forall|j: int| from <= j < at ==> !is_bracket(#[trigger] text@[j]),
        decreases length - at,
    {
        let c = text.get_char(at);
        if c == '[' || c == ']' {
            proof {
                lemma_first_bracket(text@, from as int, at as int);
            }
            return at;
        }
        at += 1;
    }
    proof {
        lemma_first_bracket(text@, from as int, at as int);
    }
    at
}

/// The candidate that a header field names in brackets, if it names one.
fn candidate_in(field: &str) -> (candidate: Option<Candidate>)
    ensures
        match candidate {
            Some(c) => bracketed(field@) == Some(c@),
            None => bracketed(field@) is None,
        },
{
    let length = field.unicode_len();
    let open = find_bracket(field, 0, length);
    if open >= length {
        None
    } else {
        let close = find_bracket(field, open + 1, length);
        Some(Candidate::new(field.substring_char(open + 1, close)))
    }
}

/// Whether `candidates` already holds a candidate called like `candidate`.
fn holds(candidates: &Vec<Candidate>, candidate: &Candidate) -> (found: bool)
    ensures
        found == listed(candidates@).contains(candidate@),
{
    let mut k: usize = 0;
    while k < candidates.len()
        invariant
            k <= candidates@.len(),
            forall|j: int| 0 <= j < k ==> listed(candidates@)[j] != candidate@,
        decreases candidates@.len() - k,
    {
        if candidates[k] == *candidate {
            proof {
                assert(listed(candidates@)[k as int] == candidate@);
            }
            return true;
        }
        k += 1;
    }
    false
}

/// Reads the candidates from the header row.
pub fn candidates_from_header(header: &Vec<String>) -> (outcome: Result<Vec<Candidate>, PollError>)
    ensures
        match outcome {
            Ok(candidates) => header_names(header.deep_view()) == Ok::<Seq<Name>, PollError>(
                listed(candidates@),
            ),
            Err(error) => header_names(header.deep_view()) == Err::<Seq<Name>, PollError>(error),
        },
{
    let ghost fields = header.deep_view();
    let ghost columns = rank_columns(fields);
    let ghost names = Seq::new(columns.len(), |k: int| bracketed(columns[k]).unwrap());
    let mut candidates: Vec<Candidate> = Vec::new();
    if header.len() < 2 {
        return Err(PollError::HeaderFormat);
    }
    if header.len() == 2 {
        proof {
            assert(listed(candidates@) =~= names);
        }
        return Ok(candidates);
    }
    let end = header.len() - 1;
    let mut k: usize = 2;
    while k < end
        invariant
            2 <= k <= end,
            end == header@.len() - 1,
            fields == header.deep_view(),
            columns == rank_columns(fields),
            columns.len() == end - 2,
            names == Seq::new(columns.len(), |k: int| bracketed(columns[k]).unwrap()),
            candidates@.len() == k - 2,
            forall|j: int| 0 <= j < k - 2 ==> bracketed(#[trigger] columns[j]) is Some,
            forall|j: int| 0 <= j < k - 2 ==> #[trigger] listed(candidates@)[j] == names[j],
            listed(candidates@).no_duplicates(),
        decreases end - k,
    {
        let ghost before = listed(candidates@);
        proof {
            assert(columns[k - 2] == header@[k as int]@);
        }
        match candidate_in(header[k].as_str()) {
            None => {
                return Err(PollError::HeaderFormat);
            },
            Some(candidate) => {
                if holds(&candidates, &candidate) {
                    proof {
                        let j = choose|j: int| 0 <= j < before.len() && before[j] == candidate@;
                        assert(names[j] == names[k - 2]);
                    }
                    return Err(PollError::HeaderFormat);
                }
                candidates.push(candidate);
                proof {
                    let after = listed(candidates@);
                    assert(after =~= before.push(candidate@));
                    assert forall|i: int, j: int|
                        0 <= i < after.len() && 0 <= j < after.len() && i != j implies after[i]
                        != after[j] by {
                        if i < before.len() && j < before.len() {
                            assert(before[i] != before[j]);
                        } else if i < before.len() {
                            assert(before.contains(before[i]));
                        } else if j < before.len() {
                            assert(before.contains(before[j]));
                        }
                    }
                }
            },
        }
        k += 1;
    }
    proof {
        assert(listed(candidates@) =~= names);
    }
    Ok(candidates)
}

/// There is at most one first column with a given rank.
proof fn lemma_column_ranked(row: Seq<Seq<char>>, column: int, score: int)
    requires
        first_with_rank(row, column, score),
    ensures
        column_ranked(row, score) == column,
{
    let other = column_ranked(row, score);
    assert(first_with_rank(row, other, score));
    if other < column {
        assert(!gives_rank(row, other, score));
    }
    if column < other {
        assert(!gives_rank(row, column, score));
    }
}

/// The ranks that a row gives the candidates, column by column, if every one of
/// its candidate fields holds a number and there are `count` of them.
fn ranks_in(record: &Vec<String>, count: usize) -> (ranks: Option<Vec<i32>>)
    ensures
        match ranks {
            Some(ranks) => {
                &&& record@.len() >= 3
                &&& rank_columns(record.deep_view()).len() == count
                &&& ranks@.len() == count
                &&& forall|k: int|
                    0 <= k < count ==> number_in(#[trigger] rank_columns(record.deep_view())[k])
                        == Some(ranks@[k])
            },
            None => !valid_row(record.deep_view(), count as int),
        },
{
    let ghost row = record.deep_view();
    let ghost columns = rank_columns(row);
    if record.len() < 3 {
        return None;
    }
    if record.len() - 3 != count {
        return None;
    }
    let mut ranks: Vec<i32> = Vec::new();
    let mut k: usize = 0;
    while k < count
        invariant
            k <= count,
            record@.len() == count + 3,
            count + 3 <= usize::MAX,
            row == record.deep_view(),
            columns == rank_columns(row),
            columns.len() == count,
            ranks@.len() == k,
            forall|j: int| 0 <= j < k ==> number_in(#[trigger] columns[j]) == Some(ranks@[j]),
        decreases count - k,
    {
        proof {
            assert(columns[k as int] == record@[k + 2]@);
        }
        match extract_number(record[k + 2].as_str()) {
            Some(rank) => {
                ranks.push(rank);
            },
            None => {
                return None;
            },
        }
        k += 1;
    }
    Some(ranks)
}

/// The first column whose rank is `score`, if a column has it.
fn column_with(ranks: &Vec<i32>, score: usize) -> (column: Option<usize>)
    ensures
        match column {
            Some(i) => i < ranks@.len() && ranks@[i as int] == score && forall|j: int|
                0 <= j < i ==> ranks@[j] != score,
            None => forall|j: int| 0 <= j < ranks@.len() ==> ranks@[j] != score,
        },
{
    let mut i: usize = 0;
    while i < ranks.len()
        invariant
            i <= ranks@.len(),
            forall|j: int| 0 <= j < i ==> ranks@[j] != score,
        decreases ranks@.len() - i,
    {
        if ranks[i] >= 0 && ranks[i] as usize == score {
            return Some(i);
        }
        i += 1;
    }
    None
}

/// The ballot that a row casts over `candidates`, if the row is a valid ballot.
fn ballot_from(candidates: &Vec<Candidate>, record: &Vec<String>) -> (ballot: Option<
    Vec<Rc<Candidate>>,
>)
    ensures
        match ballot {
            Some(votes) => valid_row(record.deep_view(), candidates@.len() as int)
                && crate::voter::names_of(votes@) == row_ballot(
                listed(candidates@),
                record.deep_view(),
            ),
            None => !valid_row(record.deep_view(), candidates@.len() as int),
        },
{
    let ghost row = record.deep_view();
    let ghost names = listed(candidates@);
    let count = candidates.len();
    let ranks = match ranks_in(record, count) {
        Some(ranks) => ranks,
        None => {
            return None;
        },
    };
    let mut votes: Vec<Rc<Candidate>> = Vec::new();
    let mut score: usize = 1;
    while score <= count
        invariant
            1 <= score <= count + 1,
            count == candidates@.len(),
            row == record.deep_view(),
            names == listed(candidates@),
            record@.len() >= 3,
            rank_columns(row).len() == count,
            ranks@.len() == count,
            forall|k: int|
                0 <= k < count ==> number_in(#[trigger] rank_columns(row)[k]) == Some(ranks@[k]),
            votes@.len() == score - 1,
            forall|s: int| 1 <= s < score ==> #[trigger] has_rank(row, s),
            forall|r: int|
                0 <= r < score - 1 ==> (#[trigger] votes@[r])@ == names[column_ranked(row, r + 1)],
        decreases count + 1 - score,
    {
        match column_with(&ranks, score) {
            Some(column) => {
                proof {
                    assert(gives_rank(row, column as int, score as int));
                    assert forall|j: int| 0 <= j < column implies !#[trigger] gives_rank(
                        row,
                        j,
                        score as int,
                    ) by {
                        assert(number_in(rank_columns(row)[j]) == Some(ranks@[j]));
                    }
                    lemma_column_ranked(row, column as int, score as int);
                }
                votes.push(Rc::new(candidates[column].clone()));
            },
            None => {
                proof {
                    assert forall|j: int| !gives_rank(row, j, score as int) by {
                        if 0 <= j < count {
                            assert(number_in(rank_columns(row)[j]) == Some(ranks@[j]));
                        }
                    }
                    assert(!has_rank(row, score as int));
                }
                return None;
            },
        }
        score += 1;
    }
    proof {
        assert(crate::voter::names_of(votes@) =~= row_ballot(names, row));
    }
    Some(votes)
}

/// Reads one voter from each row: the name from the second field, the ballot
/// from the ranks that the row gives the candidates. The rows are refused
/// where one of them is no valid ballot.
pub fn voters_from_records(candidates: &Vec<Candidate>, records: &Vec<Vec<String>>) -> (outcome:
    Result<Vec<Voter>, PollError>)
    ensures
        import_of(outcome) == imported(listed(candidates@), records.deep_view()),
{
    let ghost names = listed(candidates@);
    let ghost rows = records.deep_view();
    let mut voters: Vec<Voter> = Vec::new();
    let mut v: usize = 0;
    while v < records.len()
        invariant
            v <= records@.len(),
            names == listed(candidates@),
            rows == records.deep_view(),
            voters@.len() == v,
            forall|j: int| 0 <= j < v ==> valid_row(#[trigger] rows[j], names.len() as int),
            forall|j: int|
                0 <= j < v ==> (#[trigger] voters@[j]).name@ == rows[j][1] && voters@[j].ballot()
                    == row_ballot(names, rows[j]),
        decreases records@.len() - v,
    {
        let record = &records[v];
        proof {
            assert(rows[v as int] == record.deep_view());
        }
        match ballot_from(candidates, record) {
            Some(votes) => {
                proof {
                    assert(record.deep_view()[1] == record@[1]@);
                }
                voters.push(Voter::new(record[1].clone(), votes));
            },
            None => {
                return Err(PollError::InvalidBallot);
            },
        }
        v += 1;
    }
    proof {
        assert(casts_of(voters@) =~= imported(names, rows).unwrap());
    }
    Ok(voters)
}

/// Reads a poll from a header row and the rows of the voters.
pub fn poll_from_table(header: &Vec<String>, records: &Vec<Vec<String>>) -> (outcome: Result<
    Vec<Voter>,
    PollError,
>)
    ensures
        import_of(outcome) == poll_in(header.deep_view(), records.deep_view()),
{
    match candidates_from_header(header) {
        Ok(candidates) => voters_from_records(&candidates, records),
        Err(error) => Err(error),
    }
}

/// Imports a poll from the bytes of a table of comma-separated values, read
/// with the `csv` crate. The header is read and judged first, then the rows.
pub fn import_csv_poll(data: &[u8]) -> (outcome: Result<Vec<Voter>, PollError>)
    ensures
        import_of(outcome) == poll_read(csv_header(data@), csv_records(data@)),
{
    let header = match read_header(data) {
        Ok(header) => header,
        Err(_) => {
            return Err(PollError::Unreadable);
        },
    };
    let candidates = match candidates_from_header(&header) {
        Ok(candidates) => candidates,
        Err(error) => {
            return Err(error);
        },
    };
    let records = match read_records(data) {
        Ok(records) => records,
        Err(_) => {
            return Err(PollError::Unreadable);
        },
    };
    voters_from_records(&candidates, &records)
}

/// Every ballot that an import gives is well formed: it ranks every candidate
/// of the header, and none twice.
pub proof fn lemma_imported_well_formed(names: Seq<Name>, rows: Seq<Seq<Seq<char>>>, v: int)
    requires
        names.no_duplicates(),
        imported(names, rows) is Ok,
        0 <= v < rows.len(),
    ensures
        well_formed(imported(names, rows).unwrap()[v].ballot),
        imported(names, rows).unwrap()[v].ballot.len() == names.len(),
{
    let row = rows[v];
    let ballot = row_ballot(names, row);
    assert(valid_row(row, names.len() as int));
    assert forall|r: int, q: int|
        0 <= r < ballot.len() && 0 <= q < ballot.len() && r != q implies ballot[r] != ballot[q] by {
        assert(has_rank(row, r + 1));
        assert(has_rank(row, q + 1));
        lemma_has_first(row, r + 1);
        lemma_has_first(row, q + 1);
        let a = column_ranked(row, r + 1);
        let b = column_ranked(row, q + 1);
        assert(first_with_rank(row, a, r + 1));
        assert(first_with_rank(row, b, q + 1));
        assert(a != b);
    }
}

/// Where a column gives a rank, some column is the first to give it.
proof fn lemma_has_first(row: Seq<Seq<char>>, score: int)
    requires
        has_rank(row, score),
    ensures
        first_with_rank(row, column_ranked(row, score), score),
{
    let some = choose|column: int| gives_rank(row, column, score);
    lemma_first_before(row, score, some);
}

/// Among the columns up to one that gives a rank, one is the first to give it.
proof fn lemma_first_before(row: Seq<Seq<char>>, score: int, column: int)
    requires
        gives_rank(row, column, score),
    ensures
        exists|first: int| first_with_rank(row, first, score),
    decreases column,
{
    if exists|j: int| 0 <= j < column && gives_rank(row, j, score) {
        let j = choose|j: int| 0 <= j < column && gives_rank(row, j, score);
        lemma_first_before(row, score, j);
    } else {
        assert(first_with_rank(row, column, score));
    }
}

/// Whether `cell` holds a number between one and `count`.
pub open spec fn holds_rank(cell: Seq<char>, count: int) -> bool {
    match number_in(cell) {
        Some(rank) => 1 <= rank <= count,
        None => false,
    }
}

/// Whether `row` gives each of `count` candidates a rank of its own between one
/// and `count`: it has the voter's fields and one field for each candidate,
/// every such field holds a number in that range, and no two hold the same.
pub open spec fn ranks_once(row: Seq<Seq<char>>, count: int) -> bool {
    &&& row.len() >= 3
    &&& rank_columns(row).len() == count
    &&& forall|k: int| 0 <= k < count ==> holds_rank(#[trigger] rank_columns(row)[k], count)
    &&& forall|j: int, k: int|
        0 <= j < k < count ==> #[trigger] number_in(rank_columns(row)[j]) != #[trigger] number_in(
            rank_columns(row)[k],
        )
}

/// A function that sends the numbers below `n` to numbers below `n`, no two to
/// the same, reaches every number below `n`.
proof fn lemma_reaches_all(f: spec_fn(int) -> int, n: int, target: int)
    requires
        forall|i: int| 0 <= i < n ==> 0 <= #[trigger] f(i) < n,
        forall|i: int, j: int| 0 <= i < j < n ==> #[trigger] f(i) != #[trigger] f(j),
        0 <= target < n,
    ensures
        exists|i: int| 0 <= i < n && #[trigger] f(i) == target,
    decreases n,
{
    let last = n - 1;
    if !exists|i: int| 0 <= i < n && #[trigger] f(i) == last {
        assert(f(last) != last);
        assert forall|i: int| 0 <= i < last implies 0 <= #[trigger] f(i) < last by {
            assert(f(i) != last);
        }
        lemma_reaches_all(f, last, f(last));
        let i = choose|i: int| 0 <= i < last && #[trigger] f(i) == f(last);
        assert(f(i) != f(last));
    }
    let top = choose|i: int| 0 <= i < n && #[trigger] f(i) == last;
    if target != last {
        let g = |i: int|
            if i == top {
                f(last)
            } else {
                f(i)
            };
        assert forall|i: int| 0 <= i < last implies 0 <= #[trigger] g(i) < last by {
            if i == top {
                assert(f(last) != f(top));
            } else {
                assert(f(i) != f(top));
            }
        }
        assert forall|i: int, j: int| 0 <= i < j < last implies #[trigger] g(i) != #[trigger] g(
            j,
        ) by {
            assert(f(i) != f(j));
            assert(f(i) != f(last));
            assert(f(j) != f(last));
        }
        lemma_reaches_all(g, last, target);
        let i = choose|i: int| 0 <= i < last && #[trigger] g(i) == target;
        if i == top {
            assert(f(last) == target);
        } else {
            assert(f(i) == target);
        }
    }
}

/// A row is a valid ballot exactly when it gives every candidate a rank of its
/// own between one and the number of candidates: a rank out of that range, or
/// one given twice, makes the row invalid.
pub proof fn lemma_valid_rows_rank_once(row: Seq<Seq<char>>, count: int)
    ensures
        valid_row(row, count) == ranks_once(row, count),
{
    let columns = rank_columns(row);
    if valid_row(row, count) {
        let first = |s: int| column_ranked(row, s + 1);
        assert forall|s: int| 0 <= s < count implies first_with_rank(row, #[trigger] first(s), s + 1) by {
            assert(has_rank(row, s + 1));
            lemma_has_first(row, s + 1);
        }
        assert forall|s: int, t: int| 0 <= s < t < count implies #[trigger] first(s)
            != #[trigger] first(t) by {
            assert(first_with_rank(row, first(s), s + 1));
            assert(first_with_rank(row, first(t), t + 1));
        }
        assert forall|k: int| 0 <= k < count implies holds_rank(#[trigger] columns[k], count) by {
            lemma_reaches_all(first, count, k);
            let s = choose|s: int| 0 <= s < count && #[trigger] first(s) == k;
            assert(first_with_rank(row, first(s), s + 1));
        }
        assert forall|j: int, k: int| 0 <= j < k < count implies #[trigger] number_in(columns[j])
            != #[trigger] number_in(columns[k]) by {
            lemma_reaches_all(first, count, j);
            lemma_reaches_all(first, count, k);
            let s = choose|s: int| 0 <= s < count && #[trigger] first(s) == j;
            let t = choose|t: int| 0 <= t < count && #[trigger] first(t) == k;
            assert(first_with_rank(row, first(s), s + 1));
            assert(first_with_rank(row, first(t), t + 1));
        }
    }
    if ranks_once(row, count) {
        let rank = |k: int| number_in(columns[k]).unwrap() - 1;
        assert forall|k: int| 0 <= k < count implies number_in(columns[k]) is Some && 0
            <= #[trigger] rank(k) < count by {
            assert(holds_rank(columns[k], count));
        }
        assert forall|j: int, k: int| 0 <= j < k < count implies #[trigger] rank(j)
            != #[trigger] rank(k) by {
            assert(number_in(columns[j]) != number_in(columns[k]));
            assert(holds_rank(columns[j], count) && holds_rank(columns[k], count));
        }
        assert forall|score: int| 1 <= score <= count implies #[trigger] has_rank(row, score) by {
            lemma_reaches_all(rank, count, score - 1);
            let k = choose|k: int| 0 <= k < count && #[trigger] rank(k) == score - 1;
            assert(holds_rank(columns[k], count));
            assert(gives_rank(row, k, score));
        }
        assert forall|k: int| 0 <= k < count implies number_in(#[trigger] columns[k]) is Some by {
            assert(holds_rank(columns[k], count));
        }
    }
}

} // verus!
