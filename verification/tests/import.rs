use instant_runoff::{
    candidates_from_header, extract_number, import_csv_poll, poll_from_table, read_decimal,
    tabulate, voters_from_records, Candidate, Outcome, PollError,
};

fn row(fields: &[&str]) -> Vec<String> {
    fields.iter().map(|field| field.to_string()).collect()
}

fn ballot(voter: &instant_runoff::Voter) -> Vec<String> {
    voter.votes.iter().map(|c| c.name.clone()).collect()
}

#[test]
fn number_is_read_out_of_surrounding_text() {
    assert_eq!(extract_number("3"), Some(3));
    assert_eq!(extract_number("2nd choice"), Some(2));
    assert_eq!(extract_number("rank 1 of 3"), Some(13));
    assert_eq!(extract_number("007"), Some(7));
    assert_eq!(extract_number("2147483647"), Some(i32::MAX));
}

#[test]
fn number_is_missing_where_none_can_be_read() {
    assert_eq!(extract_number(""), None);
    assert_eq!(extract_number("none"), None);
    assert_eq!(extract_number("2147483648"), None);
    assert_eq!(extract_number("99999999999999999999"), None);
    assert_eq!(extract_number("x\u{00b2}"), None);
    assert_eq!(extract_number("1\u{0663}"), None);
}

#[test]
fn header_names_candidates_in_brackets() {
    let header = row(&["Timestamp", "Name", "Rank [Ada]", "Rank [Bo] please", "[Cy", "Notes"]);
    let candidates = candidates_from_header(&header).unwrap();
    let names: Vec<String> = candidates.iter().map(|c| c.name.clone()).collect();
    assert_eq!(names, vec!["Ada".to_string(), "Bo".to_string(), "Cy".to_string()]);
}

#[test]
fn header_with_closing_bracket_first_names_what_follows() {
    let header = row(&["Timestamp", "Name", "a]b[c", "x]", "Notes"]);
    let candidates = candidates_from_header(&header).unwrap();
    let names: Vec<String> = candidates.iter().map(|c| c.name.clone()).collect();
    assert_eq!(names, vec!["b".to_string(), "".to_string()]);
}

#[test]
fn header_is_refused() {
    assert_eq!(candidates_from_header(&row(&[])).err(), Some(PollError::HeaderFormat));
    assert_eq!(candidates_from_header(&row(&["Timestamp"])).err(), Some(PollError::HeaderFormat));
    assert_eq!(
        candidates_from_header(&row(&["Timestamp", "Name", "Ada", "Notes"])).err(),
        Some(PollError::HeaderFormat)
    );
    assert_eq!(
        candidates_from_header(&row(&["Timestamp", "Name", "[Ada]", "[Ada]", "Notes"])).err(),
        Some(PollError::HeaderFormat)
    );
}

#[test]
fn header_without_candidate_columns_names_nobody() {
    assert!(candidates_from_header(&row(&["Timestamp", "Name"])).unwrap().is_empty());
    assert!(candidates_from_header(&row(&["Timestamp", "Name", "Notes"])).unwrap().is_empty());
}

#[test]
fn rows_become_ballots_in_rank_order() {
    let candidates = vec![Candidate::new("Ada"), Candidate::new("Bo"), Candidate::new("Cy")];
    let records = vec![
        row(&["t", "Zoe", "2", "3", "1", ""]),
        row(&["t", "Yan", "1st", "2nd", "3rd", ""]),
    ];
    let voters = voters_from_records(&candidates, &records).unwrap();
    assert_eq!(voters.len(), 2);
    assert_eq!(voters[0].name, "Zoe");
    assert_eq!(ballot(&voters[0]), vec!["Cy".to_string(), "Ada".to_string(), "Bo".to_string()]);
    assert_eq!(voters[1].name, "Yan");
    assert_eq!(ballot(&voters[1]), vec!["Ada".to_string(), "Bo".to_string(), "Cy".to_string()]);
}

#[test]
fn rows_are_refused() {
    let candidates = vec![Candidate::new("Ada"), Candidate::new("Bo")];
    let refused = |fields: &[&str]| {
        voters_from_records(&candidates, &vec![row(fields)]).err() == Some(PollError::InvalidBallot)
    };
    assert!(refused(&["t", "Zoe", "1", "1", ""]));
    assert!(refused(&["t", "Zoe", "1", "3", ""]));
    assert!(refused(&["t", "Zoe", "0", "1", ""]));
    assert!(refused(&["t", "Zoe", "1", "", ""]));
    assert!(refused(&["t", "Zoe", "1", "two", ""]));
    assert!(refused(&["t", "Zoe", "1", ""]));
    assert!(refused(&["t", "Zoe", "1", "2", "3", ""]));
    assert!(refused(&["t", "Zoe"]));
    assert!(refused(&[]));
}

#[test]
fn table_is_read_header_first() {
    let header = row(&["Timestamp", "Name", "Ada", "Notes"]);
    let records = vec![row(&["t", "Zoe", "7", ""])];
    assert_eq!(poll_from_table(&header, &records).err(), Some(PollError::HeaderFormat));
    let header = row(&["Timestamp", "Name", "[Ada]", "Notes"]);
    assert_eq!(poll_from_table(&header, &records).err(), Some(PollError::InvalidBallot));
    let records = vec![row(&["t", "Zoe", "1", ""])];
    assert_eq!(poll_from_table(&header, &records).unwrap().len(), 1);
}

#[test]
fn poll_is_imported_from_comma_separated_values() {
    let data = "\
Timestamp,Name,Rank the options [Ada],Rank the options [Bo],Rank the options [Cy],Score
2024/01/01,Zoe,1,2,3,
2024/01/02,\"Yan, Jr.\",3rd,1st,2nd,
2024/01/03,Xia,2,1,3,
";
    let voters = import_csv_poll(data.as_bytes()).unwrap();
    assert_eq!(voters.len(), 3);
    assert_eq!(voters[0].name, "Zoe");
    assert_eq!(ballot(&voters[0]), vec!["Ada".to_string(), "Bo".to_string(), "Cy".to_string()]);
    assert_eq!(voters[1].name, "Yan, Jr.");
    assert_eq!(ballot(&voters[1]), vec!["Bo".to_string(), "Cy".to_string(), "Ada".to_string()]);
    assert_eq!(ballot(&voters[2]), vec!["Bo".to_string(), "Ada".to_string(), "Cy".to_string()]);
    match tabulate(voters).unwrap().outcome {
        Outcome::Winner(winner) => assert_eq!(winner.name, "Bo"),
        Outcome::Exhausted => panic!("a winner was due"),
    }
}

#[test]
fn import_without_rows_gives_no_voters() {
    let data = "Timestamp,Name,[Ada],[Bo],Score\n";
    assert!(import_csv_poll(data.as_bytes()).unwrap().is_empty());
}

#[test]
fn import_refuses_rows_of_uneven_length() {
    let data = "Timestamp,Name,[Ada],[Bo],Score\nt,Zoe,1,2\n";
    assert_eq!(import_csv_poll(data.as_bytes()).err(), Some(PollError::Unreadable));
}

#[test]
fn import_refuses_text_that_is_not_utf8() {
    let header: &[u8] = b"Timestamp,Name,[A\xff],Score\n";
    assert_eq!(import_csv_poll(header).err(), Some(PollError::Unreadable));
    let rows: &[u8] = b"Timestamp,Name,[A],Score\nt,Zo\xff,1,\n";
    assert_eq!(import_csv_poll(rows).err(), Some(PollError::Unreadable));
}

#[test]
fn import_judges_the_header_before_the_rows() {
    let data = "Timestamp,Name,Ada,Score\nt,Zoe,1\n";
    assert_eq!(import_csv_poll(data.as_bytes()).err(), Some(PollError::HeaderFormat));
    assert_eq!(import_csv_poll(b"").err(), Some(PollError::HeaderFormat));
}

#[test]
fn import_refuses_invalid_ballots() {
    let data = "Timestamp,Name,[Ada],[Bo],Score\nt,Zoe,1,1,\n";
    assert_eq!(import_csv_poll(data.as_bytes()).err(), Some(PollError::InvalidBallot));
}

#[test]
fn numerals_are_read_in_base_ten() {
    assert_eq!(read_decimal(&vec!['4', '0', '2']), Some(402));
    assert_eq!(read_decimal(&vec!['0']), Some(0));
    assert_eq!(read_decimal(&Vec::new()), None);
    assert_eq!(read_decimal(&vec!['1', 'a']), None);
    assert_eq!(read_decimal(&vec!['-', '1']), None);
    assert_eq!(read_decimal(&"2147483647".chars().collect()), Some(2147483647));
    assert_eq!(read_decimal(&"2147483648".chars().collect()), None);
}
