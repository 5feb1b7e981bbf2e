use instant_runoff::{
    check_for_majority, get_candidate_tallies, remove_last_place_candidate, show_tallies, tabulate,
    Candidate, Outcome, PollError, Step, Voter,
};
use std::rc::Rc;

fn voter(name: &str, ranking: &[&str]) -> Voter {
    let mut voter = Voter::new(name.to_string(), Vec::new());
    for choice in ranking {
        voter.vote(Rc::new(Candidate::new(choice)));
    }
    voter
}

fn poll(ballots: &[(&[&str], usize)]) -> Vec<Voter> {
    let mut voters = Vec::new();
    for (ranking, copies) in ballots {
        for copy in 0..*copies {
            voters.push(voter(&format!("voter {}", copy), ranking));
        }
    }
    voters
}

fn names(candidates: &[Rc<Candidate>]) -> Vec<String> {
    candidates.iter().map(|c| c.name.clone()).collect()
}

#[test]
fn tallies_count_every_rank() {
    let voters = poll(&[(&["A", "B", "C"], 4), (&["B", "A", "C"], 3), (&["C", "B", "A"], 3)]);
    let table = get_candidate_tallies(&voters);
    let shown: Vec<(String, Vec<usize>)> =
        table.iter().map(|(c, counts)| (c.name.clone(), counts.clone())).collect();
    assert_eq!(
        shown,
        vec![
            ("A".to_string(), vec![4, 3, 3]),
            ("B".to_string(), vec![3, 7, 0]),
            ("C".to_string(), vec![3, 0, 7]),
        ]
    );
}

#[test]
fn three_way_race_is_settled_by_elimination() {
    let voters = poll(&[(&["A", "B", "C"], 4), (&["B", "A", "C"], 3), (&["C", "B", "A"], 3)]);
    let election = tabulate(voters).unwrap();
    assert_eq!(election.rounds.len(), 2);
    match &election.rounds[0].step {
        Step::Eliminated(elimination) => {
            assert_eq!(names(&elimination.removed), vec!["C".to_string()]);
            let rounds = elimination.tie_break.as_ref().unwrap();
            assert_eq!(rounds.len(), 1);
            let first: Vec<(String, usize)> =
                rounds[0].iter().map(|(c, n)| (c.name.clone(), *n)).collect();
            assert_eq!(first, vec![("B".to_string(), 7), ("C".to_string(), 0)]);
        }
        Step::Majority(_) => panic!("no majority in the first round"),
    }
    match &election.outcome {
        Outcome::Winner(winner) => assert_eq!(winner.name, "B"),
        Outcome::Exhausted => panic!("a winner was due"),
    }
}

#[test]
fn perpetual_tie_exhausts_the_election() {
    let voters = poll(&[(&["A", "B"], 1), (&["B", "A"], 1)]);
    let election = tabulate(voters).unwrap();
    assert_eq!(election.rounds.len(), 1);
    match &election.rounds[0].step {
        Step::Eliminated(elimination) => {
            assert_eq!(names(&elimination.removed), vec!["A".to_string(), "B".to_string()]);
        }
        Step::Majority(_) => panic!("no majority in a tie"),
    }
    assert!(matches!(election.outcome, Outcome::Exhausted));
}

#[test]
fn nothing_to_tabulate() {
    assert!(matches!(tabulate(Vec::new()), Err(PollError::InsufficientData)));
    assert!(matches!(tabulate(poll(&[(&[], 3)])), Err(PollError::InsufficientData)));
}

#[test]
fn majority_needs_more_than_half() {
    let half = poll(&[(&["A", "B"], 2), (&["B", "A"], 2)]);
    assert!(check_for_majority(&half).is_none());
    let more = poll(&[(&["A", "B"], 3), (&["B", "A"], 2)]);
    assert_eq!(check_for_majority(&more).unwrap().name, "A");
}

#[test]
fn elimination_moves_lower_choices_up() {
    let mut voters = poll(&[(&["A", "B", "C"], 2), (&["B", "C", "A"], 2), (&["C", "A", "B"], 1)]);
    let elimination = remove_last_place_candidate(&mut voters);
    assert_eq!(names(&elimination.removed), vec!["C".to_string()]);
    assert!(elimination.tie_break.is_none());
    assert_eq!(names(&voters[0].votes), vec!["A".to_string(), "B".to_string()]);
    assert_eq!(names(&voters[2].votes), vec!["B".to_string(), "A".to_string()]);
    assert_eq!(names(&voters[4].votes), vec!["A".to_string(), "B".to_string()]);
    let shown: Vec<(String, usize)> =
        show_tallies(&voters).iter().map(|(c, n)| (c.name.clone(), *n)).collect();
    assert_eq!(shown, vec![("A".to_string(), 3), ("B".to_string(), 2)]);
}
