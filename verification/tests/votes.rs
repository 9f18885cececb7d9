use thegame::rules::{Card, Stack};
use thegame::table::{GameState, Hand, Vote};
use thegame::votes::{count_votes, find_vote, find_winner, has_everyone_voted, VoteError};

fn table(names: &[&str]) -> GameState {
    GameState {
        draw_pile: vec![Card { id: 50, value: 50 }],
        hands: names.iter().map(|n| Hand { player: n.to_string(), cards: Vec::new() }).collect(),
        stacks: vec![
            Stack { id: 0, ascending: true, current_value: 1 },
            Stack { id: 1, ascending: true, current_value: 1 },
            Stack { id: 2, ascending: false, current_value: 100 },
            Stack { id: 3, ascending: false, current_value: 100 },
        ],
        active_player: None,
        votes: Vec::new(),
        hand_size: 6,
    }
}

fn vote(t: &mut GameState, voter: &str, nominee: &str) -> Result<(), VoteError> {
    t.record_vote(&voter.to_string(), &nominee.to_string())
}

fn ballots(t: &GameState) -> Vec<(String, String)> {
    t.votes.iter().map(|v| (v.voter.clone(), v.nominee.clone())).collect()
}

fn pair(a: &str, b: &str) -> (String, String) {
    (a.to_string(), b.to_string())
}

#[test]
fn nobody_is_active_until_all_have_voted() {
    let mut t = table(&["alice", "bob", "carol"]);
    assert_eq!(vote(&mut t, "alice", "bob"), Ok(()));
    assert_eq!(t.active_player, None);
    assert_eq!(vote(&mut t, "bob", "bob"), Ok(()));
    assert_eq!(t.active_player, None);
    assert_eq!(ballots(&t), vec![pair("alice", "bob"), pair("bob", "bob")]);
    assert_eq!(vote(&mut t, "carol", "alice"), Ok(()));
    assert_eq!(t.active_player, Some("bob".to_string()));
}

#[test]
fn the_most_votes_win() {
    let mut t = table(&["alice", "bob", "carol"]);
    vote(&mut t, "alice", "alice").unwrap();
    vote(&mut t, "bob", "carol").unwrap();
    vote(&mut t, "carol", "carol").unwrap();
    assert_eq!(t.active_player, Some("carol".to_string()));
}

#[test]
fn a_tie_goes_to_the_nominee_who_was_named_first() {
    let mut t = table(&["alice", "bob", "carol", "dave"]);
    vote(&mut t, "alice", "dave").unwrap();
    vote(&mut t, "bob", "carol").unwrap();
    vote(&mut t, "carol", "carol").unwrap();
    vote(&mut t, "dave", "dave").unwrap();
    assert_eq!(t.active_player, Some("dave".to_string()));
    let mut t = table(&["alice", "bob"]);
    vote(&mut t, "bob", "bob").unwrap();
    vote(&mut t, "alice", "alice").unwrap();
    assert_eq!(t.active_player, Some("bob".to_string()));
}

#[test]
fn a_new_vote_replaces_the_old_one_and_counts_as_cast_last() {
    let mut t = table(&["alice", "bob"]);
    vote(&mut t, "alice", "alice").unwrap();
    vote(&mut t, "alice", "bob").unwrap();
    assert_eq!(ballots(&t), vec![pair("alice", "bob")]);
    assert_eq!(t.active_player, None);
    let mut t = table(&["alice", "bob", "carol"]);
    vote(&mut t, "alice", "alice").unwrap();
    vote(&mut t, "bob", "bob").unwrap();
    vote(&mut t, "alice", "carol").unwrap();
    assert_eq!(ballots(&t), vec![pair("bob", "bob"), pair("alice", "carol")]);
    vote(&mut t, "carol", "alice").unwrap();
    assert_eq!(t.active_player, Some("bob".to_string()));
}

#[test]
fn a_single_player_decides_alone() {
    let mut t = table(&["solo"]);
    assert_eq!(vote(&mut t, "solo", "solo"), Ok(()));
    assert_eq!(t.active_player, Some("solo".to_string()));
}

#[test]
fn strangers_neither_vote_nor_stand() {
    let mut t = table(&["alice", "bob"]);
    assert_eq!(vote(&mut t, "mallory", "alice"), Err(VoteError::UnknownVoter));
    assert_eq!(vote(&mut t, "alice", "mallory"), Err(VoteError::UnknownNominee));
    assert_eq!(vote(&mut t, "mallory", "nobody"), Err(VoteError::UnknownVoter));
    assert!(t.votes.is_empty());
    assert_eq!(t.active_player, None);
}

#[test]
fn no_vote_is_taken_once_a_player_is_active() {
    let mut t = table(&["alice", "bob"]);
    vote(&mut t, "alice", "bob").unwrap();
    vote(&mut t, "bob", "bob").unwrap();
    assert_eq!(t.active_player, Some("bob".to_string()));
    assert_eq!(vote(&mut t, "alice", "alice"), Err(VoteError::AlreadyDecided));
    assert_eq!(vote(&mut t, "mallory", "alice"), Err(VoteError::AlreadyDecided));
    assert_eq!(ballots(&t), vec![pair("alice", "bob"), pair("bob", "bob")]);
    assert_eq!(t.active_player, Some("bob".to_string()));
}

#[test]
fn votes_are_counted_per_nominee() {
    let votes = vec![
        Vote { voter: "a".to_string(), nominee: "x".to_string() },
        Vote { voter: "b".to_string(), nominee: "y".to_string() },
        Vote { voter: "c".to_string(), nominee: "y".to_string() },
        Vote { voter: "d".to_string(), nominee: "x".to_string() },
        Vote { voter: "e".to_string(), nominee: "z".to_string() },
    ];
    assert_eq!(count_votes(&votes, &"x".to_string()), 2);
    assert_eq!(count_votes(&votes, &"y".to_string()), 2);
    assert_eq!(count_votes(&votes, &"z".to_string()), 1);
    assert_eq!(count_votes(&votes, &"w".to_string()), 0);
    assert_eq!(find_winner(&votes), 0);
    assert_eq!(find_vote(&votes, &"c".to_string()), Some(2));
    assert_eq!(find_vote(&votes, &"x".to_string()), None);
    let later = vec![
        Vote { voter: "a".to_string(), nominee: "x".to_string() },
        Vote { voter: "b".to_string(), nominee: "y".to_string() },
        Vote { voter: "c".to_string(), nominee: "y".to_string() },
    ];
    assert_eq!(find_winner(&later), 1);
}

#[test]
fn everyone_has_voted_when_each_player_has_a_vote() {
    let t = table(&["alice", "bob"]);
    let one = vec![Vote { voter: "alice".to_string(), nominee: "bob".to_string() }];
    let both = vec![
        Vote { voter: "bob".to_string(), nominee: "bob".to_string() },
        Vote { voter: "alice".to_string(), nominee: "bob".to_string() },
    ];
    assert!(!has_everyone_voted(&t.hands, &Vec::new()));
    assert!(!has_everyone_voted(&t.hands, &one));
    assert!(has_everyone_voted(&t.hands, &both));
    assert!(has_everyone_voted(&Vec::new(), &Vec::new()));
}

#[test]
fn each_vote_error_has_its_text() {
    assert_eq!(VoteError::AlreadyDecided.reason(), "the active player is already decided");
    assert_eq!(VoteError::UnknownVoter.reason(), "the voter is not a player of this game");
    assert_eq!(VoteError::UnknownNominee.reason(), "the nominee is not a player of this game");
}
