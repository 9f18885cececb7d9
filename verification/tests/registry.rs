use thegame::event::{Event, EventKind, Outbound, Recipient};
use thegame::game::Game;
use thegame::ident::{validate_party_id, PartyId, ID_SPACE};
use thegame::party::Chance;
use thegame::registry::{address, token_party, RoutingError, StateRaw};
use thegame::rules::{Card, PlayAction};
use thegame::token::{AuthError, AuthToken};

fn card(v: u8) -> Card {
    Card { id: v, value: v }
}

fn cards(values: &[u8]) -> Vec<Card> {
    values.iter().map(|v| card(*v)).collect()
}

fn chance(deck: &[u8]) -> Chance {
    Chance { secret: 9, event_base: 1000, deck: cards(deck), id_seed: 100, game_id: 3 }
}

fn event(id: u128, kind: EventKind) -> Event {
    Event { id, kind }
}

fn only(out: &[Outbound]) -> &EventKind {
    assert_eq!(out.len(), 1);
    assert!(matches!(out[0].to, Recipient::Requester));
    &out[0].event.kind
}

fn hand(kind: &EventKind) -> Vec<Card> {
    match kind {
        EventKind::GameState { player_hand, .. } => player_hand.clone(),
        other => panic!("{:?}", other),
    }
}

/// alice creates a party, bob joins it, alice starts the game with `deck`.
fn started(deck: &[u8]) -> (StateRaw, PartyId, AuthToken, AuthToken) {
    let mut reg = StateRaw::init();
    let out = reg.dispatch_with(
        None,
        event(1, EventKind::CreateParty { owner: "alice".to_string() }),
        chance(&[]),
    );
    let (id, alice) = match only(&out) {
        EventKind::PartyCreated { response_to, party_id, auth_token } => {
            assert_eq!(*response_to, 1);
            (party_id.clone(), *auth_token)
        }
        other => panic!("{:?}", other),
    };
    let join = EventKind::JoinParty { username: "bob".to_string(), party_id: id.clone() };
    let out = reg.dispatch_with(None, event(2, join), chance(&[]));
    let bob = match only(&out) {
        EventKind::PartyJoined { response_to, party_id, auth_token } => {
            assert_eq!(*response_to, 2);
            assert!(party_id.same(&id));
            *auth_token
        }
        other => panic!("{:?}", other),
    };
    let out =
        reg.dispatch_with(Some(alice), event(3, EventKind::StartGame { auth_token: alice }), chance(deck));
    assert_eq!(out.len(), 2);
    (reg, id, alice, bob)
}

#[test]
fn a_registry_begins_empty() {
    let reg = StateRaw::init();
    assert_eq!(reg.len(), 0);
    assert!(reg.find(&PartyId::from_code(0)).is_none());
}

#[test]
fn a_party_gets_the_id_that_the_seed_stands_for() {
    let mut reg = StateRaw::init();
    let (id, token) = reg.create_party_with("alice".to_string(), 62, 5, 6).unwrap();
    assert_eq!(id.as_str(), "0010");
    assert_eq!(token, AuthToken { realm: 62, serial: 0, secret: 5 });
    assert_eq!(reg.len(), 1);
    let party = reg.find(&id).unwrap();
    assert_eq!(party.owner(), "alice");
    assert_eq!(party.id().as_str(), "0010");
    assert!(matches!(party.game(), Game::Gathering(g) if g.id == 6));
    assert_eq!(party.roster().verify_token(&token), Ok("alice".to_string()));
}

#[test]
fn a_taken_id_is_passed_over() {
    let mut reg = StateRaw::init();
    let (a, ta) = reg.create_party_with("alice".to_string(), 62, 1, 1).unwrap();
    let (b, tb) = reg.create_party_with("bob".to_string(), 62, 1, 1).unwrap();
    let (c, tc) = reg.create_party_with("carol".to_string(), 62 + ID_SPACE as u128, 1, 1).unwrap();
    let (d, _) = reg.create_party_with("dave".to_string(), 63, 1, 1).unwrap();
    assert_eq!(a.as_str(), "0010");
    assert_eq!(b.as_str(), "0011");
    assert_eq!(c.as_str(), "0012");
    assert_eq!(d.as_str(), "0013");
    assert_eq!((ta.realm, tb.realm, tc.realm), (62, 63, 64));
    assert_eq!(reg.len(), 4);
    assert_eq!(reg.find(&c).unwrap().owner(), "carol");
    assert_eq!(reg.find(&a).unwrap().owner(), "alice");
}

#[test]
fn the_search_for_an_id_goes_round_the_end_of_the_space() {
    let mut reg = StateRaw::init();
    let last = (ID_SPACE - 1) as u128;
    let (a, _) = reg.create_party_with("alice".to_string(), last, 1, 1).unwrap();
    let (b, tb) = reg.create_party_with("bob".to_string(), last, 1, 1).unwrap();
    assert_eq!(a.as_str(), "zzzz");
    assert_eq!(b.as_str(), "0000");
    assert_eq!(tb.realm, 0);
}

#[test]
fn tokens_of_different_parties_differ() {
    let mut reg = StateRaw::init();
    let (first, a) = reg.create_party_with("alice".to_string(), 7, 1, 1).unwrap();
    let (second, b) = reg.create_party_with("alice".to_string(), 7, 1, 1).unwrap();
    assert_ne!(a, b);
    assert_eq!(reg.find(&first).unwrap().roster().verify_token(&b), Err(AuthError::UnknownToken));
    assert_eq!(reg.find(&second).unwrap().roster().verify_token(&a), Err(AuthError::UnknownToken));
    assert_eq!(reg.find(&first).unwrap().roster().verify_token(&a), Ok("alice".to_string()));
}

#[test]
fn parties_are_created_with_random_draws() {
    let mut reg = StateRaw::init();
    let (a, ta) = reg.create_party("alice".to_string()).unwrap();
    let (b, tb) = reg.create_party("bob".to_string()).unwrap();
    assert!(validate_party_id(a.as_str()).is_ok());
    assert!(validate_party_id(b.as_str()).is_ok());
    assert!(!a.same(&b));
    assert_ne!(ta, tb);
    assert!(token_party(&ta).same(&a));
    assert!(token_party(&tb).same(&b));
    assert_eq!(reg.len(), 2);
}

#[test]
fn an_event_for_a_party_that_is_not_there_is_not_routed() {
    let mut reg = StateRaw::init();
    reg.create_party_with("alice".to_string(), 1, 1, 1).unwrap();
    let nowhere = validate_party_id("zzzz").unwrap();
    let r = reg.route_with(&nowhere, None, event(5, EventKind::RequestState), chance(&[]));
    assert!(matches!(r, Err(RoutingError::PartyNotFound)));
    let r = reg.route(&nowhere, None, event(5, EventKind::RequestState));
    assert!(matches!(r, Err(RoutingError::PartyNotFound)));
    let r = reg.disconnect(&nowhere, AuthToken { realm: 1, serial: 0, secret: 1 }, 0);
    assert!(matches!(r, Err(RoutingError::PartyNotFound)));
    assert_eq!(reg.len(), 1);
}

#[test]
fn a_missing_party_is_answered_with_its_error() {
    let mut reg = StateRaw::init();
    let nowhere = validate_party_id("AB12").unwrap();
    let join = EventKind::JoinParty { username: "bob".to_string(), party_id: nowhere };
    let out = reg.dispatch_with(None, event(9, join), chance(&[]));
    match only(&out) {
        EventKind::PartyNotFoundError { response_to, party_id } => {
            assert_eq!(*response_to, 9);
            assert_eq!(party_id.as_str(), "AB12");
        }
        other => panic!("{:?}", other),
    }
    assert_eq!(out[0].event.id, 1000);
    assert_eq!(reg.len(), 0);
}

#[test]
fn an_event_without_any_token_is_for_no_party() {
    let mut reg = StateRaw::init();
    let out = reg.dispatch_with(None, event(9, EventKind::RequestState), chance(&[]));
    match only(&out) {
        EventKind::AuthError { response_to, reason } => {
            assert_eq!(*response_to, 9);
            assert_eq!(reason, "an auth token is required");
        }
        other => panic!("{:?}", other),
    }
    let vote = EventKind::PlayerStartVote { nominee: "x".to_string() };
    assert!(matches!(address(&None, &vote), Err(AuthError::MissingToken)));
}

#[test]
fn events_are_addressed_by_their_id_or_their_token() {
    let token = AuthToken { realm: 62, serial: 0, secret: 0 };
    let other = AuthToken { realm: 63, serial: 0, secret: 0 };
    let named = validate_party_id("AB12").unwrap();
    assert_eq!(token_party(&token).as_str(), "0010");
    let join = EventKind::JoinParty { username: "b".to_string(), party_id: named.clone() };
    assert_eq!(address(&Some(token), &join).unwrap().as_str(), "AB12");
    let rejoin = EventKind::RejoinParty { party_id: named, auth_token: token };
    assert_eq!(address(&None, &rejoin).unwrap().as_str(), "AB12");
    let start = EventKind::StartGame { auth_token: other };
    assert_eq!(address(&Some(token), &start).unwrap().as_str(), "0011");
    let plays = EventKind::PlayCards { auth_token: other, actions: Vec::new() };
    assert_eq!(address(&None, &plays).unwrap().as_str(), "0011");
    let says = EventKind::SendMessage { auth_token: other, message: "m".to_string() };
    assert_eq!(address(&None, &says).unwrap().as_str(), "0011");
    let vote = EventKind::PlayerStartVote { nominee: "x".to_string() };
    assert_eq!(address(&Some(token), &vote).unwrap().as_str(), "0010");
    assert_eq!(address(&Some(token), &EventKind::RequestState).unwrap().as_str(), "0010");
}

#[test]
fn a_play_with_a_card_of_somebody_else_is_refused_and_changes_nothing() {
    let (mut reg, id, alice, bob) = started(&[10, 20, 30, 40, 50, 60, 70, 80, 90, 95]);
    let seen = reg.dispatch_with(Some(bob), event(4, EventKind::RequestState), chance(&[]));
    let before = hand(only(&seen));
    assert_eq!(before, cards(&[80, 90, 95]));
    let theft = EventKind::PlayCards {
        auth_token: bob,
        actions: vec![PlayAction { card_id: 10, stack_id: 0 }],
    };
    let out = reg.dispatch_with(Some(bob), event(5, theft), chance(&[]));
    match only(&out) {
        EventKind::InvalidPlayError { response_to, reason } => {
            assert_eq!(*response_to, 5);
            assert_eq!(reason, "card is not in the player's hand");
        }
        other => panic!("{:?}", other),
    }
    let seen = reg.dispatch_with(Some(bob), event(6, EventKind::RequestState), chance(&[]));
    assert_eq!(hand(only(&seen)), before);
    let seen = reg.dispatch_with(Some(alice), event(7, EventKind::RequestState), chance(&[]));
    assert_eq!(hand(only(&seen)), cards(&[10, 20, 30, 40, 50, 60, 70]));
    let party = reg.find(&id).unwrap();
    let tops: Vec<u8> = party.table().unwrap().stacks.iter().map(|s| s.current_value).collect();
    assert_eq!(tops, vec![1, 1, 100, 100]);
    assert!(matches!(party.game(), Game::Running(_)));
}

#[test]
fn a_start_by_a_member_who_is_not_the_owner_is_refused() {
    let mut reg = StateRaw::init();
    let (id, _) = reg.create_party_with("alice".to_string(), 1, 1, 1).unwrap();
    let join = EventKind::JoinParty { username: "bob".to_string(), party_id: id.clone() };
    let out = reg.dispatch_with(None, event(2, join), chance(&[]));
    let bob = match only(&out) {
        EventKind::PartyJoined { auth_token, .. } => *auth_token,
        other => panic!("{:?}", other),
    };
    let out = reg.dispatch_with(
        Some(bob),
        event(3, EventKind::StartGame { auth_token: bob }),
        chance(&[10, 20]),
    );
    match only(&out) {
        EventKind::AuthError { response_to, reason } => {
            assert_eq!(*response_to, 3);
            assert_eq!(reason, "only the owner of the party may do this");
        }
        other => panic!("{:?}", other),
    }
    assert!(matches!(reg.find(&id).unwrap().game(), Game::Gathering(_)));
}

#[test]
fn an_event_reaches_only_its_own_party() {
    let (mut reg, id, alice, _) = started(&[10, 20, 30, 40, 50, 60, 70, 80, 90]);
    let (other, carol) = reg.create_party_with("carol".to_string(), 5000, 1, 1).unwrap();
    assert!(!other.same(&id));
    let plays = EventKind::PlayCards {
        auth_token: alice,
        actions: vec![PlayAction { card_id: 10, stack_id: 0 }],
    };
    let out = reg.dispatch_with(Some(alice), event(8, plays), chance(&[]));
    assert_eq!(out.len(), 2);
    assert!(matches!(reg.find(&other).unwrap().game(), Game::Gathering(_)));
    assert_eq!(reg.find(&other).unwrap().roster().len(), 1);
    let wrong = EventKind::PlayCards { auth_token: alice, actions: Vec::new() };
    let r = reg.route_with(&other, Some(alice), event(9, wrong), chance(&[])).unwrap();
    match only(&r) {
        EventKind::AuthError { response_to, reason } => {
            assert_eq!(*response_to, 9);
            assert_eq!(reason, "token is not known in this party");
        }
        other => panic!("{:?}", other),
    }
    let says = EventKind::SendMessage { auth_token: carol, message: "alone".to_string() };
    let out = reg.dispatch_with(None, event(10, says), chance(&[]));
    assert_eq!(out.len(), 1);
    assert!(matches!(&out[0].to, Recipient::Member(name) if name == "carol"));
}

#[test]
fn a_lost_connection_takes_the_member_out() {
    let (mut reg, id, alice, bob) = started(&[10, 20, 30, 40, 50, 60, 70, 80, 90]);
    let out = reg.disconnect(&id, bob, 700).unwrap();
    assert_eq!(out.len(), 1);
    assert!(matches!(&out[0].to, Recipient::Member(name) if name == "alice"));
    assert_eq!(out[0].event.id, 700);
    assert_eq!(reg.find(&id).unwrap().roster().names(), vec!["alice".to_string()]);
    assert!(reg.disconnect(&id, bob, 701).unwrap().is_empty());
    assert_eq!(reg.find(&id).unwrap().roster().len(), 1);
    let still = reg.dispatch_with(Some(alice), event(11, EventKind::RequestState), chance(&[]));
    assert_eq!(hand(only(&still)), cards(&[10, 20, 30, 40, 50, 60, 70]));
}

#[test]
fn the_registry_draws_its_own_chances() {
    let mut reg = StateRaw::init();
    let out = reg.dispatch(None, event(1, EventKind::CreateParty { owner: "alice".to_string() }));
    let (id, alice) = match only(&out) {
        EventKind::PartyCreated { response_to, party_id, auth_token } => {
            assert_eq!(*response_to, 1);
            (party_id.clone(), *auth_token)
        }
        other => panic!("{:?}", other),
    };
    assert!(token_party(&alice).same(&id));
    let join = EventKind::JoinParty { username: "bob".to_string(), party_id: id.clone() };
    let out = reg.route(&id, None, event(2, join)).unwrap();
    let bob = match only(&out) {
        EventKind::PartyJoined { auth_token, .. } => *auth_token,
        other => panic!("{:?}", other),
    };
    assert_eq!(bob.serial, 1);
    assert_eq!(bob.realm, alice.realm);
    let out = reg.dispatch(None, event(3, EventKind::StartGame { auth_token: alice }));
    assert_eq!(out.len(), 2);
    let a = hand(&out[0].event.kind);
    let b = hand(&out[1].event.kind);
    assert_eq!(a.len(), 7);
    assert_eq!(b.len(), 7);
    assert!(a.iter().all(|c| !b.contains(c)));
    assert!(a.iter().chain(b.iter()).all(|c| (2..=99).contains(&c.value)));
}

#[test]
fn a_closed_party_is_gone_with_its_tokens() {
    let mut reg = StateRaw::init();
    let (a, ta) = reg.create_party_with("alice".to_string(), 10, 1, 1).unwrap();
    let (b, tb) = reg.create_party_with("bob".to_string(), 11, 1, 1).unwrap();
    let closed = reg.close_party(&a).unwrap();
    assert_eq!(closed.owner(), "alice");
    assert_eq!(closed.id().as_str(), a.as_str());
    assert_eq!(reg.len(), 1);
    assert!(reg.find(&a).is_none());
    assert_eq!(reg.find(&b).unwrap().owner(), "bob");
    assert!(matches!(reg.close_party(&a), Err(RoutingError::PartyNotFound)));
    let out = reg.dispatch_with(
        None,
        event(20, EventKind::SendMessage { auth_token: ta, message: "still there?".to_string() }),
        chance(&[]),
    );
    match only(&out) {
        EventKind::PartyNotFoundError { response_to, party_id } => {
            assert_eq!(*response_to, 20);
            assert_eq!(party_id, a.as_str());
        }
        other => panic!("{:?}", other),
    }
    assert_eq!(reg.find(&b).unwrap().roster().verify_token(&ta), Err(AuthError::UnknownToken));
    assert_eq!(reg.find(&b).unwrap().roster().verify_token(&tb), Ok("bob".to_string()));
    let (again, _) = reg.create_party_with("carol".to_string(), 10, 1, 1).unwrap();
    assert!(again.same(&a));
}

#[test]
fn the_search_for_a_free_id_counts_its_attempts() {
    let mut reg = StateRaw::init();
    assert_eq!(reg.find_free(62), Some(0));
    reg.create_party_with("alice".to_string(), 62, 1, 1).unwrap();
    reg.create_party_with("bob".to_string(), 63, 1, 1).unwrap();
    assert_eq!(reg.find_free(62), Some(2));
    assert_eq!(reg.find_free(63), Some(1));
    assert_eq!(reg.find_free(64), Some(0));
    assert_eq!(reg.find_free(61), Some(0));
    reg.create_party_with("carol".to_string(), 0, 1, 1).unwrap();
    assert_eq!(reg.find_free(ID_SPACE - 1), Some(0));
    reg.create_party_with("dave".to_string(), (ID_SPACE - 1) as u128, 1, 1).unwrap();
    assert_eq!(reg.find_free(ID_SPACE - 1), Some(2));
}
