use thegame::event::{Event, EventKind, Outbound, Recipient};
use thegame::game::{Game, GameGathering, GameRunning};
use thegame::ident::PartyId;
use thegame::party::{Chance, Party, Refusal, Reply};
use thegame::rules::{Card, InvalidPlayError, PlayAction, TerminalOutcome};
use thegame::token::{AuthError, AuthToken};
use thegame::votes::VoteError;

fn card(v: u8) -> Card {
    Card { id: v, value: v }
}

fn cards(values: &[u8]) -> Vec<Card> {
    values.iter().map(|v| card(*v)).collect()
}

fn play(card_id: u8, stack_id: u8) -> PlayAction {
    PlayAction { card_id, stack_id }
}

fn chance(deck: Vec<Card>) -> Chance {
    Chance { secret: 9, event_base: 1000, deck, id_seed: 0, game_id: 0 }
}

fn gathering() -> (Party, AuthToken, AuthToken) {
    let (mut party, alice) = Party::create(PartyId::from_code(5), 5, "alice".to_string(), 1, 77);
    let bob = match party.join("bob".to_string(), 2) {
        Reply::Joined { token } => token,
        other => panic!("{:?}", other),
    };
    (party, alice, bob)
}

fn running(deck: &[u8]) -> (Party, AuthToken, AuthToken) {
    let (mut party, alice, bob) = gathering();
    assert!(matches!(party.start(alice, cards(deck)), Reply::StateChanged));
    (party, alice, bob)
}

fn to_member(o: &Outbound) -> String {
    match &o.to {
        Recipient::Member(name) => name.clone(),
        Recipient::Requester => panic!("sent to the requester"),
    }
}

fn hand_of(party: &Party, i: usize) -> Vec<Card> {
    party.table().unwrap().hands[i].cards.clone()
}

#[test]
fn a_new_party_gathers_with_its_owner() {
    let (party, token) = Party::create(PartyId::from_code(5), 5, "alice".to_string(), 123, 77);
    assert_eq!(token, AuthToken { realm: 5, serial: 0, secret: 123 });
    assert_eq!(party.id().as_str(), "0005");
    assert_eq!(party.owner(), "alice");
    assert_eq!(party.roster().names(), vec!["alice".to_string()]);
    assert_eq!(party.roster().verify_token(&token), Ok("alice".to_string()));
    assert!(matches!(party.game(), Game::Gathering(GameGathering { id: 77 })));
    assert!(party.table().is_none());
}

#[test]
fn members_join_under_names_of_their_own() {
    let (mut party, _, bob) = gathering();
    assert_eq!(bob, AuthToken { realm: 5, serial: 1, secret: 2 });
    assert!(matches!(
        party.join("bob".to_string(), 3),
        Reply::Refused(Refusal::Auth(AuthError::NameTaken))
    ));
    assert!(matches!(
        party.join("alice".to_string(), 3),
        Reply::Refused(Refusal::Auth(AuthError::NameTaken))
    ));
    assert_eq!(party.roster().len(), 2);
    assert!(matches!(party.game(), Game::Gathering(_)));
}

#[test]
fn a_member_comes_back_with_the_token() {
    let (party, _, bob) = gathering();
    match party.rejoin(bob) {
        Reply::Joined { token } => assert_eq!(token, bob),
        other => panic!("{:?}", other),
    }
    let forged = AuthToken { secret: 99, ..bob };
    assert!(matches!(
        party.rejoin(forged),
        Reply::Refused(Refusal::Auth(AuthError::UnknownToken))
    ));
}

#[test]
fn only_the_owner_starts_the_game() {
    let (mut party, _, bob) = gathering();
    let reply = party.start(bob, cards(&[10, 20, 30]));
    assert!(matches!(reply, Reply::Refused(Refusal::Auth(AuthError::NotOwner))));
    assert!(matches!(party.game(), Game::Gathering(_)));
    let stranger = AuthToken { realm: 5, serial: 7, secret: 7 };
    let reply = party.start(stranger, cards(&[10, 20, 30]));
    assert!(matches!(reply, Reply::Refused(Refusal::Auth(AuthError::UnknownToken))));
    assert!(matches!(party.game(), Game::Gathering(_)));
}

#[test]
fn a_start_by_somebody_else_is_answered_with_an_authentication_error() {
    let (mut party, _, bob) = gathering();
    let event = Event { id: 55, kind: EventKind::StartGame { auth_token: bob } };
    let out = party.handle_with(Some(bob), event, chance(cards(&[10, 20, 30])));
    assert_eq!(out.len(), 1);
    assert!(matches!(out[0].to, Recipient::Requester));
    match &out[0].event.kind {
        EventKind::AuthError { response_to, reason } => {
            assert_eq!(*response_to, 55);
            assert_eq!(reason, "only the owner of the party may do this");
        }
        other => panic!("{:?}", other),
    }
    assert!(matches!(party.game(), Game::Gathering(_)));
    assert!(party.table().is_none());
}

#[test]
fn the_owner_starts_and_the_hands_are_dealt() {
    let (party, _, _) = running(&[10, 20, 30, 40, 50, 60, 70, 80, 90, 95]);
    assert!(matches!(party.game(), Game::Running(GameRunning { id: 77, .. })));
    let table = party.table().unwrap();
    assert_eq!(table.hand_size, 7);
    assert_eq!(hand_of(&party, 0), cards(&[10, 20, 30, 40, 50, 60, 70]));
    assert_eq!(hand_of(&party, 1), cards(&[80, 90, 95]));
    assert!(table.draw_pile.is_empty());
    assert!(table.votes.is_empty());
    assert_eq!(table.active_player, None);
    let tops: Vec<u8> = table.stacks.iter().map(|s| s.current_value).collect();
    assert_eq!(tops, vec![1, 1, 100, 100]);
}

#[test]
fn a_second_start_leaves_the_running_game_as_it_is() {
    let (mut party, alice, _) = running(&[10, 20, 30]);
    let reply = party.start(alice, cards(&[40, 50, 60]));
    assert!(matches!(reply, Reply::StateChanged));
    assert_eq!(hand_of(&party, 0), cards(&[10, 20, 30]));
}

#[test]
fn a_play_moves_the_cards_and_tells_everyone() {
    let (mut party, alice, _) = running(&[10, 20, 30, 40, 50, 60, 70, 80, 90, 95, 96, 97, 98, 99, 15]);
    let reply = party.play(alice, &vec![play(10, 0), play(70, 2)]);
    assert!(matches!(reply, Reply::StateChanged));
    assert_eq!(hand_of(&party, 0), cards(&[20, 30, 40, 50, 60, 15]));
    assert!(party.table().unwrap().draw_pile.is_empty());
    assert_eq!(party.table().unwrap().stacks[0].current_value, 10);
    assert_eq!(party.table().unwrap().stacks[2].current_value, 70);
    assert!(matches!(party.game(), Game::Running(_)));
}

#[test]
fn a_card_that_the_player_does_not_hold_is_refused() {
    let (mut party, _, bob) = running(&[10, 20, 30, 40, 50, 60, 70, 80, 90]);
    let event = Event {
        id: 66,
        kind: EventKind::PlayCards { auth_token: bob, actions: vec![play(80, 0), play(10, 1)] },
    };
    let out = party.handle_with(Some(bob), event, chance(Vec::new()));
    assert_eq!(out.len(), 1);
    assert!(matches!(out[0].to, Recipient::Requester));
    assert_eq!(out[0].event.id, 1000);
    match &out[0].event.kind {
        EventKind::InvalidPlayError { response_to, reason } => {
            assert_eq!(*response_to, 66);
            assert_eq!(reason, "card is not in the player's hand");
        }
        other => panic!("{:?}", other),
    }
    assert_eq!(hand_of(&party, 0), cards(&[10, 20, 30, 40, 50, 60, 70]));
    assert_eq!(hand_of(&party, 1), cards(&[80, 90]));
    assert_eq!(party.table().unwrap().stacks[0].current_value, 1);
    assert!(matches!(party.game(), Game::Running(_)));
}

#[test]
fn each_rule_names_its_refusal() {
    let (mut party, alice, _) = running(&[10, 20, 30]);
    assert!(matches!(
        party.play(alice, &vec![play(11, 0)]),
        Reply::Refused(Refusal::Play(InvalidPlayError::CardNotInHand { card_id: 11 }))
    ));
    assert!(matches!(
        party.play(alice, &vec![play(10, 8)]),
        Reply::Refused(Refusal::Play(InvalidPlayError::NoSuchStack { stack_id: 8 }))
    ));
    assert!(matches!(
        party.play(alice, &vec![play(20, 0), play(10, 0)]),
        Reply::Refused(Refusal::Play(InvalidPlayError::IllegalValue { card_id: 10, stack_id: 0 }))
    ));
    assert_eq!(hand_of(&party, 0), cards(&[10, 20, 30]));
}

#[test]
fn the_last_card_wins_the_game() {
    let (mut party, alice, bob) = running(&[10, 20]);
    assert_eq!(hand_of(&party, 0), cards(&[10, 20]));
    assert!(hand_of(&party, 1).is_empty());
    let event = Event {
        id: 70,
        kind: EventKind::PlayCards { auth_token: alice, actions: vec![play(10, 0), play(20, 0)] },
    };
    let out = party.handle_with(Some(alice), event, chance(Vec::new()));
    assert_eq!(out.len(), 4);
    let names: Vec<String> = out.iter().map(to_member).collect();
    assert_eq!(names, vec!["alice", "bob", "alice", "bob"]);
    assert!(matches!(out[0].event.kind, EventKind::GameState { .. }));
    assert!(matches!(out[1].event.kind, EventKind::GameState { .. }));
    assert!(matches!(out[2].event.kind, EventKind::PlayersWon));
    assert!(matches!(out[3].event.kind, EventKind::PlayersWon));
    match party.game() {
        Game::Finished(g) => {
            assert_eq!(g.outcome, TerminalOutcome::Won);
            assert_eq!(g.id, 77);
            assert!(g.table.draw_pile.is_empty());
        }
        other => panic!("{:?}", other),
    }
    let again = Event {
        id: 71,
        kind: EventKind::PlayCards { auth_token: bob, actions: Vec::new() },
    };
    let out = party.handle_with(Some(bob), again, chance(Vec::new()));
    assert_eq!(out.len(), 1);
    assert!(matches!(out[0].to, Recipient::Requester));
    match &out[0].event.kind {
        EventKind::InvalidPlayError { response_to, reason } => {
            assert_eq!(*response_to, 71);
            assert_eq!(reason, "the game is over");
        }
        other => panic!("{:?}", other),
    }
    assert!(matches!(party.game(), Game::Finished(_)));
}

#[test]
fn a_stuck_active_player_loses_the_game() {
    let deck = [99, 98, 2, 3, 40, 41, 42, 50, 51, 52, 53, 54, 55, 56];
    let (mut party, alice, bob) = running(&deck);
    assert!(matches!(party.vote(Some(alice), &"bob".to_string()), Reply::Quiet));
    assert!(matches!(party.vote(Some(bob), &"bob".to_string()), Reply::StateChanged));
    assert_eq!(party.table().unwrap().active_player, Some("bob".to_string()));
    let event = Event {
        id: 80,
        kind: EventKind::PlayCards {
            auth_token: alice,
            actions: vec![play(98, 0), play(99, 1), play(3, 2), play(2, 3)],
        },
    };
    let out = party.handle_with(Some(alice), event, chance(Vec::new()));
    assert_eq!(hand_of(&party, 1), cards(&[50, 51, 52, 53, 54, 55, 56]));
    assert_eq!(out.len(), 4);
    assert!(matches!(out[0].event.kind, EventKind::GameState { .. }));
    assert!(matches!(out[1].event.kind, EventKind::GameState { .. }));
    assert!(matches!(out[2].event.kind, EventKind::PlayersLost));
    assert!(matches!(out[3].event.kind, EventKind::PlayersLost));
    assert_eq!(to_member(&out[2]), "alice");
    assert_eq!(to_member(&out[3]), "bob");
    match party.game() {
        Game::Finished(g) => assert_eq!(g.outcome, TerminalOutcome::Lost),
        other => panic!("{:?}", other),
    }
}

#[test]
fn a_game_that_has_not_begun_takes_no_play_and_no_vote() {
    let (mut party, alice, _) = gathering();
    assert!(matches!(party.play(alice, &Vec::new()), Reply::Refused(Refusal::NotRunning)));
    assert!(matches!(
        party.vote(Some(alice), &"bob".to_string()),
        Reply::Refused(Refusal::NotRunning)
    ));
    assert!(matches!(party.request_state(Some(alice)), Reply::Refused(Refusal::NotRunning)));
}

#[test]
fn a_finished_game_takes_nothing_more() {
    let (mut party, alice, bob) = running(&[10]);
    assert!(matches!(party.play(alice, &vec![play(10, 3)]), Reply::Ended(TerminalOutcome::Won)));
    assert!(matches!(party.play(alice, &Vec::new()), Reply::Refused(Refusal::GameOver)));
    assert!(matches!(
        party.vote(Some(bob), &"bob".to_string()),
        Reply::Refused(Refusal::GameOver)
    ));
    assert!(matches!(party.start(alice, cards(&[5])), Reply::Refused(Refusal::GameOver)));
    assert!(matches!(party.join("carol".to_string(), 5), Reply::Refused(Refusal::GameOver)));
    assert_eq!(party.roster().len(), 2);
    match party.request_state(Some(bob)) {
        Reply::State { for_user } => assert_eq!(for_user, "bob"),
        other => panic!("{:?}", other),
    }
    match party.game() {
        Game::Finished(g) => assert_eq!(g.table.stacks[3].current_value, 10),
        other => panic!("{:?}", other),
    }
}

#[test]
fn nothing_is_done_without_a_token_of_a_member() {
    let (mut party, alice, _) = running(&[10, 20, 30]);
    let forged = AuthToken { secret: 4711, ..alice };
    assert!(matches!(
        party.play(forged, &vec![play(10, 0)]),
        Reply::Refused(Refusal::Auth(AuthError::UnknownToken))
    ));
    assert!(matches!(
        party.chat(forged, "hi".to_string()),
        Reply::Refused(Refusal::Auth(AuthError::UnknownToken))
    ));
    assert!(matches!(
        party.vote(None, &"alice".to_string()),
        Reply::Refused(Refusal::Auth(AuthError::MissingToken))
    ));
    assert!(matches!(
        party.vote(Some(forged), &"alice".to_string()),
        Reply::Refused(Refusal::Auth(AuthError::UnknownToken))
    ));
    assert!(matches!(
        party.request_state(None),
        Reply::Refused(Refusal::Auth(AuthError::MissingToken))
    ));
    assert!(matches!(
        party.leave(forged),
        Reply::Refused(Refusal::Auth(AuthError::UnknownToken))
    ));
    assert_eq!(hand_of(&party, 0), cards(&[10, 20, 30]));
    assert!(party.table().unwrap().votes.is_empty());
    assert_eq!(party.roster().len(), 2);
}

#[test]
fn votes_are_refused_as_the_rules_say() {
    let (mut party, alice, bob) = running(&[10, 20, 30]);
    assert!(matches!(
        party.vote(Some(alice), &"mallory".to_string()),
        Reply::Refused(Refusal::Vote(VoteError::UnknownNominee))
    ));
    assert!(matches!(party.vote(Some(alice), &"alice".to_string()), Reply::Quiet));
    assert!(matches!(party.vote(Some(bob), &"alice".to_string()), Reply::StateChanged));
    assert!(matches!(
        party.vote(Some(bob), &"bob".to_string()),
        Reply::Refused(Refusal::Vote(VoteError::AlreadyDecided))
    ));
    assert_eq!(party.table().unwrap().active_player, Some("alice".to_string()));
}

#[test]
fn what_a_member_says_is_told_under_the_members_name() {
    let (party, _, bob) = gathering();
    match party.chat(bob, "hello".to_string()) {
        Reply::Chat { username, message } => {
            assert_eq!(username, "bob");
            assert_eq!(message, "hello");
        }
        other => panic!("{:?}", other),
    }
}

#[test]
fn somebody_who_joins_a_running_game_sits_down_without_cards() {
    let (mut party, _, _) = running(&[10, 20, 30, 40, 50, 60, 70, 80, 90]);
    let carol = match party.join("carol".to_string(), 3) {
        Reply::Joined { token } => token,
        other => panic!("{:?}", other),
    };
    assert_eq!(carol.serial, 2);
    let table = party.table().unwrap();
    assert_eq!(table.hands.len(), 3);
    assert_eq!(table.hands[2].player, "carol");
    assert!(table.hands[2].cards.is_empty());
    assert_eq!(table.hand_size, 7);
}

#[test]
fn a_member_who_leaves_a_running_game_gives_the_cards_back() {
    let (mut party, alice, bob) = running(&[10, 20, 30, 40, 50, 60, 70, 80, 90]);
    assert!(matches!(party.vote(Some(alice), &"alice".to_string()), Reply::Quiet));
    assert!(matches!(party.leave(bob), Reply::StateChanged));
    assert_eq!(party.roster().names(), vec!["alice".to_string()]);
    let table = party.table().unwrap();
    assert_eq!(table.hands.len(), 1);
    assert_eq!(table.hands[0].player, "alice");
    assert_eq!(table.draw_pile, cards(&[80, 90]));
    assert!(table.votes.is_empty());
    assert!(matches!(
        party.rejoin(bob),
        Reply::Refused(Refusal::Auth(AuthError::UnknownToken))
    ));
    let out = party.depart(alice, 300);
    assert!(out.is_empty());
    assert_eq!(party.roster().len(), 0);
    assert!(party.table().unwrap().hands.is_empty());
    assert_eq!(party.table().unwrap().draw_pile.len(), 9);
}

#[test]
fn those_who_stay_are_shown_the_table_when_somebody_leaves() {
    let (mut party, alice, bob) = running(&[10, 20, 30, 40, 50, 60, 70, 80, 90]);
    let out = party.depart(alice, 300);
    assert_eq!(out.len(), 1);
    assert_eq!(to_member(&out[0]), "bob");
    assert_eq!(out[0].event.id, 300);
    match &out[0].event.kind {
        EventKind::GameState { player_hand, draw_stack_card_count, players_cards_count, .. } => {
            assert_eq!(*player_hand, cards(&[80, 90]));
            assert_eq!(*draw_stack_card_count, 7);
            assert_eq!(players_cards_count.len(), 1);
        }
        other => panic!("{:?}", other),
    }
    let (mut party, _, bob2) = gathering();
    assert!(party.depart(bob2, 300).is_empty());
    assert_eq!(party.roster().names(), vec!["alice".to_string()]);
    let _ = bob;
}

#[test]
fn events_that_no_client_sends_are_refused() {
    let (mut party, alice, _) = gathering();
    for kind in [
        EventKind::PlayersWon,
        EventKind::PlayersLost,
        EventKind::CreateParty { owner: "eve".to_string() },
        EventKind::Message { username: "eve".to_string(), message: "x".to_string() },
    ] {
        let reply = party.step(Some(alice), kind, chance(Vec::new()));
        assert!(matches!(reply, Reply::Refused(Refusal::Unsupported)));
    }
    assert_eq!(party.roster().len(), 2);
}

#[test]
fn a_game_keeps_its_id_through_its_phases() {
    let names = vec!["alice".to_string()];
    let game = Game::Gathering(GameGathering { id: 4242 });
    let game = game.begin(&names, cards(&[10, 20]));
    match &game {
        Game::Running(g) => {
            assert_eq!(g.id, 4242);
            assert_eq!(g.table.hands[0].cards, cards(&[10, 20]));
        }
        other => panic!("{:?}", other),
    }
    let game = game.begin(&names, cards(&[30]));
    match &game {
        Game::Running(g) => assert_eq!(g.table.hands[0].cards, cards(&[10, 20])),
        other => panic!("{:?}", other),
    }
    let game = game.finish(TerminalOutcome::Lost);
    match &game {
        Game::Finished(g) => {
            assert_eq!(g.id, 4242);
            assert_eq!(g.outcome, TerminalOutcome::Lost);
        }
        other => panic!("{:?}", other),
    }
    let game = game.begin(&names, cards(&[30])).finish(TerminalOutcome::Won);
    match &game {
        Game::Finished(g) => assert_eq!(g.outcome, TerminalOutcome::Lost),
        other => panic!("{:?}", other),
    }
    assert!(matches!(
        Game::Gathering(GameGathering { id: 1 }).finish(TerminalOutcome::Won),
        Game::Gathering(GameGathering { id: 1 })
    ));
}

#[test]
fn a_gathering_game_holds_the_id_that_it_is_given() {
    assert_eq!(GameGathering::with_id(0).id, 0);
    assert_eq!(GameGathering::with_id(4242).id, 4242);
    assert_eq!(GameGathering::with_id(u128::MAX).id, u128::MAX);
    assert_ne!(GameGathering::with_id(1).id, GameGathering::with_id(2).id);
}

#[test]
fn a_drawn_game_id_is_a_version_4_uuid() {
    for _ in 0..20 {
        let id = GameGathering::new().id;
        assert_eq!((id >> 76) & 0xF, 4);
        assert_eq!((id >> 62) & 0x3, 2);
        assert_eq!(id & 0xF000_C000_0000_0000_0000, 0x4000_8000_0000_0000_0000);
        assert_eq!(uuid::Uuid::from_u128(id).get_version_num(), 4);
    }
    match Game::new() {
        Game::Gathering(g) => assert_eq!((g.id >> 76) & 0xF, 4),
        other => panic!("{:?}", other),
    }
}

#[test]
fn new_games_gather() {
    assert!(matches!(Game::new(), Game::Gathering(_)));
    let a = GameGathering::new();
    let b = GameGathering::new();
    let c = GameGathering::new();
    assert!(a.id != b.id || b.id != c.id);
    let r = GameRunning::from_gathering(a, &vec!["x".to_string()], cards(&[7]));
    assert_eq!(r.table.hands[0].cards, cards(&[7]));
}

#[test]
fn a_party_draws_its_own_chances() {
    let (mut party, alice, _) = gathering();
    let out = party.handle(None, Event { id: 1, kind: EventKind::StartGame { auth_token: alice } });
    assert_eq!(out.len(), 2);
    let table = party.table().unwrap();
    assert_eq!(table.hands[0].cards.len(), 7);
    assert_eq!(table.hands[1].cards.len(), 7);
    assert_eq!(table.draw_pile.len(), 84);
    let mut values: Vec<u8> = table
        .draw_pile
        .iter()
        .chain(table.hands.iter().flat_map(|h| h.cards.iter()))
        .map(|c| c.value)
        .collect();
    values.sort();
    assert_eq!(values, (2..=99u8).collect::<Vec<u8>>());
    assert_eq!(out[1].event.id, out[0].event.id.wrapping_add(1));
}
