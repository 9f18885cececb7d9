//! The registry of live parties: it admits new parties under ids of their
//! own and hands each event to the party that it is for.

use crate::event::{
    outbound_view, Event, EventId, EventKind, EventKindView, EventView, Outbound, OutboundView,
};
use crate::ident::{
    code_of_id, id_of_code, is_party_id_format, lemma_code_round_trip, lemma_id_round_trip,
    PartyId, ID_SPACE,
};
use crate::party::{
    lemma_leave_keeps_identity, lemma_step_keeps_identity, Chance, ChanceView, Party, PartyView,
};
use crate::router::{answer, to_requester};
use crate::seqs::{first_index, lemma_first_index};
use crate::token::{auth_reason, AuthError, AuthToken};
use std::collections::HashMap;
use vstd::prelude::*;
use vstd::string::*;

verus! {

/// The error of a registry in which every id is taken.
#[derive(Debug, Clone, Copy, PartialEq, Eq, Structural)]
pub struct RegistryFull;

/// Why an event reached no party.
#[derive(Debug, Clone, Copy, PartialEq, Eq, Structural)]
pub enum RoutingError {
    /// No live party has the id.
    PartyNotFound,
}

/// The registry of the live parties, each under the code that its id
/// stands for.
#[derive(Debug)]
pub struct StateRaw {
    parties: HashMap<u32, Party>,
}

/// The registry as contracts see it: the parties by their codes.
pub struct RegistryView {
    pub parties: Map<u32, PartyView>,
}

impl View for StateRaw {
    type V = RegistryView;

    closed spec fn view(&self) -> RegistryView {
        RegistryView {
            parties: Map::new(
                |code: u32| self.parties@.contains_key(code),
                |code: u32| self.parties@[code]@,
            ),
        }
    }
}

/// The code that is tried at the `k`th attempt when the search for a free
/// id begins at the code `start`.
pub open spec fn probe(start: nat, k: nat) -> nat {
    (start + k) % (ID_SPACE as nat)
}

impl RegistryView {
    /// What holds of every registry: each party is valid and stands under
    /// the code that its id stands for and that its tokens carry. So no two
    /// parties share an id.
    pub open spec fn wf(self) -> bool {
        forall|code: u32| #[trigger]
            self.parties.contains_key(code) ==> {
                &&& code < ID_SPACE
                &&& self.parties[code].wf()
                &&& self.parties[code].roster.realm == code
                &&& self.parties[code].id == id_of_code(code as nat)
            }
    }

    /// The code under which the party with the id `id` stands, if there is
    /// such a party.
    pub open spec fn index_of(self, id: Seq<char>) -> Option<u32> {
        if is_party_id_format(id) && self.parties.contains_key(code_of_id(id) as u32) {
            Some(code_of_id(id) as u32)
        } else {
            None
        }
    }

    /// Whether no party has the id that stands for `code`.
    pub open spec fn is_free(self, code: nat) -> bool {
        !self.parties.contains_key(code as u32)
    }

    /// Whether the `k`th attempt from `start` is the first that finds a
    /// free id.
    pub open spec fn is_first_free(self, start: nat, k: nat) -> bool {
        &&& k < ID_SPACE
        &&& self.is_free(probe(start, k))
        &&& forall|j: nat| j < k ==> !self.is_free(#[trigger] probe(start, j))
    }

    /// The first attempt from `start` that finds a free id, if one does.
    pub open spec fn first_free(self, start: nat) -> Option<nat> {
        if exists|k: nat| self.is_first_free(start, k) {
            Some(choose|k: nat| self.is_first_free(start, k))
        } else {
            None
        }
    }

    /// The registry after a party was created for `owner`, with the id and
    /// the owner's token. The id is looked for from the code that `seed`
    /// stands for, upwards and round, until one is free.
    pub open spec fn create(self, owner: Seq<char>, seed: u128, secret: u128, game_id: u128) -> Result<
        (RegistryView, Seq<char>, AuthToken),
        RegistryFull,
    > {
        let start = (seed % (ID_SPACE as u128)) as nat;
        match self.first_free(start) {
            None => Err(RegistryFull),
            Some(k) => {
                let code = probe(start, k);
                let id = id_of_code(code);
                Ok(
                    (
                        RegistryView {
                            parties: self.parties.insert(
                                code as u32,
                                PartyView::created(id, code as u32, owner, secret, game_id),
                            ),
                        },
                        id,
                        AuthToken { realm: code as u32, serial: 0, secret },
                    ),
                )
            },
        }
    }

    /// The registry after the party with the id `party_id` took `event`,
    /// and the events that go out; or that there is no such party.
    pub open spec fn route(
        self,
        party_id: Seq<char>,
        credential: Option<AuthToken>,
        event: EventView,
        chance: ChanceView,
    ) -> Result<(RegistryView, Seq<OutboundView>), RoutingError> {
        match self.index_of(party_id) {
            None => Err(RoutingError::PartyNotFound),
            Some(code) => {
                let (party, out) = self.parties[code].handle(credential, event, chance);
                Ok((RegistryView { parties: self.parties.insert(code, party) }, out))
            },
        }
    }

    /// The registry without the party with the id `party_id`; or that there
    /// is no such party.
    pub open spec fn close(self, party_id: Seq<char>) -> Result<RegistryView, RoutingError> {
        match self.index_of(party_id) {
            None => Err(RoutingError::PartyNotFound),
            Some(code) => Ok(RegistryView { parties: self.parties.remove(code) }),
        }
    }

    /// The registry after the member who holds `token` left the party with
    /// the id `party_id`, and the events that go out; or that there is no
    /// such party.
    pub open spec fn disconnect(self, party_id: Seq<char>, token: AuthToken, base: EventId) -> Result<
        (RegistryView, Seq<OutboundView>),
        RoutingError,
    > {
        match self.index_of(party_id) {
            None => Err(RoutingError::PartyNotFound),
            Some(code) => {
                let (party, out) = self.parties[code].depart(token, base);
                Ok((RegistryView { parties: self.parties.insert(code, party) }, out))
            },
        }
    }
}

/// The text that goes out when no party can be created.
pub open spec fn full_reason() -> Seq<char> {
    "no id is left for a new party"@
}

/// The id of the party that an event is for: the id that the event names
/// if it names one; else the id that stands for the code in the token that
/// the event carries; else the same for the token that the connection
/// holds. An event without any of these is for no party.
pub open spec fn addressed_party(credential: Option<AuthToken>, kind: EventKindView) -> Result<
    Seq<char>,
    AuthError,
> {
    match kind {
        EventKindView::JoinParty { party_id, .. } => Ok(party_id),
        EventKindView::RejoinParty { party_id, .. } => Ok(party_id),
        EventKindView::StartGame { auth_token } => Ok(party_of_token(auth_token)),
        EventKindView::PlayCards { auth_token, .. } => Ok(party_of_token(auth_token)),
        EventKindView::SendMessage { auth_token, .. } => Ok(party_of_token(auth_token)),
        _ => match credential {
            Some(token) => Ok(party_of_token(token)),
            None => Err(AuthError::MissingToken),
        },
    }
}

/// The id of the party that issued `token`, if one did.
pub open spec fn party_of_token(token: AuthToken) -> Seq<char> {
    id_of_code((token.realm % ID_SPACE) as nat)
}

impl RegistryView {
    /// What the registry does with the event `event` that comes over a
    /// connection which holds `credential`: the registry afterwards, and
    /// the events that go out. A request for a new party is answered with
    /// its id and the owner's token. Any other event goes to the party that
    /// it is for. An event that cannot be taken is answered with the error
    /// that says why, for the sender alone.
    pub open spec fn dispatch(
        self,
        credential: Option<AuthToken>,
        event: EventView,
        chance: ChanceView,
    ) -> (RegistryView, Seq<OutboundView>) {
        let base = chance.event_base;
        let response_to = event.id;
        match event.kind {
            EventKindView::CreateParty { owner } => match self.create(
                owner,
                chance.id_seed,
                chance.secret,
                chance.game_id,
            ) {
                Ok((after, id, token)) => (
                    after,
                    to_requester(
                        EventKindView::PartyCreated { response_to, party_id: id, auth_token: token },
                        base,
                    ),
                ),
                Err(_) => (
                    self,
                    to_requester(
                        EventKindView::InvalidPlayError { response_to, reason: full_reason() },
                        base,
                    ),
                ),
            },
            _ => match addressed_party(credential, event.kind) {
                Err(e) => (
                    self,
                    to_requester(
                        EventKindView::AuthError { response_to, reason: auth_reason(e) },
                        base,
                    ),
                ),
                Ok(party_id) => match self.route(party_id, credential, event, chance) {
                    Ok((after, out)) => (after, out),
                    Err(_) => (
                        self,
                        to_requester(
                            EventKindView::PartyNotFoundError { response_to, party_id },
                            base,
                        ),
                    ),
                },
            },
        }
    }
}

/// The id of the party that issued `token`, if one did.
pub fn token_party(token: &AuthToken) -> (id: PartyId)
    ensures
        id@ == party_of_token(*token),
{
    PartyId::from_code(token.realm)
}

/// The id of the party that the event `kind` is for, when it comes over a
/// connection that holds `credential`.
pub fn address(credential: &Option<AuthToken>, kind: &EventKind) -> (r: Result<PartyId, AuthError>)
    ensures
        match addressed_party(*credential, kind@) {
            Ok(id) => r matches Ok(x) && x@ == id,
            Err(e) => r matches Err(x) && x == e,
        },
{
    match kind {
        EventKind::JoinParty { party_id, .. } => Ok(party_id.clone()),
        EventKind::RejoinParty { party_id, .. } => Ok(party_id.clone()),
        EventKind::StartGame { auth_token } => Ok(token_party(auth_token)),
        EventKind::PlayCards { auth_token, .. } => Ok(token_party(auth_token)),
        EventKind::SendMessage { auth_token, .. } => Ok(token_party(auth_token)),
        _ => match credential {
            Some(token) => Ok(token_party(token)),
            None => Err(AuthError::MissingToken),
        },
    }
}

/// The attempt that is known to be the first to find a free id is the one
/// that `first_free` gives.
pub proof fn lemma_first_free_is(registry: RegistryView, start: nat, k: nat)
    requires
        registry.is_first_free(start, k),
    ensures
        registry.first_free(start) == Some(k),
{
    let c = choose|c: nat| registry.is_first_free(start, c);
    if c < k {
        assert(!registry.is_free(probe(start, c)));
    } else if k < c {
        assert(!registry.is_free(probe(start, k)));
    }
}

/// Where one attempt finds a free id, some attempt is the first to do so.
pub proof fn lemma_first_free_exists(registry: RegistryView, start: nat, k: nat)
    requires
        k < ID_SPACE,
        registry.is_free(probe(start, k)),
    ensures
        registry.first_free(start) is Some,
    decreases k,
{
    if exists|j: nat| j < k && registry.is_free(probe(start, j)) {
        let j = choose|j: nat| j < k && registry.is_free(probe(start, j));
        lemma_first_free_exists(registry, start, j);
    } else {
        assert(registry.is_first_free(start, k));
    }
}

/// A party can be created exactly when some code's id is free: the search
/// tries every code.
pub proof fn law_create_fails_only_when_full(
    registry: RegistryView,
    owner: Seq<char>,
    seed: u128,
    secret: u128,
    game_id: u128,
)
    ensures
        registry.create(owner, seed, secret, game_id) is Err <==> forall|code: nat|
            code < ID_SPACE ==> !registry.is_free(code),
{
    let start = (seed % (ID_SPACE as u128)) as nat;
    if registry.first_free(start) is Some {
        let k = registry.first_free(start)->0;
        assert(registry.is_first_free(start, k));
        assert(probe(start, k) < ID_SPACE);
    } else {
        assert forall|code: nat| code < ID_SPACE implies !registry.is_free(code) by {
            let k: nat = if code >= start {
                (code - start) as nat
            } else {
                (code + ID_SPACE - start) as nat
            };
            assert(probe(start, k) == code);
            if registry.is_free(code) {
                lemma_first_free_exists(registry, start, k);
            }
        }
    }
}

/// A new party in a valid registry leaves the registry valid, and its id
/// is none that a party had before.
pub proof fn law_create_keeps_ids_apart(
    registry: RegistryView,
    owner: Seq<char>,
    seed: u128,
    secret: u128,
    game_id: u128,
)
    requires
        registry.wf(),
        registry.create(owner, seed, secret, game_id) is Ok,
    ensures
        registry.create(owner, seed, secret, game_id)->Ok_0.0.wf(),
        registry.index_of(registry.create(owner, seed, secret, game_id)->Ok_0.1) is None,
        forall|code: u32| #[trigger]
            registry.parties.contains_key(code) ==> registry.parties[code].id != registry.create(
                owner,
                seed,
                secret,
                game_id,
            )->Ok_0.1,
{
    let start = (seed % (ID_SPACE as u128)) as nat;
    let k = registry.first_free(start)->0;
    assert(registry.is_first_free(start, k));
    let code = probe(start, k);
    let id = id_of_code(code);
    let (after, _, _) = registry.create(owner, seed, secret, game_id)->Ok_0;
    let party = PartyView::created(id, code as u32, owner, secret, game_id);
    assert(party.roster.names() =~= seq![owner]);
    assert(party.wf());
    lemma_code_round_trip(code);
    assert forall|c: u32| #[trigger] registry.parties.contains_key(c) implies registry.parties[c].id
        != id by {
        lemma_code_round_trip(c as nat);
    }
}

/// In a valid registry a token is bound to one member of one party: two
/// places that hold the same token are the same place.
pub proof fn law_token_names_one_member(registry: RegistryView, i: u32, a: int, j: u32, b: int)
    requires
        registry.wf(),
        registry.parties.contains_key(i),
        registry.parties.contains_key(j),
        0 <= a < registry.parties[i].roster.members.len(),
        0 <= b < registry.parties[j].roster.members.len(),
        registry.parties[i].roster.members[a].token == registry.parties[j].roster.members[b].token,
    ensures
        i == j,
        a == b,
{
    let p = registry.parties[i];
    let q = registry.parties[j];
    assert(p.roster.members[a].token.realm == p.roster.realm);
    assert(q.roster.members[b].token.realm == q.roster.realm);
}

/// A party that is closed takes its tokens with it: the registry stays
/// valid, the id is free again, and no party that is left knows a token
/// that the closed party had issued.
pub proof fn law_close_revokes_tokens(registry: RegistryView, party_id: Seq<char>, a: int, j: u32)
    requires
        registry.wf(),
        registry.close(party_id) is Ok,
        0 <= a < registry.parties[registry.index_of(party_id)->0].roster.members.len(),
        registry.close(party_id)->Ok_0.parties.contains_key(j),
    ensures
        registry.close(party_id)->Ok_0.wf(),
        registry.close(party_id)->Ok_0.index_of(party_id) is None,
        registry.close(party_id)->Ok_0.parties[j].roster.verify(
            registry.parties[registry.index_of(party_id)->0].roster.members[a].token,
        ) is Err,
{
    let i = registry.index_of(party_id)->0;
    let after = registry.close(party_id)->Ok_0;
    let token = registry.parties[i].roster.members[a].token;
    let other = after.parties[j];
    assert(registry.parties.contains_key(j) && other == registry.parties[j]);
    lemma_first_index(other.roster.tokens(), token);
    if other.roster.verify(token) is Ok {
        let b = first_index(other.roster.tokens(), token)->0;
        assert(other.roster.tokens()[b] == token);
        law_token_names_one_member(registry, i, a, j, b);
    }
}

/// Parties do not touch one another: an event for one party leaves every
/// other party as it was, and two events for two different parties can be
/// taken in either order, with the same registry and the same events
/// going out in the end.
pub proof fn law_parties_are_independent(
    registry: RegistryView,
    first: Seq<char>,
    first_credential: Option<AuthToken>,
    first_event: EventView,
    first_chance: ChanceView,
    second: Seq<char>,
    second_credential: Option<AuthToken>,
    second_event: EventView,
    second_chance: ChanceView,
)
    requires
        first != second,
        registry.route(first, first_credential, first_event, first_chance) is Ok,
        registry.route(second, second_credential, second_event, second_chance) is Ok,
    ensures
        ({
            let (one, out_one) = registry.route(
                first,
                first_credential,
                first_event,
                first_chance,
            )->Ok_0;
            let (other, out_other) = registry.route(
                second,
                second_credential,
                second_event,
                second_chance,
            )->Ok_0;
            &&& forall|code: u32|
                registry.parties.contains_key(code) && registry.index_of(first) != Some(code)
                    ==> one.parties.contains_key(code) && #[trigger] one.parties[code]
                    == registry.parties[code]
            &&& one.route(second, second_credential, second_event, second_chance) is Ok
            &&& other.route(first, first_credential, first_event, first_chance) is Ok
            &&& one.route(second, second_credential, second_event, second_chance)->Ok_0.1
                == out_other
            &&& other.route(first, first_credential, first_event, first_chance)->Ok_0.1 == out_one
            &&& one.route(second, second_credential, second_event, second_chance)->Ok_0.0
                == other.route(first, first_credential, first_event, first_chance)->Ok_0.0
        }),
{
    let i = registry.index_of(first)->0;
    let j = registry.index_of(second)->0;
    lemma_id_round_trip(first);
    lemma_id_round_trip(second);
    assert(i != j);
    let (one, out_one) = registry.route(first, first_credential, first_event, first_chance)->Ok_0;
    let (other, out_other) = registry.route(
        second,
        second_credential,
        second_event,
        second_chance,
    )->Ok_0;
    let end = one.route(second, second_credential, second_event, second_chance)->Ok_0.0;
    let same = other.route(first, first_credential, first_event, first_chance)->Ok_0.0;
    assert(end.parties =~= same.parties);
}

impl StateRaw {
    /// An empty registry.
    pub fn init() -> (registry: StateRaw)
        ensures
            registry@.parties == Map::<u32, PartyView>::empty(),
            registry@.wf(),
    {
        let registry = StateRaw { parties: HashMap::new() };
        proof {
            assert(registry@.parties =~= Map::<u32, PartyView>::empty());
        }
        registry
    }

    /// Number of live parties.
    pub fn len(&self) -> (n: usize)
        ensures
            n == self@.parties.len(),
    {
        proof {
            assert(self@.parties.dom() =~= self.parties@.dom());
        }
        self.parties.len()
    }

    /// Takes the party that stands under `code` out of the registry, if
    /// there is one.
    fn take(&mut self, code: u32) -> (r: Option<Party>)
        ensures
            match r {
                Some(party) => old(self)@.parties.contains_key(code) && party@ == old(self)@.parties[code] && final(self)@.parties == old(self)@.parties.remove(code),
                None => !old(self)@.parties.contains_key(code) && final(self)@ == old(self)@,
            },
    {
        if !self.parties.contains_key(&code) {
            return None;
        }
        let r = self.parties.remove(&code);
        proof {
            assert(self@.parties =~= old(self)@.parties.remove(code));
        }
        r
    }

    /// Puts `party` into the registry under `code`.
    fn put(&mut self, code: u32, party: Party)
        ensures
            final(self)@.parties == old(self)@.parties.insert(code, party@),
    {
        self.parties.insert(code, party);
        proof {
            assert(self@.parties =~= old(self)@.parties.insert(code, party@));
        }
    }

    /// The party with the id `id`, if there is one.
    pub fn find(&self, id: &PartyId) -> (r: Option<&Party>)
        ensures
            match self@.index_of(id@) {
                Some(code) => r matches Some(party) && party@ == self@.parties[code] && (
                self@.wf() ==> party@.id == id@),
                None => r is None,
            },
    {
        let code = id.code();
        self.parties.get(&code)
    }

    /// The first attempt, counted from 0, that finds a free id when the
    /// search begins at the code `start` and goes upwards and round; none
    /// where every id is taken.
    pub fn find_free(&self, start: u32) -> (r: Option<u32>)
        requires
            start < ID_SPACE,
        ensures
            match r {
                Some(k) => self@.first_free(start as nat) == Some(k as nat) && k < ID_SPACE,
                None => self@.first_free(start as nat) is None,
            },
    {
        let ghost registry = self@;
        let mut k: u32 = 0;
        while k < ID_SPACE
            invariant
                k <= ID_SPACE,
                start < ID_SPACE,
                registry == self@,
                forall|j: nat| j < k ==> !registry.is_free(#[trigger] probe(start as nat, j)),
            decreases ID_SPACE - k,
        {
            let code: u32 = (start + k) % ID_SPACE;
            if !self.parties.contains_key(&code) {
                proof {
                    assert(registry.is_first_free(start as nat, k as nat));
                    lemma_first_free_is(registry, start as nat, k as nat);
                }
                return Some(k);
            }
            k += 1;
        }
        proof {
            if registry.first_free(start as nat) is Some {
                let c = registry.first_free(start as nat)->0;
                assert(registry.is_first_free(start as nat, c));
            }
        }
        None
    }

    /// Creates a party for `owner` with the random draws `seed`, `secret`
    /// and `game_id`, and hands back its id and the owner's token. The id
    /// is looked for from the code that `seed` stands for, upwards and
    /// round, until one is free; only a registry in which every id is taken
    /// creates none.
    pub fn create_party_with(
        &mut self,
        owner: String,
        seed: u128,
        secret: u128,
        game_id: u128,
    ) -> (r: Result<(PartyId, AuthToken), RegistryFull>)
        requires
            old(self)@.wf(),
        ensures
            final(self)@.wf(),
            match old(self)@.create(owner@, seed, secret, game_id) {
                Ok((after, id, token)) => r matches Ok(pair) && pair.0@ == id && pair.1 == token
                    && final(self)@ == after,
                Err(e) => r is Err && final(self)@ == old(self)@,
            },
            r is Err <==> forall|code: nat| code < ID_SPACE ==> !old(self)@.is_free(code),
    {
        let ghost before = self@;
        let start: u32 = (seed % (ID_SPACE as u128)) as u32;
        proof {
            law_create_fails_only_when_full(before, owner@, seed, secret, game_id);
        }
        let k = match self.find_free(start) {
            Some(k) => k,
            None => {
                return Err(RegistryFull);
            },
        };
        proof {
            law_create_keeps_ids_apart(before, owner@, seed, secret, game_id);
        }
        let code: u32 = (start + k) % ID_SPACE;
        let id = PartyId::from_code(code);
        let (party, token) = Party::create(id.clone(), code, owner, secret, game_id);
        self.put(code, party);
        Ok((id, token))
    }

    /// Creates a party for `owner` and hands back its id and the owner's
    /// token. The random draws are made here.
    pub fn create_party(&mut self, owner: String) -> (r: Result<(PartyId, AuthToken), RegistryFull>)
        requires
            old(self)@.wf(),
        ensures
            final(self)@.wf(),
            exists|seed: u128, secret: u128, game_id: u128|
                match #[trigger] old(self)@.create(owner@, seed, secret, game_id) {
                    Ok((after, id, token)) => r matches Ok(pair) && pair.0@ == id && pair.1
                        == token && final(self)@ == after,
                    Err(e) => r is Err && final(self)@ == old(self)@,
                },
            r is Err <==> forall|code: nat| code < ID_SPACE ==> !old(self)@.is_free(code),
    {
        let seed = crate::ident::random_u128();
        let secret = crate::ident::random_u128();
        let game_id = crate::ident::random_u128();
        let r = self.create_party_with(owner, seed, secret, game_id);
        proof {
            assert(match old(self)@.create(owner@, seed, secret, game_id) {
                Ok((after, id, token)) => r matches Ok(pair) && pair.0@ == id && pair.1 == token
                    && self@ == after,
                Err(e) => r is Err && self@ == old(self)@,
            });
        }
        r
    }

    /// Hands `event`, which came over a connection that holds
    /// `credential`, to the party with the id `party_id`, with the random
    /// draws `chance`, and gives the events that go out.
    pub fn route_with(
        &mut self,
        party_id: &PartyId,
        credential: Option<AuthToken>,
        event: Event,
        chance: Chance,
    ) -> (r: Result<Vec<Outbound>, RoutingError>)
        requires
            old(self)@.wf(),
            chance@.wf(),
        ensures
            final(self)@.wf(),
            match old(self)@.route(party_id@, credential, event@, chance@) {
                Ok((after, out)) => r matches Ok(o) && outbound_view(o@) == out && final(self)@
                    == after,
                Err(e) => r == Err::<Vec<Outbound>, RoutingError>(e) && final(self)@ == old(self)@,
            },
    {
        let ghost before = self@;
        let code = party_id.code();
        let mut party = match self.take(code) {
            Some(party) => party,
            None => {
                return Err(RoutingError::PartyNotFound);
            },
        };
        proof {
            lemma_step_keeps_identity(before.parties[code], credential, event@.kind, chance@);
        }
        let out = party.handle_with(credential, event, chance);
        proof {
            assert(before.parties.remove(code).insert(code, party@) =~= before.parties.insert(
                code,
                party@,
            ));
        }
        self.put(code, party);
        Ok(out)
    }

    /// Hands `event` to the party with the id `party_id` and gives the
    /// events that go out. The random draws are made here; whatever they
    /// are, the deck that a game starts with is the full deck in some
    /// order.
    pub fn route(&mut self, party_id: &PartyId, credential: Option<AuthToken>, event: Event) -> (r:
        Result<Vec<Outbound>, RoutingError>)
        requires
            old(self)@.wf(),
        ensures
            final(self)@.wf(),
            exists|chance: ChanceView|
                {
                    &&& chance.wf()
                    &&& event@.kind is StartGame ==> chance.deck.to_multiset()
                        == crate::deal::standard_deck_spec().to_multiset()
                    &&& match #[trigger] old(self)@.route(party_id@, credential, event@, chance) {
                        Ok((after, out)) => r matches Ok(o) && outbound_view(o@) == out && final(self)@ == after,
                        Err(e) => r == Err::<Vec<Outbound>, RoutingError>(e) && final(self)@
                            == old(self)@,
                    }
                },
    {
        let chance = Chance::draw_for(&event.kind);
        let ghost drawn = chance@;
        let r = self.route_with(party_id, credential, event, chance);
        proof {
            assert(match old(self)@.route(party_id@, credential, event@, drawn) {
                Ok((after, out)) => r matches Ok(o) && outbound_view(o@) == out && self@ == after,
                Err(e) => r == Err::<Vec<Outbound>, RoutingError>(e) && self@ == old(self)@,
            });
        }
        r
    }

    /// Closes the party with the id `party_id` and hands it back. Its id
    /// is free again, and its tokens are known nowhere.
    pub fn close_party(&mut self, party_id: &PartyId) -> (r: Result<Party, RoutingError>)
        requires
            old(self)@.wf(),
        ensures
            final(self)@.wf(),
            match old(self)@.close(party_id@) {
                Ok(after) => r matches Ok(party) && party@ == old(self)@.parties[old(self)@.index_of(
                    party_id@,
                )->0] && final(self)@ == after,
                Err(e) => r matches Err(x) && x == e && final(self)@ == old(self)@,
            },
    {
        let code = party_id.code();
        match self.take(code) {
            Some(party) => Ok(party),
            None => Err(RoutingError::PartyNotFound),
        }
    }

    /// Takes the event `event` that came over a connection which holds
    /// `credential`, with the random draws `chance`: creates a party, or
    /// hands the event to the party that it is for, and gives the events
    /// that go out.
    pub fn dispatch_with(&mut self, credential: Option<AuthToken>, event: Event, chance: Chance) -> (out:
        Vec<Outbound>)
        requires
            old(self)@.wf(),
            chance@.wf(),
        ensures
            final(self)@.wf(),
            (final(self)@, outbound_view(out@)) == old(self)@.dispatch(credential, event@, chance@),
    {
        let base = chance.event_base;
        let response_to = event.id;
        let target = address(&credential, &event.kind);
        match event.kind {
            EventKind::CreateParty { owner } => {
                match self.create_party_with(owner, chance.id_seed, chance.secret, chance.game_id) {
                    Ok((party_id, auth_token)) => answer(
                        EventKind::PartyCreated { response_to, party_id, auth_token },
                        base,
                    ),
                    Err(_) => answer(
                        EventKind::InvalidPlayError {
                            response_to,
                            reason: "no id is left for a new party".to_owned(),
                        },
                        base,
                    ),
                }
            },
            kind => {
                match target {
                    Err(e) => answer(EventKind::AuthError { response_to, reason: e.reason() }, base),
                    Ok(party_id) => {
                        let event = Event { id: response_to, kind };
                        match self.route_with(&party_id, credential, event, chance) {
                            Ok(out) => out,
                            Err(_) => answer(
                                EventKind::PartyNotFoundError {
                                    response_to,
                                    party_id: party_id.as_str().to_owned(),
                                },
                                base,
                            ),
                        }
                    },
                }
            },
        }
    }

    /// Takes the event `event` that came over a connection which holds
    /// `credential` and gives the events that go out. The random draws are
    /// made here; whatever they are, the deck that a game starts with is
    /// the full deck in some order.
    pub fn dispatch(&mut self, credential: Option<AuthToken>, event: Event) -> (out: Vec<Outbound>)
        requires
            old(self)@.wf(),
        ensures
            final(self)@.wf(),
            exists|chance: ChanceView|
                {
                    &&& chance.wf()
                    &&& event@.kind is StartGame ==> chance.deck.to_multiset()
                        == crate::deal::standard_deck_spec().to_multiset()
                    &&& (final(self)@, outbound_view(out@)) == #[trigger] old(self)@.dispatch(
                        credential,
                        event@,
                        chance,
                    )
                },
    {
        let chance = Chance::draw_for(&event.kind);
        let ghost drawn = chance@;
        let out = self.dispatch_with(credential, event, chance);
        proof {
            assert((self@, outbound_view(out@)) == old(self)@.dispatch(credential, event@, drawn));
        }
        out
    }

    /// Takes the member who holds `token` out of the party with the id
    /// `party_id`, as when the member's connection is lost, and gives the
    /// events that go out, whose ids count up from `base`.
    pub fn disconnect(&mut self, party_id: &PartyId, token: AuthToken, base: EventId) -> (r: Result<
        Vec<Outbound>,
        RoutingError,
    >)
        requires
            old(self)@.wf(),
        ensures
            final(self)@.wf(),
            match old(self)@.disconnect(party_id@, token, base) {
                Ok((after, out)) => r matches Ok(o) && outbound_view(o@) == out && final(self)@
                    == after,
                Err(e) => r == Err::<Vec<Outbound>, RoutingError>(e) && final(self)@ == old(self)@,
            },
    {
        let ghost before = self@;
        let code = party_id.code();
        let mut party = match self.take(code) {
            Some(party) => party,
            None => {
                return Err(RoutingError::PartyNotFound);
            },
        };
        proof {
            lemma_leave_keeps_identity(before.parties[code], token);
        }
        let out = party.depart(token, base);
        proof {
            assert(before.parties.remove(code).insert(code, party@) =~= before.parties.insert(
                code,
                party@,
            ));
        }
        self.put(code, party);
        Ok(out)
    }
}

} // verus!
