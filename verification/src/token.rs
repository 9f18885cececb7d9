//! Credentials: the token that a member gets when joining a party, and the
//! roster that binds each token of a party to one username.

use crate::seqs::{first_index, lemma_first_index, lemma_first_index_is, lemma_first_index_none};
use vstd::prelude::*;
use vstd::string::*;

verus! {

/// The credential of one member of one party. `realm` is the code of the
/// party that issued it, `serial` counts the tokens of that party, and
/// `secret` is a random draw that makes the token hard to guess.
#[derive(Debug, Clone, Copy, PartialEq, Eq, Structural)]
pub struct AuthToken {
    pub realm: u32,
    pub serial: u32,
    pub secret: u128,
}

/// Why an action was refused for want of authority.
#[derive(Debug, Clone, Copy, PartialEq, Eq, Structural)]
pub enum AuthError {
    /// The token is not bound to a member of the party.
    UnknownToken,
    /// The action is the owner's, and the token is not the owner's.
    NotOwner,
    /// The username is already used in the party.
    NameTaken,
    /// The action needs a token and came without one.
    MissingToken,
    /// The party has issued as many tokens as it can.
    RosterFull,
}

/// The text that goes out with each refusal.
pub open spec fn auth_reason(e: AuthError) -> Seq<char> {
    match e {
        AuthError::UnknownToken => "token is not known in this party"@,
        AuthError::NotOwner => "only the owner of the party may do this"@,
        AuthError::NameTaken => "username is already taken in this party"@,
        AuthError::MissingToken => "an auth token is required"@,
        AuthError::RosterFull => "the party cannot issue more tokens"@,
    }
}

impl AuthError {
    /// The text that goes out with this refusal.
    pub fn reason(&self) -> (text: String)
        ensures
            text@ == auth_reason(*self),
    {
        match self {
            AuthError::UnknownToken => "token is not known in this party".to_owned(),
            AuthError::NotOwner => "only the owner of the party may do this".to_owned(),
            AuthError::NameTaken => "username is already taken in this party".to_owned(),
            AuthError::MissingToken => "an auth token is required".to_owned(),
            AuthError::RosterFull => "the party cannot issue more tokens".to_owned(),
        }
    }
}

/// One member of a party: the name and the token bound to it.
#[derive(Debug)]
pub struct Member {
    pub username: String,
    pub token: AuthToken,
}

/// A member as contracts see it.
pub struct MemberView {
    pub username: Seq<char>,
    pub token: AuthToken,
}

impl View for Member {
    type V = MemberView;

    open spec fn view(&self) -> MemberView {
        MemberView { username: self.username@, token: self.token }
    }
}

/// The members of one party with their tokens, in the order in which they
/// joined.
#[derive(Debug)]
pub struct Roster {
    realm: u32,
    next_serial: u32,
    members: Vec<Member>,
}

/// A roster as contracts see it.
pub struct RosterView {
    pub realm: u32,
    pub next_serial: u32,
    pub members: Seq<MemberView>,
}

impl RosterView {
    /// The usernames, in joining order.
    pub open spec fn names(self) -> Seq<Seq<char>> {
        Seq::new(self.members.len(), |i: int| self.members[i].username)
    }

    /// The tokens, in joining order.
    pub open spec fn tokens(self) -> Seq<AuthToken> {
        Seq::new(self.members.len(), |i: int| self.members[i].token)
    }

    /// No username and no token occurs twice, and every token is one that
    /// this roster has issued.
    pub open spec fn wf(self) -> bool {
        &&& self.names().no_duplicates()
        &&& forall|i: int|
            0 <= i < self.members.len() ==> {
                &&& (#[trigger] self.members[i]).token.realm == self.realm
                &&& self.members[i].token.serial < self.next_serial
            }
        &&& forall|i: int, j: int|
            0 <= i < self.members.len() && 0 <= j < self.members.len() && i != j ==> (
            #[trigger] self.members[i]).token.serial != (#[trigger] self.members[j]).token.serial
    }

    /// The roster after `username` joined with a token made of `secret`, and
    /// that token; or why nobody joined.
    pub open spec fn issue(self, username: Seq<char>, secret: u128) -> Result<
        (RosterView, AuthToken),
        AuthError,
    > {
        if self.names().contains(username) {
            Err(AuthError::NameTaken)
        } else if self.next_serial == u32::MAX {
            Err(AuthError::RosterFull)
        } else {
            let token = AuthToken { realm: self.realm, serial: self.next_serial, secret };
            Ok(
                (
                    RosterView {
                        realm: self.realm,
                        next_serial: (self.next_serial + 1) as u32,
                        members: self.members.push(MemberView { username, token }),
                    },
                    token,
                ),
            )
        }
    }

    /// The place of the member that `token` is bound to.
    pub open spec fn index_of_token(self, token: AuthToken) -> Option<int> {
        first_index(self.tokens(), token)
    }

    /// The username that `token` is bound to.
    pub open spec fn verify(self, token: AuthToken) -> Result<Seq<char>, AuthError> {
        match self.index_of_token(token) {
            Some(i) => Ok(self.members[i].username),
            None => Err(AuthError::UnknownToken),
        }
    }

    /// The roster without the member that `token` is bound to.
    pub open spec fn revoke(self, token: AuthToken) -> RosterView {
        match self.index_of_token(token) {
            Some(i) => RosterView { members: self.members.remove(i), ..self },
            None => self,
        }
    }
}

impl View for Roster {
    type V = RosterView;

    closed spec fn view(&self) -> RosterView {
        RosterView {
            realm: self.realm,
            next_serial: self.next_serial,
            members: Seq::new(self.members@.len(), |i: int| self.members@[i]@),
        }
    }
}

impl Roster {
    /// An empty roster for the party whose code is `realm`.
    pub fn new(realm: u32) -> (r: Roster)
        ensures
            r@ == (RosterView { realm, next_serial: 0, members: Seq::empty() }),
            r@.wf(),
    {
        let r = Roster { realm, next_serial: 0, members: Vec::new() };
        proof {
            assert(r@.members =~= Seq::empty());
        }
        r
    }

    /// The roster of a new party whose code is `realm`: `owner` is its
    /// only member, with the first token, made of `secret`.
    pub fn founded(realm: u32, owner: String, secret: u128) -> (r: (Roster, AuthToken))
        ensures
            r.1 == (AuthToken { realm, serial: 0, secret }),
            r.0@ == (RosterView {
                realm,
                next_serial: 1,
                members: seq![MemberView { username: owner@, token: r.1 }],
            }),
            r.0@.wf(),
    {
        let token = AuthToken { realm, serial: 0, secret };
        let mut members: Vec<Member> = Vec::new();
        let ghost name = owner@;
        members.push(Member { username: owner, token });
        let roster = Roster { realm, next_serial: 1, members };
        proof {
            assert(roster@.members =~= seq![MemberView { username: name, token }]);
        }
        (roster, token)
    }

    /// The code of the party whose roster this is.
    pub fn realm(&self) -> (realm: u32)
        ensures
            realm == self@.realm,
    {
        self.realm
    }

    /// The usernames, in joining order.
    pub fn names(&self) -> (names: Vec<String>)
        ensures
            names@.len() == self@.members.len(),
            forall|i: int| 0 <= i < names@.len() ==> (#[trigger] names@[i])@ == self@.names()[i],
    {
        let mut names: Vec<String> = Vec::new();
        let mut i: usize = 0;
        while i < self.members.len()
            invariant
                i <= self.members.len(),
                names@.len() == i,
                forall|j: int| 0 <= j < i ==> (#[trigger] names@[j])@ == self@.names()[j],
            decreases self.members.len() - i,
        {
            names.push(self.members[i].username.clone());
            i += 1;
        }
        names
    }

    /// Number of members.
    pub fn len(&self) -> (n: usize)
        ensures
            n == self@.members.len(),
    {
        self.members.len()
    }

    /// The name of the member at place `i`.
    pub fn name_at(&self, i: usize) -> (name: &String)
        requires
            i < self@.members.len(),
        ensures
            name@ == self@.members[i as int].username,
    {
        &self.members[i].username
    }

    /// The place of `username` among the members.
    pub fn index_of_name(&self, username: &String) -> (r: Option<usize>)
        ensures
            match r {
                Some(i) => i < self@.members.len() && first_index(self@.names(), username@)
                    == Some(i as int),
                None => first_index(self@.names(), username@) is None,
            },
    {
        let mut i: usize = 0;
        while i < self.members.len()
            invariant
                i <= self.members.len(),
                forall|j: int| 0 <= j < i ==> self@.names()[j] != username@,
            decreases self.members.len() - i,
        {
            if self.members[i].username == *username {
                proof {
                    lemma_first_index_is(self@.names(), username@, i as int);
                }
                return Some(i);
            }
            i += 1;
        }
        proof {
            lemma_first_index_none(self@.names(), username@);
        }
        None
    }

    /// The place of the member that `token` is bound to.
    pub fn index_of_token(&self, token: &AuthToken) -> (r: Option<usize>)
        ensures
            match r {
                Some(i) => i < self@.members.len() && self@.index_of_token(*token) == Some(
                    i as int,
                ),
                None => self@.index_of_token(*token) is None,
            },
    {
        let mut i: usize = 0;
        while i < self.members.len()
            invariant
                i <= self.members.len(),
                forall|j: int| 0 <= j < i ==> self@.tokens()[j] != *token,
            decreases self.members.len() - i,
        {
            if self.members[i].token == *token {
                proof {
                    lemma_first_index_is(self@.tokens(), *token, i as int);
                }
                return Some(i);
            }
            i += 1;
        }
        proof {
            lemma_first_index_none(self@.tokens(), *token);
        }
        None
    }

    /// Binds a new token to `username` and adds the pair to the roster. The
    /// roster stays as it is when the name is taken or no serial is left.
    pub fn issue_token(&mut self, username: String, secret: u128) -> (r: Result<
        AuthToken,
        AuthError,
    >)
        requires
            old(self)@.wf(),
        ensures
            final(self)@.wf(),
            match old(self)@.issue(username@, secret) {
                Ok((after, token)) => r == Ok::<AuthToken, AuthError>(token) && final(self)@
                    == after,
                Err(e) => r == Err::<AuthToken, AuthError>(e) && final(self)@ == old(self)@,
            },
    {
        let found = self.index_of_name(&username);
        proof {
            lemma_first_index(self@.names(), username@);
        }
        if found.is_some() {
            return Err(AuthError::NameTaken);
        }
        if self.next_serial == u32::MAX {
            return Err(AuthError::RosterFull);
        }
        let token = AuthToken { realm: self.realm, serial: self.next_serial, secret };
        let ghost before = self@;
        let ghost name = username@;
        self.members.push(Member { username, token });
        self.next_serial = self.next_serial + 1;
        proof {
            let after = before.issue(name, secret)->Ok_0.0;
            assert(self@.members =~= after.members);
            assert(self@.names() =~= before.names().push(name));
        }
        Ok(token)
    }

    /// The username that `token` is bound to in this roster; an error for a
    /// token that is unknown here, as one of another party is.
    pub fn verify_token(&self, token: &AuthToken) -> (r: Result<String, AuthError>)
        ensures
            match self@.verify(*token) {
                Ok(name) => r matches Ok(n) && n@ == name,
                Err(e) => r == Err::<String, AuthError>(e),
            },
    {
        match self.index_of_token(token) {
            Some(i) => Ok(self.members[i].username.clone()),
            None => Err(AuthError::UnknownToken),
        }
    }

    /// Takes the member that `token` is bound to off the roster and hands
    /// it back; none for a token that is unknown here.
    pub fn revoke(&mut self, token: &AuthToken) -> (r: Option<Member>)
        requires
            old(self)@.wf(),
        ensures
            final(self)@.wf(),
            final(self)@ == old(self)@.revoke(*token),
            match old(self)@.index_of_token(*token) {
                Some(i) => r matches Some(m) && 0 <= i < old(self)@.members.len() && m@ == old(self)@.members[i],
                None => r is None,
            },
    {
        match self.index_of_token(token) {
            Some(i) => Some(self.remove_at(i)),
            None => None,
        }
    }

    /// Takes the member at place `i` off the roster and hands it back.
    pub fn remove_at(&mut self, i: usize) -> (m: Member)
        requires
            old(self)@.wf(),
            i < old(self)@.members.len(),
        ensures
            final(self)@.wf(),
            m@ == old(self)@.members[i as int],
            final(self)@ == (RosterView {
                members: old(self)@.members.remove(i as int),
                ..old(self)@
            }),
    {
        let ghost before = self@;
        let m = self.members.remove(i);
        proof {
            assert(self@.members =~= before.members.remove(i as int));
            assert forall|a: int, b: int|
                0 <= a < self@.members.len() && 0 <= b < self@.members.len() && a
                    != b implies self@.names()[a] != self@.names()[b] by {
                let a0 = if a < i { a } else { a + 1 };
                let b0 = if b < i { b } else { b + 1 };
                assert(self@.names()[a] == before.names()[a0]);
                assert(self@.names()[b] == before.names()[b0]);
            }
            assert forall|a: int| 0 <= a < self@.members.len() implies {
                &&& (#[trigger] self@.members[a]).token.realm == self@.realm
                &&& self@.members[a].token.serial < self@.next_serial
            } by {
                let a0 = if a < i { a } else { a + 1 };
                assert(self@.members[a] == before.members[a0]);
            }
            assert forall|a: int, b: int|
                0 <= a < self@.members.len() && 0 <= b < self@.members.len() && a != b implies (
            #[trigger] self@.members[a]).token.serial != (
            #[trigger] self@.members[b]).token.serial by {
                let a0 = if a < i { a } else { a + 1 };
                let b0 = if b < i { b } else { b + 1 };
                assert(self@.members[a] == before.members[a0]);
                assert(self@.members[b] == before.members[b0]);
            }
        }
        m
    }
}

} // verus!
