//! The vote on who begins: each player names one player, and once all have
//! voted the player with the most votes is active.

use crate::seqs::{first_index, lemma_first_index, lemma_first_index_is, lemma_first_index_none};
use crate::table::{
    find_hand, hands_view, players, voters, votes_view, GameState, GameStateView, Hand, Vote,
    VoteView,
};
use vstd::prelude::*;
use vstd::string::*;

verus! {

/// Why a vote was refused.
#[derive(Debug, Clone, Copy, PartialEq, Eq, Structural)]
pub enum VoteError {
    /// The active player has been decided.
    AlreadyDecided,
    /// The voter does not sit at the table.
    UnknownVoter,
    /// The nominee does not sit at the table.
    UnknownNominee,
}

/// The text that goes out with each refusal of a vote.
pub open spec fn vote_reason(e: VoteError) -> Seq<char> {
    match e {
        VoteError::AlreadyDecided => "the active player is already decided"@,
        VoteError::UnknownVoter => "the voter is not a player of this game"@,
        VoteError::UnknownNominee => "the nominee is not a player of this game"@,
    }
}

impl VoteError {
    /// The text that goes out with this refusal.
    pub fn reason(&self) -> (text: String)
        ensures
            text@ == vote_reason(*self),
    {
        match self {
            VoteError::AlreadyDecided => "the active player is already decided".to_owned(),
            VoteError::UnknownVoter => "the voter is not a player of this game".to_owned(),
            VoteError::UnknownNominee => "the nominee is not a player of this game".to_owned(),
        }
    }
}

/// Number of votes of `votes` for `nominee`.
pub open spec fn tally(votes: Seq<VoteView>, nominee: Seq<char>) -> nat
    decreases votes.len(),
{
    if votes.len() == 0 {
        0
    } else {
        tally(votes.drop_last(), nominee) + if votes.last().nominee == nominee {
            1nat
        } else {
            0nat
        }
    }
}

/// Whether the vote at place `w` decides: nobody has more votes than its
/// nominee, and every nominee of an earlier vote has fewer. So among the
/// nominees with the most votes it is the one that was named first.
pub open spec fn is_winner_at(votes: Seq<VoteView>, w: int) -> bool {
    &&& 0 <= w < votes.len()
    &&& forall|j: int|
        0 <= j < votes.len() ==> tally(votes, (#[trigger] votes[j]).nominee) <= tally(
            votes,
            votes[w].nominee,
        )
    &&& forall|j: int|
        0 <= j < w ==> tally(votes, (#[trigger] votes[j]).nominee) < tally(votes, votes[w].nominee)
}

/// The place of the vote that decides.
pub open spec fn winner_index(votes: Seq<VoteView>) -> int {
    choose|w: int| is_winner_at(votes, w)
}

/// The player that `votes` make active.
pub open spec fn winner(votes: Seq<VoteView>) -> Seq<char> {
    votes[winner_index(votes)].nominee
}

/// Whether each of `names` has a vote among `votes`.
pub open spec fn everyone_voted(names: Seq<Seq<char>>, votes: Seq<VoteView>) -> bool {
    forall|i: int| 0 <= i < names.len() ==> voters(votes).contains(#[trigger] names[i])
}

/// `votes` without the vote of `voter`, if there is one.
pub open spec fn without_voter(votes: Seq<VoteView>, voter: Seq<char>) -> Seq<VoteView> {
    match first_index(voters(votes), voter) {
        Some(i) => votes.remove(i),
        None => votes,
    }
}

impl GameStateView {
    /// The table after `voter` voted for `nominee`; or why the vote was
    /// refused. A new vote takes the place of the voter's earlier one and
    /// counts as cast last. Once every player has a vote, the winner is
    /// active.
    pub open spec fn vote(self, voter: Seq<char>, nominee: Seq<char>) -> Result<
        GameStateView,
        VoteError,
    > {
        if self.active_player is Some {
            Err(VoteError::AlreadyDecided)
        } else if !players(self.hands).contains(voter) {
            Err(VoteError::UnknownVoter)
        } else if !players(self.hands).contains(nominee) {
            Err(VoteError::UnknownNominee)
        } else {
            let votes = without_voter(self.votes, voter).push(VoteView { voter, nominee });
            Ok(
                GameStateView {
                    votes,
                    active_player: if everyone_voted(players(self.hands), votes) {
                        Some(winner(votes))
                    } else {
                        None
                    },
                    ..self
                },
            )
        }
    }
}

/// Only one vote decides.
pub proof fn lemma_winner_unique(votes: Seq<VoteView>, a: int, b: int)
    requires
        is_winner_at(votes, a),
        is_winner_at(votes, b),
    ensures
        a == b,
{
    if a < b {
        assert(tally(votes, votes[a].nominee) < tally(votes, votes[b].nominee));
        assert(tally(votes, votes[b].nominee) <= tally(votes, votes[a].nominee));
    } else if b < a {
        assert(tally(votes, votes[b].nominee) < tally(votes, votes[a].nominee));
        assert(tally(votes, votes[a].nominee) <= tally(votes, votes[b].nominee));
    }
}

/// A vote that decides is the one that `winner_index` gives.
pub proof fn lemma_winner_is(votes: Seq<VoteView>, w: int)
    requires
        is_winner_at(votes, w),
    ensures
        winner_index(votes) == w,
        winner(votes) == votes[w].nominee,
{
    lemma_winner_unique(votes, w, winner_index(votes));
}

/// The place of the vote of `voter` in `votes`.
pub fn find_vote(votes: &Vec<Vote>, voter: &String) -> (r: Option<usize>)
    ensures
        match r {
            Some(i) => i < votes.len() && first_index(voters(votes_view(votes@)), voter@)
                == Some(i as int),
            None => first_index(voters(votes_view(votes@)), voter@) is None,
        },
{
    let mut i: usize = 0;
    while i < votes.len()
        invariant
            i <= votes.len(),
            forall|j: int| 0 <= j < i ==> voters(votes_view(votes@))[j] != voter@,
        decreases votes.len() - i,
    {
        if votes[i].voter == *voter {
            proof {
                lemma_first_index_is(voters(votes_view(votes@)), voter@, i as int);
            }
            return Some(i);
        }
        i += 1;
    }
    proof {
        lemma_first_index_none(voters(votes_view(votes@)), voter@);
    }
    None
}

/// Number of votes of `votes` for `nominee`.
pub fn count_votes(votes: &Vec<Vote>, nominee: &String) -> (n: usize)
    ensures
        n == tally(votes_view(votes@), nominee@),
{
    let ghost all = votes_view(votes@);
    let mut n: usize = 0;
    let mut i: usize = 0;
    proof {
        assert(all.take(0) =~= Seq::<VoteView>::empty());
    }
    while i < votes.len()
        invariant
            i <= votes.len(),
            all == votes_view(votes@),
            n <= i,
            n == tally(all.take(i as int), nominee@),
        decreases votes.len() - i,
    {
        proof {
            assert(all.take(i + 1).drop_last() =~= all.take(i as int));
            assert(all.take(i + 1).last() == votes@[i as int]@);
        }
        if votes[i].nominee == *nominee {
            n += 1;
        }
        i += 1;
    }
    proof {
        assert(all.take(i as int) =~= all);
    }
    n
}

/// The place of the vote that decides among `votes`, of which there is at
/// least one.
pub fn find_winner(votes: &Vec<Vote>) -> (w: usize)
    requires
        votes.len() > 0,
    ensures
        is_winner_at(votes_view(votes@), w as int),
{
    let ghost all = votes_view(votes@);
    let mut best: usize = 0;
    let mut most: usize = count_votes(votes, &votes[0].nominee);
    let mut i: usize = 1;
    while i < votes.len()
        invariant
            1 <= i <= votes.len(),
            all == votes_view(votes@),
            best < i,
            most == tally(all, all[best as int].nominee),
            forall|j: int|
                0 <= j < i ==> tally(all, (#[trigger] all[j]).nominee) <= tally(
                    all,
                    all[best as int].nominee,
                ),
            forall|j: int|
                0 <= j < best ==> tally(all, (#[trigger] all[j]).nominee) < tally(
                    all,
                    all[best as int].nominee,
                ),
        decreases votes.len() - i,
    {
        let n = count_votes(votes, &votes[i].nominee);
        if n > most {
            best = i;
            most = n;
        }
        i += 1;
    }
    best
}

/// Whether each player of `hands` has a vote among `votes`.
pub fn has_everyone_voted(hands: &Vec<Hand>, votes: &Vec<Vote>) -> (r: bool)
    ensures
        r == everyone_voted(players(hands_view(hands@)), votes_view(votes@)),
{
    let ghost names = players(hands_view(hands@));
    let ghost cast = voters(votes_view(votes@));
    let mut i: usize = 0;
    while i < hands.len()
        invariant
            i <= hands.len(),
            names == players(hands_view(hands@)),
            cast == voters(votes_view(votes@)),
            forall|j: int| 0 <= j < i ==> cast.contains(#[trigger] names[j]),
        decreases hands.len() - i,
    {
        let found = find_vote(votes, &hands[i].player);
        proof {
            lemma_first_index(cast, names[i as int]);
        }
        if found.is_none() {
            assert(!cast.contains(names[i as int]));
            return false;
        }
        i += 1;
    }
    true
}

impl GameState {
    /// Records the vote of `voter` for `nominee` and, once every player has
    /// voted, makes the winner the active player. A vote that is refused
    /// leaves the table as it was.
    pub fn record_vote(&mut self, voter: &String, nominee: &String) -> (r: Result<(), VoteError>)
        requires
            old(self)@.wf(),
        ensures
            final(self)@.wf(),
            match old(self)@.vote(voter@, nominee@) {
                Ok(after) => r is Ok && final(self)@ == after,
                Err(e) => r == Err::<(), VoteError>(e) && final(self)@ == old(self)@,
            },
    {
        let ghost before = self@;
        proof {
            lemma_first_index(players(before.hands), voter@);
            lemma_first_index(players(before.hands), nominee@);
            lemma_first_index(voters(before.votes), voter@);
        }
        if self.active_player.is_some() {
            return Err(VoteError::AlreadyDecided);
        }
        if find_hand(&self.hands, voter).is_none() {
            return Err(VoteError::UnknownVoter);
        }
        if find_hand(&self.hands, nominee).is_none() {
            return Err(VoteError::UnknownNominee);
        }
        match find_vote(&self.votes, voter) {
            Some(i) => {
                self.votes.remove(i);
            },
            None => {},
        }
        let ghost kept = without_voter(before.votes, voter@);
        proof {
            assert(votes_view(self.votes@) =~= kept);
        }
        self.votes.push(Vote { voter: voter.clone(), nominee: nominee.clone() });
        let ghost cast = kept.push(VoteView { voter: voter@, nominee: nominee@ });
        proof {
            assert(votes_view(self.votes@) =~= cast);
            lemma_votes_stay_valid(before, voter@, nominee@);
        }
        if has_everyone_voted(&self.hands, &self.votes) {
            let w = find_winner(&self.votes);
            proof {
                lemma_winner_is(cast, w as int);
                assert(players(before.hands).contains(cast[w as int].nominee));
            }
            self.active_player = Some(self.votes[w].nominee.clone());
        }
        proof {
            assert(self@.hands == before.hands);
            assert(self@.draw_pile == before.draw_pile);
            assert forall|id: u8| self@.copies_of(id) <= 1 by {
                assert(before.copies_of(id) <= 1);
            }
        }
        Ok(())
    }
}

/// After a vote of a player for a player was recorded, the votes are still
/// at most one of each player, each for a player.
pub proof fn lemma_votes_stay_valid(table: GameStateView, voter: Seq<char>, nominee: Seq<char>)
    requires
        table.wf(),
        players(table.hands).contains(voter),
        players(table.hands).contains(nominee),
    ensures
        ({
            let cast = without_voter(table.votes, voter).push(VoteView { voter, nominee });
            &&& voters(cast).no_duplicates()
            &&& forall|i: int|
                0 <= i < cast.len() ==> {
                    &&& players(table.hands).contains((#[trigger] cast[i]).voter)
                    &&& players(table.hands).contains(cast[i].nominee)
                }
        }),
{
    let kept = without_voter(table.votes, voter);
    let cast = kept.push(VoteView { voter, nominee });
    lemma_first_index(voters(table.votes), voter);
    let gone = first_index(voters(table.votes), voter);
    assert forall|i: int| 0 <= i < kept.len() implies {
        &&& (#[trigger] kept[i]).voter != voter
        &&& players(table.hands).contains(kept[i].voter)
        &&& players(table.hands).contains(kept[i].nominee)
        &&& exists|i0: int| 0 <= i0 < table.votes.len() && table.votes[i0] == kept[i] && (i0 == i
            || i0 == i + 1) && (gone matches Some(g) ==> (i < g ==> i0 == i) && (i >= g ==> i0
            == i + 1)) && (gone is None ==> i0 == i)
    } by {
        match gone {
            Some(g) => {
                let i0 = if i < g {
                    i
                } else {
                    i + 1
                };
                assert(kept[i] == table.votes[i0]);
                assert(voters(table.votes)[i0] == kept[i].voter);
                if kept[i].voter == voter {
                    assert(voters(table.votes)[g] == voter);
                    assert(i0 != g);
                }
            },
            None => {
                assert(kept[i] == table.votes[i]);
                assert(voters(table.votes)[i] == kept[i].voter);
            },
        }
    }
    assert forall|a: int, b: int|
        0 <= a < cast.len() && 0 <= b < cast.len() && a != b implies voters(cast)[a] != voters(
        cast,
    )[b] by {
        if a < kept.len() && b < kept.len() {
            let a0 = choose|i0: int|
                0 <= i0 < table.votes.len() && table.votes[i0] == kept[a] && (i0 == a || i0 == a
                    + 1) && (gone matches Some(g) ==> (a < g ==> i0 == a) && (a >= g ==> i0 == a
                    + 1)) && (gone is None ==> i0 == a);
            let b0 = choose|i0: int|
                0 <= i0 < table.votes.len() && table.votes[i0] == kept[b] && (i0 == b || i0 == b
                    + 1) && (gone matches Some(g) ==> (b < g ==> i0 == b) && (b >= g ==> i0 == b
                    + 1)) && (gone is None ==> i0 == b);
            assert(a0 != b0);
            assert(voters(table.votes)[a0] == kept[a].voter);
            assert(voters(table.votes)[b0] == kept[b].voter);
        } else if a < kept.len() {
            assert(kept[a].voter != voter);
        } else {
            assert(kept[b].voter != voter);
        }
    }
}

} // verus!
