//! The persisted entries of the market as plain values: what is written to
//! the key-value store after an invocation and read back before the next.

use vstd::prelude::*;
use crate::model::State;
use crate::precision::predictions_valid;
use crate::settlement::enumerates;
use crate::settlement::lemma_staked_agrees;
use crate::settlement::lemma_staked_same_for_every_listing;
use crate::settlement::owed;
use crate::settlement::pools_cover;
use crate::settlement::record_of;
use crate::settlement::stake_on;
use crate::settlement::staked_on;
use crate::store::entries_map;
use crate::store::keys_distinct;
use crate::store::lemma_entries_map;
use crate::store::lists_key;
use crate::types::Address;
use crate::types::BetSide;
use crate::types::PrecisionPrediction;
use crate::types::Round;
use crate::types::RoundMode;
use crate::types::UserPosition;
use crate::types::UserStats;
use crate::types::Windows;

verus! {

/// Every entry that the market persists.
pub struct Snapshot {
    pub admin: Option<Address>,
    pub oracle: Option<Address>,
    pub windows: Option<Windows>,
    pub last_round_id: u64,
    pub active_round: Option<Round>,
    /// The positions of the active Up/Down round.
    pub positions: Vec<(Address, UserPosition)>,
    /// The predictions of the active Precision round, in order of arrival.
    pub predictions: Vec<PrecisionPrediction>,
    pub balances: Vec<(Address, i128)>,
    pub pending_winnings: Vec<(Address, i128)>,
    pub user_stats: Vec<(Address, UserStats)>,
}

/// The stakes on `side` of the listed positions, added up.
pub open spec fn staked_in(entries: Seq<(Address, UserPosition)>, side: BetSide) -> int
    decreases entries.len(),
{
    if entries.len() == 0 {
        0
    } else {
        staked_in(entries.drop_last(), side) + stake_on(entries.last().1, side)
    }
}

/// The addresses of the listed entries, in the order of the list.
pub open spec fn listed_users<T>(entries: Seq<(Address, T)>) -> Seq<Address> {
    Seq::new(entries.len(), |i: int| entries[i].0)
}

impl Snapshot {
    /// The market that the entries describe.
    pub open spec fn state(&self) -> State {
        State {
            admin: self.admin,
            oracle: self.oracle,
            windows: self.windows,
            last_round_id: self.last_round_id,
            active_round: self.active_round,
            positions: entries_map(self.positions@),
            predictions: self.predictions@,
            balances: entries_map(self.balances@),
            pending: Map::total(|a: Address| owed(entries_map(self.pending_winnings@), a)),
            stats: Map::total(|a: Address| record_of(entries_map(self.user_stats@), a)),
        }
    }

    /// The entries describe a market in which the invariant holds, and no
    /// address is listed with two positions.
    pub open spec fn valid(&self) -> bool {
        &&& self.windows is Some ==> self.windows->Some_0.valid()
        &&& match self.active_round {
            Some(round) => {
                &&& round.valid()
                &&& round.round_id == self.last_round_id
                &&& round.mode == RoundMode::UpDown ==> self.predictions@.len() == 0
                &&& round.mode == RoundMode::Precision ==> self.positions@.len() == 0
                &&& staked_in(self.positions@, BetSide::Up) <= round.pool_up
                &&& staked_in(self.positions@, BetSide::Down) <= round.pool_down
            },
            None => self.positions@.len() == 0 && self.predictions@.len() == 0,
        }
        &&& keys_distinct(self.positions@)
        &&& forall|i: int|
            0 <= i < self.positions@.len() ==> (#[trigger] self.positions@[i]).1.amount > 0
        &&& predictions_valid(self.predictions@)
        &&& forall|i: int| 0 <= i < self.balances@.len() ==> (#[trigger] self.balances@[i]).1 >= 0
        &&& forall|i: int|
            0 <= i < self.pending_winnings@.len() ==> (#[trigger] self.pending_winnings@[i]).1 >= 0
        &&& forall|i: int|
            0 <= i < self.user_stats@.len() ==> (#[trigger] self.user_stats@[i]).1.valid()
    }
}

/// Every value in the map of a list of entries is one of the listed values.
pub proof fn lemma_entries_map_values<T>(entries: Seq<(Address, T)>, a: Address)
    requires
        entries_map(entries).contains_key(a),
    ensures
        exists|i: int| 0 <= i < entries.len() && (#[trigger] entries[i]).1 == entries_map(entries)[a],
    decreases entries.len(),
{
    if entries.len() > 0 {
        let n = entries.len() - 1;
        if a == entries[n].0 {
            assert(entries[n].1 == entries_map(entries)[a]);
        } else {
            let before = entries.drop_last();
            lemma_entries_map_values(before, a);
            let i = choose|i: int|
                0 <= i < before.len() && (#[trigger] before[i]).1 == entries_map(before)[a];
            assert(entries[i].1 == entries_map(entries)[a]);
        }
    }
}

/// The listed positions, each address once, are one listing of their map,
/// and their stakes add up to what that listing adds up to.
pub proof fn lemma_staked_in_is_staked_on(entries: Seq<(Address, UserPosition)>, side: BetSide)
    requires
        keys_distinct(entries),
    ensures
        enumerates(listed_users(entries), entries_map(entries)),
        staked_in(entries, side) == staked_on(listed_users(entries), entries_map(entries), side),
    decreases entries.len(),
{
    let users = listed_users(entries);
    let map = entries_map(entries);
    lemma_entries_map(entries);
    assert(users.no_duplicates()) by {
        assert forall|i: int, j: int| 0 <= i < users.len() && 0 <= j < users.len() && i != j implies users[i]
            != users[j] by {
            assert(entries[i].0 != entries[j].0);
        }
    }
    assert forall|a: Address| users.contains(a) <==> map.contains_key(a) by {
        if users.contains(a) {
            let i = users.index_of(a);
            assert(0 <= i < entries.len() && entries[i].0 == a);
            assert(lists_key(entries, a));
        }
        if map.contains_key(a) {
            assert(lists_key(entries, a));
            let i = choose|i: int| 0 <= i < entries.len() && (#[trigger] entries[i]).0 == a;
            assert(users[i] == a);
        }
    }
    if entries.len() > 0 {
        let before = entries.drop_last();
        let n = entries.len() - 1;
        assert(keys_distinct(before)) by {
            assert forall|i: int, j: int|
                0 <= i < before.len() && 0 <= j < before.len() && i != j implies (
            #[trigger] before[i]).0 != (#[trigger] before[j]).0 by {
                assert(before[i] == entries[i]);
                assert(before[j] == entries[j]);
            }
        }
        lemma_staked_in_is_staked_on(before, side);
        assert(users.drop_last() =~= listed_users(before));
        assert forall|j: int| 0 <= j < listed_users(before).len() implies entries_map(before)[
        #[trigger] listed_users(before)[j]] == map[listed_users(before)[j]] by {
            assert(entries[j].0 != entries[n].0);
        }
        lemma_staked_agrees(listed_users(before), entries_map(before), map, side);
        assert(map[users.last()] == entries[n].1);
    }
}

/// Where the listed positions stake no more on each side than the pools
/// hold, the pools cover their map however it is listed.
pub proof fn lemma_listed_positions_are_covered(
    entries: Seq<(Address, UserPosition)>,
    pool_up: int,
    pool_down: int,
)
    requires
        keys_distinct(entries),
        staked_in(entries, BetSide::Up) <= pool_up,
        staked_in(entries, BetSide::Down) <= pool_down,
    ensures
        pools_cover(entries_map(entries), pool_up, pool_down),
{
    let map = entries_map(entries);
    lemma_staked_in_is_staked_on(entries, BetSide::Up);
    lemma_staked_in_is_staked_on(entries, BetSide::Down);
    assert forall|users: Seq<Address>| #[trigger] enumerates(users, map) implies staked_on(
        users,
        map,
        BetSide::Up,
    ) <= pool_up && staked_on(users, map, BetSide::Down) <= pool_down by {
        lemma_staked_same_for_every_listing(users, listed_users(entries), map, BetSide::Up);
        lemma_staked_same_for_every_listing(users, listed_users(entries), map, BetSide::Down);
    }
}

/// A snapshot that is valid describes a market in which the invariant holds.
pub proof fn lemma_valid_snapshot_state(snapshot: Snapshot)
    requires
        snapshot.valid(),
    ensures
        snapshot.state().inv(),
{
    let state = snapshot.state();
    lemma_entries_map(snapshot.positions@);
    assert forall|a: Address| state.positions.contains_key(a) implies (
    #[trigger] state.positions[a]).amount > 0 by {
        lemma_entries_map_values(snapshot.positions@, a);
    }
    assert forall|a: Address| state.balances.contains_key(a) implies 0
        <= #[trigger] state.balances[a] by {
        lemma_entries_map_values(snapshot.balances@, a);
    }
    assert forall|a: Address| 0 <= #[trigger] state.pending[a] by {
        if entries_map(snapshot.pending_winnings@).contains_key(a) {
            lemma_entries_map_values(snapshot.pending_winnings@, a);
        }
    }
    assert forall|a: Address| (#[trigger] state.stats[a]).valid() by {
        if entries_map(snapshot.user_stats@).contains_key(a) {
            lemma_entries_map_values(snapshot.user_stats@, a);
        }
    }
    match snapshot.active_round {
        Some(round) => {
            lemma_listed_positions_are_covered(
                snapshot.positions@,
                round.pool_up as int,
                round.pool_down as int,
            );
            if round.mode == RoundMode::Precision {
                assert(state.positions =~= Map::<Address, UserPosition>::empty());
            }
        },
        None => {
            assert(state.positions =~= Map::<Address, UserPosition>::empty());
        },
    }
}

/// The first entries of a list of positive stakes never add up to more than
/// the whole list.
proof fn lemma_staked_in_prefix(entries: Seq<(Address, UserPosition)>, side: BetSide, upto: int)
    requires
        forall|i: int| 0 <= i < entries.len() ==> (#[trigger] entries[i]).1.amount > 0,
        0 <= upto <= entries.len(),
    ensures
        0 <= staked_in(entries.subrange(0, upto), side) <= staked_in(entries, side),
    decreases entries.len() - upto,
{
    if upto == entries.len() {
        assert(entries.subrange(0, upto) =~= entries);
        lemma_staked_in_not_negative(entries, side);
    } else {
        lemma_staked_in_prefix(entries, side, upto + 1);
        assert(entries.subrange(0, upto + 1).drop_last() =~= entries.subrange(0, upto));
        assert(entries.subrange(0, upto + 1).last() == entries[upto]);
        assert(entries[upto].1.amount > 0);
        assert forall|i: int| 0 <= i < upto implies (#[trigger] entries.subrange(0, upto)[i]).1.amount
            > 0 by {
            assert(entries.subrange(0, upto)[i] == entries[i]);
        }
        lemma_staked_in_not_negative(entries.subrange(0, upto), side);
    }
}

proof fn lemma_staked_in_not_negative(entries: Seq<(Address, UserPosition)>, side: BetSide)
    requires
        forall|i: int| 0 <= i < entries.len() ==> (#[trigger] entries[i]).1.amount > 0,
    ensures
        0 <= staked_in(entries, side),
    decreases entries.len(),
{
    if entries.len() > 0 {
        let before = entries.drop_last();
        assert forall|i: int| 0 <= i < before.len() implies (#[trigger] before[i]).1.amount > 0 by {
            assert(before[i] == entries[i]);
        }
        lemma_staked_in_not_negative(before, side);
        assert(entries[entries.len() - 1].1.amount > 0);
    }
}

/// Whether every listed position holds a positive stake.
pub fn all_stakes_positive(entries: &Vec<(Address, UserPosition)>) -> (positive: bool)
    ensures
        positive == (forall|i: int|
            0 <= i < entries@.len() ==> (#[trigger] entries@[i]).1.amount > 0),
{
    let mut i: usize = 0;
    while i < entries.len()
        invariant
            i <= entries@.len(),
            forall|j: int| 0 <= j < i ==> (#[trigger] entries@[j]).1.amount > 0,
        decreases entries@.len() - i,
    {
        if entries[i].1.amount <= 0 {
            return false;
        }
        i += 1;
    }
    true
}

/// Whether no listed amount is negative.
pub fn all_non_negative(entries: &Vec<(Address, i128)>) -> (fine: bool)
    ensures
        fine == (forall|i: int| 0 <= i < entries@.len() ==> (#[trigger] entries@[i]).1 >= 0),
{
    let mut i: usize = 0;
    while i < entries.len()
        invariant
            i <= entries@.len(),
            forall|j: int| 0 <= j < i ==> (#[trigger] entries@[j]).1 >= 0,
        decreases entries@.len() - i,
    {
        if entries[i].1 < 0 {
            return false;
        }
        i += 1;
    }
    true
}

/// Whether every listed record is valid.
pub fn all_stats_valid(entries: &Vec<(Address, UserStats)>) -> (fine: bool)
    ensures
        fine == (forall|i: int| 0 <= i < entries@.len() ==> (#[trigger] entries@[i]).1.valid()),
{
    let mut i: usize = 0;
    while i < entries.len()
        invariant
            i <= entries@.len(),
            forall|j: int| 0 <= j < i ==> (#[trigger] entries@[j]).1.valid(),
        decreases entries@.len() - i,
    {
        if entries[i].1.current_streak > entries[i].1.best_streak {
            return false;
        }
        i += 1;
    }
    true
}

/// Whether every prediction holds a positive stake and no user has made two.
pub fn check_predictions(predictions: &Vec<PrecisionPrediction>) -> (fine: bool)
    ensures
        fine == predictions_valid(predictions@),
{
    let mut i: usize = 0;
    while i < predictions.len()
        invariant
            i <= predictions@.len(),
            forall|j: int| 0 <= j < i ==> (#[trigger] predictions@[j]).amount > 0,
            forall|j: int, k: int|
                0 <= j < i && 0 <= k < i && j != k ==> (#[trigger] predictions@[j]).user != (
                #[trigger] predictions@[k]).user,
        decreases predictions@.len() - i,
    {
        if predictions[i].amount <= 0 {
            return false;
        }
        let mut k: usize = 0;
        while k < i
            invariant
                k <= i < predictions@.len(),
                forall|j: int| 0 <= j < k ==> (#[trigger] predictions@[j]).user != predictions@[i as int].user,
            decreases i - k,
        {
            if predictions[k].user == predictions[i].user {
                return false;
            }
            k += 1;
        }
        i += 1;
    }
    true
}

/// Whether the listed positions stake no more than `limit` on `side`.
pub fn stakes_within(entries: &Vec<(Address, UserPosition)>, side: BetSide, limit: i128) -> (within:
    bool)
    requires
        forall|i: int| 0 <= i < entries@.len() ==> (#[trigger] entries@[i]).1.amount > 0,
        0 <= limit,
    ensures
        within == (staked_in(entries@, side) <= limit),
{
    let mut sum: i128 = 0;
    let mut i: usize = 0;
    assert(entries@.subrange(0, 0) =~= Seq::<(Address, UserPosition)>::empty());
    while i < entries.len()
        invariant
            forall|i: int| 0 <= i < entries@.len() ==> (#[trigger] entries@[i]).1.amount > 0,
            0 <= limit,
            i <= entries@.len(),
            sum == staked_in(entries@.subrange(0, i as int), side),
            0 <= sum <= limit,
        decreases entries@.len() - i,
    {
        let position = entries[i].1;
        proof {
            let next = entries@.subrange(0, i + 1);
            assert(next.drop_last() =~= entries@.subrange(0, i as int));
            assert(next.last() == entries@[i as int]);
            lemma_staked_in_prefix(entries@, side, i + 1);
        }
        if position.side == side {
            if position.amount > limit - sum {
                return false;
            }
            sum = sum + position.amount;
        }
        i += 1;
    }
    assert(entries@.subrange(0, entries@.len() as int) =~= entries@);
    true
}

} // verus!
