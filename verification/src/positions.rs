//! The position ledger of an Up/Down round: who staked how much on which
//! side. The stakes are kept in a map of the Soroban SDK. An address stands
//! in it as the tuple of its three parts and a position as the pair of its
//! amount and whether it is on Up: tuples of plain values, which the SDK
//! converts by itself.
//!
//! What is said of the SDK's map below is taken on trust from its
//! documentation; everything else in this file is proved from that. The host
//! meters the work of an invocation and aborts it when its budget runs out;
//! that is the host's doing and lies outside of what is claimed here.

use vstd::prelude::*;
use crate::store::entries_map;
use crate::store::keys_distinct;
use crate::store::lemma_entries_map;
use crate::store::lists_key;
use crate::types::Address;
use crate::types::BetSide;
use crate::types::UserPosition;

verus! {

/// `soroban_sdk::Env`: the handle to the host environment. Nothing is
/// claimed of it; it is only passed on to the SDK.
#[verifier::external_type_specification]
#[verifier::external_body]
pub struct ExEnv(soroban_sdk::Env);

/// `soroban_sdk::Map`: the SDK's key-value dictionary, which lives in the
/// host. What one holds is known only through `stake_entries`.
#[verifier::external_type_specification]
#[verifier::external_body]
#[verifier::reject_recursive_types(K)]
#[verifier::reject_recursive_types(V)]
pub struct ExMap<K, V>(soroban_sdk::Map<K, V>);

/// The pairs that an SDK map of stakes holds: from the three parts of an
/// address to the staked amount and whether it stands on Up.
pub uninterp spec fn stake_entries(stakes: soroban_sdk::Map<(bool, u128, u128), (i128, bool)>) -> Map<(bool, u128, u128), (i128, bool)>;

/// Whether every pair that an SDK map of stakes holds is of the declared key
/// and value types. The SDK does not promise this of a map that came from
/// elsewhere, and reading an ill-typed pair panics.
pub uninterp spec fn stake_entries_typed(stakes: soroban_sdk::Map<(bool, u128, u128), (i128, bool)>) -> bool;

/// The pairs of an SDK map that holds nothing.
pub open spec fn no_stakes() -> Map<(bool, u128, u128), (i128, bool)> {
    Map::empty()
}

/// `soroban_sdk::Map::new`: creates an empty map in the given environment.
/// Nothing but this library has written to it, so it holds no ill-typed pair.
#[verifier::external_body]
fn stakes_new(env: &soroban_sdk::Env) -> (stakes: soroban_sdk::Map<(bool, u128, u128), (i128, bool)>)
    ensures
        stake_entries(stakes) == no_stakes(),
        stake_entries_typed(stakes),
{
    soroban_sdk::Map::new(env)
}

/// `soroban_sdk::Map::contains_key`: whether the map holds a pair with the
/// given key.
#[verifier::external_body]
fn stakes_contains_key(
    stakes: &soroban_sdk::Map<(bool, u128, u128), (i128, bool)>,
    key: (bool, u128, u128),
) -> (present: bool)
    ensures
        present == stake_entries(*stakes).contains_key(key),
{
    stakes.contains_key(key)
}

/// `soroban_sdk::Map::get`: the value that the map holds for the key, or
/// `None` where it holds none. It panics on a value of another type, which
/// the precondition leaves out.
#[verifier::external_body]
fn stakes_get(
    stakes: &soroban_sdk::Map<(bool, u128, u128), (i128, bool)>,
    key: (bool, u128, u128),
) -> (value: Option<(i128, bool)>)
    requires
        stake_entries_typed(*stakes),
    ensures
        value == (if stake_entries(*stakes).contains_key(key) {
            Some(stake_entries(*stakes)[key])
        } else {
            None
        }),
{
    stakes.get(key)
}

/// `soroban_sdk::Map::set`: sets the value for the key, in place of the value
/// that the key had, if any; the other pairs stay. The new pair is of the
/// declared types, so a map that held no ill-typed pair holds none after.
#[verifier::external_body]
fn stakes_set(
    stakes: &mut soroban_sdk::Map<(bool, u128, u128), (i128, bool)>,
    key: (bool, u128, u128),
    value: (i128, bool),
)
    ensures
        stake_entries(*final(stakes)) == stake_entries(*old(stakes)).insert(key, value),
        stake_entries_typed(*old(stakes)) ==> stake_entries_typed(*final(stakes)),
{
    stakes.set(key, value)
}

/// `soroban_sdk::Map::keys`: all keys of the map, each once, copied into a
/// `Vec`. The SDK hands them out in the host's order of the keys; that order
/// is not claimed here, and nothing relies on it. Reading a key of another
/// type panics, which the precondition leaves out.
#[verifier::external_body]
fn stakes_keys(stakes: &soroban_sdk::Map<(bool, u128, u128), (i128, bool)>) -> (keys: Vec<(bool, u128, u128)>)
    requires
        stake_entries_typed(*stakes),
    ensures
        keys@.no_duplicates(),
        forall|key: (bool, u128, u128)|
            keys@.contains(key) <==> stake_entries(*stakes).contains_key(key),
{
    stakes.keys().iter().collect()
}

/// The three parts by which an address is found in the SDK map.
pub open spec fn key_of(address: Address) -> (bool, u128, u128) {
    (address.contract, address.hi, address.lo)
}

/// The address that a key of the SDK map stands for.
pub open spec fn address_of(key: (bool, u128, u128)) -> Address {
    Address { contract: key.0, hi: key.1, lo: key.2 }
}

/// The position that a value of the SDK map stands for.
pub open spec fn position_of(stake: (i128, bool)) -> UserPosition {
    UserPosition { amount: stake.0, side: if stake.1 { BetSide::Up } else { BetSide::Down } }
}

/// The positions of the active round, at most one per address.
pub struct PositionLedger {
    /// The environment in which the map of stakes lives.
    env: soroban_sdk::Env,
    stakes: soroban_sdk::Map<(bool, u128, u128), (i128, bool)>,
}

impl View for PositionLedger {
    type V = Map<Address, UserPosition>;

    /// The recorded positions as a map from address to position.
    closed spec fn view(&self) -> Map<Address, UserPosition> {
        Map::new(
            |a: Address| stake_entries(self.stakes).contains_key(key_of(a)),
            |a: Address| position_of(stake_entries(self.stakes)[key_of(a)]),
        )
    }
}

impl PositionLedger {
    /// The ledger was built by this library alone, so what it holds can be read.
    pub closed spec fn wf(&self) -> bool {
        stake_entries_typed(self.stakes)
    }

    /// A ledger without positions, kept in the given environment.
    pub fn new(env: soroban_sdk::Env) -> (ledger: PositionLedger)
        ensures
            ledger.wf(),
            ledger@ == Map::<Address, UserPosition>::empty(),
    {
        let stakes = stakes_new(&env);
        let ledger = PositionLedger { env, stakes };
        assert(ledger@ =~= Map::<Address, UserPosition>::empty());
        ledger
    }

    /// Removes every position.
    pub fn clear(&mut self)
        ensures
            final(self).wf(),
            final(self)@ == Map::<Address, UserPosition>::empty(),
    {
        self.stakes = stakes_new(&self.env);
        assert(self@ =~= Map::<Address, UserPosition>::empty());
    }

    /// Whether `user` holds a position.
    pub fn contains_key(&self, user: &Address) -> (present: bool)
        ensures
            present == self@.contains_key(*user),
    {
        stakes_contains_key(&self.stakes, (user.contract, user.hi, user.lo))
    }

    /// The position of `user`, if there is one.
    pub fn get(&self, user: &Address) -> (position: Option<UserPosition>)
        requires
            self.wf(),
        ensures
            position == (if self@.contains_key(*user) {
                Some(self@[*user])
            } else {
                None
            }),
    {
        match stakes_get(&self.stakes, (user.contract, user.hi, user.lo)) {
            Some(stake) => {
                let side = if stake.1 {
                    BetSide::Up
                } else {
                    BetSide::Down
                };
                Some(UserPosition { amount: stake.0, side })
            },
            None => None,
        }
    }

    /// Records `position` for `user`, in place of the position that `user`
    /// had, if any.
    pub fn insert(&mut self, user: Address, position: UserPosition)
        requires
            old(self).wf(),
        ensures
            final(self).wf(),
            final(self)@ == old(self)@.insert(user, position),
    {
        let up = match position.side {
            BetSide::Up => true,
            BetSide::Down => false,
        };
        stakes_set(&mut self.stakes, (user.contract, user.hi, user.lo), (position.amount, up));
        proof {
            assert(position_of((position.amount, up)) == position);
            assert forall|a: Address| a != user implies key_of(a) != key_of(user) by {
                assert(address_of(key_of(a)) == a);
                assert(address_of(key_of(user)) == user);
            }
            assert(self@ =~= old(self)@.insert(user, position));
        }
    }

    /// The addresses that hold a position, each once.
    pub fn users(&self) -> (users: Vec<Address>)
        requires
            self.wf(),
        ensures
            users@.no_duplicates(),
            forall|a: Address| users@.contains(a) <==> self@.contains_key(a),
    {
        let keys = stakes_keys(&self.stakes);
        let mut users: Vec<Address> = Vec::new();
        let mut i: usize = 0;
        while i < keys.len()
            invariant
                i <= keys@.len(),
                users@.len() == i,
                forall|j: int| 0 <= j < i ==> key_of(#[trigger] users@[j]) == keys@[j],
            decreases keys@.len() - i,
        {
            let key = keys[i];
            users.push(Address { contract: key.0, hi: key.1, lo: key.2 });
            i += 1;
        }
        proof {
            assert forall|j: int, k: int|
                0 <= j < users@.len() && 0 <= k < users@.len() && j != k implies users@[j]
                != users@[k] by {
                assert(key_of(users@[j]) == keys@[j]);
                assert(key_of(users@[k]) == keys@[k]);
            }
            assert forall|a: Address| users@.contains(a) <==> self@.contains_key(a) by {
                if users@.contains(a) {
                    let j = users@.index_of(a);
                    assert(key_of(users@[j]) == keys@[j]);
                    assert(keys@.contains(key_of(a)));
                }
                if self@.contains_key(a) {
                    assert(keys@.contains(key_of(a)));
                    let j = keys@.index_of(key_of(a));
                    assert(key_of(users@[j]) == keys@[j]);
                    assert(address_of(key_of(users@[j])) == users@[j]);
                    assert(address_of(key_of(a)) == a);
                    assert(users@[j] == a);
                }
            }
        }
        users
    }

    /// The recorded positions as a list, each address once.
    pub fn entries(&self) -> (entries: Vec<(Address, UserPosition)>)
        requires
            self.wf(),
        ensures
            keys_distinct(entries@),
            entries_map(entries@) == self@,
    {
        let users = self.users();
        let mut entries: Vec<(Address, UserPosition)> = Vec::new();
        let mut i: usize = 0;
        while i < users.len()
            invariant
                self.wf(),
                users@.no_duplicates(),
                forall|a: Address| users@.contains(a) <==> self@.contains_key(a),
                i <= users@.len(),
                entries@.len() == i,
                forall|j: int|
                    0 <= j < i ==> (#[trigger] entries@[j]) == (users@[j], self@[users@[j]]),
            decreases users@.len() - i,
        {
            let user = users[i];
            proof {
                assert(users@.contains(user));
            }
            match self.get(&user) {
                Some(position) => {
                    entries.push((user, position));
                },
                None => {},
            }
            i += 1;
        }
        proof {
            assert(keys_distinct(entries@)) by {
                assert forall|i: int, j: int|
                    0 <= i < entries@.len() && 0 <= j < entries@.len() && i != j implies (
                #[trigger] entries@[i]).0 != (#[trigger] entries@[j]).0 by {
                    assert(entries@[i].0 == users@[i]);
                    assert(entries@[j].0 == users@[j]);
                }
            }
            lemma_entries_map(entries@);
            assert forall|a: Address| entries_map(entries@).contains_key(a) <==> self@.contains_key(
                a,
            ) by {
                if entries_map(entries@).contains_key(a) {
                    assert(lists_key(entries@, a));
                    let i = choose|i: int| 0 <= i < entries@.len() && (#[trigger] entries@[i]).0 == a;
                    assert(users@[i] == a);
                    assert(users@.contains(a));
                }
                if self@.contains_key(a) {
                    assert(users@.contains(a));
                    let i = users@.index_of(a);
                    assert(0 <= i < entries@.len() && entries@[i].0 == a);
                    assert(lists_key(entries@, a));
                }
            }
            assert forall|a: Address| self@.contains_key(a) implies entries_map(entries@)[a]
                == self@[a] by {
                assert(users@.contains(a));
                let i = users@.index_of(a);
                assert(entries@[i].0 == a);
            }
            assert(entries_map(entries@) =~= self@);
        }
        entries
    }

    /// The ledger that holds the listed positions, kept in the given
    /// environment; `None` where an address is listed twice.
    pub fn from_entries(env: soroban_sdk::Env, entries: &Vec<(Address, UserPosition)>) -> (ledger:
        Option<PositionLedger>)
        ensures
            match ledger {
                Some(l) => keys_distinct(entries@) && l.wf() && l@ == entries_map(entries@),
                None => !keys_distinct(entries@),
            },
    {
        let mut ledger = PositionLedger::new(env);
        let mut i: usize = 0;
        assert(entries@.subrange(0, 0) =~= Seq::<(Address, UserPosition)>::empty());
        while i < entries.len()
            invariant
                ledger.wf(),
                i <= entries@.len(),
                ledger@ == entries_map(entries@.subrange(0, i as int)),
                keys_distinct(entries@.subrange(0, i as int)),
            decreases entries@.len() - i,
        {
            let entry = entries[i];
            let ghost before = entries@.subrange(0, i as int);
            let ghost next = entries@.subrange(0, i + 1);
            proof {
                lemma_entries_map(before);
                assert(next.drop_last() =~= before);
                assert(next.last() == entries@[i as int]);
            }
            if ledger.contains_key(&entry.0) {
                proof {
                    assert(lists_key(before, entry.0));
                    let j = choose|j: int| 0 <= j < before.len() && (#[trigger] before[j]).0 == entry.0;
                    assert(entries@[j].0 == entries@[i as int].0);
                }
                return None;
            }
            ledger.insert(entry.0, entry.1);
            proof {
                assert forall|j: int, k: int|
                    0 <= j < next.len() && 0 <= k < next.len() && j != k implies (
                #[trigger] next[j]).0 != (#[trigger] next[k]).0 by {
                    if j < i && k < i {
                        assert(before[j] == next[j]);
                        assert(before[k] == next[k]);
                    } else if j < i {
                        assert(0 <= j < before.len() && before[j].0 == next[j].0);
                        assert(lists_key(before, next[j].0));
                    } else {
                        assert(0 <= k < before.len() && before[k].0 == next[k].0);
                        assert(lists_key(before, next[k].0));
                    }
                }
            }
            i += 1;
        }
        assert(entries@.subrange(0, entries@.len() as int) =~= entries@);
        Some(ledger)
    }
}

} // verus!
