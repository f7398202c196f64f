//! A type-indexed store of singleton context values.
//!
//! Each value is keyed by the identity of its type, modelled as a plain
//! 64-bit key chosen by the driver.  The store is filled once, before any
//! dispatch begins, and is read through shared references afterwards.

use vstd::prelude::*;

use crate::context::command::{Command, IntoCommand};
use crate::error::{CommandResult, ContextError};

verus! {

/// Interprets a sequence of key/value pairs as a map in which a later pair
/// overrides an earlier pair with the same key.
pub open spec fn entries_map<V>(s: Seq<(u64, V)>) -> Map<u64, V>
    decreases s.len(),
{
    if s.len() == 0 {
        Map::empty()
    } else {
        entries_map(s.drop_last()).insert(s.last().0, s.last().1)
    }
}

/// A type-indexed collection of singleton context values.
///
/// At most one value is visible per key: registering a value under a key
/// that is already present overwrites the earlier value for all subsequent
/// lookups.  Lookups for absent keys report the absence explicitly.
pub struct ContextProvider<V> {
    entries: Vec<(u64, V)>,
}

impl<V> View for ContextProvider<V> {
    type V = Map<u64, V>;

    closed spec fn view(&self) -> Map<u64, V> {
        entries_map(self.entries@)
    }
}

proof fn lemma_entries_map_domain<V>(s: Seq<(u64, V)>, key: u64)
    ensures
        entries_map(s).contains_key(key) <==> exists|i: int| 0 <= i < s.len() && s[i].0 == key,
    decreases s.len(),
{
    if s.len() > 0 {
        lemma_entries_map_domain(s.drop_last(), key);
        if entries_map(s).contains_key(key) {
            if s.last().0 != key {
                let i = choose|i: int| 0 <= i < s.len() - 1 && s.drop_last()[i].0 == key;
                assert(s[i].0 == key);
            }
        } else {
            assert(forall|i: int| 0 <= i < s.len() - 1 ==> s.drop_last()[i] == s[i]);
        }
    }
}

proof fn lemma_entries_map_last<V>(s: Seq<(u64, V)>, j: int)
    requires
        0 <= j < s.len(),
        forall|i: int| j < i < s.len() ==> (#[trigger] s[i]).0 != s[j].0,
    ensures
        entries_map(s).contains_key(s[j].0),
        entries_map(s)[s[j].0] == s[j].1,
    decreases s.len(),
{
    if j == s.len() - 1 {
    } else {
        assert(forall|i: int| 0 <= i < s.len() - 1 ==> s.drop_last()[i] == s[i]);
        lemma_entries_map_last(s.drop_last(), j);
    }
}

impl<V> ContextProvider<V> {
    /// Creates an empty store.
    pub fn new() -> (s: Self)
        ensures
            s@ == Map::<u64, V>::empty(),
    {
        ContextProvider { entries: Vec::new() }
    }

    /// Registers `value` under `key`, overwriting any earlier value that was
    /// registered under the same key.  Always succeeds.
    pub fn add_context(&mut self, key: u64, value: V)
        ensures
            final(self)@ == old(self)@.insert(key, value),
    {
        self.entries.push((key, value));
        proof {
            assert(self.entries@.drop_last() == old(self).entries@);
        }
    }

    /// Reports whether a value is registered under `key`.
    pub fn contains(&self, key: u64) -> (r: bool)
        ensures
            r == self@.contains_key(key),
    {
        let n = self.entries.len();
        let mut i: usize = 0;
        while i < n
            invariant
                0 <= i <= n,
                n == self.entries.len(),
                forall|j: int| 0 <= j < i ==> (#[trigger] self.entries@[j]).0 != key,
            decreases n - i,
        {
            if self.entries[i].0 == key {
                proof {
                    lemma_entries_map_domain(self.entries@, key);
                }
                return true;
            }
            i += 1;
        }
        proof {
            lemma_entries_map_domain(self.entries@, key);
        }
        false
    }

    /// Returns a reference to the value registered under `key`, or `None` if
    /// no value was ever registered under it.  Pure: the store is unchanged.
    pub fn get(&self, key: u64) -> (r: Option<&V>)
        ensures
            match r {
                Some(v) => self@.contains_key(key) && *v == self@[key],
                None => !self@.contains_key(key),
            },
    {
        let mut i: usize = self.entries.len();
        while i > 0
            invariant
                0 <= i <= self.entries.len(),
                forall|j: int| i <= j < self.entries@.len() ==> (#[trigger] self.entries@[j]).0
                    != key,
            decreases i,
        {
            i -= 1;
            if self.entries[i].0 == key {
                proof {
                    lemma_entries_map_last(self.entries@, i as int);
                }
                return Some(&self.entries[i].1);
            }
        }
        proof {
            lemma_entries_map_domain(self.entries@, key);
        }
        None
    }

    /// Invokes `command` on `args`, resolving its declared context
    /// dependencies from this store.  The handler's own outcome is
    /// propagated unchanged; a declared context type that was never
    /// registered is reported as a missing context before the handler runs.
    pub fn execute<A, C, S: Command<V, A>, I: IntoCommand<V, A, C, Command = S>>(
        &self,
        args: A,
        command: I,
    ) -> (r: Result<CommandResult, ContextError>)
        requires
            command.as_command().pre(args, self@),
        ensures
            (r is Ok) <==> (forall|i: int|
                0 <= i < command.as_command().keys().len() ==> self@.contains_key(
                    #[trigger] command.as_command().keys()[i],
                )),
            r matches Err(ContextError::MissingContext { key })
                ==> command.as_command().keys().contains(key) && !self@.contains_key(key),
            r matches Ok(out) ==> command.as_command().post(args, self@, out),
    {
        let injectable_command = command.into_command();
        injectable_command.dispatch_run(args, self)
    }
}

/// The store holds one value per key: a later registration under a key
/// overwrites the earlier one, so every lookup sees the value registered
/// last.
pub proof fn lemma_last_registration_wins<V>(store: Map<u64, V>, key: u64, first: V, second: V)
    ensures
        store.insert(key, first).insert(key, second).contains_key(key),
        store.insert(key, first).insert(key, second)[key] == second,
{
}

} // verus!
