use vstd::prelude::*;
use vstd::hash_map::StringHashMap;

verus! {

/// The replicated key/value state machine: a map from keys to values.
pub struct StateMachine {
    state: StringHashMap<String>,
}

impl View for StateMachine {
    type V = Map<Seq<char>, Seq<char>>;

    closed spec fn view(&self) -> Map<Seq<char>, Seq<char>> {
        self.state@.map_values(|v: String| v@)
    }
}

impl StateMachine {
    /// An empty state machine.
    pub fn new() -> (sm: Self)
        ensures
            sm@ == Map::<Seq<char>, Seq<char>>::empty(),
    {
        let sm = StateMachine { state: StringHashMap::new() };
        assert(sm@ =~= Map::<Seq<char>, Seq<char>>::empty());
        sm
    }

    /// Binds `key` to `value`, replacing any earlier binding of `key`.
    pub fn set(&mut self, key: String, value: String)
        ensures
            final(self)@ == old(self)@.insert(key@, value@),
    {
        self.state.insert(key, value);
        assert(self@ =~= old(self)@.insert(key@, value@));
    }

    /// The value bound to `key`, if any.
    pub fn get(&self, key: &str) -> (value: Option<String>)
        ensures
            match value {
                Some(v) => self@.contains_key(key@) && v@ == self@[key@],
                None => !self@.contains_key(key@),
            },
    {
        match self.state.get(key) {
            Some(v) => Some(v.clone()),
            None => None,
        }
    }
}

/// A client command, e.g. `SET x -> 1`.
pub struct SetCommand {
    key: String,
    value: String,
}

impl Clone for SetCommand {
    fn clone(&self) -> (copy: Self)
        ensures
            copy == *self,
    {
        SetCommand { key: self.key.clone(), value: self.value.clone() }
    }
}

impl SetCommand {
    /// The key that the command sets.
    pub closed spec fn key_view(self) -> Seq<char> {
        self.key@
    }

    /// The value that the command binds to its key.
    pub closed spec fn value_view(self) -> Seq<char> {
        self.value@
    }

    /// The command that binds `key` to `value`.
    pub fn new(key: String, value: String) -> (cmd: Self)
        ensures
            cmd.key_view() == key@,
            cmd.value_view() == value@,
    {
        SetCommand { key, value }
    }

    /// Sets key to value: updates the binding if the key exists, else creates it.
    pub fn execute(&self, state_machine: &mut StateMachine)
        ensures
            final(state_machine)@ == old(state_machine)@.insert(self.key_view(), self.value_view()),
    {
        state_machine.set(self.key.clone(), self.value.clone())
    }
}

/// An entry of the log: a command with the term in which the leader received
/// it and its position in the log.
pub struct LogItem {
    pub command: SetCommand,
    pub term: u64,
    pub index: u64,
}

impl Clone for LogItem {
    fn clone(&self) -> (copy: Self)
        ensures
            copy == *self,
    {
        LogItem { command: self.command.clone(), term: self.term, index: self.index }
    }
}

/// The log of a server.
pub struct Log {
    pub items: Vec<LogItem>,
}

} // verus!
