//! Environment variables, as a table that the caller fills.

use vstd::prelude::*;

use crate::text::chars::owned;
use crate::text::table::Table;

verus! {

/// The variables of a process.
pub struct Environ {
    vars: Table<String>,
}

impl View for Environ {
    type V = Map<Seq<char>, Seq<char>>;

    closed spec fn view(&self) -> Map<Seq<char>, Seq<char>> {
        self.vars@.map_values(|v: String| v@)
    }
}

/// The value of the variable `name`.
pub open spec fn env_var(env: Map<Seq<char>, Seq<char>>, name: Seq<char>) -> Option<Seq<char>> {
    if env.contains_key(name) {
        Some(env[name])
    } else {
        None
    }
}

/// The value of the variable `name`, where it is not empty.
pub open spec fn env_value(env: Map<Seq<char>, Seq<char>>, name: Seq<char>) -> Option<Seq<char>> {
    match env_var(env, name) {
        Some(v) => if v.len() > 0 {
            Some(v)
        } else {
            None
        },
        None => None,
    }
}

impl Environ {
    /// No variables.
    pub fn new() -> (r: Environ)
        ensures
            r@ == Map::<Seq<char>, Seq<char>>::empty(),
    {
        let r: Environ = Environ { vars: Table::new() };
        assert(r@ =~= Map::<Seq<char>, Seq<char>>::empty());
        r
    }

    /// Sets a variable.
    pub fn set_var(&mut self, name: &str, value: &str)
        ensures
            final(self)@ == old(self)@.insert(name@, value@),
    {
        let v: String = owned(value);
        let ghost before = self@;
        self.vars.insert(name, v);
        assert(self@ =~= before.insert(name@, value@));
    }

    /// The value of the variable `name`.
    pub fn var(&self, name: &str) -> (r: Option<&str>)
        ensures
            match r {
                Some(v) => env_var(self@, name@) == Some(v@),
                None => env_var(self@, name@) is None,
            },
    {
        match self.vars.get(name) {
            Some(v) => Some(v.as_str()),
            None => None,
        }
    }

    /// Whether the variable `name` is set.
    pub fn is_set(&self, name: &str) -> (r: bool)
        ensures
            r == self@.contains_key(name@),
    {
        self.vars.contains(name)
    }

    /// The value of the variable `name`, where it is not empty.
    pub fn value(&self, name: &str) -> (r: Option<&str>)
        ensures
            match r {
                Some(v) => env_value(self@, name@) == Some(v@),
                None => env_value(self@, name@) is None,
            },
    {
        match self.var(name) {
            Some(v) => if v.unicode_len() > 0 {
                Some(v)
            } else {
                None
            },
            None => None,
        }
    }
}

} // verus!
