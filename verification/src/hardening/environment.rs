//! The variables of a process's environment.

use vstd::prelude::*;

use crate::assoc;
use crate::text::same_text;

verus! {

/// Variables by name. One whose value is no text has none here.
pub type Variables = Map<Seq<char>, Option<Seq<char>>>;

struct Variable {
    name: String,
    value: Option<String>,
}

spec fn value_view(v: Option<String>) -> Option<Seq<char>> {
    match v {
        Some(s) => Some(s@),
        None => None,
    }
}

/// The environment of a process.
pub struct Environment {
    vars: Vec<Variable>,
}

impl View for Environment {
    type V = Variables;

    closed spec fn view(&self) -> Variables {
        assoc::assoc(self.names(), self.values())
    }
}

impl Environment {
    spec fn names(&self) -> Seq<Seq<char>> {
        Seq::new(self.vars@.len(), |i: int| self.vars@[i].name@)
    }

    spec fn values(&self) -> Seq<Option<Seq<char>>> {
        Seq::new(self.vars@.len(), |i: int| value_view(self.vars@[i].value))
    }

    /// Whether every variable occurs once.
    pub closed spec fn wf(&self) -> bool {
        self.names().no_duplicates()
    }

    /// An environment without variables.
    pub fn new() -> (r: Environment)
        ensures
            r.wf(),
            r@ == Map::<Seq<char>, Option<Seq<char>>>::empty(),
    {
        let r = Environment { vars: Vec::new() };
        assert(r@ =~= Map::<Seq<char>, Option<Seq<char>>>::empty());
        r
    }

    fn find(&self, name: &str) -> (r: Option<usize>)
        requires
            self.wf(),
        ensures
            r is Some <==> self@.contains_key(name@),
            r matches Some(i) ==> i < self.vars@.len() && self.names()[i as int] == name@
                && self@[name@] == self.values()[i as int],
    {
        for i in 0..self.vars.len()
            invariant
                self.wf(),
                forall|j: int| 0 <= j < i ==> #[trigger] self.names()[j] != name@,
        {
            if same_text(self.vars[i].name.as_str(), name) {
                proof {
                    assoc::lemma_assoc_at(self.names(), self.values(), i as int);
                    assert(self.names()[i as int] == name@);
                }
                return Some(i);
            }
            assert(self.names()[i as int] != name@);
        }
        None
    }

    /// Sets a variable. Without a value it is one whose value is no text.
    pub fn set(&mut self, name: String, value: Option<String>)
        requires
            old(self).wf(),
        ensures
            final(self).wf(),
            final(self)@ == old(self)@.insert(
                name@,
                match value {
                    Some(s) => Some(s@),
                    None => None,
                },
            ),
    {
        let at = self.find(name.as_str());
        let ghost names = self.names();
        let ghost values = self.values();
        let ghost n = name@;
        let ghost v = value_view(value);
        match at {
            Some(i) => {
                self.vars.set(i, Variable { name, value });
                proof {
                    assoc::lemma_assoc_update(names, values, i as int, v);
                    assert(self.names() =~= names);
                    assert(self.values() =~= values.update(i as int, v));
                }
            },
            None => {
                self.vars.push(Variable { name, value });
                proof {
                    assert(!names.contains(n));
                    assoc::lemma_assoc_insert(names, values, names.len() as int, n, v);
                    assert(self.names() =~= names.insert(names.len() as int, n));
                    assert(self.values() =~= values.insert(values.len() as int, v));
                }
            },
        }
    }

    /// Whether a variable is set.
    pub fn has(&self, name: &str) -> (r: bool)
        requires
            self.wf(),
        ensures
            r == self@.contains_key(name@),
    {
        self.find(name).is_some()
    }

    /// Removes a variable, and says what it was, if it was set.
    pub fn remove(&mut self, name: &str) -> (r: Option<Option<String>>)
        requires
            old(self).wf(),
        ensures
            final(self).wf(),
            final(self)@ == old(self)@.remove(name@),
            match r {
                Some(Some(s)) => old(self)@.contains_key(name@) && old(self)@[name@] == Some(s@),
                Some(None) => old(self)@.contains_key(name@) && old(self)@[name@] is None,
                None => !old(self)@.contains_key(name@),
            },
    {
        let ghost names = self.names();
        let ghost values = self.values();
        match self.find(name) {
            Some(i) => {
                let v = self.vars.remove(i);
                proof {
                    assoc::lemma_assoc_remove(names, values, i as int);
                    assert(self.names() =~= names.remove(i as int));
                    assert(self.values() =~= values.remove(i as int));
                }
                Some(v.value)
            },
            None => {
                assert(self@.remove(name@) =~= self@);
                None
            },
        }
    }
}

} // verus!
