//! Extents of tensor axes and the table that binds named extents to values.

use vstd::prelude::*;

verus! {

/// The extent of one axis: a fixed size, or a named size that is bound to a
/// value only when an index is resolved.
#[derive(Clone, Copy, Debug, PartialEq, Eq, Structural)]
pub enum Dim {
    Known(usize),
    Unknown(char),
}

/// The value of an extent under a table of bindings, if it has one.
pub open spec fn dim_value(d: Dim, env: Map<char, usize>) -> Option<nat> {
    match d {
        Dim::Known(n) => Some(n as nat),
        Dim::Unknown(c) => if env.contains_key(c) {
            Some(env[c] as nat)
        } else {
            None
        },
    }
}

/// The table that a sequence of bindings stands for: a later binding of a
/// name replaces an earlier one.
pub open spec fn bindings(s: Seq<(char, usize)>) -> Map<char, usize>
    decreases s.len(),
{
    if s.len() == 0 {
        Map::empty()
    } else {
        bindings(s.drop_last()).insert(s.last().0, s.last().1)
    }
}

/// Replacing the last binding of a name changes the table exactly as a new
/// binding of that name would.
pub proof fn lemma_bindings_update(s: Seq<(char, usize)>, j: int, name: char, value: usize)
    requires
        0 <= j < s.len(),
        s[j].0 == name,
        forall|k: int| j < k < s.len() ==> s[k].0 != name,
    ensures
        bindings(s.update(j, (name, value))) =~= bindings(s).insert(name, value),
    decreases s.len(),
{
    let t = s.update(j, (name, value));
    if j == s.len() - 1 {
        assert(t.drop_last() =~= s.drop_last());
    } else {
        assert(t.drop_last() =~= s.drop_last().update(j, (name, value)));
        lemma_bindings_update(s.drop_last(), j, name, value);
        assert(t.last() == s.last());
    }
}

/// The values of the named extents, set by the caller before indices are
/// resolved.
#[derive(Debug)]
pub struct DynMap {
    pub entries: Vec<(char, usize)>,
}

impl View for DynMap {
    type V = Map<char, usize>;

    open spec fn view(&self) -> Map<char, usize> {
        bindings(self.entries@)
    }
}

impl DynMap {
    /// A table without bindings.
    pub fn new() -> (r: Self)
        ensures
            r@ == Map::<char, usize>::empty(),
    {
        DynMap { entries: Vec::new() }
    }

    /// The value bound to `name`, if any.
    pub fn get(&self, name: char) -> (r: Option<usize>)
        ensures
            r == (if self@.contains_key(name) {
                Some(self@[name])
            } else {
                None
            }),
    {
        let mut i: usize = self.entries.len();
        proof {
            assert(self.entries@.take(i as int) =~= self.entries@);
        }
        while i > 0
            invariant
                i <= self.entries.len(),
                self@.contains_key(name) == bindings(self.entries@.take(i as int)).contains_key(
                    name,
                ),
                self@.contains_key(name) ==> self@[name] == bindings(
                    self.entries@.take(i as int),
                )[name],
            decreases i,
        {
            proof {
                let s = self.entries@.take(i as int);
                assert(s.drop_last() =~= self.entries@.take(i - 1));
            }
            let (c, v) = self.entries[i - 1];
            if c == name {
                return Some(v);
            }
            i -= 1;
        }
        None
    }

    /// Binds `name` to `value`, replacing an earlier binding of that name.
    pub fn set(&mut self, name: char, value: usize)
        ensures
            final(self)@ == old(self)@.insert(name, value),
    {
        let mut i: usize = self.entries.len();
        while i > 0
            invariant
                i <= self.entries.len(),
                *self == *old(self),
                forall|k: int| i <= k < self.entries.len() ==> self.entries[k].0 != name,
            decreases i,
        {
            if self.entries[i - 1].0 == name {
                proof {
                    lemma_bindings_update(self.entries@, i - 1, name, value);
                }
                self.entries.set(i - 1, (name, value));
                return ;
            }
            i -= 1;
        }
        proof {
            assert(self.entries@.push((name, value)).drop_last() =~= self.entries@);
        }
        self.entries.push((name, value));
    }

    /// Looks an extent up: a known extent is its own value, a named one is
    /// the value bound to it.
    pub fn resolve(&self, d: Dim) -> (r: Option<usize>)
        ensures
            match r {
                Some(n) => dim_value(d, self@) == Some(n as nat),
                None => dim_value(d, self@) is None,
            },
    {
        match d {
            Dim::Known(n) => Some(n),
            Dim::Unknown(c) => self.get(c),
        }
    }
}

} // verus!
