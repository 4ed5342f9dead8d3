//! Binding environments: which replacement tree each bound name stands for.

use crate::ast::ASTNode;
use crate::term::Bindings;
use vstd::prelude::*;

verus! {

/// The bindings that a list of entries stands for: a later entry of a name
/// replaces an earlier one.
pub open spec fn bindings_of(entries: Seq<(String, ASTNode)>) -> Bindings
    decreases entries.len(),
{
    if entries.len() == 0 {
        Map::empty()
    } else {
        bindings_of(entries.drop_last()).insert(entries.last().0@, entries.last().1@)
    }
}

/// A finite mapping from names to replacement trees.
pub struct Env {
    entries: Vec<(String, ASTNode)>,
}

impl View for Env {
    type V = Bindings;

    closed spec fn view(&self) -> Bindings {
        bindings_of(self.entries@)
    }
}

impl Clone for Env {
    /// An independent copy holding the same bindings.
    fn clone(&self) -> (r: Self)
        ensures
            r@ == self@,
    {
        let mut copy: Vec<(String, ASTNode)> = Vec::new();
        let mut i: usize = 0;
        while i < self.entries.len()
            invariant
                i <= self.entries.len(),
                copy@ == self.entries@.take(i as int),
            decreases self.entries.len() - i,
        {
            let name = self.entries[i].0.clone();
            let value = self.entries[i].1.clone();
            copy.push((name, value));
            assert(copy@ =~= self.entries@.take(i + 1));
            i += 1;
        }
        assert(copy@ =~= self.entries@);
        Env { entries: copy }
    }
}

impl Env {
    /// The environment that binds nothing.
    pub fn new() -> (r: Env)
        ensures
            r@ == Bindings::empty(),
    {
        Env { entries: Vec::new() }
    }

    /// The tree bound to `name`, if there is one.
    pub fn get(&self, name: &String) -> (r: Option<&ASTNode>)
        ensures
            match r {
                Some(value) => self@.contains_key(name@) && value@ == self@[name@],
                None => !self@.contains_key(name@),
            },
    {
        let mut i: usize = self.entries.len();
        assert(self.entries@.take(i as int) =~= self.entries@);
        while i > 0
            invariant
                i <= self.entries.len(),
                self@.contains_key(name@) == bindings_of(self.entries@.take(i as int)).contains_key(
                    name@,
                ),
                self@.contains_key(name@) ==> self@[name@] == bindings_of(
                    self.entries@.take(i as int),
                )[name@],
            decreases i,
        {
            proof {
                let prefix = self.entries@.take(i as int);
                assert(prefix.drop_last() =~= self.entries@.take(i - 1));
                assert(prefix.last() == self.entries@[i - 1]);
            }
            i -= 1;
            if self.entries[i].0 == *name {
                return Some(&self.entries[i].1);
            }
        }
        None
    }

    /// Whether `name` is bound.
    pub fn contains_key(&self, name: &String) -> (r: bool)
        ensures
            r == self@.contains_key(name@),
    {
        self.get(name).is_some()
    }

    /// Binds `name` to `value`, in place of any earlier binding of `name`.
    pub fn insert(&mut self, name: String, value: ASTNode)
        ensures
            final(self)@ == old(self)@.insert(name@, value@),
    {
        self.entries.push((name, value));
        assert(self.entries@.drop_last() =~= old(self).entries@);
    }

    /// Removes the binding of `name`, if there is one.
    pub fn remove(&mut self, name: &String)
        ensures
            final(self)@ == old(self)@.remove(name@),
    {
        let mut kept: Vec<(String, ASTNode)> = Vec::new();
        let mut i: usize = 0;
        assert(bindings_of(kept@) =~= bindings_of(self.entries@.take(0)).remove(name@));
        while i < self.entries.len()
            invariant
                i <= self.entries.len(),
                bindings_of(kept@) == bindings_of(self.entries@.take(i as int)).remove(name@),
            decreases self.entries.len() - i,
        {
            proof {
                let prefix = self.entries@.take(i + 1);
                assert(prefix.drop_last() =~= self.entries@.take(i as int));
                assert(prefix.last() == self.entries@[i as int]);
            }
            if !(self.entries[i].0 == *name) {
                let key = self.entries[i].0.clone();
                let value = self.entries[i].1.clone();
                let ghost before = kept@;
                kept.push((key, value));
                assert(kept@.drop_last() =~= before);
                assert(bindings_of(kept@) =~= bindings_of(self.entries@.take(i + 1)).remove(
                    name@,
                ));
            } else {
                assert(bindings_of(kept@) =~= bindings_of(self.entries@.take(i + 1)).remove(
                    name@,
                ));
            }
            i += 1;
        }
        assert(self.entries@.take(i as int) =~= self.entries@);
        self.entries = kept;
    }
}

} // verus!
