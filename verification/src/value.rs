//! The document tree, the object that keeps its members ordered by key, and
//! the mathematical model of both.

use crate::key_order::{
    ascending, ascending_keys, key_lt, lemma_ascending_distinct, lemma_ascending_is_listing,
    lemma_insert_keeps_ascending, lemma_key_lt_connected, lemma_key_lt_irreflexive,
    lemma_key_lt_transitive,
};
use crate::utf8_order::key_precedes;
use vstd::prelude::*;

verus! {

/// What a document is, apart from how it is stored: a number, a text, null,
/// a truth value, a sequence of documents, or a finite mapping from keys to
/// documents.
pub enum Value {
    Number(int),
    Str(Seq<char>),
    Null,
    Arr(Seq<Value>),
    Dict(Map<Seq<char>, Value>),
    Bool(bool),
}

/// A document.
pub enum Json {
    Number(i32),
    Str(String),
    Null,
    Arr(Vec<Json>),
    Dict(Object),
    Bool(bool),
}

/// A mapping from keys to documents that holds each key once and keeps its
/// members in ascending order of their keys.
pub struct Object {
    entries: Vec<(String, Json)>,
}

impl View for Json {
    type V = Value;

    open spec fn view(&self) -> Value
        decreases self,
    {
        match self {
            Json::Number(n) => Value::Number(*n as int),
            Json::Str(s) => Value::Str(s@),
            Json::Null => Value::Null,
            Json::Arr(items) => Value::Arr(
                Seq::new(
                    items.len() as nat,
                    |i: int|
                        if 0 <= i < items.len() {
                            items[i]@
                        } else {
                            Value::Null
                        },
                ),
            ),
            Json::Dict(object) => Value::Dict(object@),
            Json::Bool(b) => Value::Bool(*b),
        }
    }
}

impl View for Object {
    type V = Map<Seq<char>, Value>;

    closed spec fn view(&self) -> Map<Seq<char>, Value>
        decreases self,
    {
        Map::new(
            |k: Seq<char>| self.keys().contains(k),
            |k: Seq<char>|
                {
                    let i = self.keys().index_of(k);
                    if 0 <= i < self.entries.len() {
                        self.entries[i].1@
                    } else {
                        Value::Null
                    }
                },
        )
    }
}

impl Object {
    /// The keys in the order in which the members are stored.
    closed spec fn keys(&self) -> Seq<Seq<char>> {
        Seq::new(self.entries.len() as nat, |i: int| self.entries[i].0@)
    }

    #[verifier::type_invariant]
    closed spec fn ordered(&self) -> bool {
        ascending(self.keys())
    }

    /// An object has finitely many members.
    pub proof fn lemma_finite(&self)
        ensures
            self@.dom().finite(),
    {
        assert(self@.dom() =~= self.keys().to_set());
        vstd::seq_lib::seq_to_set_is_finite(self.keys());
    }

    /// With the keys in ascending order, the member stored at `i` is the one
    /// that the mapping holds under the key stored there.
    proof fn lemma_stored_member(&self, i: int)
        requires
            ascending(self.keys()),
            0 <= i < self.entries.len(),
        ensures
            self@.contains_key(self.entries[i].0@),
            self@[self.entries[i].0@] == self.entries[i].1@,
    {
        let k = self.keys()[i];
        assert(self.keys().contains(k));
        let j = self.keys().index_of(k);
        assert(self.keys()[j] == k);
        if j != i {
            lemma_key_lt_irreflexive(k);
            if j < i {
                assert(key_lt(self.keys()[j], self.keys()[i]));
            } else {
                assert(key_lt(self.keys()[i], self.keys()[j]));
            }
        }
    }

    /// An object without members.
    pub fn new() -> (object: Object)
        ensures
            object@ == Map::<Seq<char>, Value>::empty(),
    {
        let object = Object { entries: Vec::new() };
        assert(object@ =~= Map::<Seq<char>, Value>::empty());
        object
    }

    /// The number of members.
    pub fn len(&self) -> (n: usize)
        ensures
            n == self@.len(),
            self@.dom().finite(),
    {
        proof {
            use_type_invariant(self);
            assert(self@.dom() =~= self.keys().to_set());
            lemma_ascending_distinct(self.keys());
        }
        self.entries.len()
    }

    /// The member at place `index` when the members are listed in ascending
    /// order of their keys, if there are that many.
    pub fn nth(&self, index: usize) -> (member: Option<(&String, &Json)>)
        ensures
            self@.dom().finite(),
            index < self@.len() <==> member is Some,
            member matches Some((key, value)) ==> {
                &&& key@ == ascending_keys(self@.dom())[index as int]
                &&& self@.contains_key(key@)
                &&& value@ == self@[key@]
            },
    {
        proof {
            use_type_invariant(self);
            assert(self@.dom() =~= self.keys().to_set());
            lemma_ascending_distinct(self.keys());
            lemma_ascending_is_listing(self.keys());
        }
        if index < self.entries.len() {
            proof {
                self.lemma_stored_member(index as int);
            }
            let member = &self.entries[index];
            Some((&member.0, &member.1))
        } else {
            None
        }
    }

    /// Putting a member under a new key at the place where the key belongs
    /// keeps the keys ascending and adds that one member to the mapping.
    proof fn lemma_member_added(before: Object, after: Object, at: int, member: (String, Json))
        requires
            ascending(before.keys()),
            0 <= at <= before.entries.len(),
            forall|i: int| 0 <= i < at ==> key_lt(#[trigger] before.keys()[i], member.0@),
            forall|i: int|
                at <= i < before.entries.len() ==> key_lt(member.0@, #[trigger] before.keys()[i]),
            after.entries@ == before.entries@.insert(at, member),
        ensures
            ascending(after.keys()),
            after@ == before@.insert(member.0@, member.1@),
    {
        let key = member.0@;
        assert(after.keys() =~= before.keys().insert(at, key));
        lemma_insert_keeps_ascending(before.keys(), at, key);
        assert forall|k: Seq<char>| #[trigger]
            after@.contains_key(k) <==> before@.insert(key, member.1@).contains_key(k) by {
            assert(after.keys().to_set().contains(k) <==> after.keys().contains(k));
            assert(before.keys().to_set().contains(k) <==> before.keys().contains(k));
        }
        assert forall|k: Seq<char>| #[trigger] after@.contains_key(k) implies after@[k]
            == before@.insert(key, member.1@)[k] by {
            let p = after.keys().index_of(k);
            assert(after.keys()[p] == k);
            after.lemma_stored_member(p);
            if p < at {
                before.lemma_stored_member(p);
                lemma_key_lt_irreflexive(key);
            } else if p > at {
                before.lemma_stored_member(p - 1);
                lemma_key_lt_irreflexive(key);
            }
        }
        assert(after@ =~= before@.insert(key, member.1@));
    }

    /// Putting a member in the place of the one that has its key keeps the
    /// keys as they are and changes what the mapping holds under that key.
    proof fn lemma_member_replaced(before: Object, after: Object, at: int, member: (String, Json))
        requires
            ascending(before.keys()),
            0 <= at < before.entries.len(),
            before.keys()[at] == member.0@,
            after.entries@ == before.entries@.update(at, member),
        ensures
            ascending(after.keys()),
            after@ == before@.insert(member.0@, member.1@),
    {
        let key = member.0@;
        assert(after.keys() =~= before.keys());
        assert(before.keys().contains(key));
        assert forall|k: Seq<char>| #[trigger] after@.contains_key(k) implies after@[k]
            == before@.insert(key, member.1@)[k] by {
            let p = after.keys().index_of(k);
            assert(after.keys()[p] == k);
            after.lemma_stored_member(p);
            before.lemma_stored_member(p);
            if p != at && k == key {
                lemma_key_lt_irreflexive(key);
                if p < at {
                    assert(key_lt(before.keys()[p], before.keys()[at]));
                } else {
                    assert(key_lt(before.keys()[at], before.keys()[p]));
                }
            }
        }
        assert(after@ =~= before@.insert(key, member.1@));
    }

    /// Puts `value` under `key`. A member that was there under the same key
    /// leaves the object and is returned.
    pub fn insert(&mut self, key: String, value: Json) -> (previous: Option<Json>)
        ensures
            final(self)@ == old(self)@.insert(key@, value@),
            match previous {
                Some(member) => old(self)@.contains_key(key@) && member@ == old(self)@[key@],
                None => !old(self)@.contains_key(key@),
            },
    {
        proof {
            use_type_invariant(&*self);
        }
        let ghost before = *self;
        let at = self.lower_bound(key.as_str());
        let present = at < self.entries.len() && !key_precedes(
            key.as_str(),
            self.entries[at].0.as_str(),
        );
        let mut entries: Vec<(String, Json)> = Vec::new();
        core::mem::swap(&mut entries, &mut self.entries);
        let ghost member = (key, value);
        if present {
            proof {
                lemma_key_lt_connected(key@, before.keys()[at as int]);
                before.lemma_stored_member(at as int);
            }
            entries.push((key, value));
            let replaced = entries.swap_remove(at);
            proof {
                let after = Object { entries };
                assert(after.entries@ =~= before.entries@.update(at as int, member));
                Self::lemma_member_replaced(before, after, at as int, member);
            }
            self.entries = entries;
            Some(replaced.1)
        } else {
            proof {
                assert forall|i: int| at <= i < before.entries.len() implies key_lt(
                    key@,
                    #[trigger] before.keys()[i],
                ) by {
                    assert(key_lt(key@, before.keys()[at as int]));
                    if i > at {
                        assert(key_lt(before.keys()[at as int], before.keys()[i]));
                        lemma_key_lt_transitive(key@, before.keys()[at as int], before.keys()[i]);
                    }
                }
                assert(!before@.contains_key(key@)) by {
                    if before.keys().contains(key@) {
                        let p = before.keys().index_of(key@);
                        assert(before.keys()[p] == key@);
                        lemma_key_lt_irreflexive(key@);
                    }
                }
            }
            entries.insert(at, (key, value));
            proof {
                Self::lemma_member_added(before, Object { entries }, at as int, member);
            }
            self.entries = entries;
            None
        }
    }

    /// The first place whose key does not come before `key`.
    fn lower_bound(&self, key: &str) -> (at: usize)
        ensures
            at <= self.entries.len(),
            forall|i: int| 0 <= i < at ==> key_lt(#[trigger] self.keys()[i], key@),
            forall|i: int| at <= i < self.entries.len() ==> !key_lt(#[trigger] self.keys()[i], key@),
    {
        proof {
            use_type_invariant(self);
        }
        let mut low: usize = 0;
        let mut high: usize = self.entries.len();
        while low < high
            invariant
                ascending(self.keys()),
                low <= high <= self.entries.len(),
                forall|i: int| 0 <= i < low ==> key_lt(#[trigger] self.keys()[i], key@),
                forall|i: int|
                    high <= i < self.entries.len() ==> !key_lt(#[trigger] self.keys()[i], key@),
            decreases high - low,
        {
            let middle = low + (high - low) / 2;
            if key_precedes(self.entries[middle].0.as_str(), key) {
                proof {
                    assert forall|i: int| 0 <= i < middle + 1 implies key_lt(
                        #[trigger] self.keys()[i],
                        key@,
                    ) by {
                        if i < middle {
                            assert(key_lt(self.keys()[i], self.keys()[middle as int]));
                            lemma_key_lt_transitive(
                                self.keys()[i],
                                self.keys()[middle as int],
                                key@,
                            );
                        }
                    }
                }
                low = middle + 1;
            } else {
                proof {
                    assert forall|i: int| middle <= i < self.entries.len() implies !key_lt(
                        #[trigger] self.keys()[i],
                        key@,
                    ) by {
                        if i > middle && key_lt(self.keys()[i], key@) {
                            assert(key_lt(self.keys()[middle as int], self.keys()[i]));
                            lemma_key_lt_transitive(
                                self.keys()[middle as int],
                                self.keys()[i],
                                key@,
                            );
                        }
                    }
                }
                high = middle;
            }
        }
        low
    }
}

} // verus!
