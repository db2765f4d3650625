//! Counting how often each metric name was seen, and decorating repeated names.

use crate::text::{decimal, push_decimal, push_text, text_equal};
use vstd::prelude::*;

verus! {

/// How often `name` stands in `names`.
pub open spec fn occurrences(names: Seq<Seq<char>>, name: Seq<char>) -> nat
    decreases names.len(),
{
    if names.len() == 0 {
        0
    } else {
        occurrences(names.drop_last(), name) + if names.last() == name {
            1nat
        } else {
            0nat
        }
    }
}

/// The name under which the `n`-th occurrence of `name` is emitted: the first one
/// unchanged, a later one with its number behind it, without a separator.
pub open spec fn decorated(name: Seq<char>, n: nat) -> Seq<char> {
    if n <= 1 {
        name
    } else {
        name + decimal(n)
    }
}

/// The name under which the record at `i` is emitted, given the undecorated names of
/// all accepted records in their order.
pub open spec fn emitted_name(names: Seq<Seq<char>>, i: int) -> Seq<char> {
    decorated(names[i], occurrences(names.take(i + 1), names[i]))
}

/// A name never occurs more often than there are names.
pub proof fn lemma_occurrences_bounded(names: Seq<Seq<char>>, name: Seq<char>)
    ensures
        occurrences(names, name) <= names.len(),
    decreases names.len(),
{
    if names.len() > 0 {
        lemma_occurrences_bounded(names.drop_last(), name);
    }
}

/// A name occurs in a sequence just when it is one of its elements.
pub proof fn lemma_occurrences_positive(names: Seq<Seq<char>>, name: Seq<char>)
    ensures
        occurrences(names, name) > 0 <==> names.contains(name),
    decreases names.len(),
{
    if names.len() > 0 {
        lemma_occurrences_positive(names.drop_last(), name);
        if names.contains(name) {
            let i = choose|i: int| 0 <= i < names.len() && names[i] == name;
            if i < names.len() - 1 {
                assert(names.drop_last()[i] == name);
            }
        }
        if names.drop_last().contains(name) {
            let i = choose|i: int| 0 <= i < names.len() - 1 && names.drop_last()[i] == name;
            assert(names[i] == name);
        }
    }
}

/// Writes the name under which the `n`-th occurrence of `name` is emitted.
pub fn decorate(name: &str, n: usize) -> (out: String)
    ensures
        out@ == decorated(name@, n as nat),
{
    let mut out = String::new();
    push_text(&mut out, name);
    if n > 1 {
        push_decimal(&mut out, n as u64);
    }
    proof {
        assert(out@ =~= decorated(name@, n as nat));
    }
    out
}

/// One counted name.
struct Counted {
    name: String,
    count: usize,
}

/// The occurrence count of every metric name seen so far in one conversion, under the
/// undecorated name. A name that was not seen has no count; no name is held twice.
///
/// The names are held in a vector and searched one by one: of a hash map with strings
/// as keys Verus can prove nothing, not even its length after one insertion.
pub struct NameOccurrenceTable {
    seen: Vec<Counted>,
}

impl NameOccurrenceTable {
    spec fn has_name_before(self, end: int, name: Seq<char>) -> bool {
        exists|i: int| 0 <= i < end && #[trigger] self.seen@[i].name@ == name
    }

    spec fn index_of(self, name: Seq<char>) -> int {
        choose|i: int| 0 <= i < self.seen@.len() && #[trigger] self.seen@[i].name@ == name
    }

    /// No name is held twice.
    #[verifier::type_invariant]
    spec fn distinct_names(self) -> bool {
        forall|i: int, j: int|
            0 <= i < j < self.seen@.len() ==> #[trigger] self.seen@[i].name@
                != #[trigger] self.seen@[j].name@
    }

    /// The count of `name`: 0 if it was not seen.
    pub open spec fn count_of(self, name: Seq<char>) -> nat {
        if self@.dom().contains(name) {
            self@[name]
        } else {
            0
        }
    }

    /// The distinct names in the order in which each was first seen.
    pub closed spec fn names(self) -> Seq<Seq<char>> {
        self.seen@.map_values(|c: Counted| c.name@)
    }

    /// A table in which no name was seen.
    pub fn new() -> (table: NameOccurrenceTable)
        ensures
            table@ == Map::<Seq<char>, nat>::empty(),
            table.names() == Seq::<Seq<char>>::empty(),
    {
        let table = NameOccurrenceTable { seen: Vec::new() };
        proof {
            assert(table@ =~= Map::<Seq<char>, nat>::empty());
            assert(table.names() =~= Seq::<Seq<char>>::empty());
        }
        table
    }

    /// Counts one more occurrence of `name` and returns its number: 1 for a name that
    /// is new.
    pub fn record(&mut self, name: &str) -> (n: usize)
        requires
            old(self).count_of(name@) < usize::MAX,
        ensures
            n == old(self).count_of(name@) + 1,
            final(self)@ == old(self)@.insert(name@, n as nat),
            final(self).names() == if old(self)@.dom().contains(name@) {
                old(self).names()
            } else {
                old(self).names().push(name@)
            },
    {
        proof {
            use_type_invariant(&*self);
        }
        let ghost before = *self;
        let len = self.seen.len();
        let mut i: usize = 0;
        let mut at: Option<usize> = None;
        while i < len
            invariant_except_break
                at is None,
                !self.has_name_before(i as int, name@),
            invariant
                *self == before,
                len == self.seen@.len(),
                i <= len,
            ensures
                match at {
                    Some(k) => k < len && self.seen@[k as int].name@ == name@,
                    None => !self.has_name_before(len as int, name@),
                },
            decreases len - i,
        {
            if text_equal(self.seen[i].name.as_str(), name) {
                at = Some(i);
                break;
            }
            i += 1;
        }
        let mut seen = Vec::new();
        std::mem::swap(&mut seen, &mut self.seen);
        let n = match at {
            Some(k) => {
                proof {
                    assert(before.index_of(name@) == k);
                }
                let n = seen[k].count + 1;
                seen.set(k, Counted { name: name.to_owned(), count: n });
                n
            },
            None => {
                seen.push(Counted { name: name.to_owned(), count: 1 });
                1
            },
        };
        let ghost after = NameOccurrenceTable { seen };
        proof {
            assert(after.distinct_names());
            assert forall|k: Seq<char>| #[trigger] after@.dom().contains(k) implies before@.insert(
                name@,
                n as nat,
            ).dom().contains(k) && after@[k] == before@.insert(name@, n as nat)[k] by {
                let j = after.index_of(k);
                if k != name@ {
                    assert(before.seen@[j].name@ == k);
                    assert(before.index_of(k) == j);
                }
            }
            assert forall|k: Seq<char>| #[trigger]
                before@.insert(name@, n as nat).dom().contains(k) implies after@.dom().contains(
                k,
            ) by {
                if k != name@ {
                    let j = before.index_of(k);
                    assert(after.seen@[j].name@ == k);
                } else {
                    match at {
                        Some(a) => {
                            assert(after.seen@[a as int].name@ == k);
                        },
                        None => {
                            assert(after.seen@[len as int].name@ == k);
                        },
                    }
                }
            }
            assert(after@ =~= before@.insert(name@, n as nat));
            if at is Some {
                assert(after.names() =~= before.names());
            } else {
                assert(after.names() =~= before.names().push(name@));
            }
        }
        self.seen = seen;
        n
    }

    /// The distinct names, in the order in which each was first seen.
    pub fn distinct_names_seen(&self) -> (list: Vec<String>)
        ensures
            crate::text::texts(list@) == self.names(),
            self.names().no_duplicates(),
            forall|name: Seq<char>| self@.dom().contains(name) <==> self.names().contains(name),
    {
        let mut list: Vec<String> = Vec::new();
        let len = self.seen.len();
        let mut i: usize = 0;
        while i < len
            invariant
                len == self.seen@.len(),
                i <= len,
                crate::text::texts(list@) == self.names().take(i as int),
            decreases len - i,
        {
            let ghost before = crate::text::texts(list@);
            list.push(self.seen[i].name.clone());
            proof {
                assert(crate::text::texts(list@) =~= before.push(self.seen@[i as int].name@));
                assert(self.names().take(i + 1) =~= self.names().take(i as int).push(
                    self.names()[i as int],
                ));
            }
            i += 1;
        }
        proof {
            assert(self.names().take(len as int) =~= self.names());
            use_type_invariant(self);
            assert forall|name: Seq<char>| self@.dom().contains(name) implies self.names().contains(
                name,
            ) by {
                let i = self.index_of(name);
                assert(self.names()[i] == name);
            }
            assert forall|name: Seq<char>| self.names().contains(name) implies self@.dom().contains(
                name,
            ) by {
                let i = choose|i: int| 0 <= i < self.names().len() && self.names()[i] == name;
                assert(self.seen@[i].name@ == name);
            }
        }
        list
    }
}

impl View for NameOccurrenceTable {
    type V = Map<Seq<char>, nat>;

    closed spec fn view(&self) -> Map<Seq<char>, nat> {
        Map::new(
            |k: Seq<char>| self.has_name_before(self.seen@.len() as int, k),
            |k: Seq<char>| self.seen@[self.index_of(k)].count as nat,
        )
    }
}

} // verus!
