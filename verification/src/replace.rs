//! The replacement table: substitutes for texts that are no numbers.

use crate::text::text_equal;
use vstd::prelude::*;

verus! {

/// What stands in for a text that is no number.
pub enum Substitute {
    /// A number, held as the numeral that is written into the metric line.
    Number(String),
    /// A string; it is written into the metric line as it is.
    Text(String),
}

/// What a [`Substitute`] holds, as mathematical text.
pub enum SubstituteView {
    Number(Seq<char>),
    Text(Seq<char>),
}

impl View for Substitute {
    type V = SubstituteView;

    open spec fn view(&self) -> SubstituteView {
        match self {
            Substitute::Number(numeral) => SubstituteView::Number(numeral@),
            Substitute::Text(text) => SubstituteView::Text(text@),
        }
    }
}

/// One line of the table.
struct Entry {
    key: String,
    value: Substitute,
}

/// The operator's table from literal texts to their substitutes. Keys are matched
/// exactly and with regard to case; no key stands in it twice.
pub struct ReplacementConfig {
    entries: Vec<Entry>,
}

impl ReplacementConfig {
    /// Whether some entry before `end` has the key `key`.
    spec fn has_key_before(self, end: int, key: Seq<char>) -> bool {
        exists|i: int| 0 <= i < end && #[trigger] self.entries@[i].key@ == key
    }

    /// The index of the entry with the key `key`.
    spec fn index_of(self, key: Seq<char>) -> int {
        choose|i: int| 0 <= i < self.entries@.len() && #[trigger] self.entries@[i].key@ == key
    }

    /// No key stands in the table twice.
    #[verifier::type_invariant]
    spec fn distinct_keys(self) -> bool {
        forall|i: int, j: int|
            0 <= i < j < self.entries@.len() ==> #[trigger] self.entries@[i].key@
                != #[trigger] self.entries@[j].key@
    }

    /// An empty table: every text that is no number is then rejected.
    pub fn new() -> (table: ReplacementConfig)
        ensures
            table@ == Map::<Seq<char>, SubstituteView>::empty(),
    {
        let table = ReplacementConfig { entries: Vec::new() };
        proof {
            assert(table@ =~= Map::<Seq<char>, SubstituteView>::empty());
        }
        table
    }

    /// The number of keys in the table.
    pub fn len(&self) -> (n: usize)
        ensures
            n == self@.dom().len(),
            self@.dom().finite(),
    {
        proof {
            use_type_invariant(self);
            self.lemma_domain_size(self.entries@.len() as int);
            assert(Set::new(|k: Seq<char>| self.has_key_before(self.entries@.len() as int, k))
                =~= self@.dom());
        }
        self.entries.len()
    }

    /// The keys of the first `end` entries are `end` in number.
    proof fn lemma_domain_size(self, end: int)
        requires
            self.distinct_keys(),
            0 <= end <= self.entries@.len(),
        ensures
            Set::new(|k: Seq<char>| self.has_key_before(end, k)).finite(),
            Set::new(|k: Seq<char>| self.has_key_before(end, k)).len() == end,
        decreases end,
    {
        let keys = Set::new(|k: Seq<char>| self.has_key_before(end, k));
        if end == 0 {
            assert(keys =~= Set::<Seq<char>>::empty());
        } else {
            self.lemma_domain_size(end - 1);
            let fewer = Set::new(|k: Seq<char>| self.has_key_before(end - 1, k));
            let last = self.entries@[end - 1].key@;
            assert(!fewer.contains(last));
            assert(keys =~= fewer.insert(last));
        }
    }

    /// Looks `key` up.
    pub fn get(&self, key: &str) -> (found: Option<&Substitute>)
        ensures
            match found {
                Some(value) => self@.dom().contains(key@) && self@[key@] == value@,
                None => !self@.dom().contains(key@),
            },
    {
        proof {
            use_type_invariant(self);
        }
        let n = self.entries.len();
        let mut i: usize = 0;
        while i < n
            invariant
                n == self.entries@.len(),
                i <= n,
                self.distinct_keys(),
                !self.has_key_before(i as int, key@),
            decreases n - i,
        {
            if text_equal(self.entries[i].key.as_str(), key) {
                proof {
                    assert(self.entries@[i as int].key@ == key@);
                    assert(self.index_of(key@) == i);
                }
                return Some(&self.entries[i].value);
            }
            i += 1;
        }
        None
    }

    /// Sets the substitute of `key`, in place of the one it had if it had one.
    pub fn insert(&mut self, key: String, value: Substitute)
        ensures
            final(self)@ == old(self)@.insert(key@, value@),
    {
        proof {
            use_type_invariant(&*self);
        }
        let ghost before = *self;
        let n = self.entries.len();
        let mut i: usize = 0;
        let mut at: Option<usize> = None;
        while i < n
            invariant_except_break
                at is None,
                !self.has_key_before(i as int, key@),
            invariant
                *self == before,
                n == self.entries@.len(),
                i <= n,
            ensures
                match at {
                    Some(k) => k < n && self.entries@[k as int].key@ == key@,
                    None => !self.has_key_before(n as int, key@),
                },
            decreases n - i,
        {
            if text_equal(self.entries[i].key.as_str(), key.as_str()) {
                at = Some(i);
                break;
            }
            i += 1;
        }
        let mut entries = Vec::new();
        std::mem::swap(&mut entries, &mut self.entries);
        match at {
            Some(k) => {
                entries.set(k, Entry { key, value });
            },
            None => {
                entries.push(Entry { key, value });
            },
        }
        let ghost after = ReplacementConfig { entries };
        proof {
            assert(after.distinct_keys());
            assert forall|k: Seq<char>| #[trigger] after@.dom().contains(k) implies before@.insert(
                key@,
                value@,
            ).dom().contains(k) && after@[k] == before@.insert(key@, value@)[k] by {
                let j = after.index_of(k);
                if k != key@ {
                    assert(before.entries@[j].key@ == k);
                    assert(before.index_of(k) == j);
                }
            }
            assert forall|k: Seq<char>| #[trigger]
                before@.insert(key@, value@).dom().contains(k) implies after@.dom().contains(
                k,
            ) by {
                if k != key@ {
                    let j = before.index_of(k);
                    assert(after.entries@[j].key@ == k);
                } else {
                    match at {
                        Some(a) => {
                            assert(after.entries@[a as int].key@ == k);
                        },
                        None => {
                            assert(after.entries@[n as int].key@ == k);
                        },
                    }
                }
            }
            assert(after@ =~= before@.insert(key@, value@));
        }
        self.entries = entries;
    }
}

impl View for ReplacementConfig {
    type V = Map<Seq<char>, SubstituteView>;

    closed spec fn view(&self) -> Map<Seq<char>, SubstituteView> {
        Map::new(
            |k: Seq<char>| self.has_key_before(self.entries@.len() as int, k),
            |k: Seq<char>| self.entries@[self.index_of(k)].value@,
        )
    }
}

} // verus!
