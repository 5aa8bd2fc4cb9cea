//! The codes of an enum signal with their labels, as written in a catalog.

use crate::name_set::{comes_before, is_before, lemma_total, lemma_transitive};
use vstd::prelude::*;

verus! {

/// Codes, in decimal, and their labels, sorted by the code's text. No text
/// stands for a code twice.
#[derive(Debug, PartialEq)]
pub struct EnumMap {
    entries: Vec<(String, String)>,
}

/// The content of a list of text pairs.
spec fn text_pairs(pairs: Seq<(String, String)>) -> Seq<(Seq<char>, Seq<char>)> {
    Seq::new(pairs.len(), |i: int| (pairs[i].0@, pairs[i].1@))
}

/// Whether entries are sorted by their first text, which occurs once.
pub open spec fn sorted(entries: Seq<(Seq<char>, Seq<char>)>) -> bool {
    forall|i: int, j: int|
        0 <= i < j < entries.len() ==> comes_before(
            (#[trigger] entries[i]).0,
            (#[trigger] entries[j]).0,
        )
}

impl View for EnumMap {
    type V = Seq<(Seq<char>, Seq<char>)>;

    closed spec fn view(&self) -> Seq<(Seq<char>, Seq<char>)> {
        text_pairs(self.entries@)
    }
}

impl EnumMap {
    #[verifier::type_invariant]
    spec fn in_order(self) -> bool {
        sorted(text_pairs(self.entries@))
    }

    pub fn new() -> (r: EnumMap)
        ensures
            r@.len() == 0,
    {
        EnumMap { entries: Vec::new() }
    }

    /// How many entries there are.
    pub fn len(&self) -> (n: usize)
        ensures
            n == self@.len(),
            sorted(self@),
    {
        proof {
            use_type_invariant(self);
        }
        self.entries.len()
    }

    /// The code at a position.
    pub fn code_at(&self, i: usize) -> (r: &str)
        requires
            i < self@.len(),
        ensures
            r@ == self@[i as int].0,
    {
        self.entries[i].0.as_str()
    }

    /// The label at a position.
    pub fn label_at(&self, i: usize) -> (r: &str)
        requires
            i < self@.len(),
        ensures
            r@ == self@[i as int].1,
    {
        self.entries[i].1.as_str()
    }

    /// Gives a code a label, in place of the label that it had.
    pub fn insert(&mut self, code: String, label: String)
        ensures
            sorted(final(self)@),
            forall|c: Seq<char>, l: Seq<char>| #[trigger]
                final(self)@.contains((c, l)) <==> if c == code@ {
                    l == label@
                } else {
                    old(self)@.contains((c, l))
                },
    {
        proof {
            use_type_invariant(&*self);
        }
        let ghost before = self@;
        let mut entries: Vec<(String, String)> = Vec::new();
        core::mem::swap(&mut entries, &mut self.entries);
        let mut i: usize = 0;
        while i < entries.len() && is_before(entries[i].0.as_str(), code.as_str())
            invariant
                i <= entries@.len(),
                text_pairs(entries@) == before,
                forall|j: int| 0 <= j < i ==> comes_before((#[trigger] before[j]).0, code@),
            decreases entries@.len() - i,
        {
            assert(before[i as int] == (entries@[i as int].0@, entries@[i as int].1@));
            i = i + 1;
        }
        let ghost entry = (code@, label@);
        let ghost old_entries = entries@;
        if i < entries.len() {
            assert(before[i as int] == (entries@[i as int].0@, entries@[i as int].1@));
        }
        if i < entries.len() && !is_before(code.as_str(), entries[i].0.as_str()) {
            proof {
                lemma_total(before[i as int].0, code@);
            }
            entries.set(i, (code, label));
            assert(text_pairs(entries@) =~= before.update(i as int, entry));
            proof {
                lemma_entry_replaced(before, i as int, entry);
            }
        } else {
            entries.insert(i, (code, label));
            assert(text_pairs(entries@) =~= before.insert(i as int, entry));
            proof {
                lemma_entry_added(before, i as int, entry);
            }
        }
        self.entries = entries;
    }
}

impl Clone for EnumMap {
    fn clone(&self) -> (r: EnumMap)
        ensures
            r@ == self@,
    {
        proof {
            use_type_invariant(self);
        }
        let mut entries: Vec<(String, String)> = Vec::new();
        let mut i: usize = 0;
        while i < self.entries.len()
            invariant
                i <= self.entries@.len(),
                entries@.len() == i,
                forall|j: int|
                    0 <= j < i ==> (#[trigger] entries@[j]).0@ == self.entries@[j].0@
                        && entries@[j].1@ == self.entries@[j].1@,
            decreases self.entries@.len() - i,
        {
            entries.push((self.entries[i].0.clone(), self.entries[i].1.clone()));
            i = i + 1;
        }
        assert(text_pairs(entries@) =~= text_pairs(self.entries@));
        EnumMap { entries }
    }
}

/// Replacing an entry's label keeps the order and every other entry.
proof fn lemma_entry_replaced(
    before: Seq<(Seq<char>, Seq<char>)>,
    i: int,
    entry: (Seq<char>, Seq<char>),
)
    requires
        sorted(before),
        0 <= i < before.len(),
        before[i].0 == entry.0,
    ensures
        sorted(before.update(i, entry)),
        forall|c: Seq<char>, l: Seq<char>| #[trigger]
            before.update(i, entry).contains((c, l)) <==> if c == entry.0 {
                l == entry.1
            } else {
                before.contains((c, l))
            },
{
    let after = before.update(i, entry);
    assert forall|c: Seq<char>, l: Seq<char>| #[trigger] after.contains((c, l)) <==> if c
        == entry.0 {
        l == entry.1
    } else {
        before.contains((c, l))
    } by {
        assert(after[i] == entry);
        if after.contains((c, l)) {
            let j = choose|j: int| 0 <= j < after.len() && after[j] == (c, l);
            if j != i {
                assert(before[j] == (c, l));
                lemma_total(before[i].0, c);
            }
        }
        if c != entry.0 && before.contains((c, l)) {
            let j = choose|j: int| 0 <= j < before.len() && before[j] == (c, l);
            assert(after[j] == (c, l));
        }
    }
}

/// Adding an entry between those before and those after it keeps the order and
/// every other entry.
proof fn lemma_entry_added(
    before: Seq<(Seq<char>, Seq<char>)>,
    i: int,
    entry: (Seq<char>, Seq<char>),
)
    requires
        sorted(before),
        0 <= i <= before.len(),
        forall|j: int| 0 <= j < i ==> comes_before((#[trigger] before[j]).0, entry.0),
        i < before.len() ==> comes_before(entry.0, before[i].0),
    ensures
        sorted(before.insert(i, entry)),
        forall|c: Seq<char>, l: Seq<char>| #[trigger]
            before.insert(i, entry).contains((c, l)) <==> if c == entry.0 {
                l == entry.1
            } else {
                before.contains((c, l))
            },
{
    let after = before.insert(i, entry);
    assert forall|j: int| i <= j < before.len() implies comes_before(
        entry.0,
        (#[trigger] before[j]).0,
    ) by {
        if j > i {
            lemma_transitive(entry.0, before[i].0, before[j].0);
        }
    }
    assert forall|j: int, k: int| 0 <= j < k < after.len() implies comes_before(
        (#[trigger] after[j]).0,
        (#[trigger] after[k]).0,
    ) by {
        if k < i {
            assert(after[j] == before[j] && after[k] == before[k]);
        } else if k == i {
            assert(after[j] == before[j]);
        } else if j < i {
            assert(after[j] == before[j] && after[k] == before[k - 1]);
        } else if j == i {
            assert(after[k] == before[k - 1]);
        } else {
            assert(after[j] == before[j - 1] && after[k] == before[k - 1]);
        }
    }
    assert forall|c: Seq<char>, l: Seq<char>| #[trigger] after.contains((c, l)) <==> if c
        == entry.0 {
        l == entry.1
    } else {
        before.contains((c, l))
    } by {
        assert(after[i] == entry);
        if after.contains((c, l)) {
            let j = choose|j: int| 0 <= j < after.len() && after[j] == (c, l);
            if j < i {
                assert(before[j] == (c, l));
                lemma_total(c, c);
            } else if j > i {
                assert(before[j - 1] == (c, l));
                lemma_total(c, c);
            }
        }
        if c != entry.0 && before.contains((c, l)) {
            let j = choose|j: int| 0 <= j < before.len() && before[j] == (c, l);
            if j < i {
                assert(after[j] == (c, l));
            } else {
                assert(after[j + 1] == (c, l));
            }
        }
    }
}

} // verus!
