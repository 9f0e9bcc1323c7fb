//! The schema of a world: which component types own which bit, and which
//! range of bits each flag owns.
//!
//! Component bits are assigned in the order of registration, starting at
//! position 0.  Flag ranges are given relative to the first position after
//! the component bits.

use std::any::TypeId;
use std::ops::Range;
use vstd::prelude::*;

use crate::bitfields::BitField;
use crate::components::same_component;

verus! {

/// One registered flag with the range of bits that it owns.
pub struct FlagEntry<F> {
    pub flag: F,
    pub start: u8,
    pub end: u8,
}

impl<F> FlagEntry<F> {
    pub open spec fn range(self) -> Range<u8> {
        Range { start: self.start, end: self.end }
    }
}

/// The largest end among the ranges of `entries`, 0 when there is none.
pub open spec fn largest_end<F>(entries: Seq<FlagEntry<F>>) -> nat
    decreases entries.len(),
{
    if entries.len() == 0 {
        0
    } else {
        let rest = largest_end(entries.drop_last());
        if entries.last().end > rest {
            entries.last().end as nat
        } else {
            rest
        }
    }
}

proof fn lemma_largest_end<F>(entries: Seq<FlagEntry<F>>)
    ensures
        forall|i: int| 0 <= i < entries.len() ==> (#[trigger] entries[i]).end <= largest_end(entries),
        largest_end(entries) == 0 || exists|i: int|
            0 <= i < entries.len() && (#[trigger] entries[i]).end == largest_end(entries),
        largest_end(entries) <= 255,
    decreases entries.len(),
{
    if entries.len() > 0 {
        let rest = entries.drop_last();
        lemma_largest_end(rest);
        assert forall|i: int| 0 <= i < entries.len() implies (#[trigger] entries[i]).end
            <= largest_end(entries) by {
            if i < rest.len() {
                assert(entries[i] == rest[i]);
            }
        }
        if largest_end(entries) != 0 {
            if entries.last().end > largest_end(rest) {
                assert(entries[entries.len() - 1].end == largest_end(entries));
            } else {
                let i = choose|i: int|
                    0 <= i < rest.len() && (#[trigger] rest[i]).end == largest_end(rest);
                assert(entries[i] == rest[i]);
            }
        }
    }
}

/// The registered component types and flags of a world.
pub struct Schema<F> {
    components: Vec<TypeId>,
    flags: Vec<FlagEntry<F>>,
}

impl<F: BitField> Schema<F> {
    /// The registered component types; a type's index is its bit position.
    pub closed spec fn components(&self) -> Seq<TypeId> {
        self.components@
    }

    /// The registered flags, each with its range.
    pub closed spec fn flags(&self) -> Map<F, Range<u8>> {
        Map::new(
            |flag: F| exists|i: int| 0 <= i < self.flags@.len() && (#[trigger] self.flags@[i]).flag == flag,
            |flag: F|
                self.flags@[choose|i: int|
                    0 <= i < self.flags@.len() && (#[trigger] self.flags@[i]).flag == flag].range(),
        )
    }

    /// No component type and no flag is registered twice.
    pub closed spec fn wf(&self) -> bool {
        &&& self.components@.no_duplicates()
        &&& forall|i: int, j: int|
            0 <= i < j < self.flags@.len() ==> (#[trigger] self.flags@[i]).flag != (
            #[trigger] self.flags@[j]).flag
    }

    /// The number of registered component types.
    pub open spec fn component_count(&self) -> nat {
        self.components().len()
    }

    /// The bit position of a component type, if it is registered.
    pub open spec fn position(&self, id: TypeId) -> Option<nat> {
        if self.components().contains(id) {
            Some(self.components().index_of(id) as nat)
        } else {
            None
        }
    }

    /// The largest end among the flag ranges, 0 when no flag is registered.
    pub closed spec fn flag_end(&self) -> nat {
        largest_end(self.flags@)
    }

    /// The number of bits that the schema needs.
    pub open spec fn total_bits(&self) -> nat {
        self.component_count() + self.flag_end()
    }

    /// Whether position `bit`, taken relative to the first flag bit,
    /// belongs to the range of some flag.
    pub open spec fn covers(&self, bit: nat) -> bool {
        exists|flag: F| #[trigger]
            self.flags().contains_key(flag) && self.flags()[flag].start <= bit
                < self.flags()[flag].end
    }

    proof fn lemma_entry(&self, i: int)
        requires
            self.wf(),
            0 <= i < self.flags@.len(),
        ensures
            self.flags().contains_key(self.flags@[i].flag),
            self.flags()[self.flags@[i].flag] == self.flags@[i].range(),
    {
        let flag = self.flags@[i].flag;
        let j = choose|j: int| 0 <= j < self.flags@.len() && (#[trigger] self.flags@[j]).flag == flag;
        assert(j == i);
    }

    /// `flag_end` is the largest end among the flag ranges.
    pub proof fn lemma_flag_end(&self)
        requires
            self.wf(),
        ensures
            forall|flag: F| #[trigger]
                self.flags().contains_key(flag) ==> self.flags()[flag].end <= self.flag_end(),
            self.flag_end() == 0 || exists|flag: F| #[trigger]
                self.flags().contains_key(flag) && self.flags()[flag].end == self.flag_end(),
            self.flag_end() <= 255,
    {
        lemma_largest_end(self.flags@);
        assert forall|flag: F| #[trigger] self.flags().contains_key(flag) implies self.flags()[flag].end
            <= self.flag_end() by {
            let i = choose|i: int| 0 <= i < self.flags@.len() && (#[trigger] self.flags@[i]).flag == flag;
            self.lemma_entry(i);
        }
        if self.flag_end() != 0 {
            let i = choose|i: int|
                0 <= i < self.flags@.len() && (#[trigger] self.flags@[i]).end == largest_end(
                    self.flags@,
                );
            self.lemma_entry(i);
            assert(self.flags().contains_key(self.flags@[i].flag));
        }
    }

    /// A registered component type has one position, below the count, and
    /// two types never share one.
    pub proof fn lemma_position(&self, id: TypeId)
        requires
            self.wf(),
        ensures
            match self.position(id) {
                Some(i) => i < self.component_count() && self.components()[i as int] == id,
                None => !self.components().contains(id),
            },
            forall|i: int|
                0 <= i < self.component_count() && self.components()[i] == id ==> self.position(id)
                    == Some(i as nat),
    {
        if self.components().contains(id) {
            let k = self.components().index_of(id);
            assert(0 <= k < self.components().len() && self.components()[k] == id);
        }
    }

    /// The schema without any component type or flag.
    pub fn new() -> (schema: Self)
        ensures
            schema.wf(),
            schema.components() == Seq::<TypeId>::empty(),
            schema.flags() == Map::<F, Range<u8>>::empty(),
    {
        let schema = Schema { components: Vec::new(), flags: Vec::new() };
        assert(schema.flags() =~= Map::<F, Range<u8>>::empty());
        schema
    }

    /// The number of registered component types.
    pub fn component_len(&self) -> (count: usize)
        ensures
            count == self.component_count(),
    {
        self.components.len()
    }

    /// The bit position of a component type, if it is registered.
    pub fn component_position(&self, id: &TypeId) -> (found: Option<usize>)
        requires
            self.wf(),
        ensures
            match found {
                Some(i) => self.position(*id) == Some(i as nat),
                None => self.position(*id).is_none(),
            },
    {
        let mut i: usize = 0;
        while i < self.components.len()
            invariant
                self.wf(),
                i <= self.components@.len(),
                forall|j: int| 0 <= j < i ==> self.components@[j] != *id,
            decreases self.components@.len() - i,
        {
            if same_component(&self.components[i], id) {
                proof {
                    self.lemma_position(*id);
                }
                return Some(i);
            }
            i = i + 1;
        }
        None
    }

    /// Registers a component type at the next position; a type that is
    /// registered already keeps its position and nothing changes.  Returns
    /// whether the type was new.
    pub fn register_component(&mut self, id: TypeId) -> (added: bool)
        requires
            old(self).wf(),
        ensures
            final(self).wf(),
            final(self).flags() == old(self).flags(),
            final(self).flag_end() == old(self).flag_end(),
            added == !old(self).components().contains(id),
            final(self).components() == if added {
                old(self).components().push(id)
            } else {
                old(self).components()
            },
    {
        match self.component_position(&id) {
            Some(_) => false,
            None => {
                self.components.push(id);
                true
            },
        }
    }

    fn flag_index(&self, flag: &F) -> (found: Option<usize>)
        requires
            self.wf(),
        ensures
            match found {
                Some(i) => i < self.flags@.len() && self.flags@[i as int].flag == *flag,
                None => forall|j: int| 0 <= j < self.flags@.len() ==> self.flags@[j].flag != *flag,
            },
    {
        let mut i: usize = 0;
        while i < self.flags.len()
            invariant
                i <= self.flags@.len(),
                forall|j: int| 0 <= j < i ==> self.flags@[j].flag != *flag,
            decreases self.flags@.len() - i,
        {
            if self.flags[i].flag.same(flag) {
                return Some(i);
            }
            i = i + 1;
        }
        None
    }

    /// The range of a flag, if it is registered.
    pub fn flag_range(&self, flag: &F) -> (found: Option<Range<u8>>)
        requires
            self.wf(),
        ensures
            found == if self.flags().contains_key(*flag) {
                Some(self.flags()[*flag])
            } else {
                None
            },
    {
        match self.flag_index(flag) {
            Some(i) => {
                proof {
                    self.lemma_entry(i as int);
                }
                Some(Range { start: self.flags[i].start, end: self.flags[i].end })
            },
            None => None,
        }
    }

    /// Registers a flag with its range; a flag that is registered already
    /// gets the new range.
    pub fn register_flag(&mut self, flag: F, range: Range<u8>)
        requires
            old(self).wf(),
        ensures
            final(self).wf(),
            final(self).components() == old(self).components(),
            final(self).flags() == old(self).flags().insert(flag, range),
    {
        let entry = FlagEntry { flag, start: range.start, end: range.end };
        let found = self.flag_index(&flag);
        let ghost k: int = match found {
            Some(i) => i as int,
            None => old(self).flags@.len() as int,
        };
        match found {
            Some(i) => {
                self.flags[i] = entry;
            },
            None => {
                self.flags.push(entry);
            },
        }
        proof {
            assert(self.flags@[k] == entry);
            assert(forall|j: int|
                0 <= j < old(self).flags@.len() && j != k ==> self.flags@[j] == old(self).flags@[j]);
            assert(self.wf());
            self.lemma_entry(k);
            assert forall|f: F| f != flag implies (#[trigger] self.flags().contains_key(f) == old(self).flags().contains_key(f)) by {
                if old(self).flags().contains_key(f) {
                    let i = choose|i: int|
                        0 <= i < old(self).flags@.len() && (#[trigger] old(self).flags@[i]).flag == f;
                    assert(self.flags@[i].flag == f);
                }
                if self.flags().contains_key(f) {
                    let i = choose|i: int|
                        0 <= i < self.flags@.len() && (#[trigger] self.flags@[i]).flag == f;
                    assert(old(self).flags@[i].flag == f);
                }
            }
            assert forall|f: F| f != flag && #[trigger] self.flags().contains_key(f) implies self.flags()[f]
                == old(self).flags()[f] by {
                let i = choose|i: int|
                    0 <= i < self.flags@.len() && (#[trigger] self.flags@[i]).flag == f;
                self.lemma_entry(i);
                assert(old(self).flags@[i] == self.flags@[i]);
                old(self).lemma_entry(i);
            }
            assert(self.flags() =~= old(self).flags().insert(flag, range));
        }
    }

    /// The number of bits that the schema needs, or `usize::MAX` when that
    /// number does not fit.
    pub fn required_bits(&self) -> (required: usize)
        requires
            self.wf(),
        ensures
            required == if self.total_bits() <= usize::MAX {
                self.total_bits()
            } else {
                usize::MAX as nat
            },
    {
        let mut end: u8 = 0;
        let mut i: usize = 0;
        while i < self.flags.len()
            invariant
                i <= self.flags@.len(),
                end == largest_end(self.flags@.take(i as int)),
            decreases self.flags@.len() - i,
        {
            proof {
                assert(self.flags@.take(i + 1).drop_last() =~= self.flags@.take(i as int));
            }
            if self.flags[i].end > end {
                end = self.flags[i].end;
            }
            i = i + 1;
        }
        proof {
            assert(self.flags@.take(i as int) =~= self.flags@);
        }
        let wide: usize = end as usize;
        self.components.len().saturating_add(wide)
    }
}

} // verus!
