//! Runtime-only string handles and their interning tables.
//!
//! [`StatId`] and [`TagId`] are load-order-dependent handles whose meaning
//! exists only within the [`Interners`] that issued them. They are never
//! persisted: the resolved string is.

use indexmap::IndexSet;
use vstd::prelude::*;

verus! {

/// `indexmap::IndexSet`, an insertion-ordered hash set, held opaquely.
#[verifier::external_type_specification]
#[verifier::external_body]
#[verifier::reject_recursive_types(T)]
#[verifier::reject_recursive_types(S)]
pub struct ExIndexSet<T, S>(IndexSet<T, S>);

/// The strings an `IndexSet<String>` holds, in their insertion order.
pub uninterp spec fn index_set_items(set: IndexSet<String>) -> Seq<Seq<char>>;

/// `IndexSet::new`: an empty set.
#[verifier::external_body]
fn set_new() -> (r: IndexSet<String>)
    ensures
        index_set_items(r) == Seq::<Seq<char>>::empty(),
{
    IndexSet::new()
}

/// `IndexSet::with_capacity`: an empty set with room for `n` strings.
#[verifier::external_body]
fn set_with_capacity(n: usize) -> (r: IndexSet<String>)
    ensures
        index_set_items(r) == Seq::<Seq<char>>::empty(),
{
    IndexSet::with_capacity(n)
}

/// `IndexSet::len`: the number of strings held.
#[verifier::external_body]
fn set_len(set: &IndexSet<String>) -> (r: usize)
    ensures
        r == index_set_items(*set).len(),
{
    set.len()
}

/// `IndexSet::is_empty`: whether no string is held.
#[verifier::external_body]
fn set_is_empty(set: &IndexSet<String>) -> (r: bool)
    ensures
        r == (index_set_items(*set).len() == 0),
{
    set.is_empty()
}

/// `IndexSet::get_index_of`: the position of `value`, if it is held. The
/// position returned holds `value`.
#[verifier::external_body]
fn set_get_index_of(set: &IndexSet<String>, value: &str) -> (r: Option<usize>)
    ensures
        r is Some ==> r->0 < index_set_items(*set).len() && index_set_items(*set)[r->0 as int]
            == value@,
        r is None ==> !index_set_items(*set).contains(value@),
{
    set.get_index_of(value)
}

/// `IndexSet::get_index`: the string at position `index`, if there is one.
#[verifier::external_body]
fn set_get_index(set: &IndexSet<String>, index: usize) -> (r: Option<&String>)
    ensures
        r is Some <==> index < index_set_items(*set).len(),
        r is Some ==> r->0@ == index_set_items(*set)[index as int],
{
    set.get_index(index)
}

/// `IndexSet::clone`: a set holding the same strings in the same order.
#[verifier::external_body]
fn set_clone(set: &IndexSet<String>) -> (r: IndexSet<String>)
    ensures
        index_set_items(r) == index_set_items(*set),
{
    set.clone()
}

/// `IndexSet::insert`: appends `value` unless an equal string is held, in
/// which case the set is unchanged; returns whether it was appended.
#[verifier::external_body]
fn set_insert(set: &mut IndexSet<String>, value: String) -> (r: bool)
    ensures
        index_set_items(*old(set)).contains(value@) ==> !r && index_set_items(*final(set))
            == index_set_items(*old(set)),
        !index_set_items(*old(set)).contains(value@) ==> r && index_set_items(*final(set))
            == index_set_items(*old(set)).push(value@),
{
    set.insert(value)
}

/// The contents of a list of strings.
pub open spec fn texts(v: Seq<String>) -> Seq<Seq<char>> {
    v.map_values(|s: String| s@)
}

/// The number of handles a table can issue: every `u32`.
pub open spec fn handle_count() -> nat {
    0x1_0000_0000
}

/// A runtime-only handle into the stat namespace of an [`Interners`].
///
/// This value is meaningless without the interner that issued it and is
/// deliberately not serializable.
#[derive(Debug, Clone, Copy, PartialEq, Eq, Structural, PartialOrd, Ord, Hash)]
pub struct StatId(u32);

impl View for StatId {
    type V = u32;

    closed spec fn view(&self) -> u32 {
        self.0
    }
}

impl StatId {
    /// Returns the dense runtime index assigned to this stat.
    pub fn index(self) -> (r: u32)
        ensures
            r == self@,
    {
        self.0
    }
}

/// A runtime-only handle into the tag namespace of an [`Interners`].
///
/// This value is meaningless without the interner that issued it and is
/// deliberately not serializable.
#[derive(Debug, Clone, Copy, PartialEq, Eq, Structural, PartialOrd, Ord, Hash)]
pub struct TagId(u32);

impl View for TagId {
    type V = u32;

    closed spec fn view(&self) -> u32 {
        self.0
    }
}

impl TagId {
    /// Returns the dense runtime index assigned to this tag.
    pub fn index(self) -> (r: u32)
        ensures
            r == self@,
    {
        self.0
    }
}

/// Interns strings to dense `u32` handles in first-intern order.
///
/// Its view is the interned strings in handle order: the string with handle
/// `h` is `self@[h]`. Serialization is that sequence of strings.
#[derive(Debug)]
pub struct Interner {
    strings: IndexSet<String>,
}

impl Clone for Interner {
    fn clone(&self) -> (r: Self)
        ensures
            r@ == self@,
    {
        Interner { strings: set_clone(&self.strings) }
    }
}

impl View for Interner {
    type V = Seq<Seq<char>>;

    closed spec fn view(&self) -> Seq<Seq<char>> {
        index_set_items(self.strings)
    }
}

impl PartialEq for Interner {
    fn eq(&self, other: &Self) -> (r: bool) {
        let n = set_len(&self.strings);
        if n != set_len(&other.strings) {
            return false;
        }
        let mut i: usize = 0;
        while i < n
            invariant
                n == self@.len(),
                n == other@.len(),
                i <= n,
                forall|j: int| 0 <= j < i ==> self@[j] == other@[j],
            decreases n - i,
        {
            let a = set_get_index(&self.strings, i);
            let b = set_get_index(&other.strings, i);
            match (a, b) {
                (Some(x), Some(y)) => {
                    if !x.eq(y) {
                        return false;
                    }
                },
                _ => {
                    return false;
                },
            }
            i = i + 1;
        }
        proof {
            assert(self@ =~= other@);
        }
        true
    }
}

impl vstd::std_specs::cmp::PartialEqSpecImpl for Interner {
    open spec fn obeys_eq_spec() -> bool {
        true
    }

    open spec fn eq_spec(&self, other: &Self) -> bool {
        self@ == other@
    }
}

impl Eq for Interner {

}

impl Default for Interner {
    fn default() -> (r: Self)
        ensures
            r.wf(),
            r@ == Seq::<Seq<char>>::empty(),
    {
        Interner { strings: set_new() }
    }
}

impl Interner {
    /// The table's invariant: no string is interned twice, and every
    /// position has a `u32` handle.
    pub open spec fn wf(&self) -> bool {
        self@.no_duplicates() && self@.len() <= handle_count()
    }

    /// A string has at most one handle: interning a string again returns the
    /// handle it was first given.
    pub proof fn lemma_handle_unique(&self, h1: int, h2: int)
        requires
            self.wf(),
            0 <= h1 < self@.len(),
            0 <= h2 < self@.len(),
            self@[h1] == self@[h2],
        ensures
            h1 == h2,
    {
    }

    /// Serialization round-trips: the strings of a well-formed table are
    /// accepted when loaded back, and load into a table with the same
    /// strings in the same handle order.
    pub proof fn lemma_strings_round_trip(&self, values: Seq<String>)
        requires
            self.wf(),
            texts(values) == self@,
        ensures
            texts(values).no_duplicates(),
            values.len() <= handle_count(),
    {
    }

    /// Creates an empty interner.
    pub fn new() -> (r: Self)
        ensures
            r.wf(),
            r@ == Seq::<Seq<char>>::empty(),
    {
        Interner { strings: set_new() }
    }

    /// Returns the existing handle for `s`, or assigns the next dense handle.
    ///
    /// A new string needs a free handle: the table must hold fewer than
    /// `2^32` strings.
    pub fn intern(&mut self, s: &str) -> (r: u32)
        requires
            old(self).wf(),
            old(self)@.contains(s@) || old(self)@.len() < handle_count(),
        ensures
            final(self).wf(),
            r < final(self)@.len(),
            final(self)@[r as int] == s@,
            old(self)@.contains(s@) ==> final(self)@ == old(self)@,
            !old(self)@.contains(s@) ==> final(self)@ == old(self)@.push(s@) && r == old(self)@.len(),
    {
        match set_get_index_of(&self.strings, s) {
            Some(index) => {
                return index as u32;
            },
            None => {},
        }
        let handle = set_len(&self.strings) as u32;
        set_insert(&mut self.strings, s.to_owned());
        proof {
            let old_items = old(self)@;
            assert forall|i: int, j: int|
                0 <= i < self@.len() && 0 <= j < self@.len() && i != j implies self@[i]
                != self@[j] by {
                if i == old_items.len() {
                    assert(old_items[j] == self@[j]);
                } else if j == old_items.len() {
                    assert(old_items[i] == self@[i]);
                }
            }
        }
        handle
    }

    /// Returns the handle assigned to `s`, without modifying the interner.
    pub fn get(&self, s: &str) -> (r: Option<u32>)
        requires
            self.wf(),
        ensures
            match r {
                Some(h) => h < self@.len() && self@[h as int] == s@,
                None => !self@.contains(s@),
            },
    {
        match set_get_index_of(&self.strings, s) {
            Some(index) => Some(index as u32),
            None => None,
        }
    }

    /// Resolves a handle to its interned string.
    pub fn resolve(&self, id: u32) -> (r: Option<&str>)
        ensures
            id < self@.len() ==> (r matches Some(s) && s@ == self@[id as int]),
            id >= self@.len() ==> r is None,
    {
        match set_get_index(&self.strings, id as usize) {
            Some(s) => Some(s.as_str()),
            None => None,
        }
    }

    /// Returns the number of distinct interned strings.
    pub fn len(&self) -> (r: usize)
        ensures
            r == self@.len(),
    {
        set_len(&self.strings)
    }

    /// Returns whether no strings have been interned.
    pub fn is_empty(&self) -> (r: bool)
        ensures
            r == (self@.len() == 0),
    {
        set_is_empty(&self.strings)
    }

    /// Handles and strings in ascending handle order.
    pub fn iter(&self) -> (r: std::vec::IntoIter<(u32, &str)>)
        requires
            self.wf(),
        ensures
            vstd::std_specs::iter::IteratorSpec::remaining(&r).len() == self@.len(),
            forall|k: int|
                0 <= k < self@.len() ==> (#[trigger] vstd::std_specs::iter::IteratorSpec::remaining(
                    &r,
                )[k]).0 == k && vstd::std_specs::iter::IteratorSpec::remaining(&r)[k].1@
                    == self@[k],
    {
        let mut out: Vec<(u32, &str)> = Vec::new();
        let n = set_len(&self.strings);
        let mut i: usize = 0;
        while i < n
            invariant
                n == self@.len(),
                n <= handle_count(),
                i <= n,
                out@.len() == i,
                forall|k: int|
                    0 <= k < i ==> (#[trigger] out@[k]).0 == k && out@[k].1@ == self@[k],
            decreases n - i,
        {
            match set_get_index(&self.strings, i) {
                Some(s) => {
                    out.push((i as u32, s.as_str()));
                },
                None => {},
            }
            i = i + 1;
        }
        out.into_iter()
    }

    /// The interned strings in handle order: what a serialized interner
    /// holds.
    pub fn to_strings(&self) -> (r: Vec<String>)
        ensures
            texts(r@) == self@,
    {
        let mut out: Vec<String> = Vec::new();
        let n = set_len(&self.strings);
        let mut i: usize = 0;
        while i < n
            invariant
                n == self@.len(),
                i <= n,
                out@.len() == i,
                forall|k: int| 0 <= k < i ==> (#[trigger] out@[k])@ == self@[k],
            decreases n - i,
        {
            match set_get_index(&self.strings, i) {
                Some(s) => {
                    out.push(s.as_str().to_owned());
                },
                None => {},
            }
            i = i + 1;
        }
        proof {
            assert(texts(out@) =~= self@);
        }
        out
    }

    /// Rebuilds an interner from its strings in handle order, as a
    /// serialized interner holds them.
    ///
    /// The result is `None` when a string occurs twice, or when there are
    /// more strings than `u32` handles.
    pub fn try_from_strings(values: Vec<String>) -> (r: Option<Self>)
        ensures
            r is Some <==> texts(values@).no_duplicates() && values@.len()
                <= handle_count(),
            r matches Some(t) ==> t.wf() && t@ == texts(values@),
    {
        let ghost names = texts(values@);
        let n = values.len();
        if n as u64 > 0x1_0000_0000u64 {
            return None;
        }
        let mut strings = set_with_capacity(n);
        let mut i: usize = 0;
        while i < n
            invariant
                n == values@.len(),
                names == texts(values@),
                n <= handle_count(),
                i <= n,
                index_set_items(strings) == names.take(i as int),
                index_set_items(strings).no_duplicates(),
            decreases n - i,
        {
            let ghost before = index_set_items(strings);
            let value = values[i].clone();
            proof {
                assert(names[i as int] == value@);
            }
            if !set_insert(&mut strings, value) {
                proof {
                    assert(before.contains(names[i as int]));
                    let j = choose|j: int| 0 <= j < before.len() && before[j] == names[i as int];
                    assert(before[j] == names.take(i as int)[j]);
                    assert(names[j] == names[i as int]);
                    assert(!names.no_duplicates());
                }
                return None;
            }
            proof {
                assert(names.take(i + 1) =~= before.push(names[i as int]));
                assert forall|a: int, b: int|
                    0 <= a < i + 1 && 0 <= b < i + 1 && a != b implies #[trigger] names.take(i + 1)[a]
                    != #[trigger] names.take(i + 1)[b] by {
                    if a == i {
                        assert(before[b] == names.take(i + 1)[b]);
                    } else if b == i {
                        assert(before[a] == names.take(i + 1)[a]);
                    }
                }
            }
            i = i + 1;
        }
        proof {
            assert(names.take(n as int) =~= names);
        }
        Some(Interner { strings })
    }
}

/// Owns independent stat and tag interning namespaces.
#[derive(Debug)]
pub struct Interners {
    stats: Interner,
    tags: Interner,
}

impl Clone for Interners {
    fn clone(&self) -> (r: Self)
        ensures
            r.stat_names() == self.stat_names(),
            r.tag_names() == self.tag_names(),
    {
        Interners { stats: self.stats.clone(), tags: self.tags.clone() }
    }
}

impl Default for Interners {
    fn default() -> (r: Self)
        ensures
            r.wf(),
            r.stat_names() == Seq::<Seq<char>>::empty(),
            r.tag_names() == Seq::<Seq<char>>::empty(),
    {
        Interners { stats: Interner::new(), tags: Interner::new() }
    }
}

impl PartialEq for Interners {
    fn eq(&self, other: &Self) -> (r: bool) {
        self.stats == other.stats && self.tags == other.tags
    }
}

impl vstd::std_specs::cmp::PartialEqSpecImpl for Interners {
    open spec fn obeys_eq_spec() -> bool {
        true
    }

    open spec fn eq_spec(&self, other: &Self) -> bool {
        self.stat_names() == other.stat_names() && self.tag_names() == other.tag_names()
    }
}

impl Eq for Interners {

}

impl Interners {
    /// The interned stat names in handle order.
    pub closed spec fn stat_names(&self) -> Seq<Seq<char>> {
        self.stats@
    }

    /// The interned tag names in handle order.
    pub closed spec fn tag_names(&self) -> Seq<Seq<char>> {
        self.tags@
    }

    /// Both namespaces are well formed.
    pub closed spec fn wf(&self) -> bool {
        self.stats.wf() && self.tags.wf()
    }

    /// The invariant in terms of the two namespaces' names.
    pub proof fn lemma_wf(&self)
        ensures
            self.wf() <==> (self.stat_names().no_duplicates() && self.stat_names().len()
                <= handle_count() && self.tag_names().no_duplicates() && self.tag_names().len()
                <= handle_count()),
    {
    }

    /// Creates empty stat and tag namespaces.
    pub fn new() -> (r: Self)
        ensures
            r.wf(),
            r.stat_names() == Seq::<Seq<char>>::empty(),
            r.tag_names() == Seq::<Seq<char>>::empty(),
    {
        Interners { stats: Interner::new(), tags: Interner::new() }
    }

    /// Returns the stat handle for `s`, interning it when absent. The tag
    /// namespace is untouched.
    pub fn intern_stat(&mut self, s: &str) -> (r: StatId)
        requires
            old(self).wf(),
            old(self).stat_names().contains(s@) || old(self).stat_names().len() < handle_count(),
        ensures
            final(self).wf(),
            final(self).tag_names() == old(self).tag_names(),
            r@ < final(self).stat_names().len(),
            final(self).stat_names()[r@ as int] == s@,
            old(self).stat_names().contains(s@) ==> final(self).stat_names() == old(
                self,
            ).stat_names(),
            !old(self).stat_names().contains(s@) ==> final(self).stat_names() == old(
                self,
            ).stat_names().push(s@) && r@ == old(self).stat_names().len(),
    {
        StatId(self.stats.intern(s))
    }

    /// Returns the tag handle for `s`, interning it when absent. The stat
    /// namespace is untouched.
    pub fn intern_tag(&mut self, s: &str) -> (r: TagId)
        requires
            old(self).wf(),
            old(self).tag_names().contains(s@) || old(self).tag_names().len() < handle_count(),
        ensures
            final(self).wf(),
            final(self).stat_names() == old(self).stat_names(),
            r@ < final(self).tag_names().len(),
            final(self).tag_names()[r@ as int] == s@,
            old(self).tag_names().contains(s@) ==> final(self).tag_names() == old(
                self,
            ).tag_names(),
            !old(self).tag_names().contains(s@) ==> final(self).tag_names() == old(
                self,
            ).tag_names().push(s@) && r@ == old(self).tag_names().len(),
    {
        TagId(self.tags.intern(s))
    }

    /// Returns the stat handle assigned to `s`.
    pub fn stat(&self, s: &str) -> (r: Option<StatId>)
        requires
            self.wf(),
        ensures
            match r {
                Some(h) => h@ < self.stat_names().len() && self.stat_names()[h@ as int] == s@,
                None => !self.stat_names().contains(s@),
            },
    {
        match self.stats.get(s) {
            Some(h) => Some(StatId(h)),
            None => None,
        }
    }

    /// Returns the tag handle assigned to `s`.
    pub fn tag(&self, s: &str) -> (r: Option<TagId>)
        requires
            self.wf(),
        ensures
            match r {
                Some(h) => h@ < self.tag_names().len() && self.tag_names()[h@ as int] == s@,
                None => !self.tag_names().contains(s@),
            },
    {
        match self.tags.get(s) {
            Some(h) => Some(TagId(h)),
            None => None,
        }
    }

    /// Resolves a stat handle to its interned string.
    pub fn resolve_stat(&self, id: StatId) -> (r: Option<&str>)
        ensures
            id@ < self.stat_names().len() ==> (r matches Some(s) && s@ == self.stat_names()[id@ as int]),
            id@ >= self.stat_names().len() ==> r is None,
    {
        self.stats.resolve(id.0)
    }

    /// Resolves a tag handle to its interned string.
    pub fn resolve_tag(&self, id: TagId) -> (r: Option<&str>)
        ensures
            id@ < self.tag_names().len() ==> (r matches Some(s) && s@ == self.tag_names()[id@ as int]),
            id@ >= self.tag_names().len() ==> r is None,
    {
        self.tags.resolve(id.0)
    }

    /// Returns the stat interner.
    pub fn stats(&self) -> (r: &Interner)
        ensures
            r@ == self.stat_names(),
            self.wf() ==> r.wf(),
    {
        &self.stats
    }

    /// Returns the tag interner.
    pub fn tags(&self) -> (r: &Interner)
        ensures
            r@ == self.tag_names(),
            self.wf() ==> r.wf(),
    {
        &self.tags
    }

    /// Builds the namespaces from a stat table and a tag table, as a
    /// serialized pair holds them.
    pub fn from_tables(stats: Interner, tags: Interner) -> (r: Self)
        ensures
            r.stat_names() == stats@,
            r.tag_names() == tags@,
            stats.wf() && tags.wf() ==> r.wf(),
    {
        Interners { stats, tags }
    }
}

} // verus!
