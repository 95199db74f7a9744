//! The store of image collections, one per SKU, in the order in which they
//! were created. A SKU is looked up by its first entry, and no second entry
//! for a SKU can be inserted.

use crate::image::{SkuImage, SkuImageView};
use crate::prelude::{ErrorKind, ServiceError};
use vstd::prelude::*;

verus! {

/// Some entry is the collection of `sku`.
pub open spec fn has_sku(entries: Seq<SkuImageView>, sku: u32) -> bool {
    exists|i: int| 0 <= i < entries.len() && (#[trigger] entries[i]).sku == sku
}

/// `i` is the first position at which the collection of `sku` stands.
pub open spec fn is_first_entry(entries: Seq<SkuImageView>, sku: u32, i: int) -> bool {
    &&& 0 <= i < entries.len()
    &&& entries[i].sku == sku
    &&& forall|j: int| 0 <= j < i ==> (#[trigger] entries[j]).sku != sku
}

/// The first position of the collection of `sku`.
pub open spec fn first_entry(entries: Seq<SkuImageView>, sku: u32) -> int {
    choose|i: int| is_first_entry(entries, sku, i)
}

/// The collection of `sku`.
pub open spec fn entry_of(entries: Seq<SkuImageView>, sku: u32) -> SkuImageView {
    entries[first_entry(entries, sku)]
}

/// The entries with the collection of `sku` replaced by `entry`.
pub open spec fn replaced(entries: Seq<SkuImageView>, sku: u32, entry: SkuImageView) -> Seq<
    SkuImageView,
> {
    entries.update(first_entry(entries, sku), entry)
}

/// No two entries are collections of the same SKU.
pub open spec fn distinct_skus(entries: Seq<SkuImageView>) -> bool {
    forall|i: int, j: int|
        0 <= i < j < entries.len() ==> (#[trigger] entries[i]).sku != (#[trigger] entries[j]).sku
}

/// Every entry is a well-formed collection.
pub open spec fn all_well_formed(entries: Seq<SkuImageView>) -> bool {
    forall|i: int| 0 <= i < entries.len() ==> (#[trigger] entries[i]).well_formed()
}

/// A first entry is unique, so it is the one that `first_entry` names.
pub proof fn lemma_first_entry_unique(entries: Seq<SkuImageView>, sku: u32, i: int)
    requires
        is_first_entry(entries, sku, i),
    ensures
        first_entry(entries, sku) == i,
        has_sku(entries, sku),
{
    let c = first_entry(entries, sku);
    assert(is_first_entry(entries, sku, c));
    if c < i {
        assert(entries[c].sku != sku);
    } else if i < c {
        assert(entries[i].sku != sku);
    }
}

/// Replacing the collection of a SKU by another collection of that SKU keeps
/// the SKUs distinct, and keeps every entry well-formed if the new one is.
pub proof fn lemma_replaced_preserves(entries: Seq<SkuImageView>, sku: u32, entry: SkuImageView)
    requires
        has_sku(entries, sku),
        entry.sku == sku,
    ensures
        replaced(entries, sku, entry).len() == entries.len(),
        has_sku(replaced(entries, sku, entry), sku),
        first_entry(replaced(entries, sku, entry), sku) == first_entry(entries, sku),
        entry_of(replaced(entries, sku, entry), sku) == entry,
        distinct_skus(entries) ==> distinct_skus(replaced(entries, sku, entry)),
        all_well_formed(entries) && entry.well_formed() ==> all_well_formed(
            replaced(entries, sku, entry),
        ),
{
    let w = choose|i: int| 0 <= i < entries.len() && (#[trigger] entries[i]).sku == sku;
    lemma_has_first_entry(entries, sku, w);
    let p = first_entry(entries, sku);
    let after = replaced(entries, sku, entry);
    assert forall|j: int| 0 <= j < p implies (#[trigger] after[j]).sku != sku by {
        assert(after[j] == entries[j]);
    }
    lemma_first_entry_unique(after, sku, p);
    assert forall|i: int, j: int| 0 <= i < j < after.len() && distinct_skus(entries) implies (
    #[trigger] after[i]).sku != (#[trigger] after[j]).sku by {
        assert(after[i].sku == entries[i].sku);
        assert(after[j].sku == entries[j].sku);
    }
    assert forall|i: int|
        0 <= i < after.len() && all_well_formed(entries)
            && entry.well_formed() implies (#[trigger] after[i]).well_formed() by {
        if i != p {
            assert(after[i] == entries[i]);
        }
    }
}

/// Where some entry at or before `upto` is the collection of `sku`, there is
/// a first one.
pub proof fn lemma_has_first_entry(entries: Seq<SkuImageView>, sku: u32, upto: int)
    requires
        0 <= upto < entries.len(),
        entries[upto].sku == sku,
    ensures
        is_first_entry(entries, sku, first_entry(entries, sku)),
        first_entry(entries, sku) <= upto,
    decreases upto,
{
    if exists|j: int| 0 <= j < upto && (#[trigger] entries[j]).sku == sku {
        let j = choose|j: int| 0 <= j < upto && (#[trigger] entries[j]).sku == sku;
        lemma_has_first_entry(entries, sku, j);
    } else {
        assert(is_first_entry(entries, sku, upto));
        lemma_first_entry_unique(entries, sku, upto);
    }
}

/// The SKU that has a collection has a first one.
pub proof fn lemma_first_entry_exists(entries: Seq<SkuImageView>, sku: u32)
    requires
        has_sku(entries, sku),
    ensures
        is_first_entry(entries, sku, first_entry(entries, sku)),
        entry_of(entries, sku).sku == sku,
{
    let w = choose|i: int| 0 <= i < entries.len() && (#[trigger] entries[i]).sku == sku;
    lemma_has_first_entry(entries, sku, w);
}

/// Putting the collection of a SKU back as it was changes nothing.
pub proof fn lemma_replaced_same(entries: Seq<SkuImageView>, sku: u32)
    requires
        has_sku(entries, sku),
    ensures
        replaced(entries, sku, entry_of(entries, sku)) == entries,
{
    lemma_first_entry_exists(entries, sku);
    assert(replaced(entries, sku, entry_of(entries, sku)) =~= entries);
}

/// A new last entry for a SKU that had none keeps the SKUs distinct, and
/// keeps every entry well-formed if the new one is.
pub proof fn lemma_push_preserves(entries: Seq<SkuImageView>, entry: SkuImageView)
    requires
        !has_sku(entries, entry.sku),
    ensures
        has_sku(entries.push(entry), entry.sku),
        entry_of(entries.push(entry), entry.sku) == entry,
        distinct_skus(entries) ==> distinct_skus(entries.push(entry)),
        all_well_formed(entries) && entry.well_formed() ==> all_well_formed(entries.push(entry)),
{
    let after = entries.push(entry);
    let n = entries.len() as int;
    assert(after[n] == entry);
    assert forall|j: int| 0 <= j < n implies (#[trigger] after[j]).sku != entry.sku by {
        assert(after[j] == entries[j]);
    }
    lemma_first_entry_unique(after, entry.sku, n);
    assert forall|i: int, j: int| 0 <= i < j < after.len() && distinct_skus(entries) implies (
    #[trigger] after[i]).sku != (#[trigger] after[j]).sku by {
        assert(after[i] == entries[i]);
        if j < n {
            assert(after[j] == entries[j]);
        }
    }
    assert forall|i: int|
        0 <= i < after.len() && all_well_formed(entries)
            && entry.well_formed() implies (#[trigger] after[i]).well_formed() by {
        if i < n {
            assert(after[i] == entries[i]);
        }
    }
}

/// The text of the failure for a SKU that has no collection.
pub open spec fn not_found_text() -> Seq<char> {
    "Storage object not found in storage."@
}

/// The text of the failure for a SKU that has a collection already.
pub open spec fn id_taken_text() -> Seq<char> {
    "VecPack ID already taken"@
}

/// The entries whose SKU is among `wanted`, in the entries' order.
pub open spec fn listed(entries: Seq<SkuImageView>, wanted: Seq<u32>) -> Seq<SkuImageView>
    decreases entries.len(),
{
    if entries.len() == 0 {
        Seq::empty()
    } else {
        let rest = listed(entries.drop_last(), wanted);
        if wanted.contains(entries.last().sku) {
            rest.push(entries.last())
        } else {
            rest
        }
    }
}

/// A sequence with one more element holds what it held before, and that element.
pub proof fn lemma_push_contains<A>(s: Seq<A>, x: A, e: A)
    ensures
        s.push(x).contains(e) <==> s.contains(e) || e == x,
{
    let t = s.push(x);
    if t.contains(e) {
        let i = choose|i: int| 0 <= i < t.len() && t[i] == e;
        if i < s.len() {
            assert(s[i] == e);
        }
    }
    if s.contains(e) {
        let i = choose|i: int| 0 <= i < s.len() && s[i] == e;
        assert(t[i] == e);
    }
    if e == x {
        assert(t[s.len() as int] == e);
    }
}

/// An entry is listed exactly if it is an entry whose SKU is wanted.
pub proof fn lemma_listed_members(entries: Seq<SkuImageView>, wanted: Seq<u32>)
    ensures
        forall|e: SkuImageView| #[trigger]
            listed(entries, wanted).contains(e) <==> entries.contains(e) && wanted.contains(e.sku),
    decreases entries.len(),
{
    if entries.len() > 0 {
        let prev = entries.drop_last();
        let last = entries.last();
        lemma_listed_members(prev, wanted);
        assert(entries =~= prev.push(last));
        assert forall|e: SkuImageView| #[trigger]
            listed(entries, wanted).contains(e) <==> entries.contains(e) && wanted.contains(
                e.sku,
            ) by {
            lemma_push_contains(prev, last, e);
            lemma_push_contains(listed(prev, wanted), last, e);
        }
    }
}

/// Listing keeps the SKUs distinct.
pub proof fn lemma_listed_distinct(entries: Seq<SkuImageView>, wanted: Seq<u32>)
    requires
        distinct_skus(entries),
    ensures
        distinct_skus(listed(entries, wanted)),
    decreases entries.len(),
{
    if entries.len() > 0 {
        let prev = entries.drop_last();
        let last = entries.last();
        assert forall|i: int, j: int| 0 <= i < j < prev.len() implies (#[trigger] prev[i]).sku != (
        #[trigger] prev[j]).sku by {
            assert(prev[i] == entries[i] && prev[j] == entries[j]);
        }
        lemma_listed_distinct(prev, wanted);
        lemma_listed_members(prev, wanted);
        let before = listed(prev, wanted);
        let after = listed(entries, wanted);
        assert forall|i: int, j: int| 0 <= i < j < after.len() implies (#[trigger] after[i]).sku != (
        #[trigger] after[j]).sku by {
            if j < before.len() {
                assert(after[i] == before[i] && after[j] == before[j]);
            } else {
                assert(after[j] == last);
                assert(after[i] == before[i]);
                assert(before.contains(before[i]));
                let k = choose|k: int| 0 <= k < prev.len() && prev[k] == before[i];
                assert(entries[k] == prev[k]);
                assert(entries[entries.len() - 1] == last);
            }
        }
    }
}

/// The collections of a list of borrowed entries, each as plain values.
pub open spec fn borrowed_view(found: Seq<&SkuImage>) -> Seq<SkuImageView> {
    Seq::new(found.len(), |i: int| found[i]@)
}

/// `sku` is one of `sku_ids`.
pub fn contains_sku(sku_ids: &Vec<u32>, sku: u32) -> (r: bool)
    ensures
        r == sku_ids@.contains(sku),
{
    let mut i: usize = 0;
    while i < sku_ids.len()
        invariant
            i <= sku_ids.len(),
            forall|j: int| 0 <= j < i ==> sku_ids@[j] != sku,
        decreases sku_ids.len() - i,
    {
        if sku_ids[i] == sku {
            return true;
        }
        i += 1;
    }
    false
}

/// The image collections of all SKUs.
pub struct SkuImageStore {
    entries: Vec<SkuImage>,
}

impl View for SkuImageStore {
    type V = Seq<SkuImageView>;

    closed spec fn view(&self) -> Seq<SkuImageView> {
        Seq::new(self.entries@.len(), |i: int| self.entries@[i]@)
    }
}

impl SkuImageStore {
    /// The store without any collection.
    pub fn new() -> (r: Self)
        ensures
            r@ == Seq::<SkuImageView>::empty(),
    {
        let r = SkuImageStore { entries: Vec::new() };
        assert(r@ =~= Seq::<SkuImageView>::empty());
        r
    }

    /// The number of collections.
    pub fn len(&self) -> (r: usize)
        ensures
            r == self@.len(),
    {
        self.entries.len()
    }

    /// The collection at position `i`.
    pub fn get(&self, i: usize) -> (r: &SkuImage)
        requires
            i < self@.len(),
        ensures
            r@ == self@[i as int],
    {
        &self.entries[i]
    }

    /// The position of the collection of `sku`, if it has one.
    pub fn position(&self, sku: u32) -> (r: Option<usize>)
        ensures
            match r {
                Some(p) => is_first_entry(self@, sku, p as int) && p == first_entry(self@, sku),
                None => !has_sku(self@, sku),
            },
    {
        let mut i: usize = 0;
        while i < self.entries.len()
            invariant
                i <= self.entries.len(),
                forall|j: int| 0 <= j < i ==> (#[trigger] self@[j]).sku != sku,
            decreases self.entries.len() - i,
        {
            if self.entries[i].sku == sku {
                proof {
                    lemma_first_entry_unique(self@, sku, i as int);
                }
                return Some(i);
            }
            i += 1;
        }
        None
    }

    /// The collections whose SKU is among `sku_ids`, in the store's order.
    pub fn list_where(&self, sku_ids: &Vec<u32>) -> (r: Vec<&SkuImage>)
        ensures
            borrowed_view(r@) == listed(self@, sku_ids@),
    {
        let mut found: Vec<&SkuImage> = Vec::new();
        let mut i: usize = 0;
        while i < self.entries.len()
            invariant
                i <= self.entries.len(),
                borrowed_view(found@) =~= listed(self@.take(i as int), sku_ids@),
            decreases self.entries.len() - i,
        {
            proof {
                assert(self@.take(i + 1).drop_last() =~= self@.take(i as int));
            }
            if contains_sku(sku_ids, self.entries[i].sku) {
                found.push(&self.entries[i]);
            }
            i += 1;
        }
        proof {
            assert(self@.take(self@.len() as int) =~= self@);
        }
        found
    }

    /// The collection of `sku` for reading; `NotFound` if it has none.
    pub fn find_id(&self, sku: u32) -> (r: Result<&SkuImage, ServiceError>)
        ensures
            has_sku(self@, sku) ==> r is Ok && r->Ok_0@ == entry_of(self@, sku),
            !has_sku(self@, sku) ==> r is Err && r->Err_0.is(ErrorKind::NotFound, not_found_text()),
    {
        match self.position(sku) {
            Some(p) => Ok(&self.entries[p]),
            None => Err(ServiceError::not_found("Storage object not found in storage.")),
        }
    }

    /// The collection of `sku` for a change in place; `NotFound` if it has
    /// none. What the caller leaves in the collection is what the store holds
    /// from then on.
    pub fn find_id_mut(&mut self, sku: u32) -> (r: Result<&mut SkuImage, ServiceError>)
        ensures
            has_sku(old(self)@, sku) ==> r is Ok && (*r->Ok_0)@ == entry_of(old(self)@, sku)
                && final(self)@ == replaced(old(self)@, sku, (*final(r->Ok_0))@),
            !has_sku(old(self)@, sku) ==> r is Err && r->Err_0.is(
                ErrorKind::NotFound,
                not_found_text(),
            ) && final(self)@ == old(self)@,
    {
        match self.position(sku) {
            Some(p) => Ok(&mut self.entries[p]),
            None => Err(ServiceError::not_found("Storage object not found in storage.")),
        }
    }

    /// Adds the collection `item` as the last entry; `AlreadyExists`, and no
    /// change, if its SKU has a collection already.
    pub fn insert(&mut self, item: SkuImage) -> (r: Result<(), ServiceError>)
        ensures
            has_sku(old(self)@, item.sku) ==> r is Err && r->Err_0.is(
                ErrorKind::AlreadyExists,
                id_taken_text(),
            ) && final(self)@ == old(self)@,
            !has_sku(old(self)@, item.sku) ==> r is Ok && final(self)@ == old(self)@.push(item@),
            distinct_skus(old(self)@) ==> distinct_skus(final(self)@),
    {
        match self.position(item.sku) {
            Some(_) => Err(ServiceError::already_exist("VecPack ID already taken")),
            None => {
                let ghost added = item@;
                self.entries.push(item);
                assert(self@ =~= old(self)@.push(added));
                Ok(())
            },
        }
    }
}

} // verus!
