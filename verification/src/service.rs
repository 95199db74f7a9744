//! The service operations on the store: each finds the collection of a SKU,
//! applies one operation of the collection to it, and answers with the new
//! id, a snapshot, or a failure of the service's kinds.

use crate::image::{composed_id, fresh_token, is_token, SkuImage, SkuImageExt, SkuImageView};
use crate::prelude::{
    snapshot_of, CoverObj, CoverObjView, ErrorKind, ServiceError, ServiceResult, SkuObj,
};
use crate::store::{
    all_well_formed, borrowed_view, distinct_skus, entry_of, has_sku, lemma_first_entry_exists,
    lemma_listed_distinct, lemma_listed_members, lemma_push_contains, lemma_push_preserves, lemma_replaced_preserves,
    lemma_replaced_same, listed, not_found_text,
    replaced, SkuImageStore,
};
use vstd::prelude::*;

verus! {

/// The entries after the image `id` was added for `sku`: to its collection,
/// or to a new one, which becomes the last entry.
pub open spec fn with_new_image(entries: Seq<SkuImageView>, sku: u32, id: Seq<char>) -> Seq<
    SkuImageView,
> {
    if has_sku(entries, sku) {
        replaced(entries, sku, entry_of(entries, sku).with_image(id))
    } else {
        entries.push(SkuImageView { sku: sku, cover: None, images: Seq::empty() }.with_image(id))
    }
}

/// The covers of the entries that have one, in the entries' order.
pub open spec fn covers_of(entries: Seq<SkuImageView>) -> Seq<CoverObjView>
    decreases entries.len(),
{
    if entries.len() == 0 {
        Seq::empty()
    } else {
        let rest = covers_of(entries.drop_last());
        let e = entries.last();
        if e.cover is Some {
            rest.push(CoverObjView { sku: e.sku, cover_image_id: e.cover->0 })
        } else {
            rest
        }
    }
}

/// `cover` is the cover of some entry.
pub open spec fn is_cover_in(entries: Seq<SkuImageView>, cover: CoverObjView) -> bool {
    exists|i: int|
        0 <= i < entries.len() && (#[trigger] entries[i]).sku == cover.sku && entries[i].cover
            == Some(cover.cover_image_id)
}

/// A cover is among the covers of the entries exactly if it is the cover of
/// one of them.
pub proof fn lemma_covers_members(entries: Seq<SkuImageView>)
    ensures
        forall|c: CoverObjView| #[trigger] covers_of(entries).contains(c) <==> is_cover_in(entries, c),
    decreases entries.len(),
{
    if entries.len() > 0 {
        let prev = entries.drop_last();
        let last = entries.last();
        lemma_covers_members(prev);
        assert forall|c: CoverObjView| #[trigger]
            covers_of(entries).contains(c) <==> is_cover_in(entries, c) by {
            let mine = CoverObjView { sku: last.sku, cover_image_id: last.cover->0 };
            lemma_push_contains(covers_of(prev), mine, c);
            if is_cover_in(prev, c) {
                let i = choose|i: int|
                    0 <= i < prev.len() && (#[trigger] prev[i]).sku == c.sku && prev[i].cover
                        == Some(c.cover_image_id);
                assert(entries[i] == prev[i]);
            }
            if is_cover_in(entries, c) {
                let i = choose|i: int|
                    0 <= i < entries.len() && (#[trigger] entries[i]).sku == c.sku
                        && entries[i].cover == Some(c.cover_image_id);
                if i < prev.len() {
                    assert(prev[i] == entries[i]);
                }
            }
            if last.cover is Some && c == mine {
                assert(entries[entries.len() - 1] == last);
            }
        }
    }
}

/// The bulk answer for the SKUs `wanted` holds a cover exactly if its SKU is
/// wanted and it is the cover of an entry: a SKU that has no collection, or
/// whose collection has no cover, is left out.
pub proof fn lemma_bulk_covers_members(entries: Seq<SkuImageView>, wanted: Seq<u32>)
    ensures
        forall|c: CoverObjView| #[trigger]
            covers_of(listed(entries, wanted)).contains(c) <==> wanted.contains(c.sku)
                && is_cover_in(entries, c),
{
    let found = listed(entries, wanted);
    lemma_covers_members(found);
    lemma_listed_members(entries, wanted);
    assert forall|c: CoverObjView| #[trigger]
        covers_of(found).contains(c) <==> wanted.contains(c.sku) && is_cover_in(entries, c) by {
        if is_cover_in(found, c) {
            let i = choose|i: int|
                0 <= i < found.len() && (#[trigger] found[i]).sku == c.sku && found[i].cover
                    == Some(c.cover_image_id);
            assert(found.contains(found[i]));
            let j = choose|j: int| 0 <= j < entries.len() && entries[j] == found[i];
            assert(entries[j].sku == c.sku);
        }
        if wanted.contains(c.sku) && is_cover_in(entries, c) {
            let i = choose|i: int|
                0 <= i < entries.len() && (#[trigger] entries[i]).sku == c.sku && entries[i].cover
                    == Some(c.cover_image_id);
            assert(entries.contains(entries[i]));
            assert(found.contains(entries[i]));
            let j = choose|j: int| 0 <= j < found.len() && found[j] == entries[i];
            assert(found[j].sku == c.sku);
        }
    }
}

/// Where no two entries are of one SKU, no two of their covers are.
pub proof fn lemma_covers_distinct(entries: Seq<SkuImageView>)
    requires
        distinct_skus(entries),
    ensures
        forall|i: int, j: int|
            0 <= i < j < covers_of(entries).len() ==> (#[trigger] covers_of(entries)[i]).sku != (
            #[trigger] covers_of(entries)[j]).sku,
    decreases entries.len(),
{
    if entries.len() > 0 {
        let prev = entries.drop_last();
        let last = entries.last();
        assert forall|i: int, j: int| 0 <= i < j < prev.len() implies (#[trigger] prev[i]).sku != (
        #[trigger] prev[j]).sku by {
            assert(prev[i] == entries[i] && prev[j] == entries[j]);
        }
        lemma_covers_distinct(prev);
        lemma_covers_members(prev);
        let before = covers_of(prev);
        let after = covers_of(entries);
        assert forall|i: int, j: int| 0 <= i < j < after.len() implies (#[trigger] after[i]).sku != (
        #[trigger] after[j]).sku by {
            if j < before.len() {
                assert(after[i] == before[i] && after[j] == before[j]);
            } else {
                assert(after[j].sku == last.sku);
                assert(after[i] == before[i]);
                assert(before.contains(before[i]));
                assert(is_cover_in(prev, before[i]));
                let k = choose|k: int|
                    0 <= k < prev.len() && (#[trigger] prev[k]).sku == before[i].sku
                        && prev[k].cover == Some(before[i].cover_image_id);
                assert(entries[k] == prev[k]);
                assert(entries[entries.len() - 1] == last);
            }
        }
    }
}

/// Where no two collections are of one SKU, the bulk answer holds at most
/// one cover for a SKU.
pub proof fn lemma_bulk_covers_distinct(entries: Seq<SkuImageView>, wanted: Seq<u32>)
    requires
        distinct_skus(entries),
    ensures
        forall|i: int, j: int|
            0 <= i < j < covers_of(listed(entries, wanted)).len() ==> (#[trigger] covers_of(
                listed(entries, wanted),
            )[i]).sku != (#[trigger] covers_of(listed(entries, wanted))[j]).sku,
{
    lemma_listed_distinct(entries, wanted);
    lemma_covers_distinct(listed(entries, wanted));
}

/// What a read of the collection of `sku` answers in the state `entries`:
/// its snapshot, or `NotFound` where the SKU has no collection.
pub open spec fn answers_read(entries: Seq<SkuImageView>, sku: u32, r: ServiceResult<SkuObj>) -> bool {
    &&& has_sku(entries, sku) ==> r is Ok && r->Ok_0@ == snapshot_of(entry_of(entries, sku))
    &&& !has_sku(entries, sku) ==> r is Err && r->Err_0.is(ErrorKind::NotFound, not_found_text())
}

/// Two reads of one SKU in the same state answer alike: the same snapshot,
/// or the same failure.
pub proof fn lemma_reads_agree(
    entries: Seq<SkuImageView>,
    sku: u32,
    first: ServiceResult<SkuObj>,
    second: ServiceResult<SkuObj>,
)
    requires
        answers_read(entries, sku, first),
        answers_read(entries, sku, second),
    ensures
        first is Ok <==> second is Ok,
        first is Ok ==> first->Ok_0@ == second->Ok_0@,
        first is Err ==> first->Err_0.kind() == second->Err_0.kind() && first->Err_0.text()
            == second->Err_0.text(),
{
}

/// The covers of a list, each as plain values.
pub open spec fn covers_view(covers: Seq<CoverObj>) -> Seq<CoverObjView> {
    Seq::new(covers.len(), |i: int| covers[i]@)
}

/// The answer to a request for a new image, once the image processor was
/// told of it: the new id if it took the image, and `BadRequest` with its
/// message if it did not. The image stays in its collection either way.
pub fn add_new_answer(image_id: String, notified: Result<(), String>) -> (r: ServiceResult<String>)
    ensures
        notified is Ok ==> r == Ok::<String, ServiceError>(image_id),
        notified is Err ==> r is Err && r->Err_0.is(ErrorKind::BadRequest, notified->Err_0@),
{
    match notified {
        Ok(_) => Ok(image_id),
        Err(msg) => Err(ServiceError::bad_request(msg.as_str())),
    }
}

/// The image service: the store and the operations on it.
pub struct SkuImageService {
    skus: SkuImageStore,
}

impl View for SkuImageService {
    type V = Seq<SkuImageView>;

    closed spec fn view(&self) -> Seq<SkuImageView> {
        self.skus@
    }
}

impl SkuImageService {
    /// The service over the store `skus`.
    pub fn init(skus: SkuImageStore) -> (r: Self)
        ensures
            r@ == skus@,
    {
        Self { skus }
    }

    /// The store, for reading.
    pub fn store(&self) -> (r: &SkuImageStore)
        ensures
            r@ == self@,
    {
        &self.skus
    }

    /// Adds an image with the id made of `token` and `file_extension` for
    /// `sku`, creating its collection if it has none, and returns the id.
    pub fn add_new_with_token(&mut self, sku: u32, token: String, file_extension: String) -> (r:
        ServiceResult<String>)
        ensures
            r is Ok,
            r->Ok_0@ == composed_id(token@, file_extension@),
            final(self)@ == with_new_image(old(self)@, sku, r->Ok_0@),
            distinct_skus(old(self)@) ==> distinct_skus(final(self)@),
            all_well_formed(old(self)@) ==> all_well_formed(final(self)@),
    {
        match self.skus.find_id_mut(sku) {
            Ok(entry) => {
                let id = entry.add_image_with_token(token, file_extension);
                proof {
                    lemma_first_entry_exists(old(self)@, sku);
                    lemma_replaced_preserves(
                        old(self)@,
                        sku,
                        entry_of(old(self)@, sku).with_image(id@),
                    );
                }
                Ok(id)
            },
            Err(_) => {
                let mut new_sku = SkuImage::new(sku);
                let id = new_sku.add_image_with_token(token, file_extension);
                proof {
                    lemma_push_preserves(old(self)@, new_sku@);
                }
                match self.skus.insert(new_sku) {
                    Ok(_) => Ok(id),
                    Err(e) => Err(e),
                }
            },
        }
    }

    /// Adds an image with a fresh random id `<token>.<extension>` for `sku`,
    /// creating its collection if it has none, and returns the id. The file's
    /// name and bytes play no part here: the caller passes them on to whoever
    /// processes the image.
    pub fn add_new(
        &mut self,
        sku: u32,
        _file_name: String,
        file_extension: String,
        _image_bytes: Vec<u8>,
    ) -> (r: ServiceResult<String>)
        ensures
            r is Ok,
            exists|token: Seq<char>|
                is_token(token) && r->Ok_0@ == composed_id(token, file_extension@),
            final(self)@ == with_new_image(old(self)@, sku, r->Ok_0@),
            distinct_skus(old(self)@) ==> distinct_skus(final(self)@),
            all_well_formed(old(self)@) ==> all_well_formed(final(self)@),
    {
        let token = fresh_token();
        self.add_new_with_token(sku, token, file_extension)
    }

    /// Makes `image_id` the cover of `sku` and answers with the new snapshot.
    /// `NotFound` if the SKU has no collection, `BadRequest` if the collection
    /// has no such image; then nothing changes.
    pub fn set_cover(&mut self, sku: u32, image_id: String) -> (r: ServiceResult<SkuObj>)
        ensures
            !has_sku(old(self)@, sku) ==> r is Err && r->Err_0.is(
                ErrorKind::NotFound,
                not_found_text(),
            ) && final(self)@ == old(self)@,
            has_sku(old(self)@, sku) && !entry_of(old(self)@, sku).images.contains(image_id@)
                ==> r is Err && r->Err_0.is(ErrorKind::BadRequest, "unknown image for this SKU"@)
                && final(self)@ == old(self)@,
            has_sku(old(self)@, sku) && entry_of(old(self)@, sku).images.contains(image_id@)
                ==> r is Ok && final(self)@ == replaced(
                old(self)@,
                sku,
                entry_of(old(self)@, sku).with_cover(image_id@),
            ) && r->Ok_0@ == snapshot_of(entry_of(old(self)@, sku).with_cover(image_id@)),
            distinct_skus(old(self)@) ==> distinct_skus(final(self)@),
            all_well_formed(old(self)@) ==> all_well_formed(final(self)@),
    {
        proof {
            if has_sku(old(self)@, sku) {
                lemma_first_entry_exists(old(self)@, sku);
                lemma_replaced_same(old(self)@, sku);
                lemma_replaced_preserves(
                    old(self)@,
                    sku,
                    entry_of(old(self)@, sku).with_cover(image_id@),
                );
            }
        }
        match self.skus.find_id_mut(sku) {
            Err(e) => Err(e),
            Ok(entry) => match entry.set_cover(image_id) {
                Ok(updated) => Ok(SkuObj::from_sku_image(updated)),
                Err(msg) => Err(ServiceError::bad_request(msg.as_str())),
            },
        }
    }

    /// Exchanges the images of `sku` at the positions `from` and `to` and
    /// answers with the new snapshot. `NotFound` if the SKU has no collection,
    /// `BadRequest` if a position is past the end, the start position being
    /// tested first; then nothing changes.
    pub fn swap_images(&mut self, sku: u32, from: u32, to: u32) -> (r: ServiceResult<SkuObj>)
        ensures
            !has_sku(old(self)@, sku) ==> r is Err && r->Err_0.is(
                ErrorKind::NotFound,
                not_found_text(),
            ) && final(self)@ == old(self)@,
            has_sku(old(self)@, sku) && from >= entry_of(old(self)@, sku).images.len() ==> r is Err
                && r->Err_0.is(ErrorKind::BadRequest, "invalid start position"@) && final(self)@
                == old(self)@,
            has_sku(old(self)@, sku) && from < entry_of(old(self)@, sku).images.len() && to
                >= entry_of(old(self)@, sku).images.len() ==> r is Err && r->Err_0.is(
                ErrorKind::BadRequest,
                "invalid target position"@,
            ) && final(self)@ == old(self)@,
            has_sku(old(self)@, sku) && from < entry_of(old(self)@, sku).images.len() && to
                < entry_of(old(self)@, sku).images.len() ==> r is Ok && final(self)@ == replaced(
                old(self)@,
                sku,
                entry_of(old(self)@, sku).swapped(from as int, to as int),
            ) && r->Ok_0@ == snapshot_of(entry_of(old(self)@, sku).swapped(from as int, to as int)),
            distinct_skus(old(self)@) ==> distinct_skus(final(self)@),
            all_well_formed(old(self)@) ==> all_well_formed(final(self)@),
    {
        proof {
            if has_sku(old(self)@, sku) {
                lemma_first_entry_exists(old(self)@, sku);
                lemma_replaced_same(old(self)@, sku);
                lemma_replaced_preserves(
                    old(self)@,
                    sku,
                    entry_of(old(self)@, sku).swapped(from as int, to as int),
                );
            }
        }
        match self.skus.find_id_mut(sku) {
            Err(e) => Err(e),
            Ok(entry) => match entry.swap_images(from, to) {
                Ok(updated) => Ok(SkuObj::from_sku_image(updated)),
                Err(msg) => Err(ServiceError::bad_request(msg.as_str())),
            },
        }
    }

    /// Removes the image `image_id` of `sku` and answers with the new
    /// snapshot. `NotFound` if the SKU has no collection, `BadRequest` if the
    /// collection has no such image; then nothing changes.
    pub fn remove(&mut self, sku: u32, image_id: String) -> (r: ServiceResult<SkuObj>)
        ensures
            !has_sku(old(self)@, sku) ==> r is Err && r->Err_0.is(
                ErrorKind::NotFound,
                not_found_text(),
            ) && final(self)@ == old(self)@,
            has_sku(old(self)@, sku) && !entry_of(old(self)@, sku).images.contains(image_id@)
                ==> r is Err && r->Err_0.is(ErrorKind::BadRequest, "image not found"@)
                && final(self)@ == old(self)@,
            has_sku(old(self)@, sku) && entry_of(old(self)@, sku).images.contains(image_id@)
                ==> r is Ok && final(self)@ == replaced(
                old(self)@,
                sku,
                entry_of(old(self)@, sku).without_image(image_id@),
            ) && r->Ok_0@ == snapshot_of(entry_of(old(self)@, sku).without_image(image_id@)),
            distinct_skus(old(self)@) ==> distinct_skus(final(self)@),
            all_well_formed(old(self)@) ==> all_well_formed(final(self)@),
    {
        proof {
            if has_sku(old(self)@, sku) {
                lemma_first_entry_exists(old(self)@, sku);
                lemma_replaced_same(old(self)@, sku);
                lemma_replaced_preserves(
                    old(self)@,
                    sku,
                    entry_of(old(self)@, sku).without_image(image_id@),
                );
            }
        }
        match self.skus.find_id_mut(sku) {
            Err(e) => Err(e),
            Ok(entry) => match entry.remove_image(image_id) {
                Ok(updated) => Ok(SkuObj::from_sku_image(updated)),
                Err(msg) => Err(ServiceError::bad_request(msg.as_str())),
            },
        }
    }

    /// The snapshot of the collection of `sku`; `NotFound` if it has none.
    pub fn get_images(&self, sku: u32) -> (r: ServiceResult<SkuObj>)
        ensures
            answers_read(self@, sku, r),
    {
        match self.skus.find_id(sku) {
            Ok(entry) => Ok(SkuObj::from_sku_image(entry)),
            Err(e) => Err(e),
        }
    }

    /// The covers of the SKUs among `sku_ids`, in the store's order. A SKU
    /// without a collection, or without a cover, gives none.
    pub fn get_cover_bulk(&self, sku_ids: &Vec<u32>) -> (r: ServiceResult<Vec<CoverObj>>)
        ensures
            r is Ok,
            covers_view(r->Ok_0@) == covers_of(listed(self@, sku_ids@)),
    {
        let found = self.skus.list_where(sku_ids);
        let ghost wanted = borrowed_view(found@);
        let mut res: Vec<CoverObj> = Vec::new();
        let mut i: usize = 0;
        while i < found.len()
            invariant
                i <= found.len(),
                wanted == borrowed_view(found@),
                covers_view(res@) =~= covers_of(wanted.take(i as int)),
            decreases found.len() - i,
        {
            proof {
                assert(wanted.take(i + 1).drop_last() =~= wanted.take(i as int));
            }
            let entry = found[i];
            if let Some(cover) = entry.get_cover() {
                res.push(CoverObj { sku: entry.sku, cover_image_id: cover });
            }
            i += 1;
        }
        proof {
            assert(wanted.take(wanted.len() as int) =~= wanted);
        }
        Ok(res)
    }
}

} // verus!
