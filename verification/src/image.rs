//! The images of one SKU: an ordered list of image ids and a cover pointer
//! that always names one of them while the list is not empty.

use uuid::Uuid;
use vstd::prelude::*;
use vstd::string::*;

verus! {

/// One SKU's images as plain mathematical values.
pub struct SkuImageView {
    pub sku: u32,
    pub cover: Option<Seq<char>>,
    pub images: Seq<Seq<char>>,
}

/// `i` is the first position at which `id` stands in `images`.
pub open spec fn is_first_position(images: Seq<Seq<char>>, id: Seq<char>, i: int) -> bool {
    &&& 0 <= i < images.len()
    &&& images[i] == id
    &&& forall|j: int| 0 <= j < i ==> images[j] != id
}

/// The image id made of a random token and a file extension: `<token>.<extension>`.
pub open spec fn composed_id(token: Seq<char>, extension: Seq<char>) -> Seq<char> {
    token + "."@ + extension
}

/// A token as the id generator hands it out: 32 lower-case hexadecimal digits.
pub open spec fn is_token(token: Seq<char>) -> bool {
    &&& token.len() == 32
    &&& forall|i: int| 0 <= i < token.len() ==> "0123456789abcdef"@.contains(#[trigger] token[i])
}

impl SkuImageView {
    /// The cover is absent with no images, and names one of them otherwise.
    pub open spec fn well_formed(self) -> bool {
        if self.images.len() == 0 {
            self.cover is None
        } else {
            self.cover is Some && self.images.contains(self.cover->0)
        }
    }

    /// The cover after repair: a cover that names no image is dropped, and a
    /// missing cover is replaced by the first image, if there is one.
    pub open spec fn repaired_cover(self) -> Option<Seq<char>> {
        let kept = if self.cover is Some && !self.images.contains(self.cover->0) {
            None
        } else {
            self.cover
        };
        if kept is None && self.images.len() > 0 {
            Some(self.images[0])
        } else {
            kept
        }
    }

    /// The collection with its cover repaired.
    pub open spec fn repaired(self) -> SkuImageView {
        SkuImageView { sku: self.sku, cover: self.repaired_cover(), images: self.images }
    }

    /// The collection after `id` was added as its last image.
    pub open spec fn with_image(self, id: Seq<char>) -> SkuImageView {
        SkuImageView { sku: self.sku, cover: self.cover, images: self.images.push(id) }.repaired()
    }

    /// The collection after `id`, one of its images, was made the cover.
    pub open spec fn with_cover(self, id: Seq<char>) -> SkuImageView {
        SkuImageView { sku: self.sku, cover: Some(id), images: self.images }.repaired()
    }

    /// The first position of `id` among the images.
    pub open spec fn first_position(self, id: Seq<char>) -> int {
        choose|i: int| is_first_position(self.images, id, i)
    }

    /// The collection after the first occurrence of `id` was removed.
    pub open spec fn without_image(self, id: Seq<char>) -> SkuImageView {
        SkuImageView {
            sku: self.sku,
            cover: self.cover,
            images: self.images.remove(self.first_position(id)),
        }.repaired()
    }

    /// The collection after the images at positions `from` and `to` changed places.
    pub open spec fn swapped(self, from: int, to: int) -> SkuImageView {
        SkuImageView {
            sku: self.sku,
            cover: self.cover,
            images: self.images.update(from, self.images[to]).update(to, self.images[from]),
        }
    }
}

/// The image ids of a list, each as its text.
pub open spec fn ids_view(ids: Seq<String>) -> Seq<Seq<char>> {
    Seq::new(ids.len(), |i: int| ids[i]@)
}

/// The images of one SKU.
#[derive(Clone, Debug, PartialEq, Eq)]
pub struct SkuImage {
    pub sku: u32,
    pub cover_image_id: Option<String>,
    pub image_ids: Vec<String>,
}

impl View for SkuImage {
    type V = SkuImageView;

    open spec fn view(&self) -> SkuImageView {
        SkuImageView {
            sku: self.sku,
            cover: cover_view(self.cover_image_id),
            images: ids_view(self.image_ids@),
        }
    }
}

/// A first position is unique, so it is the one that `first_position` names.
pub proof fn lemma_first_position_unique(v: SkuImageView, id: Seq<char>, i: int)
    requires
        is_first_position(v.images, id, i),
    ensures
        v.first_position(id) == i,
{
    let c = v.first_position(id);
    assert(is_first_position(v.images, id, c));
    if c < i {
        assert(v.images[c] != id);
    } else if i < c {
        assert(v.images[i] != id);
    }
}

/// Repair leaves a well-formed collection, whatever it started from.
pub proof fn lemma_repaired_well_formed(v: SkuImageView)
    ensures
        v.repaired().well_formed(),
        v.well_formed() ==> v.repaired() == v,
{
    if v.images.len() > 0 {
        assert(v.images.contains(v.images[0]));
    }
}

/// Where `id` stands at or before `upto`, it has a first position.
pub proof fn lemma_has_first_position(v: SkuImageView, id: Seq<char>, upto: int)
    requires
        0 <= upto < v.images.len(),
        v.images[upto] == id,
    ensures
        is_first_position(v.images, id, v.first_position(id)),
        v.first_position(id) <= upto,
    decreases upto,
{
    if exists|j: int| 0 <= j < upto && v.images[j] == id {
        let j = choose|j: int| 0 <= j < upto && v.images[j] == id;
        lemma_has_first_position(v, id, j);
    } else {
        assert(is_first_position(v.images, id, upto));
        lemma_first_position_unique(v, id, upto);
    }
}

/// An id that is one of the images has a first position among them.
pub proof fn lemma_first_position_exists(v: SkuImageView, id: Seq<char>)
    requires
        v.images.contains(id),
    ensures
        is_first_position(v.images, id, v.first_position(id)),
{
    let w = choose|i: int| 0 <= i < v.images.len() && v.images[i] == id;
    lemma_has_first_position(v, id, w);
}

/// Exchanging two images keeps a well-formed collection well-formed.
pub proof fn lemma_swapped_well_formed(v: SkuImageView, from: int, to: int)
    requires
        v.well_formed(),
        0 <= from < v.images.len(),
        0 <= to < v.images.len(),
    ensures
        v.swapped(from, to).well_formed(),
        v.swapped(from, to).cover == v.cover,
        v.swapped(from, to).images.len() == v.images.len(),
{
    let after = v.swapped(from, to);
    let k = choose|k: int| 0 <= k < v.images.len() && v.images[k] == v.cover->0;
    let moved = if k == from {
        to
    } else if k == to {
        from
    } else {
        k
    };
    assert(after.images[moved] == v.cover->0);
}

/// One change to a collection, as a caller asks for it.
pub enum Operation {
    AddImage(Seq<char>),
    RemoveImage(Seq<char>),
    SetCover(Seq<char>),
    SwapImages(int, int),
}

impl SkuImageView {
    /// The collection after `op`: a change that is refused leaves it as it was.
    pub open spec fn after(self, op: Operation) -> SkuImageView {
        match op {
            Operation::AddImage(id) => self.with_image(id),
            Operation::RemoveImage(id) => if self.images.contains(id) {
                self.without_image(id)
            } else {
                self
            },
            Operation::SetCover(id) => if self.images.contains(id) {
                self.with_cover(id)
            } else {
                self
            },
            Operation::SwapImages(from, to) => if 0 <= from < self.images.len() && 0 <= to
                < self.images.len() {
                self.swapped(from, to)
            } else {
                self
            },
        }
    }

    /// The collection after the changes `ops`, one after the other.
    pub open spec fn after_all(self, ops: Seq<Operation>) -> SkuImageView
        decreases ops.len(),
    {
        if ops.len() == 0 {
            self
        } else {
            self.after_all(ops.drop_last()).after(ops.last())
        }
    }
}

/// One change keeps a well-formed collection well-formed: with no image it
/// has no cover, and otherwise its cover is one of its images.
pub proof fn lemma_operation_keeps_well_formed(v: SkuImageView, op: Operation)
    requires
        v.well_formed(),
    ensures
        v.after(op).well_formed(),
{
    match op {
        Operation::AddImage(id) => {
            lemma_repaired_well_formed(
                SkuImageView { sku: v.sku, cover: v.cover, images: v.images.push(id) },
            );
        },
        Operation::RemoveImage(id) => {
            lemma_repaired_well_formed(
                SkuImageView {
                    sku: v.sku,
                    cover: v.cover,
                    images: v.images.remove(v.first_position(id)),
                },
            );
        },
        Operation::SetCover(id) => {
            lemma_repaired_well_formed(
                SkuImageView { sku: v.sku, cover: Some(id), images: v.images },
            );
        },
        Operation::SwapImages(from, to) => {
            if 0 <= from < v.images.len() && 0 <= to < v.images.len() {
                lemma_swapped_well_formed(v, from, to);
            }
        },
    }
}

/// After every change of any sequence of changes to a well-formed
/// collection, the collection is well-formed.
pub proof fn lemma_operations_keep_well_formed(v: SkuImageView, ops: Seq<Operation>)
    requires
        v.well_formed(),
    ensures
        forall|k: int| 0 <= k <= ops.len() ==> (#[trigger] v.after_all(ops.take(k))).well_formed(),
    decreases ops.len(),
{
    assert forall|k: int| 0 <= k <= ops.len() implies (#[trigger] v.after_all(
        ops.take(k),
    )).well_formed() by {
        if k == ops.len() {
            assert(ops.take(k) =~= ops);
            if ops.len() > 0 {
                lemma_operations_keep_well_formed(v, ops.drop_last());
                assert(ops.drop_last().take(ops.len() - 1) =~= ops.drop_last());
                lemma_operation_keeps_well_formed(v.after_all(ops.drop_last()), ops.last());
            }
        } else {
            lemma_operations_keep_well_formed(v, ops.drop_last());
            assert(ops.drop_last().take(k) =~= ops.take(k));
        }
    }
}

/// Removing the cover image, where it stands only once among two or more
/// images, leaves the new first image as the cover.
pub proof fn lemma_cover_falls_back_to_first(v: SkuImageView, id: Seq<char>)
    requires
        v.cover == Some(id),
        v.images.len() >= 2,
        v.images.contains(id),
        forall|i: int, j: int|
            0 <= i < v.images.len() && 0 <= j < v.images.len() && v.images[i] == id && v.images[j]
                == id ==> i == j,
    ensures
        v.without_image(id).images.len() == v.images.len() - 1,
        v.without_image(id).cover == Some(v.without_image(id).images[0]),
{
    lemma_first_position_exists(v, id);
    let p = v.first_position(id);
    let rest = v.images.remove(p);
    assert forall|k: int| 0 <= k < rest.len() implies rest[k] != id by {
        if k < p {
            assert(rest[k] == v.images[k]);
        } else {
            assert(rest[k] == v.images[k + 1]);
        }
    }
}

/// Removing an image that is not the cover leaves the cover as it was, where
/// the cover is one of the images.
pub proof fn lemma_cover_is_stable(v: SkuImageView, id: Seq<char>)
    requires
        v.cover is Some,
        v.cover->0 != id,
        v.images.contains(v.cover->0),
        v.images.contains(id),
    ensures
        v.without_image(id).cover == v.cover,
{
    lemma_first_position_exists(v, id);
    let p = v.first_position(id);
    let rest = v.images.remove(p);
    let k = choose|k: int| 0 <= k < v.images.len() && v.images[k] == v.cover->0;
    if k < p {
        assert(rest[k] == v.cover->0);
    } else {
        assert(rest[k - 1] == v.cover->0);
    }
}

/// The position of the first id in `ids` that equals `id`, if there is one.
pub fn position_of(ids: &Vec<String>, id: &String) -> (r: Option<usize>)
    ensures
        match r {
            Some(p) => is_first_position(ids_view(ids@), id@, p as int),
            None => !ids_view(ids@).contains(id@),
        },
{
    let mut i: usize = 0;
    while i < ids.len()
        invariant
            i <= ids.len(),
            forall|j: int| 0 <= j < i ==> ids_view(ids@)[j] != id@,
        decreases ids.len() - i,
    {
        if ids[i] == *id {
            return Some(i);
        }
        i += 1;
    }
    None
}

/// A fresh random token for an image id: `Uuid::new_v4` of the uuid crate,
/// printed in its simple form. The contract claims the shape that the simple
/// form always has, 32 lower-case hexadecimal digits, and nothing of the value,
/// which is random. The generator stops the program if the system has no
/// random bytes to give.
#[verifier::external_body]
pub(crate) fn fresh_token() -> (token: String)
    ensures
        is_token(token@),
{
    Uuid::new_v4().to_simple().to_string()
}

impl SkuImage {
    /// The collection of `sku`, with no image yet.
    pub fn new(sku: u32) -> (r: SkuImage)
        ensures
            r@ == (SkuImageView { sku: sku, cover: None, images: Seq::empty() }),
            r@.well_formed(),
    {
        let r = SkuImage { sku, cover_image_id: None, image_ids: Vec::new() };
        assert(r@.images =~= Seq::empty());
        r
    }

    /// Adds the image id made of `token` and `file_extension` as the last
    /// image, repairs the cover and returns the id.
    pub fn add_image_with_token(&mut self, token: String, file_extension: String) -> (id: String)
        ensures
            id@ == composed_id(token@, file_extension@),
            final(self)@ == old(self)@.with_image(id@),
            final(self)@.well_formed(),
    {
        let mut id = token;
        id.append(".");
        id.append(file_extension.as_str());
        self.image_ids.push(id.clone());
        assert(ids_view(self.image_ids@) =~= ids_view(old(self).image_ids@).push(id@));
        self.fix_cover();
        proof {
            lemma_repaired_well_formed(
                SkuImageView {
                    sku: old(self)@.sku,
                    cover: old(self)@.cover,
                    images: old(self)@.images.push(id@),
                },
            );
        }
        id
    }
}

/// The cover of a collection as its text, if there is one.
pub open spec fn cover_view(cover: Option<String>) -> Option<Seq<char>> {
    match cover {
        Some(c) => Some(c@),
        None => None,
    }
}

/// The operations on the images of one SKU. Whatever holds the images, each
/// operation does to them what is said here of `model`.
pub trait SkuImageExt: Sized {
    /// The collection as plain mathematical values.
    spec fn model(&self) -> SkuImageView;

    /// Adds a new image with a fresh random id `<token>.<extension>` as the
    /// last image and returns that id. The file's name and bytes play no part.
    fn add_image(&mut self, file_name: String, file_extension: String, file_bytes: Vec<u8>) -> (r:
        Result<String, String>)
        ensures
            r is Ok,
            exists|token: Seq<char>|
                is_token(token) && r->Ok_0@ == composed_id(token, file_extension@),
            final(self).model() == old(self).model().with_image(r->Ok_0@),
            final(self).model().well_formed(),
    ;

    /// Makes `image_id` the cover if it is one of the images, and fails
    /// without a change if it is not.
    fn set_cover(&mut self, image_id: String) -> (r: Result<&Self, String>)
        ensures
            old(self).model().images.contains(image_id@) ==> r is Ok && final(self).model() == old(
                self,
            ).model().with_cover(image_id@) && final(self).model().cover == Some(image_id@)
                && *r->Ok_0 == *final(self),
            !old(self).model().images.contains(image_id@) ==> r is Err && r->Err_0@
                == "unknown image for this SKU"@ && *final(self) == *old(self),
            old(self).model().well_formed() ==> final(self).model().well_formed(),
    ;

    /// Exchanges the images at two positions. The start position is tested
    /// first, then the target position; a position past the end fails without
    /// a change.
    fn swap_images(&mut self, from_id: u32, to_id: u32) -> (r: Result<&Self, String>)
        ensures
            from_id >= old(self).model().images.len() ==> r is Err && r->Err_0@
                == "invalid start position"@ && *final(self) == *old(self),
            from_id < old(self).model().images.len() && to_id >= old(self).model().images.len()
                ==> r is Err && r->Err_0@ == "invalid target position"@ && *final(self) == *old(
                self,
            ),
            from_id < old(self).model().images.len() && to_id < old(self).model().images.len()
                ==> r is Ok && final(self).model() == old(self).model().swapped(
                from_id as int,
                to_id as int,
            ) && *r->Ok_0 == *final(self),
            old(self).model().well_formed() ==> final(self).model().well_formed(),
    ;

    /// Removes the first occurrence of `image_id` and repairs the cover; fails
    /// without a change if no image has that id.
    fn remove_image(&mut self, image_id: String) -> (r: Result<&Self, String>)
        ensures
            old(self).model().images.contains(image_id@) ==> r is Ok && final(self).model() == old(
                self,
            ).model().without_image(image_id@) && *r->Ok_0 == *final(self) && is_first_position(
                old(self).model().images,
                image_id@,
                old(self).model().first_position(image_id@),
            ),
            !old(self).model().images.contains(image_id@) ==> r is Err && r->Err_0@
                == "image not found"@ && *final(self) == *old(self),
            old(self).model().well_formed() ==> final(self).model().well_formed(),
    ;

    /// The image ids in their order.
    fn get_images(&self) -> (r: &Vec<String>)
        ensures
            ids_view(r@) == self.model().images,
    ;

    /// The cover's image id, if there is a cover.
    fn get_cover(&self) -> (r: Option<String>)
        ensures
            cover_view(r) == self.model().cover,
    ;

    /// Repairs the cover: a cover that names no image is dropped, then a
    /// missing cover becomes the first image, if there is one.
    fn fix_cover(&mut self)
        ensures
            final(self).model() == old(self).model().repaired(),
            final(self).model().well_formed(),
    ;
}

impl SkuImageExt for SkuImage {
    open spec fn model(&self) -> SkuImageView {
        self@
    }

    fn add_image(&mut self, _file_name: String, file_extension: String, _file_bytes: Vec<u8>) -> (r:
        Result<String, String>) {
        let token = fresh_token();
        let id = self.add_image_with_token(token, file_extension);
        Ok(id)
    }

    fn set_cover(&mut self, image_id: String) -> (r: Result<&Self, String>) {
        match position_of(&self.image_ids, &image_id) {
            Some(_) => {
                self.cover_image_id = Some(image_id);
                self.fix_cover();
                Ok(self)
            },
            None => Err("unknown image for this SKU".to_string()),
        }
    }

    fn swap_images(&mut self, from_id: u32, to_id: u32) -> (r: Result<&Self, String>) {
        let from = from_id as usize;
        let to = to_id as usize;
        if from >= self.image_ids.len() {
            return Err("invalid start position".to_string());
        }
        if to >= self.image_ids.len() {
            return Err("invalid target position".to_string());
        }
        let first = self.image_ids[from].clone();
        let second = self.image_ids[to].clone();
        self.image_ids.set(from, second);
        self.image_ids.set(to, first);
        proof {
            let before = old(self)@;
            let after = before.swapped(from_id as int, to_id as int);
            assert(self@.images =~= after.images);
            if before.well_formed() {
                lemma_swapped_well_formed(before, from_id as int, to_id as int);
            }
        }
        Ok(self)
    }

    fn remove_image(&mut self, image_id: String) -> (r: Result<&Self, String>) {
        match position_of(&self.image_ids, &image_id) {
            Some(p) => {
                self.image_ids.remove(p);
                proof {
                    lemma_first_position_unique(old(self)@, image_id@, p as int);
                    lemma_first_position_exists(old(self)@, image_id@);
                    assert(ids_view(self.image_ids@) =~= old(self)@.images.remove(p as int));
                }
                self.fix_cover();
                proof {
                    lemma_repaired_well_formed(
                        SkuImageView {
                            sku: old(self)@.sku,
                            cover: old(self)@.cover,
                            images: old(self)@.images.remove(p as int),
                        },
                    );
                }
                Ok(self)
            },
            None => Err("image not found".to_string()),
        }
    }

    fn get_images(&self) -> (r: &Vec<String>)
        ensures
            *r == self.image_ids,
    {
        &self.image_ids
    }

    fn get_cover(&self) -> (r: Option<String>)
        ensures
            r == self.cover_image_id,
    {
        match &self.cover_image_id {
            Some(c) => Some(c.clone()),
            None => None,
        }
    }

    fn fix_cover(&mut self) {
        let dangling = match &self.cover_image_id {
            Some(c) => position_of(&self.image_ids, c).is_none(),
            None => false,
        };
        if dangling {
            self.cover_image_id = None;
        }
        if self.cover_image_id.is_none() {
            if self.image_ids.len() > 0 {
                self.cover_image_id = Some(self.image_ids[0].clone());
            }
        }
        proof {
            lemma_repaired_well_formed(old(self)@);
        }
    }
}

} // verus!
