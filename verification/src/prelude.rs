//! What the service hands to its callers: its errors and the snapshots of a
//! collection.

use crate::image::{ids_view, SkuImage, SkuImageView};
use vstd::prelude::*;
use vstd::string::*;

verus! {

/// The kinds of failure that a caller of the service can see.
#[derive(Clone, Copy, Debug, PartialEq, Eq, Structural)]
pub enum ErrorKind {
    InternalError,
    NotFound,
    AlreadyExists,
    BadRequest,
}

/// A failure of a service operation, with its message.
#[derive(Clone, Debug, PartialEq, Eq)]
pub enum ServiceError {
    InternalError(String),
    NotFound(String),
    AlreadyExists(String),
    BadRequest(String),
}

pub type ServiceResult<T> = Result<T, ServiceError>;

impl ServiceError {
    /// The kind of this failure.
    pub open spec fn kind(&self) -> ErrorKind {
        match self {
            ServiceError::InternalError(_) => ErrorKind::InternalError,
            ServiceError::NotFound(_) => ErrorKind::NotFound,
            ServiceError::AlreadyExists(_) => ErrorKind::AlreadyExists,
            ServiceError::BadRequest(_) => ErrorKind::BadRequest,
        }
    }

    /// The message of this failure.
    pub open spec fn text(&self) -> Seq<char> {
        match self {
            ServiceError::InternalError(msg) => msg@,
            ServiceError::NotFound(msg) => msg@,
            ServiceError::AlreadyExists(msg) => msg@,
            ServiceError::BadRequest(msg) => msg@,
        }
    }

    /// This failure is of kind `kind` and says `text`.
    pub open spec fn is(&self, kind: ErrorKind, text: Seq<char>) -> bool {
        self.kind() == kind && self.text() == text
    }

    pub fn internal_error(msg: &str) -> (r: Self)
        ensures
            r.is(ErrorKind::InternalError, msg@),
    {
        ServiceError::InternalError(msg.to_string())
    }

    pub fn not_found(msg: &str) -> (r: Self)
        ensures
            r.is(ErrorKind::NotFound, msg@),
    {
        ServiceError::NotFound(msg.to_string())
    }

    pub fn already_exist(msg: &str) -> (r: Self)
        ensures
            r.is(ErrorKind::AlreadyExists, msg@),
    {
        ServiceError::AlreadyExists(msg.to_string())
    }

    pub fn bad_request(msg: &str) -> (r: Self)
        ensures
            r.is(ErrorKind::BadRequest, msg@),
    {
        ServiceError::BadRequest(msg.to_string())
    }

    /// The failure that a fault of the persistent store becomes: `NotFound`
    /// where the store missed the object it was asked for, `InternalError`
    /// for every other fault; the message is the store's own.
    pub fn from_storage(object_not_found: bool, text: &str) -> (r: Self)
        ensures
            object_not_found ==> r.is(ErrorKind::NotFound, text@),
            !object_not_found ==> r.is(ErrorKind::InternalError, text@),
    {
        if object_not_found {
            ServiceError::not_found(text)
        } else {
            ServiceError::internal_error(text)
        }
    }

    /// The kind of this failure, as a value.
    pub fn error_kind(&self) -> (r: ErrorKind)
        ensures
            r == self.kind(),
    {
        match self {
            ServiceError::InternalError(_) => ErrorKind::InternalError,
            ServiceError::NotFound(_) => ErrorKind::NotFound,
            ServiceError::AlreadyExists(_) => ErrorKind::AlreadyExists,
            ServiceError::BadRequest(_) => ErrorKind::BadRequest,
        }
    }

    /// The message of this failure, as it is shown to a caller.
    pub fn message(&self) -> (r: String)
        ensures
            r@ == self.text(),
    {
        match self {
            ServiceError::InternalError(msg) => msg.clone(),
            ServiceError::NotFound(msg) => msg.clone(),
            ServiceError::AlreadyExists(msg) => msg.clone(),
            ServiceError::BadRequest(msg) => msg.clone(),
        }
    }
}

/// A snapshot of one SKU's images as plain mathematical values.
pub struct SkuObjView {
    pub sku: u32,
    pub cover_image_id: Seq<char>,
    pub image_ids: Seq<Seq<char>>,
}

/// The snapshot that a collection gives: a missing cover is the empty text.
pub open spec fn snapshot_of(v: SkuImageView) -> SkuObjView {
    SkuObjView {
        sku: v.sku,
        cover_image_id: match v.cover {
            Some(c) => c,
            None => Seq::empty(),
        },
        image_ids: v.images,
    }
}

/// A snapshot of one SKU's images, as the service hands it out.
#[derive(Clone, Debug, PartialEq, Eq)]
pub struct SkuObj {
    pub sku: u32,
    pub cover_image_id: String,
    pub image_ids: Vec<String>,
}

impl View for SkuObj {
    type V = SkuObjView;

    open spec fn view(&self) -> SkuObjView {
        SkuObjView {
            sku: self.sku,
            cover_image_id: self.cover_image_id@,
            image_ids: ids_view(self.image_ids@),
        }
    }
}

/// A SKU with its cover's image id, as plain mathematical values.
pub struct CoverObjView {
    pub sku: u32,
    pub cover_image_id: Seq<char>,
}

/// A SKU with its cover's image id.
#[derive(Clone, Debug, PartialEq, Eq)]
pub struct CoverObj {
    pub sku: u32,
    pub cover_image_id: String,
}

impl View for CoverObj {
    type V = CoverObjView;

    open spec fn view(&self) -> CoverObjView {
        CoverObjView { sku: self.sku, cover_image_id: self.cover_image_id@ }
    }
}

/// A copy of a list of image ids.
pub fn clone_ids(ids: &Vec<String>) -> (r: Vec<String>)
    ensures
        r@ == ids@,
{
    let mut out: Vec<String> = Vec::new();
    let mut i: usize = 0;
    while i < ids.len()
        invariant
            i <= ids.len(),
            out@ == ids@.take(i as int),
        decreases ids.len() - i,
    {
        out.push(ids[i].clone());
        assert(out@ =~= ids@.take(i + 1));
        i += 1;
    }
    assert(ids@.take(ids@.len() as int) =~= ids@);
    out
}

impl SkuObj {
    /// The snapshot of a collection.
    pub fn from_sku_image(f: &SkuImage) -> (r: SkuObj)
        ensures
            r@ == snapshot_of(f@),
    {
        SkuObj {
            sku: f.sku,
            cover_image_id: match &f.cover_image_id {
                Some(ciid) => ciid.clone(),
                None => String::new(),
            },
            image_ids: clone_ids(&f.image_ids),
        }
    }
}

/// The address of a service that listens at `addr`: `http://<addr>`.
pub fn service_url(addr: &str) -> (r: String)
    ensures
        r@ == "http://"@ + addr@,
{
    let mut url = "http://".to_string();
    url.append(addr);
    url
}

} // verus!
