//! The byte source an archive is read from: a buffer owned by the archive, or
//! a shared, cheaply clonable view of an opened file served by the
//! `cached_file_view` crate.

use std::sync::Arc;

use vstd::prelude::*;
use vstd::slice::{slice_subrange, slice_to_vec};

use crate::error::Error;
use cached_file_view::FileView;

verus! {

#[verifier::external_type_specification]
#[verifier::external_body]
pub struct ExFileView(FileView);

/// The bytes a file view serves: the contents of the viewed file.
pub uninterp spec fn view_contents(v: FileView) -> Seq<u8>;

/// Relies on `cached_file_view::FileView`: its public `length` field holds the
/// byte length of the viewed file, the same file that `read` serves ranges of.
#[verifier::external_body]
fn view_length(v: &FileView) -> (r: u64)
    ensures
        r as nat == view_contents(*v).len(),
{
    v.length
}

/// Relies on `cached_file_view::FileView::read` and
/// `cached_file_view::FileViewMapping::to_vec`: a read of `start..end` returns
/// exactly the bytes of that range of the file, and a range that ends past the
/// file is refused with an error.
#[verifier::external_body]
fn view_read(v: &FileView, start: u64, end: u64) -> (r: Option<Vec<u8>>)
    requires
        start <= end,
    ensures
        r matches Some(b) ==> end as nat <= view_contents(*v).len() && b@ == view_contents(
            *v,
        ).subrange(start as int, end as int),
{
    match v.read(start..end) {
        Ok(mapping) => Some(mapping.to_vec()),
        Err(_) => None,
    }
}

/// Relies on `cached_file_view::FileView::clone`: clones share the underlying
/// file and cache, so both handles serve the same bytes.
#[verifier::external_body]
fn view_dup(v: &FileView) -> (r: FileView)
    ensures
        view_contents(r) == view_contents(*v),
{
    v.clone()
}

/// Relies on `std::sync::Arc::clone`: a clone is a second handle on the same
/// shared value.
#[verifier::external_body]
fn arc_clone(v: &Arc<Vec<u8>>) -> (r: Arc<Vec<u8>>)
    ensures
        r == *v,
{
    Arc::clone(v)
}

/// Relies on `std::sync::Arc`'s `Deref`: borrowing through the handle yields
/// the shared value.
#[verifier::external_body]
fn arc_borrow<'a>(v: &'a Arc<Vec<u8>>) -> (r: &'a Vec<u8>)
    ensures
        *r == **v,
{
    &**v
}

/// Where an archive's bytes come from.
pub enum PackSource {
    /// A shared buffer held in memory.
    Memory(Arc<Vec<u8>>),
    /// A shared view of an opened file.
    File(FileView),
}

impl PackSource {
    /// The bytes this source serves.
    pub open spec fn contents(&self) -> Seq<u8> {
        match self {
            PackSource::Memory(data) => data@,
            PackSource::File(view) => view_contents(*view),
        }
    }

    /// How many bytes this source serves.
    pub fn length(&self) -> (r: u64)
        ensures
            r as nat == self.contents().len(),
    {
        match self {
            PackSource::Memory(data) => arc_borrow(data).len() as u64,
            PackSource::File(view) => view_length(view),
        }
    }

    /// The bytes `start..end` of this source. An in-memory source refuses
    /// exactly the ranges that end past its buffer; a file-backed source may
    /// also fail with `IOError` when the underlying file cannot be read.
    pub fn read(&self, start: u64, end: u64) -> (r: Result<Vec<u8>, Error>)
        requires
            start <= end,
        ensures
            r matches Ok(b) ==> end as nat <= self.contents().len() && b@
                == self.contents().subrange(start as int, end as int),
            end as nat > self.contents().len() ==> r is Err,
            r is Err ==> r == Err::<Vec<u8>, Error>(Error::IOError),
            self is Memory ==> (r is Ok <==> end as nat <= self.contents().len()),
    {
        match self {
            PackSource::Memory(data) => {
                let buffer = arc_borrow(data);
                if end <= buffer.len() as u64 {
                    let piece = slice_subrange(buffer.as_slice(), start as usize, end as usize);
                    Ok(slice_to_vec(piece))
                } else {
                    Err(Error::IOError)
                }
            },
            PackSource::File(view) => match view_read(view, start, end) {
                Some(bytes) => Ok(bytes),
                None => Err(Error::IOError),
            },
        }
    }

    /// A second handle on the same bytes.
    pub fn dup(&self) -> (r: Self)
        ensures
            r.contents() == self.contents(),
            r is Memory <==> self is Memory,
    {
        match self {
            PackSource::Memory(data) => PackSource::Memory(arc_clone(data)),
            PackSource::File(view) => PackSource::File(view_dup(view)),
        }
    }
}

} // verus!
