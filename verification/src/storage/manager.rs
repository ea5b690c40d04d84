//! The bookkeeping of a page file: how many pages it holds, which identifier
//! the next page gets, and where in the file a page lies. The file itself
//! belongs to the caller, who reads and writes at the places given here.

use crate::storage::page::{Page, PageView, PAGE_SIZE};
use vstd::prelude::*;

verus! {

/// The number of pages in the longest file: each page has to end at an
/// offset that 64 bits can hold.
pub const MAX_PAGES: u64 = 0xf_ffff_ffff_ffff;

/// Why the page file cannot serve a request.
#[derive(Debug, Clone, Copy, PartialEq, Eq)]
pub enum ManagerError {
    /// The file's length is no whole number of pages.
    PartialPage,
    /// The page would end beyond the last offset of a file.
    OutOfRange,
}

impl ManagerError {
    /// A sentence for the person who reads the error.
    pub fn message(&self) -> (text: &'static str)
        ensures
            text@ == match *self {
                ManagerError::PartialPage => "file length is not a multiple of the page size"@,
                ManagerError::OutOfRange => "page identifier out of range"@,
            },
    {
        match self {
            ManagerError::PartialPage => "file length is not a multiple of the page size",
            ManagerError::OutOfRange => "page identifier out of range",
        }
    }
}

/// Where page `page_id` begins in the file.
pub open spec fn page_position(page_id: nat) -> nat {
    page_id * PAGE_SIZE as nat
}

/// The identifiers that `count` creations in a row hand out, from a manager
/// that counts `first` pages.
pub open spec fn created_ids(first: nat, count: nat) -> Seq<nat>
    decreases count,
{
    if count == 0 {
        Seq::empty()
    } else {
        seq![PageManager::next_id(first)] + created_ids(
            PageManager::count_after_create(first),
            (count - 1) as nat,
        )
    }
}

/// Creations in a row hand out the identifiers from the page count on, each
/// one more than the one before, none left out.
pub proof fn lemma_created_ids_dense(first: nat, count: nat)
    ensures
        created_ids(first, count).len() == count,
        forall|k: int| 0 <= k < count ==> created_ids(first, count)[k] == first + k,
        forall|j: int, k: int|
            0 <= j < k < count ==> created_ids(first, count)[j] < created_ids(first, count)[k],
    decreases count,
{
    if count > 0 {
        lemma_created_ids_dense(first + 1, (count - 1) as nat);
    }
}

/// Pages lie side by side: each begins where the one before it ends.
pub proof fn lemma_pages_adjacent(page_id: nat)
    ensures
        page_position(page_id + 1) == page_position(page_id) + PAGE_SIZE,
        page_id < MAX_PAGES ==> page_position(page_id) + PAGE_SIZE <= u64::MAX,
{
    assert((page_id + 1) * 4096 == page_id * 4096 + 4096) by (nonlinear_arith);
    assert(page_id < MAX_PAGES ==> page_id * 4096 + 4096 <= u64::MAX) by (nonlinear_arith);
}

/// What the manager knows of its file.
#[derive(Debug)]
pub struct PageManager {
    /// The number of pages that the file holds; also the next identifier.
    pub page_count: u64,
}

impl PageManager {
    /// The identifier that the next page gets, of a manager that counts
    /// `count` pages.
    pub open spec fn next_id(count: nat) -> nat {
        count
    }

    /// The page count after one creation.
    pub open spec fn count_after_create(count: nat) -> nat {
        count + 1
    }

    /// The manager of a file of `file_len` bytes. A length that is no whole
    /// number of pages is an error: the file was cut or written by others.
    pub fn new(file_len: u64) -> (manager: Result<Self, ManagerError>)
        ensures
            manager is Ok <==> file_len % 4096 == 0,
            manager matches Ok(m) ==> m.page_count == file_len / 4096 && page_position(
                m.page_count as nat,
            ) == file_len && m.page_count <= MAX_PAGES,
            manager matches Err(e) ==> e == ManagerError::PartialPage,
    {
        if file_len % (PAGE_SIZE as u64) != 0 {
            return Err(ManagerError::PartialPage);
        }
        Ok(Self { page_count: file_len / (PAGE_SIZE as u64) })
    }

    /// Where in the file page `page_id` begins, for a read or a write. Whether
    /// the file is that long is for the caller to see.
    pub fn page_offset(page_id: u64) -> (position: Result<u64, ManagerError>)
        ensures
            position is Ok <==> page_id < MAX_PAGES,
            position matches Ok(at) ==> at == page_position(page_id as nat),
            position matches Err(e) ==> e == ManagerError::OutOfRange,
    {
        if page_id >= MAX_PAGES {
            return Err(ManagerError::OutOfRange);
        }
        proof {
            lemma_pages_adjacent(page_id as nat);
        }
        Ok(page_id * (PAGE_SIZE as u64))
    }

    /// Takes the next identifier and gives the empty page that bears it. The
    /// caller writes the page to the file before anything else.
    pub fn create_page(&mut self, page_type: u8) -> (created: Result<Page, ManagerError>)
        ensures
            created is Ok <==> old(self).page_count < MAX_PAGES,
            created matches Ok(page) ==> {
                &&& page@ == PageView::empty(page_type, old(self).page_count)
                &&& page@.well_formed()
                &&& page.header.page_id == Self::next_id(old(self).page_count as nat)
                &&& final(self).page_count == Self::count_after_create(
                    old(self).page_count as nat,
                )
            },
            created matches Err(e) ==> e == ManagerError::OutOfRange && *final(self) == *old(
                self,
            ),
    {
        if self.page_count >= MAX_PAGES {
            return Err(ManagerError::OutOfRange);
        }
        let page_id: u64 = self.page_count;
        self.page_count = page_id + 1;
        Ok(Page::new(page_type, page_id))
    }
}

} // verus!
