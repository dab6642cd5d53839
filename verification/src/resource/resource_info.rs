//! What an archive says about one resource: where its bytes lie and what they are.

use crate::resource::reference_flags::ResourceReferenceFlags;
use crate::resource::resource_package::{PackageOffsetInfo, ResourceHeader, ResourceHeaderView};
use crate::resource::runtime_resource_id::RuntimeResourceID;
use crate::text::{chars_of, string_of};
use vstd::prelude::*;

verus! {

/// The offset-table entry and the metadata of one resource.
#[derive(Clone, Debug)]
pub struct ResourceInfo {
    pub entry: PackageOffsetInfo,
    pub header: ResourceHeader,
}

/// The mathematical content of a `ResourceInfo`.
pub struct ResourceInfoView {
    pub entry: PackageOffsetInfo,
    pub header: ResourceHeaderView,
}

impl View for ResourceInfo {
    type V = ResourceInfoView;

    open spec fn view(&self) -> ResourceInfoView {
        ResourceInfoView { entry: self.entry, header: self.header@ }
    }
}

impl ResourceInfoView {
    /// The identifier under which the resource is stored.
    pub open spec fn id(&self) -> u64 {
        self.entry.runtime_resource_id.id
    }

    /// The number of bytes that the resource takes in the archive: its
    /// compressed size where it is compressed, its size where it is not.
    pub open spec fn stored_size(&self) -> u32 {
        if self.entry.flags.size_bits() != 0 {
            self.entry.flags.size_bits()
        } else {
            self.header.data_size
        }
    }
}

/// `String::from_utf8_lossy` of the standard library, named because the
/// replacement of ill-formed bytes takes pages to state.
pub uninterp spec fn lossy_text(bytes: Seq<u8>) -> Seq<char>;

/// The text that `bytes` are shown as: what they decode to where they are
/// UTF-8, and `lossy_text` of them where they are not.
pub open spec fn shown_text(bytes: Seq<u8>) -> Seq<char> {
    if vstd::utf8::valid_utf8(bytes) {
        vstd::utf8::decode_utf8(bytes)
    } else {
        lossy_text(bytes)
    }
}

/// `String::from_utf8_lossy`: the text that `bytes` spell, with U+FFFD in
/// place of what is no UTF-8; bytes that are UTF-8 decode to themselves.
/// Assumed, not proved.
#[verifier::external_body]
fn text_from_bytes_lossy(bytes: &[u8]) -> (s: String)
    ensures
        s@ == lossy_text(bytes@),
        s@ == shown_text(bytes@),
{
    String::from_utf8_lossy(bytes).into_owned()
}

/// The characters of `s`, last first.
pub fn reversed(s: &Vec<char>) -> (r: Vec<char>)
    ensures
        r@ == s@.reverse(),
{
    let mut r: Vec<char> = Vec::new();
    let mut i: usize = s.len();
    while i > 0
        invariant
            i <= s@.len(),
            r@.len() == s@.len() - i,
            forall|j: int| 0 <= j < r@.len() ==> r@[j] == s@[s@.len() - 1 - j],
        decreases i,
    {
        i -= 1;
        r.push(s[i]);
    }
    assert(r@ =~= s@.reverse());
    r
}

impl ResourceInfo {
    /// The size of the resource once extracted.
    pub fn size(&self) -> (r: u32)
        ensures
            r == self@.header.data_size,
    {
        self.header.data_size
    }

    pub fn rrid(&self) -> (r: &RuntimeResourceID)
        ensures
            *r == self.entry.runtime_resource_id,
    {
        &self.entry.runtime_resource_id
    }

    /// The type tag as text. It is stored last character first.
    pub fn data_type(&self) -> (r: String)
        ensures
            r@ == shown_text(self.header.resource_type@).reverse(),
    {
        let text = text_from_bytes_lossy(self.header.resource_type.as_slice());
        string_of(&reversed(&chars_of(text.as_str())))
    }

    /// The type tag as text, under its older name.
    pub fn extension(&self) -> (r: String)
        ensures
            r@ == shown_text(self.header.resource_type@).reverse(),
    {
        self.data_type()
    }

    pub fn references(&self) -> (r: &Vec<(RuntimeResourceID, ResourceReferenceFlags)>)
        ensures
            r@ == self@.header.references,
    {
        &self.header.references
    }

    pub fn system_memory_requirement(&self) -> (r: u32)
        ensures
            r == self.header.system_memory_requirement,
    {
        self.header.system_memory_requirement
    }

    pub fn video_memory_requirement(&self) -> (r: u32)
        ensures
            r == self.header.video_memory_requirement,
    {
        self.header.video_memory_requirement
    }

    pub fn is_compressed(&self) -> (r: bool)
        ensures
            r == (self.entry.flags.size_bits() != 0),
    {
        self.entry.compressed_size().is_some()
    }

    pub fn is_scrambled(&self) -> (r: bool)
        ensures
            r == self.entry.flags.scrambled_bit(),
    {
        self.entry.is_scrambled()
    }

    /// The compressed size, or `None` where the resource is not compressed.
    pub fn compressed_size(&self) -> (r: Option<u32>)
        ensures
            r == self.entry.compressed(),
    {
        self.entry.compressed_size()
    }

    pub fn data_offset(&self) -> (r: u64)
        ensures
            r == self.entry.data_offset,
    {
        self.entry.data_offset
    }

    /// Archives of the supported versions carry no states chunk.
    pub fn states_chunk_size(&self) -> (r: usize)
        ensures
            r == 0,
    {
        0
    }

    /// The size on disk of the reference chunk: nothing without references,
    /// else the leading word and nine bytes for each.
    pub fn reference_chunk_size(&self) -> (r: usize)
        requires
            4 + 9 * self.header.references@.len() <= usize::MAX,
        ensures
            r == if self.header.references@.len() == 0 {
                0
            } else {
                4 + 9 * self.header.references@.len()
            },
    {
        let n = self.header.references.len();
        if n == 0 {
            0
        } else {
            4 + n * 9
        }
    }
}

} // verus!
