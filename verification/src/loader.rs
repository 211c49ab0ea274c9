//! Bounds-checked access to the tensor data of a mapped model file.
use crate::text::{self, decimal_string, string_copy};
use vstd::prelude::*;

verus! {

/// Why tensor data cannot be had.
#[derive(Debug)]
pub enum LoadError {
    /// The data would end behind the file: position, size, file length.
    OutOfBounds(u64, u64, usize),
    /// There is no tensor of this name.
    NotFound(String),
}

impl LoadError {
    /// The error in words.
    pub open spec fn words(self) -> Seq<char> {
        match self {
            LoadError::OutOfBounds(offset, size, len) => "Tensor data out of bounds: offset="@
                + text::decimal(offset as nat) + ", size="@ + text::decimal(size as nat)
                + ", file_len="@ + text::decimal(len as nat),
            LoadError::NotFound(name) => "Tensor not found: "@ + name@,
        }
    }

    /// The error in words.
    pub fn message(&self) -> (r: String)
        ensures
            r@ == self.words(),
    {
        match self {
            LoadError::OutOfBounds(offset, size, len) => {
                let mut r = string_copy("Tensor data out of bounds: offset=");
                r.append(decimal_string(*offset).as_str());
                r.append(", size=");
                r.append(decimal_string(*size).as_str());
                r.append(", file_len=");
                r.append(decimal_string(*len as u64).as_str());
                r
            },
            LoadError::NotFound(name) => {
                let mut r = string_copy("Tensor not found: ");
                r.append(name.as_str());
                r
            },
        }
    }
}

/// A mapped model file.
#[derive(Debug)]
pub struct MmapLoader<'a> {
    pub bytes: &'a [u8],
    /// Start of the tensor data.
    pub data_offset: u64,
}

impl<'a> MmapLoader<'a> {
    /// Positions in the file can be computed without overflow.
    pub open spec fn addressable(self, offset: u64, size: u64) -> bool {
        self.data_offset + offset + size <= u64::MAX
    }

    /// The tensor data lies within the file.
    pub open spec fn within(self, offset: u64, size: u64) -> bool {
        self.data_offset + offset + size <= self.bytes@.len()
    }

    /// The tensor data.
    pub open spec fn data(self, offset: u64, size: u64) -> Seq<u8> {
        self.bytes@.subrange(self.data_offset + offset, self.data_offset + offset + size)
    }

    /// A loader for the bytes of a model file.
    pub fn new(bytes: &'a [u8], data_offset: u64) -> (r: Self)
        ensures
            r.bytes == bytes,
            r.data_offset == data_offset,
    {
        MmapLoader { bytes, data_offset }
    }

    /// The tensor data at an offset, or an error if it would end behind the
    /// file.
    pub fn get_tensor_data(&self, offset: u64, size: u64) -> (r: Result<&'a [u8], LoadError>)
        requires
            self.addressable(offset, size),
        ensures
            match r {
                Ok(d) => self.within(offset, size) && d@ == self.data(offset, size),
                Err(e) => !self.within(offset, size) && e == LoadError::OutOfBounds(
                    (self.data_offset + offset) as u64,
                    size,
                    self.bytes@.len() as usize,
                ),
            },
    {
        let start: u64 = self.data_offset + offset;
        let end: u64 = start + size;
        if end > self.bytes.len() as u64 {
            return Err(LoadError::OutOfBounds(start, size, self.bytes.len()));
        }
        Ok(&self.bytes[start as usize..end as usize])
    }

    /// The range of the file that a memory hint for tensor data covers: its
    /// start and its length.
    pub fn advice_range(&self, offset: u64, size: u64) -> (r: (u64, u64))
        requires
            self.data_offset + offset <= u64::MAX,
        ensures
            r.0 == self.data_offset + offset,
            r.1 == size,
    {
        (self.data_offset + offset, size)
    }

    /// Length of the file.
    pub fn file_size(&self) -> (n: usize)
        ensures
            n == self.bytes@.len(),
    {
        self.bytes.len()
    }
}

/// Tensor data is had exactly if it ends within the file, and then it is the bytes of
/// the file from the start of the tensor data and the offset on.
pub proof fn lemma_data_lies_in_the_file(
    loader: &MmapLoader<'_>,
    offset: u64,
    size: u64,
    r: Result<&[u8], LoadError>,
)
    requires
        loader.addressable(offset, size),
        call_ensures(MmapLoader::get_tensor_data, (loader, offset, size), r),
    ensures
        r is Ok <==> loader.data_offset + offset + size <= loader.bytes@.len(),
        r matches Ok(d) ==> d@.len() == size && forall|i: int|
            0 <= i < size ==> #[trigger] d@[i] == loader.bytes@[loader.data_offset + offset + i],
{
}

/// Errors are told with the place and the sizes, or with the name.
pub proof fn lemma_load_errors_are_told(e: &LoadError, r: String)
    requires
        call_ensures(LoadError::message, (e,), r),
    ensures
        *e matches LoadError::OutOfBounds(offset, size, len) ==> r@
            == "Tensor data out of bounds: offset="@ + text::decimal(offset as nat) + ", size="@
            + text::decimal(size as nat) + ", file_len="@ + text::decimal(len as nat),
        *e matches LoadError::NotFound(name) ==> r@ == "Tensor not found: "@ + name@,
{
}

} // verus!
