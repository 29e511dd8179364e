//! Executable memory regions: a named, bounded byte store that decoders
//! read from.

use vstd::prelude::*;

verus! {

/// A flat byte buffer backing a region.
#[derive(Debug)]
pub struct OpaqueLayer {
    pub data: Vec<u8>,
}

impl View for OpaqueLayer {
    type V = Seq<u8>;

    open spec fn view(&self) -> Seq<u8> {
        self.data@
    }
}

impl OpaqueLayer {
    /// Wraps a byte vector.
    pub fn wrap(data: Vec<u8>) -> (r: OpaqueLayer)
        ensures
            r@ == data@,
    {
        OpaqueLayer { data }
    }

    /// Number of bytes.
    pub fn len(&self) -> (r: usize)
        ensures
            r == self@.len(),
    {
        self.data.len()
    }
}

/// A named executable memory region.
#[derive(Debug)]
pub struct Region {
    pub name: String,
    pub data: OpaqueLayer,
}

impl View for Region {
    type V = Seq<u8>;

    open spec fn view(&self) -> Seq<u8> {
        self.data@
    }
}

impl Region {
    /// A region `name` over the bytes of `data`; addresses start at zero.
    pub fn new(name: String, data: OpaqueLayer) -> (r: Region)
        ensures
            r@ == data@,
            r.name@ == name@,
    {
        Region { name, data }
    }

    /// The byte at `address`, if the address lies inside the region.
    pub fn read(&self, address: u64) -> (r: Option<u8>)
        ensures
            address < self@.len() ==> r == Some(self@[address as int]),
            address >= self@.len() ==> r is None,
    {
        if address < self.data.data.len() as u64 {
            Some(self.data.data[address as usize])
        } else {
            None
        }
    }

    /// Number of bytes in the region.
    pub fn len(&self) -> (r: usize)
        ensures
            r == self@.len(),
    {
        self.data.len()
    }
}

} // verus!
