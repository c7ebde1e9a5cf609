//! The index-level header: a single small file holding the epoch of the
//! base index.

use vstd::prelude::*;
use vstd::bytes::{spec_u64_to_le_bytes, spec_u64_from_le_bytes, u64_to_le_bytes};
use crate::codec::{read_u64_le, lemma_le_roundtrips};
use crate::error::IndexError;

verus! {

/// Index-level metadata; an epoch of zero means "unset".
#[derive(Debug, Clone, Copy, PartialEq, Eq, Structural)]
pub struct CKVIndexHeader {
    pub base_index_epoch_millis: u64,
}

/// Holds the header file.
#[derive(Debug)]
pub struct HeaderStore {
    file: Vec<u8>,
}

impl HeaderStore {
    /// The file image.
    pub closed spec fn file_bytes(self) -> Seq<u8> {
        self.file@
    }

    /// The file always holds exactly one encoded header.
    pub open spec fn wf(self) -> bool {
        self.file_bytes().len() == 8
    }

    /// The header the file holds.
    pub open spec fn spec_header(self) -> u64 {
        spec_u64_from_le_bytes(self.file_bytes())
    }

    /// Open the header file, or create one stamped with the given epoch.
    /// A file of the wrong shape is invalid state.
    pub fn open_or_create(file: Option<Vec<u8>>, now_millis: u64) -> (r: Result<
        HeaderStore,
        IndexError,
    >)
        ensures
            match r {
                Ok(h) => {
                    &&& h.wf()
                    &&& match file {
                        None => h.spec_header() == now_millis,
                        Some(b) => b@.len() == 8 && h.file_bytes() == b@,
                    }
                },
                Err(e) => file matches Some(b) && b@.len() != 8,
            },
    {
        proof {
            lemma_le_roundtrips();
        }
        match file {
            None => Ok(HeaderStore { file: u64_to_le_bytes(now_millis) }),
            Some(b) => {
                if b.len() != 8 {
                    return Err(
                        IndexError::SystemError(
                            String::from_str("index header does not parse"),
                        ),
                    );
                }
                Ok(HeaderStore { file: b })
            },
        }
    }

    /// Is no header file present?
    pub fn index_not_present(file: &Option<Vec<u8>>) -> (r: bool)
        ensures
            r == (file is None),
    {
        file.is_none()
    }

    /// A header file must be present for the index to be valid.
    pub fn is_valid_index(file: &Option<Vec<u8>>) -> (r: Result<(), IndexError>)
        ensures
            r is Ok <==> file is Some,
    {
        match file {
            Some(_) => Ok(()),
            None => Err(IndexError::SystemError(String::from_str("index header not present"))),
        }
    }

    /// Read the header.
    pub fn read_header(&self) -> (r: Result<CKVIndexHeader, IndexError>)
        requires
            self.wf(),
        ensures
            r matches Ok(h) && h.base_index_epoch_millis == self.spec_header(),
    {
        let epoch = read_u64_le(self.file.as_slice(), 0);
        proof {
            assert(self.file@.subrange(0int, 8int) =~= self.file@);
        }
        Ok(CKVIndexHeader { base_index_epoch_millis: epoch })
    }

    /// Overwrite the header.
    pub fn write_header(&mut self, header: &CKVIndexHeader) -> (r: Result<(), IndexError>)
        ensures
            r is Ok,
            final(self).wf(),
            final(self).spec_header() == header.base_index_epoch_millis,
    {
        proof {
            lemma_le_roundtrips();
        }
        self.file = u64_to_le_bytes(header.base_index_epoch_millis);
        Ok(())
    }

    /// Hand back the file for persistence.
    pub fn close(self) -> (r: Vec<u8>)
        ensures
            r@ == self.file_bytes(),
    {
        self.file
    }

    /// The file as it stands.
    pub fn file_ref(&self) -> (r: &Vec<u8>)
        ensures
            r@ == self.file_bytes(),
    {
        &self.file
    }
}

} // verus!
