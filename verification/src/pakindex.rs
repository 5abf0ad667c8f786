//! The index of a pak file: flat V1 before `PathHashIndex`, split V2 from it.

use vstd::prelude::*;

use crate::archive::ArchiveWriter;
use crate::archive::str_fits;
use crate::pakindexv1::{enc_v1, v1_encodable, v1_files_view, PakIndexV1};
use crate::pakindexv2::{v2_ser_ok, v2_ser_post, PakIndexV2};
use crate::{PakError, PakVersion};

verus! {

/// Either index flavor.
pub enum PakIndex {
    V1(PakIndexV1),
    V2(PakIndexV2),
}

impl PakIndex {
    /// The empty index of the flavor the version calls for.
    pub fn new(version: PakVersion) -> (r: Self)
        ensures
            version.spec_at_least(PakVersion::PathHashIndex) ==> r is V2 && ({
                let v2 = r->V2_0;
                &&& v2.mount_point@ == Seq::<char>::empty()
                &&& v2.num_entries == 0
                &&& v2.files@.len() == 0
                &&& v2.path_hash_seed == 0
                &&& v2.encoded_pak_entries@.len() == 0
                &&& v2.decoded_pak_entries@.len() == 0
                &&& v2.has_path_hash_index == true
                &&& v2.has_full_directory_index == true
                &&& v2.path_hash_index@.len() == 0
                &&& v2.pruned_directory_index@.len() == 0
                &&& v2.full_directory_index@.len() == 0
            }),
            !version.spec_at_least(PakVersion::PathHashIndex) ==> r is V1 && ({
                let v1 = r->V1_0;
                v1.mount_point@ == Seq::<char>::empty() && v1.files@.len() == 0
            }),
    {
        if version.at_least(PakVersion::PathHashIndex) {
            PakIndex::V2(PakIndexV2::new())
        } else {
            PakIndex::V1(PakIndexV1::new())
        }
    }

    /// Serializes whichever flavor is held: a V1 index as its flat encoding,
    /// a V2 index as its three segments with patched region triples.
    pub fn ser(&mut self, w: &mut ArchiveWriter, version: PakVersion) -> (r: Result<(), PakError>)
        requires
            *old(self) is V2 ==> version.spec_at_least(PakVersion::PathHashIndex),
        ensures
            *old(self) is V1 ==> *final(self) == *old(self),
            match r {
                Ok(()) => {
                    &&& (*old(self) is V1 <==> *final(self) is V1)
                    &&& (*old(self) is V1 ==> ({
                        let v1 = old(self)->V1_0;
                        &&& str_fits(v1.mount_point@)
                        &&& v1_encodable(v1_files_view(v1.files@), version)
                        &&& final(w).data@ == old(w).data@ + enc_v1(
                            v1.mount_point@,
                            v1_files_view(v1.files@),
                            version,
                        )
                    }))
                    &&& (*old(self) is V2 ==> v2_ser_post(
                        old(self)->V2_0,
                        final(self)->V2_0,
                        version,
                        old(w).data@,
                        final(w).data@,
                    ))
                },
                Err(e) => {
                    &&& e == PakError::InvalidInput
                    &&& (*old(self) is V1 ==> !(str_fits(old(self)->V1_0.mount_point@)
                        && v1_encodable(v1_files_view(old(self)->V1_0.files@), version)))
                    &&& (*old(self) is V2 ==> !v2_ser_ok(
                        old(self)->V2_0,
                        version,
                        old(w).data@.len() as int,
                    ) && final(w).data@ == old(w).data@ && *final(self) == *old(self))
                },
            },
    {
        match self {
            PakIndex::V1(v1) => v1.ser(w, version),
            PakIndex::V2(v2) => v2.ser(w, version),
        }
    }
}

} // verus!
