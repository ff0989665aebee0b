//! What the on-disk object store reads and writes, short of the file system.

use vstd::prelude::*;

use crate::git_error::GitResult;
use crate::object::{
    decode_spec, encoded, hex_bytes, hex_vec, object_hash, sha1_of, Object, Sha,
};
use crate::text::{all_ascii, ascii_chars, ascii_string};
use crate::zlib::{read, zlib_deflate, zlib_inflate};

verus! {

/// What storing an object writes: under `objects/<dir>/<file>`, the
/// compressed canonical encoding, named by the object's hash.
pub struct StoreEntry {
    pub hash: Sha,
    pub dir: String,
    pub file: String,
    pub data: Vec<u8>,
}

/// Encodes, hashes and compresses an object for the store; the directory is
/// the first two hex digits of its hash and the file the other 38.
pub fn prepare_write(obj: &Object) -> (r: GitResult<StoreEntry>)
    ensures
        r is Ok,
        r matches Ok(e) ==> {
            &&& e.hash@ == object_hash(obj@)
            &&& e.hash@ == sha1_of(encoded(obj@))
            &&& e.dir@ == ascii_chars(hex_bytes(e.hash@).subrange(0, 2))
            &&& e.file@ == ascii_chars(hex_bytes(e.hash@).subrange(2, 40))
            &&& e.data@ == zlib_deflate(encoded(obj@))
        },
{
    let (hash, data) = obj.encode();
    let compressed = match crate::zlib::write(data.as_slice()) {
        Ok(c) => c,
        Err(e) => { return Err(e); },
    };
    let hex = hex_vec(&hash);
    let mut dir: Vec<u8> = Vec::new();
    dir.extend_from_slice(&hex.as_slice()[0..2]);
    let mut file: Vec<u8> = Vec::new();
    file.extend_from_slice(&hex.as_slice()[2..40]);
    assert(dir@ =~= hex@.subrange(0, 2));
    assert(file@ =~= hex@.subrange(2, 40));
    assert(all_ascii(dir@));
    assert(all_ascii(file@)) by {
        assert forall|i: int| 0 <= i < file@.len() implies #[trigger] file@[i] < 128 by {
            assert(file@[i] == hex@[i + 2]);
        }
    }
    Ok(StoreEntry { hash, dir: ascii_string(dir), file: ascii_string(file), data: compressed })
}

/// Reads an object from the bytes of its store file: inflate, then decode.
pub fn decode_stored(data: &[u8]) -> (r: GitResult<Object>)
    ensures
        r is Ok <==> (zlib_inflate(data@) matches Some((_, plain)) && decode_spec(plain) is Some),
        r matches Ok(o) ==> (zlib_inflate(data@) matches Some((_, plain)) && decode_spec(plain)
            == Some(o@)),
{
    let (_, content) = match read(data) {
        Ok(x) => x,
        Err(e) => { return Err(e); },
    };
    Object::decode(content.as_slice())
}

} // verus!
