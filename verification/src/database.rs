//! The object database: canonical header-and-payload serialization, SHA-1
//! addressing, and zlib compression of every stored object.
//!
//! Placing the compressed bytes on disk is the caller's side of the split:
//! `store` computes the object id, the two-character fan-out directory, the
//! remaining file name, and the compressed bytes, and the caller writes them
//! through a temporary file and a rename.

use vstd::prelude::*;
use vstd::utf8::encode_utf8;

use crate::gitobject::GitObject;
use crate::sha::{sha1_bytes, sha1_digest};
use crate::strutil::{dec_digits, u64_to_dec_string};
use crate::{hex_of_bytes, is_oid, lemma_hex_of_bytes_is_hex, uncompress_u8_array_to_oid};

verus! {

/// The buffer an object is hashed and compressed as: the type tag, a space,
/// the decimal payload length, a NUL, then the payload.
pub open spec fn object_content_bytes(t: Seq<char>, data: Seq<u8>) -> Seq<u8> {
    encode_utf8(t) + seq![32u8] + encode_utf8(dec_digits(data.len() as int)) + seq![0u8] + data
}

/// The hex object id assigned to content with the given tag and payload.
pub open spec fn spec_oid_of_content(t: Seq<char>, data: Seq<u8>) -> Seq<char> {
    hex_of_bytes(sha1_bytes(object_content_bytes(t, data)))
}

/// The zlib encoding, at the default compression level, of a byte sequence.
/// The encoding depends on the input alone; its definition is not restated
/// here.
pub uninterp spec fn zlib_bytes(data: Seq<u8>) -> Seq<u8>;

/// Relies on `flate2::write::ZlibEncoder` at `Compression::default()`: the
/// compressed stream depends on the input bytes alone. Writing to the
/// in-memory sink cannot fail.
#[verifier::external_body]
pub(crate) fn zlib_compress(data: &[u8]) -> (r: Vec<u8>)
    ensures
        r@ == zlib_bytes(data@),
{
    let mut encoder = flate2::write::ZlibEncoder::new(Vec::new(), flate2::Compression::default());
    std::io::Write::write_all(&mut encoder, data).unwrap();
    encoder.finish().unwrap()
}

/// One object ready to be placed on disk: the two-character fan-out
/// directory under `objects/`, the 38-character file name, and the
/// zlib-compressed content.
pub struct ObjectWrite {
    pub dir_name: String,
    pub file_name: String,
    pub compressed: Vec<u8>,
}

/// The mathematical content of one pending object write.
#[verifier::ext_equal]
pub struct ObjectWriteView {
    pub dir: Seq<char>,
    pub file: Seq<char>,
    pub compressed: Seq<u8>,
}

impl View for ObjectWrite {
    type V = ObjectWriteView;

    open spec fn view(&self) -> ObjectWriteView {
        ObjectWriteView { dir: self.dir_name@, file: self.file_name@, compressed: self.compressed@ }
    }
}

/// The write that places content with the given tag and payload.
pub open spec fn spec_object_write(t: Seq<char>, data: Seq<u8>) -> ObjectWriteView {
    ObjectWriteView {
        dir: spec_oid_of_content(t, data).take(2),
        file: spec_oid_of_content(t, data).skip(2),
        compressed: zlib_bytes(object_content_bytes(t, data)),
    }
}

/// The object database rooted at an `objects` directory.
pub struct Database {
    path: String,
}

impl Database {
    /// The objects directory this database stores under.
    pub closed spec fn path_spec(&self) -> Seq<char> {
        self.path@
    }

    pub fn new(path: String) -> (r: Database)
        ensures
            r.path_spec() == path@,
    {
        Database { path }
    }

    /// The objects directory.
    pub fn path(&self) -> (r: &String)
        ensures
            r@ == self.path_spec(),
    {
        &self.path
    }

    /// Hashes and compresses an object: assigns it the hex SHA-1 of its
    /// header-and-payload buffer, and returns the fan-out directory, file
    /// name, and compressed bytes under which the caller places it.
    pub fn store<T: GitObject>(&self, gitobject: &mut T) -> (r: ObjectWrite)
        ensures
            old(gitobject).same_but_oid(final(gitobject)),
            final(gitobject).data_spec() == old(gitobject).data_spec(),
            final(gitobject).type_spec() == old(gitobject).type_spec(),
            final(gitobject).oid_spec() == spec_oid_of_content(
                old(gitobject).type_spec(),
                old(gitobject).data_spec(),
            ),
            is_oid(final(gitobject).oid_spec()),
            r.compressed@ == zlib_bytes(
                object_content_bytes(old(gitobject).type_spec(), old(gitobject).data_spec()),
            ),
            r.dir_name@ == final(gitobject).oid_spec().take(2),
            r.file_name@ == final(gitobject).oid_spec().skip(2),
            r@ =~= spec_object_write(old(gitobject).type_spec(), old(gitobject).data_spec()),
    {
        let ghost t_spec = gitobject.type_spec();
        let ghost d_spec = gitobject.data_spec();
        let mut content: Vec<u8> = Vec::new();
        let t = gitobject.get_type();
        content.extend_from_slice(t.as_bytes());
        content.push(32u8);
        let data = gitobject.get_data();
        let len_str = u64_to_dec_string(data.len() as u64);
        content.extend_from_slice(len_str.as_str().as_bytes());
        content.push(0u8);
        content.extend_from_slice(data.as_slice());
        proof {
            assert(content@ =~= object_content_bytes(t_spec, d_spec));
        }
        let digest = sha1_digest(content.as_slice());
        let oid_hex = uncompress_u8_array_to_oid(digest.as_slice());
        proof {
            lemma_hex_of_bytes_is_hex(digest@);
            assert(oid_hex@.len() == 40);
            assert(vstd::utf8::is_ascii_chars(oid_hex@)) by {
                assert forall|i: int| 0 <= i < oid_hex@.len() implies (#[trigger] oid_hex@[i])
                    as nat <= 0x7f by {
                    assert(crate::is_lower_hex_digit(oid_hex@[i]));
                }
            }
        }
        let dir_str = oid_hex.as_str().substring_ascii(0, 2);
        let file_str = oid_hex.as_str().substring_ascii(2, 40);
        let dir_name = String::from_str(dir_str);
        let file_name = String::from_str(file_str);
        gitobject.set_oid(oid_hex);
        let compressed = zlib_compress(content.as_slice());
        ObjectWrite { dir_name, file_name, compressed }
    }
}

} // verus!
