use vstd::prelude::*;
use vstd::slice::slice_to_vec;
use vstd::string::StringSliceAdditionalSpecFns;
use vstd::utf8::encode_utf8;

use crate::text::{join_path, joined};

verus! {

/// The 32-byte SHA-256 digest of the given bytes.
pub uninterp spec fn sha256_of(data: Seq<u8>) -> Seq<u8>;

pub open spec fn hex_digit(d: nat) -> char {
    if d < 10 {
        crate::text::digit_char(d)
    } else if d == 10 {
        'a'
    } else if d == 11 {
        'b'
    } else if d == 12 {
        'c'
    } else if d == 13 {
        'd'
    } else if d == 14 {
        'e'
    } else {
        'f'
    }
}

/// Two lowercase hexadecimal digits per byte, high half first.
pub open spec fn hex_text(b: Seq<u8>) -> Seq<char>
    decreases b.len(),
{
    if b.len() == 0 {
        Seq::empty()
    } else {
        hex_text(b.drop_last()) + seq![
            hex_digit((b.last() / 16) as nat),
            hex_digit((b.last() % 16) as nat),
        ]
    }
}

/// The label of a run: the first four bytes of the SHA-256 digest of the
/// input path followed by the output path, in hexadecimal.
pub open spec fn run_label(input: Seq<char>, output: Seq<char>) -> Seq<char> {
    hex_text(sha256_of(encode_utf8(input) + encode_utf8(output)).subrange(0, 4))
}

/// Relies on sha2's `Sha256::digest`: the digest is a function of the bytes
/// alone, 32 bytes long.
#[verifier::external_body]
fn sha256(data: &[u8]) -> (r: Vec<u8>)
    ensures
        r@ == sha256_of(data@),
        r@.len() == 32,
{
    <sha2::Sha256 as sha2::Digest>::digest(data).to_vec()
}

/// Relies on `hex::encode`: each byte becomes two lowercase hexadecimal
/// digits, high half first, in the order of the bytes.
#[verifier::external_body]
fn hex_encode(b: &[u8]) -> (r: String)
    ensures
        r@ == hex_text(b@),
{
    hex::encode(b)
}

/// Eight hexadecimal digits naming the work directory of one input and
/// output pair.
pub fn generate_hash(input_file: &str, output_file: &str) -> (r: String)
    ensures
        r@ == run_label(input_file@, output_file@),
{
    let mut data = slice_to_vec(input_file.as_bytes());
    let mut tail = slice_to_vec(output_file.as_bytes());
    data.append(&mut tail);
    let digest = sha256(data.as_slice());
    let mut head: Vec<u8> = Vec::new();
    let mut i: usize = 0;
    while i < 4
        invariant
            i <= 4,
            digest@.len() == 32,
            head@ == digest@.subrange(0, i as int),
        decreases 4 - i,
    {
        head.push(digest[i]);
        i = i + 1;
    }
    proof {
        assert(data@ == encode_utf8(input_file@) + encode_utf8(output_file@));
    }
    hex_encode(head.as_slice())
}

/// The temporary directories of one run: a base directory with the
/// segments and the encoded chunks in two directories inside it.
#[derive(Clone, Debug, Default, PartialEq, Eq)]
pub struct TempConfig {
    pub temp_dir: String,
    pub temp_segments: String,
    pub temp_encoded: String,
}

impl TempConfig {
    /// The directories for a run. Without a base directory of the caller's,
    /// the base is `./` followed by the run's label.
    pub fn new(temp_dir: Option<String>, input_file: &str, output_file: &str) -> (r: TempConfig)
        ensures
            r.temp_dir@ == match temp_dir {
                Some(d) => d@,
                None => joined("."@, run_label(input_file@, output_file@)),
            },
            r.temp_segments@ == joined(r.temp_dir@, "segments"@),
            r.temp_encoded@ == joined(r.temp_dir@, "encoded"@),
    {
        let temp_dir = match temp_dir {
            Some(d) => d,
            None => {
                let hash = generate_hash(input_file, output_file);
                join_path(".", hash.as_str())
            },
        };
        let temp_segments = join_path(temp_dir.as_str(), "segments");
        let temp_encoded = join_path(temp_dir.as_str(), "encoded");
        TempConfig { temp_dir, temp_segments, temp_encoded }
    }

    /// Where the segments are stored.
    pub fn segment_dir(&self) -> (r: String)
        ensures
            r@ == joined(self.temp_dir@, "segments"@),
    {
        join_path(self.temp_dir.as_str(), "segments")
    }

    /// Where the encoded chunks are stored.
    pub fn encode_dir(&self) -> (r: String)
        ensures
            r@ == joined(self.temp_dir@, "encoded"@),
    {
        join_path(self.temp_dir.as_str(), "encoded")
    }
}

} // verus!
