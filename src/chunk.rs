use vstd::prelude::*;
use vstd::string::StringExecFns;

verus! {

/// One indexed, independently encodable piece of the input media.
#[derive(Debug, PartialEq, Eq)]
pub struct Chunk {
    pub source_path: String,
    pub encoded_path: Option<String>,
    pub index: usize,
    pub encoder_parameters: Vec<String>,
}

/// What a unit holds, as plain text and numbers.
pub struct ChunkView {
    pub source_path: Seq<char>,
    pub encoded_path: Option<Seq<char>>,
    pub index: usize,
    pub encoder_parameters: Seq<Seq<char>>,
}

pub open spec fn texts(v: Seq<String>) -> Seq<Seq<char>> {
    v.map_values(|s: String| s@)
}

pub open spec fn opt_text(o: Option<String>) -> Option<Seq<char>> {
    match o {
        Some(s) => Some(s@),
        None => None,
    }
}

pub open spec fn views(s: Seq<Chunk>) -> Seq<ChunkView> {
    s.map_values(|c: Chunk| c@)
}

impl ChunkView {
    /// This is `base` with some encoded location recorded.
    pub open spec fn encoded_as_of(self, base: ChunkView) -> bool {
        &&& self.encoded_path is Some
        &&& self.source_path == base.source_path
        &&& self.index == base.index
        &&& self.encoder_parameters == base.encoder_parameters
    }
}

impl View for Chunk {
    type V = ChunkView;

    open spec fn view(&self) -> ChunkView {
        ChunkView {
            source_path: self.source_path@,
            encoded_path: opt_text(self.encoded_path),
            index: self.index,
            encoder_parameters: texts(self.encoder_parameters@),
        }
    }
}

/// A copy of a list of strings, element for element.
pub fn copy_strings(v: &Vec<String>) -> (r: Vec<String>)
    ensures
        r@ == v@,
{
    let mut r: Vec<String> = Vec::new();
    let mut i: usize = 0;
    while i < v.len()
        invariant
            i <= v.len(),
            r@ == v@.subrange(0, i as int),
        decreases v.len() - i,
    {
        r.push(v[i].clone());
        i = i + 1;
    }
    assert(r@ =~= v@);
    r
}

impl Clone for Chunk {
    fn clone(&self) -> (r: Self)
        ensures
            r@ == self@,
    {
        let encoded_path = match &self.encoded_path {
            Some(p) => Some(p.clone()),
            None => None,
        };
        Chunk {
            source_path: self.source_path.clone(),
            encoded_path,
            index: self.index,
            encoder_parameters: copy_strings(&self.encoder_parameters),
        }
    }
}

impl Chunk {
    /// A unit freshly cut from the input: nothing encoded yet.
    pub open spec fn is_fresh(self, source_path: String, index: usize, params: Seq<String>) -> bool {
        &&& self@.source_path == source_path@
        &&& self@.encoded_path is None
        &&& self@.index == index
        &&& self@.encoder_parameters == texts(params)
    }

    /// The same unit, with the location of its encoded payload recorded.
    pub open spec fn encoded_as(self, base: ChunkView, path: Seq<char>) -> bool {
        &&& self@.source_path == base.source_path
        &&& self@.encoded_path == Some(path)
        &&& self@.index == base.index
        &&& self@.encoder_parameters == base.encoder_parameters
    }

    pub fn new(source_path: String, index: usize, encoder_parameters: Vec<String>) -> (r: Chunk)
        ensures
            r.is_fresh(source_path, index, encoder_parameters@),
    {
        Chunk { source_path, encoded_path: None, index, encoder_parameters }
    }

    /// The arguments of the encoder run that turns this unit's source into
    /// `output_path`: the source as input, then the unit's parameters
    /// verbatim, then the output.
    pub fn encode_args(&self, output_path: &str) -> (r: Vec<String>)
        ensures
            texts(r@) == seq!["-hide_banner"@, "-i"@, self.source_path@] + self@.encoder_parameters
                + seq![output_path@],
    {
        let mut r: Vec<String> = Vec::new();
        r.push(String::from_str("-hide_banner"));
        r.push(String::from_str("-i"));
        r.push(self.source_path.clone());
        let mut i: usize = 0;
        while i < self.encoder_parameters.len()
            invariant
                i <= self.encoder_parameters@.len(),
                texts(r@) == seq!["-hide_banner"@, "-i"@, self.source_path@] + texts(
                    self.encoder_parameters@.subrange(0, i as int),
                ),
            decreases self.encoder_parameters@.len() - i,
        {
            let ghost before = r@;
            r.push(self.encoder_parameters[i].clone());
            proof {
                assert(texts(r@) =~= texts(before).push(self.encoder_parameters@[i as int]@));
                assert(texts(self.encoder_parameters@.subrange(0, i + 1)) =~= texts(
                    self.encoder_parameters@.subrange(0, i as int),
                ).push(self.encoder_parameters@[i as int]@));
            }
            i = i + 1;
        }
        let ghost before = r@;
        r.push(String::from_str(output_path));
        proof {
            assert(self.encoder_parameters@.subrange(0, i as int) =~= self.encoder_parameters@);
            assert(texts(r@) =~= texts(before).push(output_path@));
        }
        r
    }

    /// What an encoder run into `output_path` made of this unit: the unit
    /// with its encoded location when the run succeeded, else an encoding
    /// error with the run's own account of it.
    pub fn encode_result(&self, output_path: String, succeeded: bool, detail: String) -> (r: Result<
        Chunk,
        crate::error::VideoEncodeError,
    >)
        ensures
            r is Ok <==> succeeded,
            r matches Ok(c) ==> c.encoded_as(self@, output_path@),
            !succeeded ==> (r matches Err(crate::error::VideoEncodeError::Encoding(m)) && m@ == detail@),
    {
        if succeeded {
            Ok(self.with_encoded(output_path))
        } else {
            Err(crate::error::VideoEncodeError::Encoding(detail))
        }
    }

    /// The unit after a successful encode into `output_path`.
    pub fn with_encoded(&self, output_path: String) -> (r: Chunk)
        ensures
            r.encoded_as(self@, output_path@),
    {
        Chunk {
            source_path: self.source_path.clone(),
            encoded_path: Some(output_path),
            index: self.index,
            encoder_parameters: copy_strings(&self.encoder_parameters),
        }
    }
}

/// Turns an ordered list of segment files into work units: the unit at
/// position `i` has index `i`, the `i`-th path as its source, and its own
/// copy of the encoder parameters.
pub fn convert_files_to_chunks(segments: Vec<String>, encoder_params: Vec<String>) -> (r: Result<
    Vec<Chunk>,
    crate::error::VideoEncodeError,
>)
    ensures
        r is Ok,
        r matches Ok(chunks) && chunks@.len() == segments@.len() && forall|i: int|
            0 <= i < chunks@.len() ==> #[trigger] chunks@[i].is_fresh(
                segments@[i],
                i as usize,
                encoder_params@,
            ),
{
    let mut chunks: Vec<Chunk> = Vec::new();
    let mut i: usize = 0;
    while i < segments.len()
        invariant
            i <= segments.len(),
            chunks@.len() == i,
            forall|j: int|
                0 <= j < i ==> #[trigger] chunks@[j].is_fresh(
                    segments@[j],
                    j as usize,
                    encoder_params@,
                ),
        decreases segments.len() - i,
    {
        let c = Chunk::new(segments[i].clone(), i, copy_strings(&encoder_params));
        chunks.push(c);
        i = i + 1;
    }
    Ok(chunks)
}

} // verus!
