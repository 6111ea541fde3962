use vstd::prelude::*;
use vstd::string::StringExecFns;

use crate::chunk::{copy_strings, texts, Chunk, ChunkView};
use crate::config::TempConfig;
use crate::error::VideoEncodeError;
use crate::text::{decimal, join_path, joined, numbered};

verus! {

/// The one request of the encode service: a unit's raw payload, its index
/// (echoed back unchanged) and its encoder parameters, passed on verbatim.
#[derive(Debug, PartialEq, Eq)]
pub struct EncodeChunkRequest {
    pub chunk_data: Vec<u8>,
    pub chunk_index: i32,
    pub encoder_parameters: Vec<String>,
}

/// The answer to one request: whether the encode succeeded, the encoded
/// payload (meaningful only on success), the echoed index, and a reason
/// (meaningful only on failure).
#[derive(Debug, PartialEq, Eq)]
pub struct EncodeChunkResponse {
    pub encoded_chunk_data: Vec<u8>,
    pub chunk_index: i32,
    pub success: bool,
    pub error_message: String,
}

/// The largest index a request can carry.
pub const MAX_WIRE_INDEX: usize = 2147483647;

/// The request that sends `chunk` with its payload `chunk_data`. A unit
/// whose index does not fit the request's index field is refused.
pub fn build_request(chunk: &Chunk, chunk_data: Vec<u8>) -> (r: Result<
    EncodeChunkRequest,
    VideoEncodeError,
>)
    ensures
        r is Ok <==> chunk.index <= MAX_WIRE_INDEX,
        r is Err ==> r matches Err(VideoEncodeError::ChunkProcessing(_)),
        r matches Ok(q) ==> {
            &&& q.chunk_data@ == chunk_data@
            &&& q.chunk_index as int == chunk.index as int
            &&& texts(q.encoder_parameters@) == chunk@.encoder_parameters
        },
{
    if chunk.index > MAX_WIRE_INDEX {
        return Err(VideoEncodeError::ChunkProcessing("unit index does not fit a request".to_string()));
    }
    Ok(EncodeChunkRequest {
        chunk_data,
        chunk_index: chunk.index as i32,
        encoder_parameters: copy_strings(&chunk.encoder_parameters),
    })
}

/// What the orchestrator makes of a response to the request for `chunk`:
/// success only when the worker reports success for that same index; a
/// reported failure carries the worker's reason.
pub fn check_response(chunk: &Chunk, response: &EncodeChunkResponse) -> (r: Result<
    (),
    VideoEncodeError,
>)
    ensures
        r is Ok <==> response.success && response.chunk_index as int == chunk.index as int,
        !response.success ==> (r matches Err(VideoEncodeError::Encoding(m)) && m@
            == response.error_message@),
        response.success && response.chunk_index as int != chunk.index as int ==> r matches Err(
            VideoEncodeError::ChunkProcessing(_),
        ),
{
    if !response.success {
        return Err(VideoEncodeError::Encoding(response.error_message.clone()));
    }
    if response.chunk_index < 0 || response.chunk_index as usize != chunk.index {
        return Err(VideoEncodeError::ChunkProcessing("response is for another unit".to_string()));
    }
    Ok(())
}

/// Where the orchestrator keeps the encoded payload of the unit `index`.
pub fn encoded_chunk_path(encode_dir: &str, index: usize) -> (r: String)
    ensures
        r@ == joined(encode_dir@, "encoded_chunk_"@ + decimal(index as nat) + ".mkv"@),
{
    let name = numbered("encoded_chunk_", index, ".mkv");
    join_path(encode_dir, name.as_str())
}

/// A success answer carrying the encoded payload.
pub fn success_response(chunk_index: i32, encoded_chunk_data: Vec<u8>) -> (r: EncodeChunkResponse)
    ensures
        r.success,
        r.chunk_index == chunk_index,
        r.encoded_chunk_data@ == encoded_chunk_data@,
        r.error_message@.len() == 0,
{
    EncodeChunkResponse { encoded_chunk_data, chunk_index, success: true, error_message: String::new() }
}

/// A failure answer: the worker was reached but the unit was not encoded.
pub fn failure_response(chunk_index: i32, error_message: String) -> (r: EncodeChunkResponse)
    ensures
        !r.success,
        r.chunk_index == chunk_index,
        r.encoded_chunk_data@.len() == 0,
        r.error_message@ == error_message@,
{
    EncodeChunkResponse { encoded_chunk_data: Vec::new(), chunk_index, success: false, error_message }
}

/// The files one request uses on a worker, and the unit it encodes.
#[derive(Debug, PartialEq, Eq)]
pub struct EncodeJob {
    pub chunk: Chunk,
    pub input_path: String,
    pub output_path: String,
}

/// A worker of the encode service; it keeps no state across requests but
/// the directories it works in.
#[derive(Debug, PartialEq, Eq)]
pub struct VideoEncodingNode {
    pub config: TempConfig,
}

impl VideoEncodingNode {
    pub fn new(config: TempConfig) -> (r: VideoEncodingNode)
        ensures
            r.config == config,
    {
        VideoEncodingNode { config }
    }

    /// The per-index input and output files of a request and the unit to
    /// encode from them. A request with a negative index is answered with a
    /// reported failure.
    pub fn plan(&self, request: &EncodeChunkRequest) -> (r: Result<EncodeJob, EncodeChunkResponse>)
        ensures
            r is Ok <==> request.chunk_index >= 0,
            r matches Err(e) ==> !e.success && e.chunk_index == request.chunk_index,
            r matches Ok(job) ==> {
                &&& job.input_path@ == joined(
                    joined(self.config.temp_dir@, "segments"@),
                    "chunk_"@ + decimal(request.chunk_index as nat) + ".mkv"@,
                )
                &&& job.output_path@ == joined(
                    joined(self.config.temp_dir@, "encoded"@),
                    "encoded_chunk_"@ + decimal(request.chunk_index as nat) + ".mkv"@,
                )
                &&& job.chunk@ == ChunkView {
                    source_path: job.input_path@,
                    encoded_path: None,
                    index: request.chunk_index as usize,
                    encoder_parameters: texts(request.encoder_parameters@),
                }
            },
    {
        if request.chunk_index < 0 {
            return Err(failure_response(request.chunk_index, "negative unit index".to_string()));
        }
        let index = request.chunk_index as usize;
        let input_name = numbered("chunk_", index, ".mkv");
        let output_name = numbered("encoded_chunk_", index, ".mkv");
        let input_path = join_path(self.config.segment_dir().as_str(), input_name.as_str());
        let output_path = join_path(self.config.encode_dir().as_str(), output_name.as_str());
        let chunk = Chunk::new(input_path.clone(), index, copy_strings(&request.encoder_parameters));
        Ok(EncodeJob { chunk, input_path, output_path })
    }
}

} // verus!
