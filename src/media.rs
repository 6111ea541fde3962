use vstd::prelude::*;
use vstd::string::StrSliceExecFns;
use vstd::string::StringExecFns;

use crate::chunk::texts;
use crate::error::VideoEncodeError;

verus! {

fn push_str(v: &mut Vec<String>, s: &str)
    ensures
        texts(final(v)@) == texts(old(v)@).push(s@),
{
    v.push(String::from_str(s));
    proof {
        assert(texts(final(v)@) =~= texts(old(v)@).push(s@));
    }
}

/// The list file the concatenation reads: one `file '<path>'` line per
/// encoded segment, in the order given.
pub open spec fn list_text(paths: Seq<Seq<char>>) -> Seq<char>
    decreases paths.len(),
{
    if paths.len() == 0 {
        Seq::empty()
    } else {
        list_text(paths.drop_last()) + "file '"@ + paths.last() + "'\n"@
    }
}

pub fn concat_list(paths: &Vec<String>) -> (r: String)
    ensures
        r@ == list_text(texts(paths@)),
{
    let mut r = String::new();
    let mut i: usize = 0;
    while i < paths.len()
        invariant
            i <= paths@.len(),
            r@ == list_text(texts(paths@.subrange(0, i as int))),
        decreases paths@.len() - i,
    {
        r.append("file '");
        r.append(paths[i].as_str());
        r.append("'\n");
        proof {
            let s = texts(paths@.subrange(0, i + 1));
            assert(s.drop_last() =~= texts(paths@.subrange(0, i as int)));
            assert(s.last() == paths@[i as int]@);
        }
        i = i + 1;
    }
    proof {
        assert(paths@.subrange(0, i as int) =~= paths@);
    }
    r
}

/// Reassembly needs exactly the expected number of encoded segments.
pub fn check_segment_count(found: usize, expected: usize) -> (r: Result<(), VideoEncodeError>)
    ensures
        r is Ok <==> found == expected,
        r is Err ==> r matches Err(VideoEncodeError::Concatenation(_)),
{
    if found != expected {
        return Err(VideoEncodeError::Concatenation("mismatch in segment count".to_string()));
    }
    Ok(())
}

/// The arguments that join the listed segments into `output_file`, taking
/// the picture from the segments and every stream of `streams_file`.
pub fn concat_args(list_file: &str, streams_file: &str, output_file: &str) -> (r: Vec<String>)
    ensures
        texts(r@) == seq![
            "-hide_banner"@,
            "-f"@,
            "concat"@,
            "-safe"@,
            "0"@,
            "-i"@,
            list_file@,
            "-i"@,
            streams_file@,
            "-map"@,
            "0:v"@,
            "-map"@,
            "1"@,
            "-c"@,
            "copy"@,
            output_file@,
        ],
{
    let mut r: Vec<String> = Vec::new();
    push_str(&mut r, "-hide_banner");
    push_str(&mut r, "-f");
    push_str(&mut r, "concat");
    push_str(&mut r, "-safe");
    push_str(&mut r, "0");
    push_str(&mut r, "-i");
    push_str(&mut r, list_file);
    push_str(&mut r, "-i");
    push_str(&mut r, streams_file);
    push_str(&mut r, "-map");
    push_str(&mut r, "0:v");
    push_str(&mut r, "-map");
    push_str(&mut r, "1");
    push_str(&mut r, "-c");
    push_str(&mut r, "copy");
    push_str(&mut r, output_file);
    assert(texts(r@) =~= seq![
        "-hide_banner"@,
        "-f"@,
        "concat"@,
        "-safe"@,
        "0"@,
        "-i"@,
        list_file@,
        "-i"@,
        streams_file@,
        "-map"@,
        "0:v"@,
        "-map"@,
        "1"@,
        "-c"@,
        "copy"@,
        output_file@,
    ]);
    r
}

/// The arguments that cut `input` into picture-only segments of about
/// `segment_time` seconds each, named after `output_pattern`.
pub fn segment_args(input: &str, segment_time: &str, output_pattern: &str) -> (r: Vec<String>)
    ensures
        texts(r@) == seq![
            "-hide_banner"@,
            "-hide_banner"@,
            "-i"@,
            input@,
            "-y"@,
            "-an"@,
            "-sn"@,
            "-dn"@,
            "-c"@,
            "copy"@,
            "-map"@,
            "0"@,
            "-segment_time"@,
            segment_time@,
            "-f"@,
            "segment"@,
            "-reset_timestamps"@,
            "1"@,
            output_pattern@,
        ],
{
    let mut r: Vec<String> = Vec::new();
    push_str(&mut r, "-hide_banner");
    push_str(&mut r, "-hide_banner");
    push_str(&mut r, "-i");
    push_str(&mut r, input);
    push_str(&mut r, "-y");
    push_str(&mut r, "-an");
    push_str(&mut r, "-sn");
    push_str(&mut r, "-dn");
    push_str(&mut r, "-c");
    push_str(&mut r, "copy");
    push_str(&mut r, "-map");
    push_str(&mut r, "0");
    push_str(&mut r, "-segment_time");
    push_str(&mut r, segment_time);
    push_str(&mut r, "-f");
    push_str(&mut r, "segment");
    push_str(&mut r, "-reset_timestamps");
    push_str(&mut r, "1");
    push_str(&mut r, output_pattern);
    assert(texts(r@) =~= seq![
        "-hide_banner"@,
        "-hide_banner"@,
        "-i"@,
        input@,
        "-y"@,
        "-an"@,
        "-sn"@,
        "-dn"@,
        "-c"@,
        "copy"@,
        "-map"@,
        "0"@,
        "-segment_time"@,
        segment_time@,
        "-f"@,
        "segment"@,
        "-reset_timestamps"@,
        "1"@,
        output_pattern@,
    ]);
    r
}

/// The arguments that copy every non-picture stream of `input` into
/// `streams_path`.
pub fn extract_args(input: &str, streams_path: &str) -> (r: Vec<String>)
    ensures
        texts(r@) == seq![
            "-hide_banner"@,
            "-i"@,
            input@,
            "-y"@,
            "-vn"@,
            "-c"@,
            "copy"@,
            streams_path@,
        ],
{
    let mut r: Vec<String> = Vec::new();
    push_str(&mut r, "-hide_banner");
    push_str(&mut r, "-i");
    push_str(&mut r, input);
    push_str(&mut r, "-y");
    push_str(&mut r, "-vn");
    push_str(&mut r, "-c");
    push_str(&mut r, "copy");
    push_str(&mut r, streams_path);
    assert(texts(r@) =~= seq![
        "-hide_banner"@,
        "-i"@,
        input@,
        "-y"@,
        "-vn"@,
        "-c"@,
        "copy"@,
        streams_path@,
    ]);
    r
}

/// A segment file: its name, after the last `/`, has a non-empty stem and
/// the extension `mp4`.
pub open spec fn is_segment(p: Seq<char>) -> bool {
    let n = p.len() as int;
    &&& n >= 5
    &&& p[n - 4] == '.'
    &&& p[n - 3] == 'm'
    &&& p[n - 2] == 'p'
    &&& p[n - 1] == '4'
    &&& p[n - 5] != '/'
}

pub fn is_segment_file(path: &str) -> (r: bool)
    ensures
        r == is_segment(path@),
{
    let n = path.unicode_len();
    if n < 5 {
        return false;
    }
    path.get_char(n - 4) == '.' && path.get_char(n - 3) == 'm' && path.get_char(n - 2) == 'p'
        && path.get_char(n - 1) == '4' && path.get_char(n - 5) != '/'
}

/// The segment files among `paths`, in the order given.
pub fn select_segments(paths: Vec<String>) -> (r: Vec<String>)
    ensures
        texts(r@) == texts(paths@).filter(|p: Seq<char>| is_segment(p)),
{
    let mut r: Vec<String> = Vec::new();
    let mut i: usize = 0;
    while i < paths.len()
        invariant
            i <= paths@.len(),
            texts(r@) == texts(paths@.subrange(0, i as int)).filter(|p: Seq<char>| is_segment(p)),
        decreases paths@.len() - i,
    {
        let keep = is_segment_file(paths[i].as_str());
        let ghost before = r@;
        if keep {
            r.push(paths[i].clone());
        }
        proof {
            let s = texts(paths@.subrange(0, i + 1));
            assert(s.drop_last() =~= texts(paths@.subrange(0, i as int)));
            assert(s.last() == paths@[i as int]@);
            reveal(Seq::filter);
            assert(s.filter(|p: Seq<char>| is_segment(p)) == if is_segment(s.last()) {
                s.drop_last().filter(|p: Seq<char>| is_segment(p)).push(s.last())
            } else {
                s.drop_last().filter(|p: Seq<char>| is_segment(p))
            });
            if keep {
                assert(texts(r@) =~= texts(before).push(paths@[i as int]@));
            }
        }
        i = i + 1;
    }
    proof {
        assert(paths@.subrange(0, i as int) =~= paths@);
    }
    r
}

} // verus!
