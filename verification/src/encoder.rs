//! Encoder invocation templates: the exact, fixed argument lists the tool
//! hands to the external encoder, for a transcode and for a thumbnail
//! extraction. Building the list is pure; spawning the process is the
//! surrounding binary's job.

use vstd::prelude::*;
use vstd::string::StringExecFns;

verus! {

/// Name of the external encoder executable, invoked by name on the path.
pub fn encoder_program() -> (r: String)
    ensures
        r@ == "ffmpeg"@,
{
    String::from_str("ffmpeg")
}

/// The argument list of a transcode invocation: banner suppressed, the
/// input path, the video codec (hardware-accelerated when asked for), a
/// fixed quality preset, constant-rate-factor and video profile, a fixed
/// audio codec and bitrate, and the output path, in this order.
pub open spec fn transcode_args(input: Seq<char>, output: Seq<char>, use_gpu: bool) -> Seq<
    Seq<char>,
> {
    seq![
        "-hide_banner"@,
        "-i"@,
        input,
        "-c:v"@,
        (if use_gpu {
            "h264_nvenc"@
        } else {
            "libx264"@
        }),
        "-preset"@,
        "slow"@,
        "-crf"@,
        "24"@,
        "-profile:v"@,
        "high"@,
        "-c:a"@,
        "aac"@,
        "-b:a"@,
        "128k"@,
        output,
    ]
}

/// The argument list of a thumbnail invocation: the input path, a filter
/// that picks a representative frame and scales it to 1280x720, a single
/// extracted frame, and the output path.
pub open spec fn thumbnail_args(input: Seq<char>, output: Seq<char>) -> Seq<Seq<char>> {
    seq![
        "-i"@,
        input,
        "-vf"@,
        "thumbnail,scale=1280:720"@,
        "-frames:v"@,
        "1"@,
        output,
    ]
}

/// Builds the transcode argument list for the encoder.
pub fn transcode_command_args(input: &str, output: &str, use_gpu: bool) -> (r: Vec<String>)
    ensures
        r.deep_view() == transcode_args(input@, output@, use_gpu),
{
    let mut r: Vec<String> = Vec::new();
    r.push(String::from_str("-hide_banner"));
    r.push(String::from_str("-i"));
    r.push(String::from_str(input));
    r.push(String::from_str("-c:v"));
    if use_gpu {
        r.push(String::from_str("h264_nvenc"));
    } else {
        r.push(String::from_str("libx264"));
    }
    r.push(String::from_str("-preset"));
    r.push(String::from_str("slow"));
    r.push(String::from_str("-crf"));
    r.push(String::from_str("24"));
    r.push(String::from_str("-profile:v"));
    r.push(String::from_str("high"));
    r.push(String::from_str("-c:a"));
    r.push(String::from_str("aac"));
    r.push(String::from_str("-b:a"));
    r.push(String::from_str("128k"));
    r.push(String::from_str(output));
    proof {
        assert(r.deep_view() =~= transcode_args(input@, output@, use_gpu));
    }
    r
}

/// Builds the thumbnail argument list for the encoder.
pub fn thumbnail_command_args(input: &str, output: &str) -> (r: Vec<String>)
    ensures
        r.deep_view() == thumbnail_args(input@, output@),
{
    let mut r: Vec<String> = Vec::new();
    r.push(String::from_str("-i"));
    r.push(String::from_str(input));
    r.push(String::from_str("-vf"));
    r.push(String::from_str("thumbnail,scale=1280:720"));
    r.push(String::from_str("-frames:v"));
    r.push(String::from_str("1"));
    r.push(String::from_str(output));
    proof {
        assert(r.deep_view() =~= thumbnail_args(input@, output@));
    }
    r
}

} // verus!
