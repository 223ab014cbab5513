//! The audio-to-video tool: its parameters and the report it gives of a run.
//! Running the script is left to the caller.

use crate::text::{extend_str, from_chars, slice_chars, to_chars, trim, trim_chars};
use vstd::prelude::*;

verus! {

/// Seconds a run may take where no timeout is asked for.
pub const DEFAULT_TIMEOUT_SECS: u64 = 3600;

/// Longest timeout that can be asked for, in seconds.
pub const MAX_TIMEOUT_SECS: u64 = 7200;

/// Most bytes of each output stream that are reported.
pub const MAX_OUTPUT_BYTES: usize = 1_048_576;

/// The tool that turns an audio note of the workspace into a video.
#[derive(Debug)]
pub struct AudioToVideoTool {
    workspace_dir: String,
}

impl AudioToVideoTool {
    pub closed spec fn workspace(&self) -> Seq<char> {
        self.workspace_dir@
    }

    pub fn new(workspace_dir: String) -> (r: Self)
        ensures
            r.workspace() == workspace_dir@,
    {
        AudioToVideoTool { workspace_dir }
    }

    pub fn workspace_dir(&self) -> (r: &str)
        ensures
            r@ == self.workspace(),
    {
        self.workspace_dir.as_str()
    }

    pub fn name(&self) -> (r: &'static str)
        ensures
            r@ == "audio_to_video"@,
    {
        "audio_to_video"
    }

    pub fn description(&self) -> (r: &'static str)
        ensures
            r@ == "Run the audio_to_video processor skill on an audio file in workspace. Executes scripts/audio_to_video_skill/slowclaw_audio_to_video_job.py and returns output. Pipeline artifacts are stored under journals/pipeline/audio_to_video and final feed media is published under journals/processed."@,
    {
        "Run the audio_to_video processor skill on an audio file in workspace. Executes scripts/audio_to_video_skill/slowclaw_audio_to_video_job.py and returns output. Pipeline artifacts are stored under journals/pipeline/audio_to_video and final feed media is published under journals/processed."
    }

    /// The script that does the work, relative to the workspace.
    pub fn script_path(&self) -> (r: &'static str)
        ensures
            r@ == "scripts/audio_to_video_skill/slowclaw_audio_to_video_job.py"@,
    {
        "scripts/audio_to_video_skill/slowclaw_audio_to_video_job.py"
    }
}

/// The timeout of a run: what was asked for, brought into
/// `1..=MAX_TIMEOUT_SECS`, or the default.
pub fn timeout_secs(requested: Option<u64>) -> (r: u64)
    ensures
        r == match requested {
            Some(n) => if n < 1 {
                1
            } else if n > MAX_TIMEOUT_SECS {
                MAX_TIMEOUT_SECS
            } else {
                n
            },
            None => DEFAULT_TIMEOUT_SECS,
        },
{
    match requested {
        Some(n) => if n < 1 {
            1
        } else if n > MAX_TIMEOUT_SECS {
            MAX_TIMEOUT_SECS
        } else {
            n
        },
        None => DEFAULT_TIMEOUT_SECS,
    }
}

/// A text parameter as it counts: trimmed, and absent where nothing is left.
pub fn text_argument(value: Option<&str>) -> (r: Option<String>)
    ensures
        match r {
            Some(t) => value matches Some(v) && t@ == trim(v@) && t@.len() > 0,
            None => match value {
                Some(v) => trim(v@).len() == 0,
                None => true,
            },
        },
{
    match value {
        Some(v) => {
            let t = trim_chars(&to_chars(v));
            if t.len() > 0 {
                Some(from_chars(&t))
            } else {
                None
            }
        },
        None => None,
    }
}

/// Bytes that a character takes in UTF-8.
pub open spec fn utf8_width(c: char) -> nat {
    let n = c as u32;
    if n < 0x80 {
        1
    } else if n < 0x800 {
        2
    } else if n < 0x10000 {
        3
    } else {
        4
    }
}

/// Number of leading characters of `s` that fit into `max_bytes` bytes of
/// UTF-8.
pub open spec fn fitting_chars(s: Seq<char>, max_bytes: nat) -> nat
    decreases s.len(),
{
    if s.len() > 0 && utf8_width(s[0]) <= max_bytes {
        1 + fitting_chars(s.drop_first(), (max_bytes - utf8_width(s[0])) as nat)
    } else {
        0
    }
}

/// The longest prefix of `s` that takes at most `max_bytes` bytes of UTF-8.
pub open spec fn utf8_prefix(s: Seq<char>, max_bytes: nat) -> Seq<char> {
    s.take(fitting_chars(s, max_bytes) as int)
}

fn char_width(c: char) -> (r: usize)
    ensures
        r == utf8_width(c),
        1 <= r <= 4,
{
    let n: u32 = c as u32;
    if n < 0x80 {
        1
    } else if n < 0x800 {
        2
    } else if n < 0x10000 {
        3
    } else {
        4
    }
}

fn utf8_prefix_len(chars: &Vec<char>, max_bytes: usize) -> (n: usize)
    ensures
        n == fitting_chars(chars@, max_bytes as nat),
        n <= chars.len(),
{
    let mut i: usize = 0;
    let mut left: usize = max_bytes;
    assert(chars@.skip(0) =~= chars@);
    while i < chars.len()
        invariant
            i <= chars.len(),
            fitting_chars(chars@, max_bytes as nat) == i + fitting_chars(
                chars@.skip(i as int),
                left as nat,
            ),
        decreases chars.len() - i,
    {
        let w = char_width(chars[i]);
        proof {
            assert(chars@.skip(i as int)[0] == chars@[i as int]);
            assert(chars@.skip(i as int).drop_first() =~= chars@.skip(i + 1));
        }
        if w > left {
            return i;
        }
        left = left - w;
        i = i + 1;
    }
    assert(chars@.skip(chars.len() as int) =~= Seq::<char>::empty());
    i
}

/// Cuts `s` down to at most `max_bytes` bytes without splitting a character.
pub fn truncate_utf8_to_max_bytes(s: &mut String, max_bytes: usize)
    ensures
        final(s)@ == utf8_prefix(old(s)@, max_bytes as nat),
{
    let chars = to_chars(s.as_str());
    let n = utf8_prefix_len(&chars, max_bytes);
    if n < chars.len() {
        let kept = slice_chars(&chars, 0, n);
        assert(kept@ == chars@.take(n as int));
        *s = from_chars(&kept);
    } else {
        assert(chars@.take(n as int) =~= chars@);
    }
}

/// An output stream as it is reported: whole if it fits into
/// `MAX_OUTPUT_BYTES`, else cut there and marked.
pub open spec fn capped(output: Seq<char>, stream: Seq<char>) -> Seq<char> {
    if fitting_chars(output, MAX_OUTPUT_BYTES as nat) == output.len() {
        output
    } else {
        utf8_prefix(output, MAX_OUTPUT_BYTES as nat) + "\n... ["@ + stream + " truncated at 1MB]"@
    }
}

pub fn cap_output(output: &str, stream: &str) -> (r: String)
    ensures
        r@ == capped(output@, stream@),
{
    let chars = to_chars(output);
    let n = utf8_prefix_len(&chars, MAX_OUTPUT_BYTES);
    if n == chars.len() {
        from_chars(&chars)
    } else {
        let mut kept = slice_chars(&chars, 0, n);
        assert(kept@ == chars@.take(n as int));
        extend_str(&mut kept, "\n... [");
        extend_str(&mut kept, stream);
        extend_str(&mut kept, " truncated at 1MB]");
        from_chars(&kept)
    }
}

/// The report of a finished run.
pub open spec fn run_report(
    script: Seq<char>,
    audio: Seq<char>,
    status: Seq<char>,
    stdout: Seq<char>,
    stderr: Seq<char>,
) -> Seq<char> {
    "script="@ + script + "\naudio="@ + audio + "\nstatus="@ + status + "\nstdout:\n"@ + trim(
        capped(stdout, "stdout"@),
    ) + "\nstderr:\n"@ + trim(capped(stderr, "stderr"@))
}

pub fn format_run_report(script: &str, audio: &str, status: &str, stdout: &str, stderr: &str) -> (r:
    String)
    ensures
        r@ == run_report(script@, audio@, status@, stdout@, stderr@),
{
    let out_text = cap_output(stdout, "stdout");
    let err_text = cap_output(stderr, "stderr");
    let mut r: Vec<char> = Vec::new();
    extend_str(&mut r, "script=");
    extend_str(&mut r, script);
    extend_str(&mut r, "\naudio=");
    extend_str(&mut r, audio);
    extend_str(&mut r, "\nstatus=");
    extend_str(&mut r, status);
    extend_str(&mut r, "\nstdout:\n");
    let o = trim_chars(&to_chars(out_text.as_str()));
    crate::text::extend_chars(&mut r, &o);
    extend_str(&mut r, "\nstderr:\n");
    let e = trim_chars(&to_chars(err_text.as_str()));
    crate::text::extend_chars(&mut r, &e);
    let text = from_chars(&r);
    assert(text@ =~= run_report(script@, audio@, status@, stdout@, stderr@));
    text
}

/// The error of a finished run: the reported standard error of a run that
/// failed and wrote to it, and nothing otherwise.
pub fn run_error(success: bool, stderr: &str) -> (r: Option<String>)
    ensures
        match r {
            Some(e) => !success && trim(capped(stderr@, "stderr"@)).len() > 0 && e@ == capped(
                stderr@,
                "stderr"@,
            ),
            None => success || trim(capped(stderr@, "stderr"@)).len() == 0,
        },
{
    let err_text = cap_output(stderr, "stderr");
    let trimmed = trim_chars(&to_chars(err_text.as_str()));
    if success || trimmed.len() == 0 {
        None
    } else {
        Some(err_text)
    }
}

} // verus!
