//! Reading: some lines of one visible text file.
use vstd::prelude::*;

use crate::encoding::{byte_len, byte_len_of, decode_text, hex_of_bytes, sha256, sha256_hex,
    utf8_text};
use crate::executable::RgOutput;
use crate::failure::{fail, outcome, refusal, Failure, FailureKind, Refusal};
use crate::listing::visibility;
use crate::paths::{nul_separated_paths, path_refusal};
use crate::scan::{lines, lines_of};
use crate::text::{copy, copy_bytes, lemma_texts_push, texts};
use crate::workspace::{reach_refusal, PathProbe, Workspace};

verus! {

/// Lines that one read returns at most.
pub const READ_LINE_LIMIT: usize = 40;

/// Bytes that the lines of one read hold at most.
pub const READ_BYTE_LIMIT: usize = 32768;

/// Bytes of the largest file that is read or patched.
pub const MAX_READ_FILE_BYTES: u64 = 16777216;

/// A request for some lines of one file.
#[derive(Clone, Debug, PartialEq, Eq)]
pub struct ReadInput {
    pub path: String,
    pub start_line: Option<usize>,
    pub end_line: Option<usize>,
}

/// Some lines of one file.
#[derive(Clone, Debug, PartialEq, Eq)]
pub struct ReadOutput {
    pub path: String,
    /// The hash that a patch of this file has to name.
    pub sha256: String,
    /// The one-based number of the first line; the others follow it.
    pub start_line: usize,
    /// The lines as they stand in the file, without their numbers.
    pub lines: Vec<String>,
    pub truncated: bool,
}

/// Some lines of one file over texts.
#[verifier::ext_equal]
pub struct ReadView {
    pub path: Seq<char>,
    pub sha256: Seq<char>,
    pub start_line: usize,
    pub lines: Seq<Seq<char>>,
    pub truncated: bool,
}

impl View for ReadOutput {
    type V = ReadView;

    open spec fn view(&self) -> ReadView {
        ReadView {
            path: self.path@,
            sha256: self.sha256@,
            start_line: self.start_line,
            lines: texts(self.lines@),
            truncated: self.truncated,
        }
    }
}

/// What a look at a file found, and the bytes that were read from it.
#[derive(Debug)]
pub struct FileEvidence {
    pub is_file: bool,
    pub len: u64,
    pub bytes: Vec<u8>,
}

/// Whether a byte occurs among others.
pub fn has_byte(bytes: &[u8], wanted: u8) -> (r: bool)
    ensures
        r == bytes@.contains(wanted),
{
    let mut i: usize = 0;
    while i < bytes.len()
        invariant
            i <= bytes@.len(),
            forall|k: int| 0 <= k < i ==> bytes@[k] != wanted,
        decreases bytes@.len() - i,
    {
        if bytes[i] == wanted {
            return true;
        }
        i = i + 1;
    }
    false
}

/// The refusal of a file that the rules hide.
pub open spec fn hidden_refusal() -> Refusal {
    (
        FailureKind::Hidden,
        "path is ignored, outside the workspace, or not a regular visible file"@,
    )
}

/// Why the bytes behind a path may not even be read, if they may not.
pub open spec fn visible_file_refusal(
    root: Seq<char>,
    path: Seq<char>,
    probes: Seq<PathProbe>,
    output: RgOutput,
    again: Seq<PathProbe>,
) -> Option<Refusal> {
    match visibility(root, path, probes, output) {
        Err(refusal) => Some(refusal),
        Ok(visible) => if !visible {
            Some(hidden_refusal())
        } else {
            reach_refusal(root, path, false, again)
        },
    }
}

/// The bytes that lines hold together, without their endings.
pub open spec fn line_bytes(s: Seq<Seq<char>>) -> nat
    decreases s.len(),
{
    if s.len() == 0 {
        0
    } else {
        line_bytes(s.drop_last()) + byte_len(s.last())
    }
}

/// How many of the first lines hold no more than `limit` bytes, if `n` of them do.
pub open spec fn fitting_lines(s: Seq<Seq<char>>, limit: nat, n: int) -> int
    decreases s.len() - n,
{
    if 0 <= n < s.len() && line_bytes(s.take(n + 1)) <= limit {
        fitting_lines(s, limit, n + 1)
    } else {
        n
    }
}

/// The lines with the one-based numbers from `start` to `end`, as far as there are any.
pub open spec fn line_window(all: Seq<Seq<char>>, start: int, end: int) -> Seq<Seq<char>> {
    let last = if end < all.len() {
        end
    } else {
        all.len() as int
    };
    if last < start {
        Seq::empty()
    } else {
        all.subrange(start - 1, last)
    }
}

/// The number of the first requested line.
pub open spec fn first_line(input: ReadInput) -> int {
    match input.start_line {
        Some(start) => start as int,
        None => 1,
    }
}

/// The number of the last line that a read from `start` on may return.
pub open spec fn last_allowed_line(start: int) -> int {
    if start + READ_LINE_LIMIT - 1 <= usize::MAX {
        start + READ_LINE_LIMIT - 1
    } else {
        usize::MAX as int
    }
}

/// The number of the last requested line.
pub open spec fn last_requested_line(input: ReadInput) -> int {
    match input.end_line {
        Some(end) => end as int,
        None => last_allowed_line(first_line(input)),
    }
}

/// The requested lines of a text. The answer counts as truncated where the limits cut it short:
/// fewer lines than were asked for, or none asked for by number and more there.
pub open spec fn read_lines(input: ReadInput, sha256: Seq<char>, text: Seq<char>) -> ReadView {
    let all = lines(text);
    let start = first_line(input);
    let requested = last_requested_line(input);
    let end = if requested < last_allowed_line(start) {
        requested
    } else {
        last_allowed_line(start)
    };
    let window = line_window(all, start, end);
    let n = fitting_lines(window, READ_BYTE_LIMIT as nat, 0);
    ReadView {
        path: input.path@,
        sha256,
        start_line: start as usize,
        lines: window.take(n),
        truncated: n < window.len() || requested > end || (input.end_line is None && all.len()
            > end),
    }
}

/// What a read of these bytes answers.
pub open spec fn read_result(input: ReadInput, bytes: Seq<u8>) -> Result<ReadView, Refusal> {
    if bytes.contains(0u8) {
        Err((FailureKind::Binary, "binary files are not readable"@))
    } else {
        match utf8_text(bytes) {
            None => Err((FailureKind::NotUtf8, "file is not UTF-8 text"@)),
            Some(text) => if first_line(input) == 0 {
                Err((FailureKind::BadRange, "start_line is one-based"@))
            } else if last_requested_line(input) < first_line(input) {
                Err((FailureKind::BadRange, "end_line must not precede start_line"@))
            } else {
                Ok(read_lines(input, hex_of_bytes(sha256(bytes)), text))
            },
        }
    }
}

/// What a read request answers, given what the file system and ripgrep showed.
pub open spec fn read_answer(
    root: Seq<char>,
    input: ReadInput,
    probes: Seq<PathProbe>,
    output: RgOutput,
    again: Seq<PathProbe>,
    file: FileEvidence,
) -> Result<ReadView, Refusal> {
    match visible_file_refusal(root, input.path@, probes, output, again) {
        Some(refusal) => Err(refusal),
        None => if !file.is_file {
            Err((FailureKind::NotAFile, "read target is not a regular file"@))
        } else if file.len > MAX_READ_FILE_BYTES {
            Err((FailureKind::TooLarge, "read target exceeds the 16 MiB safety limit"@))
        } else {
            read_result(input, file.bytes@)
        },
    }
}

/// The bytes of a file that is to be patched, or why it may not be.
pub open spec fn visible_bytes(
    root: Seq<char>,
    path: Seq<char>,
    probes: Seq<PathProbe>,
    output: RgOutput,
    again: Seq<PathProbe>,
    file: FileEvidence,
) -> Result<Seq<u8>, Refusal> {
    match visible_file_refusal(root, path, probes, output, again) {
        Some(refusal) => Err(refusal),
        None => if !file.is_file {
            Err((FailureKind::NotAFile, "target is not a regular file"@))
        } else if file.len > MAX_READ_FILE_BYTES {
            Err((FailureKind::TooLarge, "target exceeds the 16 MiB safety limit"@))
        } else if file.bytes@.contains(0u8) || utf8_text(file.bytes@) is None {
            Err((FailureKind::Binary, "binary or non-UTF-8 files are forbidden"@))
        } else {
            Ok(file.bytes@)
        },
    }
}

pub(crate) proof fn lemma_fitting_lines(s: Seq<Seq<char>>, limit: nat, n: int)
    requires
        0 <= n <= s.len(),
    ensures
        n <= fitting_lines(s, limit, n) <= s.len(),
        line_bytes(s.take(n)) <= limit ==> line_bytes(s.take(fitting_lines(s, limit, n))) <= limit,
        fitting_lines(s, limit, n) < s.len() ==> line_bytes(
            s.take(fitting_lines(s, limit, n) + 1),
        ) > limit,
    decreases s.len() - n,
{
    if n < s.len() && line_bytes(s.take(n + 1)) <= limit {
        lemma_fitting_lines(s, limit, n + 1);
    }
}

/// The requested lines of a text, whose hash is `sha256`.
fn read_text(input: &ReadInput, sha256: String, text: &str) -> (r: ReadOutput)
    requires
        first_line(*input) > 0,
        last_requested_line(*input) >= first_line(*input),
    ensures
        r@ == read_lines(*input, sha256@, text@),
{
    let all = lines_of(text);
    let ghost views = lines(text@);
    assert(texts(all@) == views);
    assert(views.len() == all@.len());
    let start: usize = match input.start_line {
        Some(start) => start,
        None => 1,
    };
    let allowed: usize = start.saturating_add(READ_LINE_LIMIT - 1);
    let requested: usize = match input.end_line {
        Some(end) => end,
        None => allowed,
    };
    let end: usize = if requested < allowed {
        requested
    } else {
        allowed
    };
    let last: usize = if end < all.len() {
        end
    } else {
        all.len()
    };
    let ghost window = line_window(views, start as int, end as int);
    let mut kept: Vec<String> = Vec::new();
    let mut bytes: usize = 0;
    let mut cut = false;
    let mut i: usize = start - 1;
    assert(texts(kept@) =~= window.take(0));
    while i < last && !cut
        invariant
            views == texts(all@),
            views.len() == all@.len(),
            1 <= start,
            start - 1 <= i,
            i <= last || last < start,
            last <= all@.len(),
            last == (if end < all@.len() { end as int } else { all@.len() as int }),
            window == line_window(views, start as int, end as int),
            texts(kept@) == window.take(i - (start - 1)),
            i > start - 1 ==> last >= start,
            bytes == line_bytes(window.take(i - (start - 1))),
            bytes <= READ_BYTE_LIMIT,
            i - (start - 1) <= window.len(),
            fitting_lines(window, READ_BYTE_LIMIT as nat, 0) == fitting_lines(
                window,
                READ_BYTE_LIMIT as nat,
                i - (start - 1),
            ),
            cut ==> i < last && line_bytes(window.take(i - (start - 1) + 1)) > READ_BYTE_LIMIT,
        decreases last - i, (if cut { 0int } else { 1int }),
    {
        let ghost n = i - (start - 1);
        proof {
            assert(window.len() == last - (start - 1));
            assert(window.take(n + 1).drop_last() =~= window.take(n));
            assert(window.take(n + 1).last() == views[i as int]);
            assert(window.take(n + 1) =~= window.take(n).push(views[i as int]));
        }
        let width: usize = byte_len_of(all[i].as_str());
        if width > READ_BYTE_LIMIT - bytes {
            cut = true;
        } else {
            bytes = bytes + width;
            let line = copy(all[i].as_str());
            proof {
                lemma_texts_push(kept@, line);
            }
            kept.push(line);
            i = i + 1;
        }
    }
    proof {
        if last >= start {
            assert(window.len() == last - (start - 1));
        }
        lemma_fitting_lines(window, READ_BYTE_LIMIT as nat, 0);
    }
    let truncated = cut || requested > end || (input.end_line.is_none() && all.len() > end);
    ReadOutput { path: copy(input.path.as_str()), sha256, start_line: start, lines: kept, truncated }
}

impl Workspace {
    /// Accepts a path for reading before its file is opened.
    pub fn admit_visible_file(
        &self,
        path: &str,
        probes: &[PathProbe],
        output: &RgOutput,
        again: &[PathProbe],
    ) -> (r: Result<(), Failure>)
        ensures
            refusal(r) == visible_file_refusal(self.root@, path@, probes@, *output, again@),
    {
        match self.is_visible_existing(path, probes, output) {
            Err(failure) => return Err(failure),
            Ok(visible) => {
                if !visible {
                    return Err(
                        fail(
                            FailureKind::Hidden,
                            "path is ignored, outside the workspace, or not a regular visible file",
                        ),
                    );
                }
            },
        }
        match self.validate_no_symlink_prefix(path, false, again) {
            Err(failure) => Err(failure),
            Ok(_) => Ok(()),
        }
    }

    /// Reads some lines of a visible text file. `probes` and `output` show that the file is
    /// visible, `again` that no link leads to it, and `file` is what was read.
    pub fn read(
        &self,
        input: &ReadInput,
        probes: &[PathProbe],
        output: &RgOutput,
        again: &[PathProbe],
        file: &FileEvidence,
    ) -> (r: Result<ReadOutput, Failure>)
        ensures
            outcome(r) == read_answer(self.root@, *input, probes@, *output, again@, *file),
    {
        match self.admit_visible_file(input.path.as_str(), probes, output, again) {
            Err(failure) => return Err(failure),
            Ok(()) => {},
        }
        if !file.is_file {
            return Err(fail(FailureKind::NotAFile, "read target is not a regular file"));
        }
        if file.len > MAX_READ_FILE_BYTES {
            return Err(fail(FailureKind::TooLarge, "read target exceeds the 16 MiB safety limit"));
        }
        if has_byte(file.bytes.as_slice(), 0u8) {
            return Err(fail(FailureKind::Binary, "binary files are not readable"));
        }
        let text = match decode_text(file.bytes.as_slice()) {
            None => return Err(fail(FailureKind::NotUtf8, "file is not UTF-8 text")),
            Some(text) => text,
        };
        let start: usize = match input.start_line {
            Some(start) => start,
            None => 1,
        };
        if start == 0 {
            return Err(fail(FailureKind::BadRange, "start_line is one-based"));
        }
        match input.end_line {
            Some(end) => {
                if end < start {
                    return Err(
                        fail(FailureKind::BadRange, "end_line must not precede start_line"),
                    );
                }
            },
            None => {},
        }
        let hash = sha256_hex(file.bytes.as_slice());
        Ok(read_text(input, hash, text.as_str()))
    }

    /// The bytes of a visible text file. `probes` and `output` show that the file is visible,
    /// `again` that no link leads to it, and `file` is what was read.
    pub fn read_visible_bytes(
        &self,
        path: &str,
        probes: &[PathProbe],
        output: &RgOutput,
        again: &[PathProbe],
        file: &FileEvidence,
    ) -> (r: Result<Vec<u8>, Failure>)
        ensures
            outcome(r) == visible_bytes(self.root@, path@, probes@, *output, again@, *file),
    {
        match self.admit_visible_file(path, probes, output, again) {
            Err(failure) => return Err(failure),
            Ok(()) => {},
        }
        if !file.is_file {
            return Err(fail(FailureKind::NotAFile, "target is not a regular file"));
        }
        if file.len > MAX_READ_FILE_BYTES {
            return Err(fail(FailureKind::TooLarge, "target exceeds the 16 MiB safety limit"));
        }
        if has_byte(file.bytes.as_slice(), 0u8) || decode_text(file.bytes.as_slice()).is_none() {
            return Err(fail(FailureKind::Binary, "binary or non-UTF-8 files are forbidden"));
        }
        Ok(copy_bytes(file.bytes.as_slice()))
    }
}

// ---------------------------------------------------------------------------------------------
// Laws
// ---------------------------------------------------------------------------------------------

/// A read returns lines as they stand in the file, without a gap, from the requested one on: at
/// most forty of them and at most 32 KiB. Where the answer does not count as truncated, no
/// requested line is missing, and without a requested end no line of the file is.
pub proof fn reads_are_bounded_and_verbatim(input: ReadInput, sha256: Seq<char>, text: Seq<char>)
    requires
        first_line(input) > 0,
        last_requested_line(input) >= first_line(input),
    ensures
        ({
            let answer = read_lines(input, sha256, text);
            let all = lines(text);
            let start = first_line(input);
            let n = answer.lines.len();
            &&& answer.start_line == start
            &&& n <= READ_LINE_LIMIT
            &&& line_bytes(answer.lines) <= READ_BYTE_LIMIT
            &&& n > 0 ==> start - 1 + n <= all.len()
            &&& forall|i: int| 0 <= i < n ==> #[trigger] answer.lines[i] == all[start - 1 + i]
            &&& !answer.truncated && input.end_line is None && start <= all.len() ==> start - 1 + n
                == all.len()
            &&& !answer.truncated && start <= all.len() ==> start - 1 + n == all.len() || start - 1
                + n == last_requested_line(input)
        }),
{
    let all = lines(text);
    let start = first_line(input);
    let requested = last_requested_line(input);
    let end = if requested < last_allowed_line(start) {
        requested
    } else {
        last_allowed_line(start)
    };
    let window = line_window(all, start, end);
    assert(window.take(0) =~= Seq::empty());
    lemma_fitting_lines(window, READ_BYTE_LIMIT as nat, 0);
    assert(window.take(window.len() as int) =~= window);
}

/// Only a file that the complete listing shows is ever read or patched, and no link leads to it.
pub proof fn only_visible_files_are_opened(
    root: Seq<char>,
    path: Seq<char>,
    probes: Seq<PathProbe>,
    output: RgOutput,
    again: Seq<PathProbe>,
    file: FileEvidence,
)
    requires
        visible_bytes(root, path, probes, output, again, file) is Ok,
    ensures
        path_refusal(path) is None,
        output.success && !output.truncated,
        nul_separated_paths(output.stdout@) matches Ok(listed) && listed.contains(path),
        reach_refusal(root, path, false, again) is None,
        file.is_file,
        file.len <= MAX_READ_FILE_BYTES,
        !file.bytes@.contains(0u8),
        utf8_text(file.bytes@) is Some,
{
}

/// What holds of a file that is patched holds of a file that is read.
pub proof fn only_visible_files_are_read(
    root: Seq<char>,
    input: ReadInput,
    probes: Seq<PathProbe>,
    output: RgOutput,
    again: Seq<PathProbe>,
    file: FileEvidence,
)
    requires
        read_answer(root, input, probes, output, again, file) is Ok,
    ensures
        visible_bytes(root, input.path@, probes, output, again, file) == Ok::<Seq<u8>, Refusal>(
            file.bytes@,
        ),
{
}

} // verus!
