//! Reading files page by page, by lines or by bytes.
use crate::numbers;
use crate::numbers::decimal_text;
use crate::text::joined;
use vstd::prelude::*;
use vstd::string::*;

verus! {

/// How large pages can be.
#[derive(Clone, Copy, Debug, PartialEq, Eq, Structural)]
pub struct PageLimits {
    pub default_bytes: u32,
    pub max_bytes: u32,
    pub default_lines: u32,
    pub max_lines: u32,
    /// How large a message can be.
    pub max_frame: u64,
}

/// The part of a file that is asked for. One that says nothing asks for the
/// whole file.
#[derive(Clone, Copy, Debug, PartialEq, Eq)]
pub struct PageRequest {
    pub offset_line: Option<u32>,
    pub max_lines: Option<u32>,
    pub offset_bytes: Option<u64>,
    pub max_bytes: Option<u32>,
}

impl PageRequest {
    /// Whether lines are asked for.
    pub open spec fn by_lines(self) -> bool {
        self.offset_line is Some || self.max_lines is Some
    }

    /// Whether bytes are asked for.
    pub open spec fn by_bytes(self) -> bool {
        self.offset_bytes is Some || self.max_bytes is Some
    }
}

/// Why a file is not read.
#[derive(Clone, Copy, Debug, PartialEq, Eq, Structural)]
pub enum ReadFileError {
    /// Lines and bytes are asked for at once.
    Combined,
    NoBytes,
    TooManyBytes,
    BeyondEnd,
    ByteChange,
    NoLines,
    TooManyLines,
    LinesTooLong,
    LineChange,
    LinesUncountable,
    WholeTooLarge,
    WholeChange,
}

/// What is said of an error.
pub open spec fn error_text(error: ReadFileError, limits: PageLimits) -> Seq<char> {
    match error {
        ReadFileError::Combined => "line and byte pagination cannot be combined"@,
        ReadFileError::NoBytes => "max_bytes must be at least 1"@,
        ReadFileError::TooManyBytes => "max_bytes exceeds the per-page limit of "@
            + numbers::digits_of(limits.max_bytes as nat),
        ReadFileError::BeyondEnd => "offset_bytes is beyond the end of the file"@,
        ReadFileError::ByteChange => "file changed while reading byte page"@,
        ReadFileError::NoLines => "max_lines must be at least 1"@,
        ReadFileError::TooManyLines => "max_lines exceeds the per-page limit of "@
            + numbers::digits_of(limits.max_lines as nat),
        ReadFileError::LinesTooLong => "requested line page exceeds the byte limit of "@
            + numbers::digits_of(limits.max_bytes as nat) + "; use byte pagination"@,
        ReadFileError::LineChange => "file changed while reading line page"@,
        ReadFileError::LinesUncountable => "file has more than "@ + numbers::digits_of(
            u32::MAX as nat,
        ) + " logical lines"@,
        ReadFileError::WholeTooLarge =>
            "legacy full-file request exceeds the frame limit; use pagination"@,
        ReadFileError::WholeChange => "file changed while reading legacy response"@,
    }
}

impl ReadFileError {
    /// Says why a file is not read.
    pub fn message(&self, limits: &PageLimits) -> (message: String)
        ensures
            message@ == error_text(*self, *limits),
    {
        match self {
            ReadFileError::Combined => "line and byte pagination cannot be combined".to_owned(),
            ReadFileError::NoBytes => "max_bytes must be at least 1".to_owned(),
            ReadFileError::TooManyBytes => joined(
                "max_bytes exceeds the per-page limit of ",
                decimal_text(limits.max_bytes as u64).as_str(),
            ),
            ReadFileError::BeyondEnd => "offset_bytes is beyond the end of the file".to_owned(),
            ReadFileError::ByteChange => "file changed while reading byte page".to_owned(),
            ReadFileError::NoLines => "max_lines must be at least 1".to_owned(),
            ReadFileError::TooManyLines => joined(
                "max_lines exceeds the per-page limit of ",
                decimal_text(limits.max_lines as u64).as_str(),
            ),
            ReadFileError::LinesTooLong => {
                let head: String = joined(
                    "requested line page exceeds the byte limit of ",
                    decimal_text(limits.max_bytes as u64).as_str(),
                );
                joined(head.as_str(), "; use byte pagination")
            },
            ReadFileError::LineChange => "file changed while reading line page".to_owned(),
            ReadFileError::LinesUncountable => {
                let head: String = joined(
                    "file has more than ",
                    decimal_text(u32::MAX as u64).as_str(),
                );
                joined(head.as_str(), " logical lines")
            },
            ReadFileError::WholeTooLarge =>
                "legacy full-file request exceeds the frame limit; use pagination".to_owned(),
            ReadFileError::WholeChange => "file changed while reading legacy response".to_owned(),
        }
    }
}

/// A part of a file.
#[derive(Debug)]
pub struct FilePage {
    pub content: Vec<u8>,
    pub is_binary: bool,
    pub offset_line: u32,
    pub next_offset_line: Option<u32>,
    pub total_lines: u32,
    pub offset_bytes: u64,
    pub next_offset_bytes: Option<u64>,
    pub total_bytes: u64,
}

/// A part of a file.
#[verifier::ext_equal]
pub struct PageModel {
    pub content: Seq<u8>,
    pub is_binary: bool,
    pub offset_line: u32,
    pub next_offset_line: Option<u32>,
    pub total_lines: u32,
    pub offset_bytes: u64,
    pub next_offset_bytes: Option<u64>,
    pub total_bytes: u64,
}

impl View for FilePage {
    type V = PageModel;

    open spec fn view(&self) -> PageModel {
        PageModel {
            content: self.content@,
            is_binary: self.is_binary,
            offset_line: self.offset_line,
            next_offset_line: self.next_offset_line,
            total_lines: self.total_lines,
            offset_bytes: self.offset_bytes,
            next_offset_bytes: self.next_offset_bytes,
            total_bytes: self.total_bytes,
        }
    }
}

impl FilePage {
    /// How the bytes are to be read.
    pub fn encoding(&self) -> (encoding: String)
        ensures
            encoding@ == if self.is_binary {
                "binary"@
            } else {
                "utf-8"@
            },
    {
        if self.is_binary {
            "binary".to_owned()
        } else {
            "utf-8".to_owned()
        }
    }
}

/// How many bytes are looked at to tell programs from texts.
pub const SNIFFED_BYTES: usize = 8192;

/// How many bytes of them are counted.
pub const COUNTED_BYTES: usize = 512;

/// How often a byte occurs.
pub open spec fn count_of(bytes: Seq<u8>, byte: u8) -> nat
    decreases bytes.len(),
{
    if bytes.len() == 0 {
        0
    } else {
        count_of(bytes.drop_last(), byte) + if bytes.last() == byte {
            1nat
        } else {
            0
        }
    }
}

/// Whether bytes begin with others.
pub open spec fn starts_with(bytes: Seq<u8>, start: Seq<u8>) -> bool {
    bytes.len() >= start.len() && bytes.take(start.len() as int) == start
}

/// The first bytes of a list.
pub open spec fn head(bytes: Seq<u8>, count: int) -> Seq<u8> {
    if bytes.len() <= count {
        bytes
    } else {
        bytes.take(count)
    }
}

/// Whether bytes are no text: programs are known by their first bytes, and
/// more than a tenth of zeros is no text either.
pub open spec fn looks_binary(bytes: Seq<u8>) -> bool {
    let counted = head(bytes, COUNTED_BYTES as int);
    ||| starts_with(bytes, seq![0x7fu8, 0x45, 0x4c, 0x46])
    ||| starts_with(bytes, seq![0xfeu8, 0xed, 0xfa, 0xce])
    ||| starts_with(bytes, seq![0x4du8, 0x5a])
    ||| count_of(counted, 0) * 10 > counted.len()
}

proof fn lemma_count(bytes: Seq<u8>, byte: u8)
    ensures
        count_of(bytes, byte) <= bytes.len(),
    decreases bytes.len(),
{
    if bytes.len() > 0 {
        lemma_count(bytes.drop_last(), byte);
    }
}

/// Tells programs from texts.
pub fn detect_binary(bytes: &[u8]) -> (binary: bool)
    ensures
        binary == looks_binary(bytes@),
{
    if bytes.len() >= 4 {
        assert(bytes@.take(4) =~= seq![bytes@[0], bytes@[1], bytes@[2], bytes@[3]]);
        if bytes[0] == 0x7f && bytes[1] == 0x45 && bytes[2] == 0x4c && bytes[3] == 0x46 {
            return true;
        }
        if bytes[0] == 0xfe && bytes[1] == 0xed && bytes[2] == 0xfa && bytes[3] == 0xce {
            return true;
        }
        proof {
            let elf = seq![0x7fu8, 0x45, 0x4c, 0x46];
            let macho = seq![0xfeu8, 0xed, 0xfa, 0xce];
            if bytes@.take(4) == elf {
                assert(bytes@.take(4)[0] == elf[0] && bytes@.take(4)[1] == elf[1] && bytes@.take(
                    4,
                )[2] == elf[2] && bytes@.take(4)[3] == elf[3]);
            }
            if bytes@.take(4) == macho {
                assert(bytes@.take(4)[0] == macho[0] && bytes@.take(4)[1] == macho[1]
                    && bytes@.take(4)[2] == macho[2] && bytes@.take(4)[3] == macho[3]);
            }
        }
    }
    if bytes.len() >= 2 {
        assert(bytes@.take(2) =~= seq![bytes@[0], bytes@[1]]);
        if bytes[0] == 0x4d && bytes[1] == 0x5a {
            return true;
        }
        proof {
            let pe = seq![0x4du8, 0x5a];
            if bytes@.take(2) == pe {
                assert(bytes@.take(2)[0] == pe[0] && bytes@.take(2)[1] == pe[1]);
            }
        }
    }
    let length: usize = if bytes.len() < COUNTED_BYTES {
        bytes.len()
    } else {
        COUNTED_BYTES
    };
    let ghost counted = head(bytes@, COUNTED_BYTES as int);
    assert(counted =~= bytes@.take(length as int));
    let mut zeros: usize = 0;
    let mut i: usize = 0;
    assert(counted.take(0) =~= Seq::<u8>::empty());
    while i < length
        invariant
            i <= length,
            length <= COUNTED_BYTES,
            length <= bytes@.len(),
            counted == bytes@.take(length as int),
            zeros <= i,
            zeros == count_of(counted.take(i as int), 0),
        decreases length - i,
    {
        proof {
            assert(counted.take(i + 1).drop_last() =~= counted.take(i as int));
            assert(counted.take(i + 1).last() == bytes@[i as int]);
        }
        if bytes[i] == 0 {
            zeros = zeros + 1;
        }
        i = i + 1;
    }
    assert(counted.take(i as int) =~= counted);
    zeros * 10 > length
}

/// What is to be read of a file.
#[derive(Clone, Copy, Debug, PartialEq, Eq, Structural)]
pub enum ReadPlan {
    /// So many bytes from a place on.
    Bytes { start: u64, count: u64 },
    /// So many lines from a line on.
    Lines { offset: u32, max: u32 },
    /// All of it.
    Whole,
}

/// A number that was asked for, or the usual one.
pub open spec fn asked_or(asked: Option<u32>, usual: u32) -> u32 {
    match asked {
        Some(n) => n,
        None => usual,
    }
}

/// What is to be read of a file of a size.
pub open spec fn planned(request: PageRequest, limits: PageLimits, total: u64) -> Result<
    ReadPlan,
    ReadFileError,
> {
    if request.by_lines() && request.by_bytes() {
        Err(ReadFileError::Combined)
    } else if request.by_bytes() {
        let max = asked_or(request.max_bytes, limits.default_bytes);
        let start = match request.offset_bytes {
            Some(offset) => offset,
            None => 0,
        };
        if max == 0 {
            Err(ReadFileError::NoBytes)
        } else if max > limits.max_bytes {
            Err(ReadFileError::TooManyBytes)
        } else if start > total {
            Err(ReadFileError::BeyondEnd)
        } else {
            Ok(
                ReadPlan::Bytes {
                    start,
                    count: if total - start < max {
                        (total - start) as u64
                    } else {
                        max as u64
                    },
                },
            )
        }
    } else if request.by_lines() {
        let max = asked_or(request.max_lines, limits.default_lines);
        if max == 0 {
            Err(ReadFileError::NoLines)
        } else if max > limits.max_lines {
            Err(ReadFileError::TooManyLines)
        } else {
            Ok(ReadPlan::Lines { offset: asked_or(request.offset_line, 0), max })
        }
    } else if total >= limits.max_frame {
        Err(ReadFileError::WholeTooLarge)
    } else {
        Ok(ReadPlan::Whole)
    }
}

/// Decides what is to be read of a file of a size.
pub fn plan_read(request: &PageRequest, limits: &PageLimits, total_bytes: u64) -> (plan: Result<
    ReadPlan,
    ReadFileError,
>)
    ensures
        plan == planned(*request, *limits, total_bytes),
{
    let by_lines: bool = request.offset_line.is_some() || request.max_lines.is_some();
    let by_bytes: bool = request.offset_bytes.is_some() || request.max_bytes.is_some();
    if by_lines && by_bytes {
        return Err(ReadFileError::Combined);
    }
    if by_bytes {
        let max: u32 = match request.max_bytes {
            Some(n) => n,
            None => limits.default_bytes,
        };
        if max == 0 {
            return Err(ReadFileError::NoBytes);
        }
        if max > limits.max_bytes {
            return Err(ReadFileError::TooManyBytes);
        }
        let start: u64 = match request.offset_bytes {
            Some(offset) => offset,
            None => 0,
        };
        if start > total_bytes {
            return Err(ReadFileError::BeyondEnd);
        }
        let left: u64 = total_bytes - start;
        return Ok(
            ReadPlan::Bytes {
                start,
                count: if left < max as u64 {
                    left
                } else {
                    max as u64
                },
            },
        );
    }
    if by_lines {
        let max: u32 = match request.max_lines {
            Some(n) => n,
            None => limits.default_lines,
        };
        if max == 0 {
            return Err(ReadFileError::NoLines);
        }
        if max > limits.max_lines {
            return Err(ReadFileError::TooManyLines);
        }
        let offset: u32 = match request.offset_line {
            Some(n) => n,
            None => 0,
        };
        return Ok(ReadPlan::Lines { offset, max });
    }
    if total_bytes >= limits.max_frame {
        return Err(ReadFileError::WholeTooLarge);
    }
    Ok(ReadPlan::Whole)
}

/// A page of bytes, out of those that were read.
pub open spec fn byte_page_model(
    start: u64,
    count: u64,
    total: u64,
    content: Seq<u8>,
    is_binary: bool,
) -> Result<PageModel, ReadFileError> {
    if content.len() != count {
        Err(ReadFileError::ByteChange)
    } else {
        Ok(
            PageModel {
                content,
                is_binary,
                offset_line: 0,
                next_offset_line: None,
                total_lines: 0,
                offset_bytes: start,
                next_offset_bytes: if start + count < total {
                    Some((start + count) as u64)
                } else {
                    None
                },
                total_bytes: total,
            },
        )
    }
}

/// What a result holds.
pub open spec fn page_result(result: Result<FilePage, ReadFileError>) -> Result<
    PageModel,
    ReadFileError,
> {
    match result {
        Ok(page) => Ok(page@),
        Err(e) => Err(e),
    }
}

/// Makes a page of the bytes that were read.
pub fn byte_page(start: u64, count: u64, total_bytes: u64, content: Vec<u8>, is_binary: bool) -> (result:
    Result<FilePage, ReadFileError>)
    requires
        start + count <= total_bytes,
    ensures
        page_result(result) == byte_page_model(start, count, total_bytes, content@, is_binary),
{
    if content.len() as u64 != count {
        return Err(ReadFileError::ByteChange);
    }
    let end: u64 = start + count;
    Ok(
        FilePage {
            content,
            is_binary,
            offset_line: 0,
            next_offset_line: None,
            total_lines: 0,
            offset_bytes: start,
            next_offset_bytes: if end < total_bytes {
                Some(end)
            } else {
                None
            },
            total_bytes,
        },
    )
}

/// The line feed.
pub const LINE_FEED: u8 = 0x0a;

/// The bytes of a file that are on the lines from one up to another one, which
/// is not among them.
pub open spec fn lines_between(file: Seq<u8>, from: int, to: int) -> Seq<u8>
    decreases file.len(),
{
    if file.len() == 0 {
        Seq::empty()
    } else {
        let before = lines_between(file.drop_last(), from, to);
        if from <= count_of(file.drop_last(), LINE_FEED) < to {
            before.push(file.last())
        } else {
            before
        }
    }
}

/// Where a line begins, or the end of the file where it has no such line.
pub open spec fn line_start(file: Seq<u8>, line: int) -> int
    decreases file.len(),
{
    if file.len() == 0 {
        0
    } else {
        let before = line_start(file.drop_last(), line);
        if before < file.len() - 1 || count_of(file.drop_last(), LINE_FEED) == line {
            before
        } else {
            file.len() as int
        }
    }
}

/// The number of lines, the last one counted though it does not end.
pub open spec fn line_count(file: Seq<u8>) -> nat {
    count_of(file, LINE_FEED) + if file.len() > 0 && file.last() != LINE_FEED {
        1nat
    } else {
        0
    }
}

/// Reads lines out of a file as its bytes go by.
pub struct LinePager {
    offset: u64,
    end: u64,
    max_bytes: usize,
    current_line: u64,
    absolute: u64,
    page_start: Option<u64>,
    content: Vec<u8>,
    last_byte: Option<u8>,
    too_long: bool,
    seen: Ghost<Seq<u8>>,
}

/// What a reader of lines has seen and what it is to keep of it.
pub struct PagerModel {
    pub offset: int,
    pub end: int,
    pub max_bytes: int,
    pub seen: Seq<u8>,
}

impl View for LinePager {
    type V = PagerModel;

    closed spec fn view(&self) -> PagerModel {
        PagerModel {
            offset: self.offset as int,
            end: self.end as int,
            max_bytes: self.max_bytes as int,
            seen: self.seen@,
        }
    }
}

impl LinePager {
    /// Whether the reader is where it is to be after the bytes that it saw.
    pub closed spec fn wf(&self) -> bool {
        let seen = self.seen@;
        &&& self.offset <= u32::MAX
        &&& self.offset <= self.end
        &&& self.end - self.offset <= u32::MAX
        &&& seen.len() <= u64::MAX
        &&& self.absolute == seen.len()
        &&& self.current_line == count_of(seen, LINE_FEED)
        &&& self.last_byte == if seen.len() > 0 {
            Some(seen.last())
        } else {
            None
        }
        &&& self.too_long == (lines_between(seen, self.offset as int, self.end as int).len()
            > self.max_bytes)
        &&& !self.too_long ==> self.content@ == lines_between(
            seen,
            self.offset as int,
            self.end as int,
        )
        &&& self.too_long ==> self.content@.len() == self.max_bytes
        &&& self.page_start == if line_start(seen, self.offset as int) < seen.len() {
            Some(line_start(seen, self.offset as int) as u64)
        } else {
            None
        }
    }

    /// A reader that has seen nothing yet.
    pub fn new(offset_line: u32, max_lines: u32, max_bytes: u32) -> (pager: LinePager)
        ensures
            pager.wf(),
            pager@ == (PagerModel {
                offset: offset_line as int,
                end: offset_line + max_lines,
                max_bytes: max_bytes as int,
                seen: Seq::empty(),
            }),
    {
        LinePager {
            offset: offset_line as u64,
            end: offset_line as u64 + max_lines as u64,
            max_bytes: max_bytes as usize,
            current_line: 0,
            absolute: 0,
            page_start: None,
            content: Vec::new(),
            last_byte: None,
            too_long: false,
            seen: Ghost(Seq::empty()),
        }
    }

    fn see(&mut self, byte: u8)
        requires
            old(self).wf(),
            old(self)@.seen.len() < u64::MAX,
        ensures
            final(self).wf(),
            final(self)@ == (PagerModel { seen: old(self)@.seen.push(byte), ..old(self)@ }),
    {
        let ghost seen = self.seen@;
        let ghost now = seen.push(byte);
        let ghost offset = self.offset as int;
        proof {
            assert(now.drop_last() =~= seen);
            lemma_count(seen, LINE_FEED);
            lemma_lines_between_length(seen, offset, self.end as int);
            lemma_line_start_bounds(seen, offset);
        }
        if self.current_line == self.offset && self.page_start.is_none() {
            self.page_start = Some(self.absolute);
        }
        if self.current_line >= self.offset && self.current_line < self.end {
            if self.content.len() < self.max_bytes {
                self.content.push(byte);
            } else {
                self.too_long = true;
            }
        }
        self.last_byte = Some(byte);
        self.absolute = self.absolute + 1;
        if byte == LINE_FEED {
            self.current_line = self.current_line + 1;
        }
        self.seen = Ghost(now);
    }

    /// Takes bytes in, and says whether it goes on: the lines must not grow too
    /// long.
    pub fn feed(&mut self, bytes: &[u8]) -> (result: Result<(), ReadFileError>)
        requires
            old(self).wf(),
            old(self)@.seen.len() + bytes@.len() <= u64::MAX,
        ensures
            final(self).wf(),
            final(self)@ == (PagerModel { seen: old(self)@.seen + bytes@, ..old(self)@ }),
            result == if lines_between(
                final(self)@.seen,
                final(self)@.offset,
                final(self)@.end,
            ).len() > final(self)@.max_bytes {
                Err::<(), ReadFileError>(ReadFileError::LinesTooLong)
            } else {
                Ok(())
            },
    {
        let ghost start = self@;
        let mut i: usize = 0;
        assert(start.seen + bytes@.take(0) =~= start.seen);
        while i < bytes.len()
            invariant
                i <= bytes@.len(),
                start.seen.len() + bytes@.len() <= u64::MAX,
                self.wf(),
                self@ == (PagerModel { seen: start.seen + bytes@.take(i as int), ..start }),
            decreases bytes.len() - i,
        {
            self.see(bytes[i]);
            assert((start.seen + bytes@.take(i as int)).push(bytes@[i as int]) =~= start.seen
                + bytes@.take(i + 1));
            i = i + 1;
        }
        assert(bytes@.take(i as int) =~= bytes@);
        if self.too_long {
            Err(ReadFileError::LinesTooLong)
        } else {
            Ok(())
        }
    }

    /// Makes a page of what was seen.
    pub fn finish(self, expected_bytes: u64, is_binary: bool) -> (result: Result<
        FilePage,
        ReadFileError,
    >)
        requires
            self.wf(),
        ensures
            page_result(result) == line_page_model(
                self@.seen,
                self@.offset,
                self@.end - self@.offset,
                expected_bytes,
                self@.max_bytes,
                is_binary,
            ),
    {
        proof {
            lemma_count(self.seen@, LINE_FEED);
            lemma_line_start_bounds(self.seen@, self.offset as int);
        }
        if self.too_long {
            return Err(ReadFileError::LinesTooLong);
        }
        if self.absolute != expected_bytes {
            return Err(ReadFileError::LineChange);
        }
        let open_line: u64 = match self.last_byte {
            Some(byte) => if byte != LINE_FEED {
                1
            } else {
                0
            },
            None => 0,
        };
        if self.current_line > u32::MAX as u64 || open_line > u32::MAX as u64 - self.current_line {
            return Err(ReadFileError::LinesUncountable);
        }
        let total_lines: u32 = (self.current_line + open_line) as u32;
        let offset_line: u32 = self.offset as u32;
        let max_lines: u32 = (self.end - self.offset) as u32;
        let left: u32 = total_lines.saturating_sub(offset_line);
        let returned: u32 = if max_lines < left {
            max_lines
        } else {
            left
        };
        let next: u32 = offset_line.saturating_add(returned);
        Ok(
            FilePage {
                content: self.content,
                is_binary,
                offset_line,
                next_offset_line: if next < total_lines {
                    Some(next)
                } else {
                    None
                },
                total_lines,
                offset_bytes: match self.page_start {
                    Some(start) => start,
                    None => expected_bytes,
                },
                next_offset_bytes: None,
                total_bytes: expected_bytes,
            },
        )
    }
}

proof fn lemma_lines_between_length(file: Seq<u8>, from: int, to: int)
    ensures
        lines_between(file, from, to).len() <= file.len(),
    decreases file.len(),
{
    if file.len() > 0 {
        lemma_lines_between_length(file.drop_last(), from, to);
    }
}

proof fn lemma_line_start_bounds(file: Seq<u8>, line: int)
    ensures
        0 <= line_start(file, line) <= file.len(),
    decreases file.len(),
{
    if file.len() > 0 {
        lemma_line_start_bounds(file.drop_last(), line);
    }
}

/// A page of lines of a file that should have a size.
pub open spec fn line_page_model(
    file: Seq<u8>,
    offset: int,
    max: int,
    expected: u64,
    max_bytes: int,
    is_binary: bool,
) -> Result<PageModel, ReadFileError> {
    let content = lines_between(file, offset, offset + max);
    let total = line_count(file) as int;
    if content.len() > max_bytes {
        Err(ReadFileError::LinesTooLong)
    } else if file.len() != expected {
        Err(ReadFileError::LineChange)
    } else if total > u32::MAX {
        Err(ReadFileError::LinesUncountable)
    } else {
        Ok(
            PageModel {
                content,
                is_binary,
                offset_line: offset as u32,
                next_offset_line: if offset + max < total {
                    Some((offset + max) as u32)
                } else {
                    None
                },
                total_lines: total as u32,
                offset_bytes: line_start(file, offset) as u64,
                next_offset_bytes: None,
                total_bytes: expected,
            },
        )
    }
}

/// A whole file that should have a size, out of what was read of it.
pub open spec fn whole_file_model(content: Seq<u8>, total: u64, is_binary: bool) -> Result<
    PageModel,
    ReadFileError,
> {
    if content.len() != total {
        Err(ReadFileError::WholeChange)
    } else {
        Ok(
            PageModel {
                content,
                is_binary,
                offset_line: 0,
                next_offset_line: None,
                total_lines: if line_count(content) <= u32::MAX {
                    line_count(content) as u32
                } else {
                    u32::MAX
                },
                offset_bytes: 0,
                next_offset_bytes: None,
                total_bytes: total,
            },
        )
    }
}

/// Counts lines, the last one though it does not end.
pub fn logical_line_count(bytes: &[u8]) -> (count: u64)
    ensures
        count == line_count(bytes@),
{
    let mut feeds: u64 = 0;
    let mut i: usize = 0;
    assert(bytes@.take(0) =~= Seq::<u8>::empty());
    while i < bytes.len()
        invariant
            i <= bytes@.len(),
            feeds <= i,
            feeds == count_of(bytes@.take(i as int), LINE_FEED),
            i < bytes@.len() || bytes@.len() == 0 || feeds < i || bytes@.last() == LINE_FEED,
        decreases bytes.len() - i,
    {
        proof {
            assert(bytes@.take(i + 1).drop_last() =~= bytes@.take(i as int));
            assert(bytes@.take(i + 1).last() == bytes@[i as int]);
        }
        if bytes[i] == LINE_FEED {
            feeds = feeds + 1;
        }
        i = i + 1;
    }
    assert(bytes@.take(i as int) =~= bytes@);
    if bytes.len() > 0 && bytes[bytes.len() - 1] != LINE_FEED {
        feeds + 1
    } else {
        feeds
    }
}

/// Makes a page of a whole file that was read.
pub fn whole_file(content: Vec<u8>, total_bytes: u64, is_binary: bool) -> (result: Result<
    FilePage,
    ReadFileError,
>)
    ensures
        page_result(result) == whole_file_model(content@, total_bytes, is_binary),
{
    if content.len() as u64 != total_bytes {
        return Err(ReadFileError::WholeChange);
    }
    let lines: u64 = logical_line_count(content.as_slice());
    let total_lines: u32 = if lines <= u32::MAX as u64 {
        lines as u32
    } else {
        u32::MAX
    };
    Ok(
        FilePage {
            content,
            is_binary,
            offset_line: 0,
            next_offset_line: None,
            total_lines,
            offset_bytes: 0,
            next_offset_bytes: None,
            total_bytes,
        },
    )
}

/// The bytes of a file from a place on, as many as there are up to a number.
pub open spec fn part_of(file: Seq<u8>, start: int, count: int) -> Seq<u8> {
    let from = if start < file.len() {
        start
    } else {
        file.len() as int
    };
    let to = if from + count < file.len() {
        from + count
    } else {
        file.len() as int
    };
    file.subrange(from, to)
}

/// The part of a file that is asked for; the file should have a size.
pub open spec fn page_of(
    request: PageRequest,
    limits: PageLimits,
    file: Seq<u8>,
    total: u64,
) -> Result<PageModel, ReadFileError> {
    let is_binary = looks_binary(head(file, SNIFFED_BYTES as int));
    match planned(request, limits, total) {
        Err(e) => Err(e),
        Ok(ReadPlan::Bytes { start, count }) => byte_page_model(
            start,
            count,
            total,
            part_of(file, start as int, count as int),
            is_binary,
        ),
        Ok(ReadPlan::Lines { offset, max }) => line_page_model(
            file,
            offset as int,
            max as int,
            total,
            limits.max_bytes as int,
            is_binary,
        ),
        Ok(ReadPlan::Whole) => whole_file_model(
            part_of(file, 0, limits.max_frame as int),
            total,
            is_binary,
        ),
    }
}

fn copy_part(file: &Vec<u8>, start: u64, count: u64) -> (part: Vec<u8>)
    ensures
        part@ == part_of(file@, start as int, count as int),
{
    let length: u64 = file.len() as u64;
    let from: u64 = if start < length {
        start
    } else {
        length
    };
    let to: u64 = if count < length - from {
        from + count
    } else {
        length
    };
    let mut part: Vec<u8> = Vec::new();
    let mut i: usize = from as usize;
    while i < to as usize
        invariant
            from <= i <= to,
            to <= file@.len(),
            part@ == file@.subrange(from as int, i as int),
        decreases to - i,
    {
        part.push(file[i]);
        assert(file@.subrange(from as int, i + 1) =~= file@.subrange(from as int, i as int).push(
            file@[i as int],
        ));
        i = i + 1;
    }
    part
}

/// Reads the part of a file that is asked for; the file should have a size.
pub fn read_file_response(
    request: &PageRequest,
    limits: &PageLimits,
    file: &Vec<u8>,
    total_bytes: u64,
) -> (result: Result<FilePage, ReadFileError>)
    ensures
        page_result(result) == page_of(*request, *limits, file@, total_bytes),
{
    let plan: ReadPlan = match plan_read(request, limits, total_bytes) {
        Ok(plan) => plan,
        Err(e) => {
            return Err(e);
        },
    };
    let prefix: Vec<u8> = copy_part(file, 0, SNIFFED_BYTES as u64);
    proof {
        assert(prefix@ =~= head(file@, SNIFFED_BYTES as int));
    }
    let is_binary: bool = detect_binary(prefix.as_slice());
    match plan {
        ReadPlan::Bytes { start, count } => byte_page(
            start,
            count,
            total_bytes,
            copy_part(file, start, count),
            is_binary,
        ),
        ReadPlan::Lines { offset, max } => {
            let mut pager: LinePager = LinePager::new(offset, max, limits.max_bytes);
            assert(Seq::<u8>::empty() + file@ =~= file@);
            assert(file@.len() == file.len());
            match pager.feed(file.as_slice()) {
                Ok(_) => pager.finish(total_bytes, is_binary),
                Err(e) => Err(e),
            }
        },
        ReadPlan::Whole => whole_file(
            copy_part(file, 0, limits.max_frame),
            total_bytes,
            is_binary,
        ),
    }
}

proof fn lemma_lines_between_split(file: Seq<u8>, a: int, b: int, c: int)
    requires
        a <= b <= c,
    ensures
        lines_between(file, a, c) == lines_between(file, a, b) + lines_between(file, b, c),
        count_of(file, LINE_FEED) < b ==> lines_between(file, b, c).len() == 0,
    decreases file.len(),
{
    if file.len() > 0 {
        lemma_lines_between_split(file.drop_last(), a, b, c);
        let n = count_of(file.drop_last(), LINE_FEED);
        let init = file.drop_last();
        if b <= n {
            assert(lines_between(file, a, b) == lines_between(init, a, b));
        } else {
            assert(lines_between(init, b, c).len() == 0);
        }
        assert(lines_between(file, a, c) =~= lines_between(file, a, b) + lines_between(
            file,
            b,
            c,
        ));
    } else {
        assert(lines_between(file, a, c) =~= lines_between(file, a, b) + lines_between(
            file,
            b,
            c,
        ));
    }
}

/// Pages of lines that follow one another make up the lines that one page over
/// all of them has.
pub proof fn law_line_pages_follow_one_another(file: Seq<u8>, offset: int, first: int, second: int)
    requires
        0 <= first,
        0 <= second,
    ensures
        lines_between(file, offset, offset + first) + lines_between(
            file,
            offset + first,
            offset + first + second,
        ) == lines_between(file, offset, offset + first + second),
{
    lemma_lines_between_split(file, offset, offset + first, offset + first + second);
}

/// A page over all lines is the file.
pub proof fn law_all_lines_are_the_file(file: Seq<u8>, lines: int)
    requires
        line_count(file) <= lines,
    ensures
        lines_between(file, 0, lines) == file,
    decreases file.len(),
{
    if file.len() > 0 {
        let init = file.drop_last();
        assert(line_count(init) <= lines) by {
            assert(count_of(file, LINE_FEED) >= count_of(init, LINE_FEED));
        }
        law_all_lines_are_the_file(init, lines);
        assert(count_of(init, LINE_FEED) < lines);
        assert(lines_between(file, 0, lines) =~= file);
    }
}

/// A page of lines lies in one piece where it is said to begin.
pub proof fn law_line_page_lies_at_its_offset(file: Seq<u8>, offset: int, max: int)
    requires
        0 <= offset,
        0 < max,
    ensures
        ({
            let page = lines_between(file, offset, offset + max);
            let start = line_start(file, offset);
            0 <= start && start + page.len() <= file.len() && page == file.subrange(
                start,
                start + page.len(),
            )
        }),
    decreases file.len(),
{
    if file.len() > 0 {
        let init = file.drop_last();
        law_line_page_lies_at_its_offset(init, offset, max);
        lemma_page_reaches_the_end(init, offset, max);
        let page = lines_between(file, offset, offset + max);
        let start = line_start(file, offset);
        let before = lines_between(init, offset, offset + max);
        assert(init.subrange(line_start(init, offset), line_start(init, offset) + before.len())
            =~= file.subrange(line_start(init, offset), line_start(init, offset) + before.len()));
        assert(page =~= file.subrange(start, start + page.len()));
    } else {
        assert(lines_between(file, offset, offset + max) =~= file.subrange(0, 0));
    }
}

/// As long as the lines of a page are not over, it reaches up to the end.
proof fn lemma_page_reaches_the_end(file: Seq<u8>, offset: int, max: int)
    requires
        0 <= offset,
        0 < max,
    ensures
        ({
            let page = lines_between(file, offset, offset + max);
            let start = line_start(file, offset);
            let n = count_of(file, LINE_FEED);
            &&& n < offset ==> start == file.len() && page.len() == 0
            &&& n == offset && start == file.len() ==> page.len() == 0
            &&& offset <= n < offset + max ==> start + page.len() == file.len()
            &&& offset < n ==> start < file.len()
        }),
    decreases file.len(),
{
    if file.len() > 0 {
        lemma_page_reaches_the_end(file.drop_last(), offset, max);
        lemma_line_start_bounds(file.drop_last(), offset);
    }
}

/// A page of bytes that does not reach the end says where the next one begins,
/// and that is right behind it.
pub proof fn law_byte_pages_follow_one_another(
    request: PageRequest,
    limits: PageLimits,
    file: Seq<u8>,
    total: u64,
)
    requires
        request.by_bytes(),
        file.len() == total,
        page_of(request, limits, file, total) is Ok,
    ensures
        ({
            let page = page_of(request, limits, file, total)->Ok_0;
            let end = page.offset_bytes + page.content.len();
            &&& end <= total
            &&& page.content == file.subrange(page.offset_bytes as int, end)
            &&& end < total ==> page.next_offset_bytes == Some(end as u64) && page.content.len() > 0
            &&& end == total ==> page.next_offset_bytes is None
        }),
{
}

proof fn lemma_count_append(a: Seq<u8>, b: Seq<u8>, byte: u8)
    ensures
        count_of(a + b, byte) == count_of(a, byte) + count_of(b, byte),
    decreases b.len(),
{
    if b.len() == 0 {
        assert(a + b =~= a);
    } else {
        lemma_count_append(a, b.drop_last(), byte);
        assert((a + b).drop_last() =~= a + b.drop_last());
        assert((a + b).last() == b.last());
    }
}

/// Files are counted line by line: each line feed ends a line, and what is left
/// behind the last one is a line too.
pub proof fn law_line_feeds_end_lines(a: Seq<u8>, line: Seq<u8>)
    requires
        !line.contains(0x0au8),
    ensures
        line_count(line) == if line.len() > 0 {
            1nat
        } else {
            0
        },
        line_count(line.push(0x0a)) == 1,
        a.len() > 0 && a.last() == 0x0a ==> line_count(a + line) == line_count(a) + line_count(line),
        a.len() > 0 && a.last() == 0x0a ==> line_count(a + line.push(0x0a)) == line_count(a) + 1,
{
    lemma_none_counted(line);
    assert(line.push(0x0a).drop_last() =~= line);
    lemma_count_append(a, line, LINE_FEED);
    lemma_count_append(a, line.push(0x0a), LINE_FEED);
    if line.len() > 0 {
        assert(line.contains(line[line.len() - 1]));
        assert((a + line).last() == line.last());
    } else {
        assert(a + line =~= a);
    }
    assert((a + line.push(0x0a)).last() == 0x0a);
}

proof fn lemma_none_counted(line: Seq<u8>)
    requires
        !line.contains(0x0au8),
    ensures
        count_of(line, LINE_FEED) == 0,
    decreases line.len(),
{
    if line.len() > 0 {
        assert(line.contains(line[line.len() - 1]));
        let init = line.drop_last();
        assert(!init.contains(0x0au8)) by {
            if init.contains(0x0au8) {
                let k = choose|k: int| 0 <= k < init.len() && init[k] == 0x0au8;
                assert(line[k] == 0x0au8);
            }
        }
        lemma_none_counted(init);
    }
}

/// The lines before a line are those with that many line feeds, as far as the
/// file has them.
pub proof fn law_pages_have_their_lines(file: Seq<u8>, lines: int)
    requires
        0 <= lines,
    ensures
        count_of(lines_between(file, 0, lines), 0x0a) == if count_of(file, 0x0a) <= lines {
            count_of(file, 0x0a) as int
        } else {
            lines
        },
    decreases file.len(),
{
    if file.len() > 0 {
        let init = file.drop_last();
        law_pages_have_their_lines(init, lines);
        let before = lines_between(init, 0, lines);
        let all = lines_between(file, 0, lines);
        if 0 <= count_of(init, LINE_FEED) < lines {
            assert(all.drop_last() =~= before);
            assert(all.last() == file.last());
        }
    }
}

/// Whether all is said of a page of lines: where it begins, what is on it, how
/// many lines there are, and where the next one begins, if there is one.
pub proof fn law_line_pages_say_where_they_are(
    request: PageRequest,
    limits: PageLimits,
    file: Seq<u8>,
    total: u64,
)
    requires
        request.by_lines(),
        page_of(request, limits, file, total) is Ok,
    ensures
        ({
            let page = page_of(request, limits, file, total)->Ok_0;
            let offset = match request.offset_line {
                Some(line) => line as int,
                None => 0,
            };
            let max = match request.max_lines {
                Some(lines) => lines as int,
                None => limits.default_lines as int,
            };
            &&& 0 < max <= limits.max_lines
            &&& page.offset_line == offset
            &&& page.content == lines_between(file, offset, offset + max)
            &&& page.content.len() <= limits.max_bytes
            &&& page.total_lines == line_count(file)
            &&& page.total_bytes == total && file.len() == total
            &&& page.next_offset_line == if offset + max < line_count(file) {
                Some((offset + max) as u32)
            } else {
                None
            }
            &&& page.is_binary == looks_binary(head(file, 8192))
            &&& page.next_offset_bytes is None
        }),
{
}

/// A page of bytes begins where it was asked for and holds as many as were asked
/// for, as far as the file has them; and a file that is asked for as a whole
/// comes as a whole.
pub proof fn law_byte_pages_are_as_asked(
    request: PageRequest,
    limits: PageLimits,
    file: Seq<u8>,
    total: u64,
)
    requires
        file.len() == total,
        page_of(request, limits, file, total) is Ok,
    ensures
        ({
            let page = page_of(request, limits, file, total)->Ok_0;
            let start = match request.offset_bytes {
                Some(offset) => offset as int,
                None => 0,
            };
            let max = match request.max_bytes {
                Some(bytes) => bytes as int,
                None => limits.default_bytes as int,
            };
            &&& request.by_bytes() ==> page.offset_bytes == start && page.content.len() == if total
                - start < max {
                total - start
            } else {
                max
            }
            &&& request.by_bytes() ==> 0 < max <= limits.max_bytes
            &&& !request.by_bytes() && !request.by_lines() ==> page.content == file
                && page.total_bytes == total && page.offset_bytes == 0 && (line_count(file)
                <= u32::MAX ==> page.total_lines == line_count(file)) && total < limits.max_frame
            &&& page.is_binary == looks_binary(head(file, 8192))
        }),
{
    if !request.by_bytes() && !request.by_lines() {
        assert(part_of(file, 0, limits.max_frame as int) =~= file);
    }
}

/// Why a page is refused before the file is read.
pub proof fn law_pages_are_refused_for_a_reason(
    request: PageRequest,
    limits: PageLimits,
    total: u64,
)
    ensures
        ({
            let plan = planned(request, limits, total);
            let bytes = request.offset_bytes is Some || request.max_bytes is Some;
            let lines = request.offset_line is Some || request.max_lines is Some;
            &&& plan == Err::<ReadPlan, ReadFileError>(ReadFileError::Combined) <==> bytes && lines
            &&& plan == Err::<ReadPlan, ReadFileError>(ReadFileError::NoBytes) <==> bytes && !lines
                && asked_or(request.max_bytes, limits.default_bytes) == 0
            &&& plan == Err::<ReadPlan, ReadFileError>(ReadFileError::NoLines) <==> lines && !bytes
                && asked_or(request.max_lines, limits.default_lines) == 0
            &&& plan == Err::<ReadPlan, ReadFileError>(ReadFileError::BeyondEnd) ==> bytes
                && request.offset_bytes is Some && request.offset_bytes->0 > total
            &&& bytes && !lines && request.offset_bytes is Some && request.offset_bytes->0 > total
                ==> plan is Err
            &&& plan == Err::<ReadPlan, ReadFileError>(ReadFileError::WholeTooLarge) <==> !bytes
                && !lines && total >= limits.max_frame
        }),
{
}

/// A file is taken for binary by the marks of executables at its start, or
/// where more than a tenth of its first 512 bytes are zero.
pub proof fn law_zeros_make_a_file_binary(bytes: Seq<u8>)
    ensures
        seq![0x7fu8, 0x45, 0x4c, 0x46].is_prefix_of(bytes) ==> looks_binary(bytes),
        seq![0xfeu8, 0xed, 0xfa, 0xce].is_prefix_of(bytes) ==> looks_binary(bytes),
        seq![0x4du8, 0x5a].is_prefix_of(bytes) ==> looks_binary(bytes),
        bytes.len() <= 512 && count_of(bytes, 0) * 10 > bytes.len() ==> looks_binary(bytes),
        bytes.len() > 512 && count_of(bytes.take(512), 0) * 10 > 512 ==> looks_binary(bytes),
        !seq![0x7fu8, 0x45, 0x4c, 0x46].is_prefix_of(bytes) && !seq![
            0xfeu8,
            0xed,
            0xfa,
            0xce,
        ].is_prefix_of(bytes) && !seq![0x4du8, 0x5a].is_prefix_of(bytes) && !bytes.contains(0)
            ==> !looks_binary(bytes),
{
    let four = seq![0x7fu8, 0x45, 0x4c, 0x46];
    let other = seq![0xfeu8, 0xed, 0xfa, 0xce];
    let two = seq![0x4du8, 0x5a];
    if bytes.len() >= 4 {
        assert(bytes.subrange(0, 4) =~= bytes.take(4));
    }
    if bytes.len() >= 2 {
        assert(bytes.subrange(0, 2) =~= bytes.take(2));
    }
    if !bytes.contains(0) {
        let counted = head(bytes, 512);
        assert(!counted.contains(0u8)) by {
            if counted.contains(0u8) {
                let k = choose|k: int| 0 <= k < counted.len() && counted[k] == 0u8;
                assert(bytes[k] == 0);
            }
        }
        lemma_no_zeros(counted);
    }
}

proof fn lemma_no_zeros(bytes: Seq<u8>)
    requires
        !bytes.contains(0u8),
    ensures
        count_of(bytes, 0) == 0,
    decreases bytes.len(),
{
    if bytes.len() > 0 {
        assert(bytes.contains(bytes[bytes.len() - 1]));
        let init = bytes.drop_last();
        assert(!init.contains(0u8)) by {
            if init.contains(0u8) {
                let k = choose|k: int| 0 <= k < init.len() && init[k] == 0u8;
                assert(bytes[k] == 0u8);
            }
        }
        lemma_no_zeros(init);
    }
}

/// A page of lines is refused just where it is too long, where the file is not of
/// the size that it should have, or where its lines cannot be counted; and a
/// whole file just where it is not of that size.
pub proof fn law_pages_fail_for_a_reason(
    file: Seq<u8>,
    offset: int,
    max: int,
    expected: u64,
    max_bytes: int,
    is_binary: bool,
)
    ensures
        ({
            let read = line_page_model(file, offset, max, expected, max_bytes, is_binary);
            let long = lines_between(file, offset, offset + max).len() > max_bytes;
            &&& long <==> read == Err::<PageModel, ReadFileError>(ReadFileError::LinesTooLong)
            &&& !long && file.len() != expected <==> read == Err::<PageModel, ReadFileError>(
                ReadFileError::LineChange,
            )
            &&& !long && file.len() == expected && line_count(file) >= 0x1_0000_0000 <==> read
                == Err::<PageModel, ReadFileError>(ReadFileError::LinesUncountable)
            &&& read is Ok <==> !long && file.len() == expected && line_count(file) < 0x1_0000_0000
            &&& read is Ok ==> read->Ok_0.offset_bytes == line_start(file, offset) as u64
        }),
        file.len() == expected <==> whole_file_model(file, expected, is_binary) is Ok,
        file.len() != expected <==> whole_file_model(file, expected, is_binary) == Err::<
            PageModel,
            ReadFileError,
        >(ReadFileError::WholeChange),
{
}

/// A file with few zeros is text, unless it begins as a program does.
pub proof fn law_few_zeros_leave_a_file_text(bytes: Seq<u8>)
    requires
        !seq![0x7fu8, 0x45, 0x4c, 0x46].is_prefix_of(bytes),
        !seq![0xfeu8, 0xed, 0xfa, 0xce].is_prefix_of(bytes),
        !seq![0x4du8, 0x5a].is_prefix_of(bytes),
    ensures
        bytes.len() <= 512 && count_of(bytes, 0) * 10 <= bytes.len() ==> !looks_binary(bytes),
        bytes.len() > 512 && count_of(bytes.take(512), 0) * 10 <= 512 ==> !looks_binary(bytes),
{
    if bytes.len() >= 4 {
        assert(bytes.subrange(0, 4) =~= bytes.take(4));
    }
    if bytes.len() >= 2 {
        assert(bytes.subrange(0, 2) =~= bytes.take(2));
    }
}

/// What is said of a page that asks for too much names the limit that it exceeds,
/// and each other refusal is told in its own words.
pub proof fn law_refused_pages_name_the_limit(limits: PageLimits)
    ensures
        error_text(ReadFileError::TooManyBytes, limits) == "max_bytes exceeds the per-page limit of "@
            + numbers::digits_of(limits.max_bytes as nat),
        error_text(ReadFileError::TooManyLines, limits) == "max_lines exceeds the per-page limit of "@
            + numbers::digits_of(limits.max_lines as nat),
        error_text(ReadFileError::LinesTooLong, limits)
            == "requested line page exceeds the byte limit of "@ + numbers::digits_of(
            limits.max_bytes as nat,
        ) + "; use byte pagination"@,
        error_text(ReadFileError::LinesUncountable, limits) == "file has more than "@
            + numbers::digits_of(4_294_967_295) + " logical lines"@,
        error_text(ReadFileError::NoBytes, limits) == "max_bytes must be at least 1"@,
        error_text(ReadFileError::NoLines, limits) == "max_lines must be at least 1"@,
        error_text(ReadFileError::BeyondEnd, limits)
            == "offset_bytes is beyond the end of the file"@,
        error_text(ReadFileError::Combined, limits)
            == "line and byte pagination cannot be combined"@,
        error_text(ReadFileError::ByteChange, limits) == "file changed while reading byte page"@,
        error_text(ReadFileError::LineChange, limits) == "file changed while reading line page"@,
        error_text(ReadFileError::WholeChange, limits)
            == "file changed while reading legacy response"@,
        error_text(ReadFileError::WholeTooLarge, limits)
            == "legacy full-file request exceeds the frame limit; use pagination"@,
{
}

} // verus!
