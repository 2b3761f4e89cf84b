//! Sharing the clipboard: which of its types to read, how to ask for it, and what to pass on.
use crate::message::le_bytes;
use crate::shell::{shell, shell_text, CommandLine};
use crate::text::{
    chars, folded, is_space, matches_folded, number, number_text, range_starts_folded,
    range_starts_with, replace, replaced, same_folded, space, starts_folded,
};
use std::collections::hash_map::DefaultHasher;
use std::hash::Hasher;
use vstd::prelude::*;
use vstd::string::*;
use vstd::std_specs::hash::*;
use vstd::utf8::*;

verus! {

/// The most bytes of clipboard contents that are shared.
pub const MAX_SIZE: usize = 4 * 1024 * 1024;

/// The most bytes that the name of a type may have.
pub const MAX_MIME_LENGTH: usize = 255;

/// How often the clipboard is read, in milliseconds.
pub const POLL_INTERVAL: u64 = 1000;

/// How long a clipboard command may take, in milliseconds.
pub const COMMAND_TIMEOUT: u64 = 5000;

/// What a clipboard holds.
#[derive(PartialEq, Eq)]
pub struct Data {
    pub mime: String,
    pub data: Vec<u8>,
}

/// The contents of a [`Data`].
#[verifier::ext_equal]
pub struct Contents {
    pub mime: Seq<char>,
    pub data: Seq<u8>,
}

impl View for Data {
    type V = Contents;

    open spec fn view(&self) -> Contents {
        Contents { mime: self.mime@, data: self.data@ }
    }
}

/// What an optional [`Data`] holds.
pub open spec fn data_view(data: Option<Data>) -> Option<Contents> {
    match data {
        Some(data) => Some(data@),
        None => None,
    }
}

impl Clone for Data {
    fn clone(&self) -> (r: Self)
        ensures
            r@ == self@,
    {
        let r = Data { mime: self.mime.clone(), data: self.data.clone() };
        assert(r@ =~= self@);
        r
    }
}

impl Data {
    /// The type and the size of the contents, for a log.
    pub fn describe(&self) -> (r: String)
        ensures
            r@ == self.mime@ + " ("@ + number_text(self.data@.len()) + " bytes)"@,
    {
        let mut r = self.mime.clone();
        r.append(" (");
        let size = number(self.data.len());
        r.append(size.as_str());
        r.append(" bytes)");
        r
    }
}

/// The commands that list the clipboard's types, read it and write it.
#[derive(Debug)]
pub struct Config {
    pub list_types: String,
    pub read: String,
    pub write: String,
}

impl Clone for Config {
    fn clone(&self) -> (r: Self)
        ensures
            r == *self,
    {
        Config {
            list_types: self.list_types.clone(),
            read: self.read.clone(),
            write: self.write.clone(),
        }
    }
}

/// `text` between single quotes, with each single quote in it written so that the shell takes it
/// for itself.
pub open spec fn quoted(text: Seq<char>) -> Seq<char> {
    "'"@ + replaced(text, "'"@, "'\\''"@) + "'"@
}

/// `text` as one word of a shell command.
pub fn quote(text: &str) -> (r: String)
    ensures
        r@ == quoted(text@),
{
    proof {
        reveal_strlit("'");
    }
    let inner = replace(text, "'", "'\\''");
    let mut r = "'".to_owned();
    r.append(inner.as_str());
    r.append("'");
    r
}

/// `command` with the type of the contents, quoted, in place of each `{type}`.
pub open spec fn with_type(command: Seq<char>, mime: Seq<char>) -> Seq<char> {
    replaced(command, "{type}"@, quoted(mime))
}

fn fill_type(command: &str, mime: &str) -> (r: String)
    ensures
        r@ == with_type(command@, mime@),
{
    proof {
        reveal_strlit("{type}");
    }
    let word = quote(mime);
    replace(command, "{type}", word.as_str())
}

/// The lines of a text, without the newlines between them.
pub open spec fn lines(s: Seq<char>) -> Seq<Seq<char>>
    decreases s.len(),
{
    if s.len() == 0 {
        seq![s]
    } else if s.last() == '\n' {
        lines(s.drop_last()).push(seq![])
    } else {
        let before = lines(s.drop_last());
        before.update(before.len() - 1, before.last().push(s.last()))
    }
}

/// `s` without the white space in front.
pub open spec fn trimmed_front(s: Seq<char>) -> Seq<char>
    decreases s.len(),
{
    if s.len() > 0 && is_space(s[0]) {
        trimmed_front(s.skip(1))
    } else {
        s
    }
}

/// `s` without the white space at the end.
pub open spec fn trimmed_back(s: Seq<char>) -> Seq<char>
    decreases s.len(),
{
    if s.len() > 0 && is_space(s.last()) {
        trimmed_back(s.drop_last())
    } else {
        s
    }
}

/// `s` without the white space around it, a carriage return at the end of a line included.
pub open spec fn trimmed(s: Seq<char>) -> Seq<char> {
    trimmed_back(trimmed_front(s))
}

/// What a clipboard reports as its types, a line each. Targets such as `TIMESTAMP`, which are
/// reported alongside and have no slash, are left out.
pub open spec fn reported(types: Seq<char>) -> Seq<Seq<char>> {
    mimes(lines(types))
}

/// The lines that name a type, without the white space around them.
pub open spec fn mimes(lines: Seq<Seq<char>>) -> Seq<Seq<char>> {
    lines.map_values(|line: Seq<char>| trimmed(line)).filter(|line: Seq<char>| line.contains('/'))
}

/// The kinds of contents that are told apart.
#[derive(Clone, Copy, Debug, PartialEq, Eq, Structural)]
pub enum Kind {
    /// An image in the format that every program can read.
    Png,
    /// An image, its type written in small letters as is usual.
    Image,
    /// An image, however its type is written.
    AnyImage,
    /// Plain text in UTF-8.
    Utf8,
    /// Plain text.
    Plain,
    /// Text of any sort, however its type is written.
    Text,
}

impl Kind {
    /// Whether `mime` is of this kind.
    pub open spec fn includes(self, mime: Seq<char>) -> bool {
        match self {
            Kind::Png => same_folded(mime, "image/png"@),
            Kind::Image => "image/"@.is_prefix_of(mime),
            Kind::AnyImage => starts_folded(mime, "image/"@),
            Kind::Utf8 => same_folded(mime, "text/plain;charset=utf-8"@),
            Kind::Plain => same_folded(mime, "text/plain"@),
            Kind::Text => starts_folded(mime, "text/"@),
        }
    }

    fn matches(self, whole: &Vec<char>, from: usize, to: usize) -> (r: bool)
        requires
            from <= to <= whole@.len(),
        ensures
            r == self.includes(whole@.subrange(from as int, to as int)),
    {
        match self {
            Kind::Png => matches_folded(whole, from, to, "image/png"),
            Kind::Image => range_starts_with(whole, from, to, "image/"),
            Kind::AnyImage => range_starts_folded(whole, from, to, "image/"),
            Kind::Utf8 => matches_folded(whole, from, to, "text/plain;charset=utf-8"),
            Kind::Plain => matches_folded(whole, from, to, "text/plain"),
            Kind::Text => range_starts_folded(whole, from, to, "text/"),
        }
    }
}

/// The first of `types` that is of the kind `kind`.
pub open spec fn first(types: Seq<Seq<char>>, kind: Kind) -> Option<Seq<char>>
    decreases types.len(),
{
    if types.len() == 0 {
        None
    } else if kind.includes(types[0]) {
        Some(types[0])
    } else {
        first(types.skip(1), kind)
    }
}

/// Which of `types` to read: an image that is written as is usual, if there is one, else plain
/// text, else just the first. Text gives way to an image however that is written.
pub open spec fn preferred(types: Seq<Seq<char>>) -> Option<Seq<char>> {
    if first(types, Kind::Png) is Some {
        first(types, Kind::Png)
    } else if first(types, Kind::Image) is Some {
        first(types, Kind::Image)
    } else if first(types, Kind::AnyImage) is Some && Kind::Text.includes(otherwise(types)->0) {
        first(types, Kind::AnyImage)
    } else {
        otherwise(types)
    }
}

/// Which of `types` to read where images do not matter.
pub open spec fn otherwise(types: Seq<Seq<char>>) -> Option<Seq<char>> {
    if first(types, Kind::Utf8) is Some {
        first(types, Kind::Utf8)
    } else if first(types, Kind::Plain) is Some {
        first(types, Kind::Plain)
    } else if types.len() > 0 {
        Some(types[0])
    } else {
        None
    }
}

/// The text in each of the ranges.
spec fn cut(whole: Seq<char>, ranges: Seq<(usize, usize)>) -> Seq<Seq<char>> {
    ranges.map_values(|range: (usize, usize)| whole.subrange(range.0 as int, range.1 as int))
}

spec fn in_bounds(whole: Seq<char>, ranges: Seq<(usize, usize)>) -> bool {
    forall|i: int|
        0 <= i < ranges.len() ==> (#[trigger] ranges[i]).0 <= ranges[i].1 <= whole.len()
}

/// The range from `from` to `to` without the white space around what it holds.
fn trim(whole: &Vec<char>, from: usize, to: usize) -> (r: (usize, usize))
    requires
        from <= to <= whole@.len(),
    ensures
        from <= r.0 <= r.1 <= to,
        whole@.subrange(r.0 as int, r.1 as int) == trimmed(
            whole@.subrange(from as int, to as int),
        ),
{
    let mut a = from;
    while a < to && space(whole[a])
        invariant
            from <= a <= to <= whole@.len(),
            trimmed_front(whole@.subrange(from as int, to as int)) == trimmed_front(
                whole@.subrange(a as int, to as int),
            ),
        decreases to - a,
    {
        assert(whole@.subrange(a as int, to as int).skip(1) == whole@.subrange(a + 1, to as int));
        a += 1;
    }
    let ghost front = whole@.subrange(a as int, to as int);
    let mut b = to;
    while a < b && space(whole[b - 1])
        invariant
            a <= b <= to <= whole@.len(),
            trimmed_back(front) == trimmed_back(whole@.subrange(a as int, b as int)),
        decreases b - a,
    {
        assert(whole@.subrange(a as int, b as int).drop_last() == whole@.subrange(
            a as int,
            b - 1,
        ));
        b -= 1;
    }
    (a, b)
}

fn has_slash(whole: &Vec<char>, from: usize, to: usize) -> (r: bool)
    requires
        from <= to <= whole@.len(),
    ensures
        r == whole@.subrange(from as int, to as int).contains('/'),
{
    let mut i = from;
    while i < to
        invariant
            from <= i <= to <= whole@.len(),
            forall|j: int| from <= j < i ==> whole@[j] != '/',
        decreases to - i,
    {
        if whole[i] == '/' {
            assert(whole@.subrange(from as int, to as int)[i - from] == '/');
            return true;
        }
        i += 1;
    }
    false
}

proof fn lemma_mimes_push(before: Seq<Seq<char>>, line: Seq<char>)
    ensures
        mimes(before.push(line)) == if trimmed(line).contains('/') {
            mimes(before).push(trimmed(line))
        } else {
            mimes(before)
        },
{
    reveal(Seq::filter);
    let f = |line: Seq<char>| trimmed(line);
    assert(before.push(line).map_values(f).drop_last() =~= before.map_values(f));
    assert(before.push(line).map_values(f).last() == trimmed(line));
}

/// Where the reported types stand in the text.
fn reported_ranges(whole: &Vec<char>) -> (r: Vec<(usize, usize)>)
    ensures
        in_bounds(whole@, r@),
        cut(whole@, r@) == reported(whole@),
{
    let ghost s = whole@;
    let mut r: Vec<(usize, usize)> = Vec::new();
    let mut start: usize = 0;
    let mut i: usize = 0;
    proof {
        reveal(Seq::filter);
        assert(s.take(0) == Seq::<char>::empty());
        assert(lines(s.take(0)).drop_last() == Seq::<Seq<char>>::empty());
        assert(s.subrange(0, 0) == Seq::<char>::empty());
        assert(cut(s, r@) == mimes(lines(s.take(0)).drop_last()));
    }
    while i < whole.len()
        invariant
            s == whole@,
            start <= i <= s.len(),
            in_bounds(s, r@),
            lines(s.take(i as int)).len() > 0,
            lines(s.take(i as int)).last() == s.subrange(start as int, i as int),
            cut(s, r@) == mimes(lines(s.take(i as int)).drop_last()),
        decreases whole.len() - i,
    {
        let ghost before = lines(s.take(i as int));
        assert(s.take(i + 1).drop_last() == s.take(i as int));
        if whole[i] == '\n' {
            push_line(whole, start, i, &mut r, Ghost(before.drop_last()));
            assert(before.drop_last().push(before.last()) == before);
            start = i + 1;
            assert(lines(s.take(i + 1)).drop_last() == before);
            assert(s.subrange(start as int, i + 1) == Seq::<char>::empty());
        } else {
            assert(lines(s.take(i + 1)).drop_last() == before.drop_last());
            assert(s.subrange(start as int, i + 1) == s.subrange(start as int, i as int).push(
                s[i as int],
            ));
        }
        i += 1;
    }
    assert(s.take(s.len() as int) == s);
    let ghost before = lines(s);
    push_line(whole, start, i, &mut r, Ghost(before.drop_last()));
    assert(before.drop_last().push(before.last()) == before);
    r
}

/// Adds the line from `from` to `to` to the types of the lines before it, if it names one.
fn push_line(
    whole: &Vec<char>,
    from: usize,
    to: usize,
    ranges: &mut Vec<(usize, usize)>,
    Ghost(before): Ghost<Seq<Seq<char>>>,
)
    requires
        from <= to <= whole@.len(),
        in_bounds(whole@, old(ranges)@),
        cut(whole@, old(ranges)@) == mimes(before),
    ensures
        in_bounds(whole@, final(ranges)@),
        cut(whole@, final(ranges)@) == mimes(
            before.push(whole@.subrange(from as int, to as int)),
        ),
{
    let (a, b) = trim(whole, from, to);
    proof {
        lemma_mimes_push(before, whole@.subrange(from as int, to as int));
    }
    if has_slash(whole, a, b) {
        ranges.push((a, b));
        assert(cut(whole@, ranges@) =~= cut(whole@, old(ranges)@).push(
            whole@.subrange(a as int, b as int),
        ));
    }
}

/// The place of the first range that is of the kind `kind`.
fn find(whole: &Vec<char>, ranges: &Vec<(usize, usize)>, kind: Kind) -> (r: Option<usize>)
    requires
        in_bounds(whole@, ranges@),
    ensures
        match r {
            Some(i) => i < ranges@.len() && first(cut(whole@, ranges@), kind) == Some(
                cut(whole@, ranges@)[i as int],
            ),
            None => first(cut(whole@, ranges@), kind) is None,
        },
{
    let ghost types = cut(whole@, ranges@);
    let mut i: usize = 0;
    assert(types.skip(0) == types);
    while i < ranges.len()
        invariant
            in_bounds(whole@, ranges@),
            types == cut(whole@, ranges@),
            i <= ranges@.len(),
            first(types, kind) == first(types.skip(i as int), kind),
        decreases ranges.len() - i,
    {
        let (from, to) = ranges[i];
        assert(types.skip(i as int)[0] == types[i as int]);
        if kind.matches(whole, from, to) {
            return Some(i);
        }
        assert(types.skip(i as int).skip(1) == types.skip(i + 1));
        i += 1;
    }
    None
}

/// The place of the range to read where images do not matter.
fn find_otherwise(whole: &Vec<char>, ranges: &Vec<(usize, usize)>) -> (r: Option<usize>)
    requires
        in_bounds(whole@, ranges@),
    ensures
        match r {
            Some(i) => i < ranges@.len() && otherwise(cut(whole@, ranges@)) == Some(
                cut(whole@, ranges@)[i as int],
            ),
            None => otherwise(cut(whole@, ranges@)) is None,
        },
{
    if let Some(i) = find(whole, ranges, Kind::Utf8) {
        return Some(i);
    }
    if let Some(i) = find(whole, ranges, Kind::Plain) {
        return Some(i);
    }
    if ranges.len() > 0 {
        Some(0)
    } else {
        None
    }
}

/// The place of the range to read.
fn find_preferred(whole: &Vec<char>, ranges: &Vec<(usize, usize)>) -> (r: Option<usize>)
    requires
        in_bounds(whole@, ranges@),
    ensures
        match r {
            Some(i) => i < ranges@.len() && preferred(cut(whole@, ranges@)) == Some(
                cut(whole@, ranges@)[i as int],
            ),
            None => preferred(cut(whole@, ranges@)) is None,
        },
{
    if let Some(i) = find(whole, ranges, Kind::Png) {
        return Some(i);
    }
    if let Some(i) = find(whole, ranges, Kind::Image) {
        return Some(i);
    }
    let found = find_otherwise(whole, ranges);
    proof {
        lemma_first(cut(whole@, ranges@), Kind::AnyImage);
    }
    if let Some(i) = found {
        let (from, to) = ranges[i];
        if Kind::Text.matches(whole, from, to) {
            if let Some(image) = find(whole, ranges, Kind::AnyImage) {
                return Some(image);
            }
        }
    }
    found
}

/// Which of the types that the clipboard reports to read.
pub fn pick(types: &str) -> (r: Option<&str>)
    ensures
        match r {
            Some(mime) => preferred(reported(types@)) == Some(mime@),
            None => preferred(reported(types@)) is None,
        },
{
    let whole = chars(types);
    let ranges = reported_ranges(&whole);
    match find_preferred(&whole, &ranges) {
        Some(i) => {
            let (from, to) = ranges[i];
            Some(types.substring_char(from, to))
        },
        None => None,
    }
}

/// The text that `String::from_utf8_lossy` makes of bytes.
pub uninterp spec fn lossy(bytes: Seq<u8>) -> Seq<char>;

/// `String::from_utf8_lossy` turns any bytes into text. What is valid UTF-8 comes out as it is.
#[verifier::external_body]
fn from_utf8_lossy(bytes: &[u8]) -> (r: String)
    ensures
        r@ == lossy(bytes@),
        valid_utf8(bytes@) ==> r@ == decode_utf8(bytes@),
{
    String::from_utf8_lossy(bytes).into_owned()
}

/// The command that lists the clipboard's types.
pub fn list_command(config: &Config) -> (r: CommandLine)
    ensures
        r@ == shell_text(config.list_types@),
{
    shell(config.list_types.as_str())
}

/// What to read next: the type of the contents, and the command that prints them.
#[derive(Debug)]
pub struct Request {
    pub mime: String,
    pub command: CommandLine,
}

/// How to read the clipboard when it reports `types`, or nothing if it reports no type.
pub fn request(config: &Config, types: &str) -> (r: Option<Request>)
    ensures
        match r {
            Some(request) => {
                &&& preferred(reported(types@)) == Some(request.mime@)
                &&& request.command@ == shell_text(with_type(config.read@, request.mime@))
            },
            None => preferred(reported(types@)) is None,
        },
{
    match pick(types) {
        Some(mime) => {
            let command = fill_type(config.read.as_str(), mime);
            Some(Request { mime: mime.to_owned(), command: shell(command.as_str()) })
        },
        None => None,
    }
}

/// How to read the clipboard when the command that lists its types printed `output`.
pub fn read_command(config: &Config, output: &Vec<u8>) -> (r: Option<Request>)
    ensures
        match r {
            Some(request) => {
                &&& preferred(reported(lossy(output@))) == Some(request.mime@)
                &&& request.command@ == shell_text(with_type(config.read@, request.mime@))
            },
            None => preferred(reported(lossy(output@))) is None,
        },
{
    let types = from_utf8_lossy(output.as_slice());
    request(config, types.as_str())
}

/// What reading the clipboard came to.
pub enum Reading {
    /// It holds this.
    Contents(Data),
    /// It holds nothing.
    Nothing,
    /// It holds too many bytes to share.
    TooLarge { mime: String, size: usize },
}

/// The contents of the clipboard, out of what the command for them printed. Nothing at all is no
/// contents, and too much is left alone.
pub fn read_contents(mime: String, data: Vec<u8>) -> (r: Reading)
    ensures
        r == if data@.len() == 0 {
            Reading::Nothing
        } else if data@.len() <= MAX_SIZE {
            Reading::Contents(Data { mime, data })
        } else {
            Reading::TooLarge { mime, size: data@.len() as usize }
        },
{
    let size = data.len();
    if size == 0 {
        Reading::Nothing
    } else if size > MAX_SIZE {
        Reading::TooLarge { mime, size }
    } else {
        Reading::Contents(Data { mime, data })
    }
}

/// The command that takes `data` on its standard input and puts it on the clipboard.
pub fn write_command(config: &Config, data: &Data) -> (r: CommandLine)
    ensures
        r@ == shell_text(with_type(config.write@, data.mime@)),
{
    let command = fill_type(config.write.as_str(), data.mime.as_str());
    shell(command.as_str())
}

/// How a clipboard command ended.
pub enum Outcome {
    /// It did not end in time.
    TimedOut,
    /// It ended, with the status that it is shown by.
    Ended { success: bool, status: String, output: Vec<u8> },
}

/// Why a clipboard command was of no use.
#[derive(Debug)]
pub enum CommandError {
    TimedOut,
    /// It ended with this status.
    Failed(String),
}

impl CommandError {
    /// The text shown for the error.
    pub open spec fn text(self) -> Seq<char> {
        match self {
            CommandError::TimedOut => "Clipboard command timed out"@,
            CommandError::Failed(status) => "Clipboard command failed: "@ + status@,
        }
    }

    /// The text shown for the error.
    pub fn message(&self) -> (r: String)
        ensures
            r@ == self.text(),
    {
        match self {
            CommandError::TimedOut => "Clipboard command timed out".to_owned(),
            CommandError::Failed(status) => {
                let mut r = "Clipboard command failed: ".to_owned();
                r.append(status.as_str());
                r
            },
        }
    }
}

/// What a command that reads printed. It has to end in time, and well.
pub fn command_output(outcome: Outcome) -> (r: Result<Vec<u8>, CommandError>)
    ensures
        r == match outcome {
            Outcome::TimedOut => Err::<Vec<u8>, CommandError>(CommandError::TimedOut),
            Outcome::Ended { success, status, output } => if success {
                Ok(output)
            } else {
                Err(CommandError::Failed(status))
            },
        },
{
    match outcome {
        Outcome::TimedOut => Err(CommandError::TimedOut),
        Outcome::Ended { success, status, output } => if success {
            Ok(output)
        } else {
            Err(CommandError::Failed(status))
        },
    }
}

/// Whether a command that writes did its work. It only has to end in time.
pub fn write_outcome(outcome: Outcome) -> (r: Result<(), CommandError>)
    ensures
        r == match outcome {
            Outcome::TimedOut => Err::<(), CommandError>(CommandError::TimedOut),
            Outcome::Ended { .. } => Ok(()),
        },
{
    match outcome {
        Outcome::TimedOut => Err(CommandError::TimedOut),
        Outcome::Ended { .. } => Ok(()),
    }
}

/// What is fed to the hasher for contents: the type, a byte that no text holds, the number of
/// bytes and the bytes.
pub open spec fn fed(contents: Contents) -> Seq<Seq<u8>> {
    seq![
        encode_utf8(contents.mime),
        seq![0xffu8],
        le_bytes(contents.data.len(), 8),
        contents.data,
    ]
}

/// The number that contents are remembered by.
pub open spec fn digest(contents: Contents) -> u64 {
    DefaultHasher::spec_finish(fed(contents))
}

/// `length` in eight bytes, the lowest first.
fn length_bytes(length: usize) -> (r: Vec<u8>)
    ensures
        r@ == le_bytes(length as nat, 8),
{
    let mut r: Vec<u8> = Vec::new();
    let mut rest: u64 = length as u64;
    let mut left: usize = 8;
    assert(r@ + le_bytes(length as nat, 8) == le_bytes(length as nat, 8));
    while left > 0
        invariant
            left <= 8,
            r@ + le_bytes(rest as nat, left as nat) == le_bytes(length as nat, 8),
        decreases left,
    {
        let ghost before = r@;
        let ghost tail = le_bytes((rest / 0x100) as nat, (left - 1) as nat);
        r.push((rest % 0x100) as u8);
        assert(before + (seq![(rest % 0x100) as u8] + tail) == r@ + tail);
        rest = rest / 0x100;
        left -= 1;
    }
    assert(r@ + le_bytes(rest as nat, 0) == r@);
    r
}

/// The number that contents are remembered by.
pub fn hash(data: &Data) -> (r: u64)
    ensures
        r == digest(data@),
{
    let mut hasher = DefaultHasher::new();
    hasher.write(data.mime.as_str().as_bytes());
    let mut separator: Vec<u8> = Vec::new();
    separator.push(0xff);
    hasher.write(separator.as_slice());
    let length = length_bytes(data.data.len());
    hasher.write(length.as_slice());
    hasher.write(data.data.as_slice());
    assert(separator@ == seq![0xffu8]);
    assert(hasher@ == fed(data@));
    hasher.finish()
}

/// What to do with contents that another machine sent.
pub enum Received {
    /// Put them on the clipboard.
    Apply(Data),
    /// Nothing: the clipboard holds them already.
    Known,
    /// Nothing: they are too large to be taken.
    Oversized,
}

/// What the clipboard was last seen to hold or made to hold, so that the same contents are not
/// passed around twice.
#[derive(Debug)]
pub struct Watcher {
    pub last: Option<u64>,
}

impl Watcher {
    /// Whether `contents` differ from the last ones, as far as their digest tells.
    pub open spec fn news(self, contents: Contents) -> bool {
        self.last != Some(digest(contents))
    }

    /// The watcher once it has seen `contents`.
    pub open spec fn noted(self, contents: Contents) -> Watcher {
        Watcher { last: Some(digest(contents)) }
    }

    /// Nothing was seen yet.
    pub fn new() -> (r: Watcher)
        ensures
            r.last is None,
    {
        Watcher { last: None }
    }

    /// Takes note of `data`, and tells whether it is news.
    fn note(&mut self, data: &Data) -> (news: bool)
        ensures
            news == old(self).news(data@),
            *final(self) == old(self).noted(data@),
    {
        let digest = hash(data);
        if let Some(last) = self.last {
            if last == digest {
                return false;
            }
        }
        self.last = Some(digest);
        true
    }

    /// What to tell the other machines after the clipboard was read: its contents, if there are
    /// any and they are news.
    pub fn polled(&mut self, read: Option<Data>) -> (r: Option<Data>)
        ensures
            match read {
                Some(data) => {
                    &&& r == if old(self).news(data@) {
                        Some(data)
                    } else {
                        None
                    }
                    &&& *final(self) == old(self).noted(data@)
                },
                None => r is None && *final(self) == *old(self),
            },
    {
        match read {
            Some(data) => if self.note(&data) {
                Some(data)
            } else {
                None
            },
            None => None,
        }
    }

    /// What to do when another machine sent `data`: put it on the clipboard, unless it is too
    /// large or no news.
    pub fn received(&mut self, data: Data) -> (r: Received)
        ensures
            r == if !shareable(data@) {
                Received::Oversized
            } else if old(self).news(data@) {
                Received::Apply(data)
            } else {
                Received::Known
            },
            *final(self) == if shareable(data@) {
                old(self).noted(data@)
            } else {
                *old(self)
            },
    {
        if data.mime.as_str().as_bytes().len() > MAX_MIME_LENGTH || data.data.len() > MAX_SIZE {
            return Received::Oversized;
        }
        if self.note(&data) {
            Received::Apply(data)
        } else {
            Received::Known
        }
    }
}

/// Whether contents that another machine sent are small enough to be taken.
pub open spec fn shareable(contents: Contents) -> bool {
    encode_utf8(contents.mime).len() <= MAX_MIME_LENGTH && contents.data.len() <= MAX_SIZE
}

/// What a POSIX shell makes of a word that consists of single-quoted parts and of characters
/// with a backslash in front; nothing for any other text. `inside` tells whether the text starts
/// between single quotes.
pub open spec fn shell_word(text: Seq<char>, inside: bool) -> Option<Seq<char>>
    decreases text.len(),
{
    if text.len() == 0 {
        if inside {
            None
        } else {
            Some(seq![])
        }
    } else if text[0] == '\'' {
        shell_word(text.skip(1), !inside)
    } else if inside {
        match shell_word(text.skip(1), true) {
            Some(rest) => Some(seq![text[0]] + rest),
            None => None,
        }
    } else if text[0] == '\\' && text.len() > 1 {
        match shell_word(text.skip(2), false) {
            Some(rest) => Some(seq![text[1]] + rest),
            None => None,
        }
    } else {
        None
    }
}

proof fn lemma_quote_inside(text: Seq<char>)
    ensures
        shell_word(replaced(text, "'"@, "'\\''"@) + "'"@, true) == Some(text),
    decreases text.len(),
{
    reveal_strlit("'");
    reveal_strlit("'\\''");
    let quote = "'"@;
    let escaped = "'\\''"@;
    assert(quote =~= seq!['\'']);
    assert(escaped =~= seq!['\'', '\\', '\'', '\'']);
    let word = replaced(text, quote, escaped) + quote;
    if text.len() == 0 {
        assert(word =~= seq!['\'']);
        assert(word.skip(1) =~= seq![]);
        assert(shell_word(word.skip(1), false) == Some(Seq::<char>::empty()));
    } else {
        lemma_quote_inside(text.skip(1));
        let rest = replaced(text.skip(1), quote, escaped) + quote;
        assert(seq![text[0]] + text.skip(1) =~= text);
        if quote.is_prefix_of(text) {
            assert(text[0] == quote[0]);
            assert(word =~= escaped + rest);
            assert(word.skip(1).skip(2).skip(1) =~= rest);
            assert(shell_word(word.skip(1).skip(2), false) == shell_word(rest, true));
        } else {
            assert(text.take(1) =~= seq![text[0]]);
            assert(text[0] != '\'');
            assert(word =~= seq![text[0]] + rest);
            assert(word.skip(1) =~= rest);
        }
    }
}

/// Whatever the text, the shell takes it, quoted, for one word that is the text itself.
pub proof fn law_quote_is_one_word(text: Seq<char>)
    ensures
        shell_word(quoted(text), false) == Some(text),
{
    reveal_strlit("'");
    lemma_quote_inside(text);
    let rest = replaced(text, "'"@, "'\\''"@) + "'"@;
    assert(quoted(text) =~= seq!['\''] + rest);
    assert(quoted(text).skip(1) =~= rest);
}

/// What was just put on the clipboard, or was just read from it, is no news the next time the
/// clipboard is read, so it is not sent back to where it came from. Other contents are, unless
/// they have the same digest.
pub proof fn law_no_echo(watcher: Watcher, seen: Contents, next: Contents)
    ensures
        !watcher.noted(seen).news(seen),
        watcher.noted(seen).news(next) <==> digest(next) != digest(seen),
{
}

proof fn lemma_first(types: Seq<Seq<char>>, kind: Kind)
    ensures
        first(types, kind) is Some <==> exists|i: int|
            0 <= i < types.len() && kind.includes(#[trigger] types[i]),
        first(types, kind) matches Some(mime) ==> types.contains(mime) && kind.includes(mime),
    decreases types.len(),
{
    if types.len() > 0 {
        let rest = types.skip(1);
        lemma_first(rest, kind);
        if !kind.includes(types[0]) {
            if exists|i: int| 0 <= i < types.len() && kind.includes(#[trigger] types[i]) {
                let i = choose|i: int| 0 <= i < types.len() && kind.includes(#[trigger] types[i]);
                assert(rest[i - 1] == types[i]);
            }
            if first(rest, kind) is Some {
                let mime = first(rest, kind)->0;
                let i = choose|i: int| 0 <= i < rest.len() && rest[i] == mime;
                assert(types[i + 1] == mime);
            }
        } else {
            assert(types.contains(types[0]));
        }
    }
}

/// Images are preferred over text: where an image is among the types, however it is written, no
/// text is picked. An image is, if there is nothing but images and text, or if one is written as
/// is usual.
pub proof fn law_images_first(types: Seq<Seq<char>>, i: int)
    requires
        0 <= i < types.len(),
        Kind::AnyImage.includes(types[i]),
    ensures
        preferred(types) matches Some(mime) && !Kind::Text.includes(mime),
        (forall|j: int|
            0 <= j < types.len() ==> Kind::AnyImage.includes(#[trigger] types[j])
                || Kind::Text.includes(types[j])) ==> Kind::AnyImage.includes(
            preferred(types)->0,
        ),
        Kind::Png.includes(types[i]) || Kind::Image.includes(types[i]) ==> Kind::AnyImage.includes(
            preferred(types)->0,
        ),
{
    law_picks_what_is_reported(types);
    lemma_first(types, Kind::Png);
    lemma_first(types, Kind::Image);
    lemma_first(types, Kind::AnyImage);
    let mime = preferred(types)->0;
    lemma_images(mime);
    let j = choose|j: int| 0 <= j < types.len() && types[j] == mime;
    assert(types[j] == mime);
}

/// An image is no text, and one that is written as is usual is an image.
proof fn lemma_images(mime: Seq<char>)
    ensures
        Kind::Png.includes(mime) || Kind::Image.includes(mime) ==> Kind::AnyImage.includes(mime),
        !(Kind::AnyImage.includes(mime) && Kind::Text.includes(mime)),
{
    reveal_strlit("image/png");
    reveal_strlit("image/");
    reveal_strlit("text/");
    let image = "image/"@;
    if Kind::Png.includes(mime) {
        let start = mime.take(6);
        assert forall|i: int| 0 <= i < 6 implies folded(#[trigger] start[i]) == folded(
            image[i],
        ) by {
            assert(folded(mime[i]) == folded("image/png"@[i]));
        }
    }
    if Kind::Image.includes(mime) {
        assert(mime.take(6) =~= image);
    }
    if Kind::AnyImage.includes(mime) && Kind::Text.includes(mime) {
        assert(folded(mime.take(6)[0]) == folded(image[0]));
        assert(folded(mime.take(5)[0]) == folded("text/"@[0]));
    }
}

/// A type is picked exactly where one is reported, and it is one of those reported.
pub proof fn law_picks_what_is_reported(types: Seq<Seq<char>>)
    ensures
        preferred(types) is Some <==> types.len() > 0,
        preferred(types) matches Some(mime) ==> types.contains(mime),
{
    lemma_first(types, Kind::Png);
    lemma_first(types, Kind::Image);
    lemma_first(types, Kind::AnyImage);
    lemma_first(types, Kind::Utf8);
    lemma_first(types, Kind::Plain);
    if types.len() > 0 {
        assert(types.contains(types[0]));
    }
}

/// What is fed to the hasher for contents determines them: contents that differ in their type, in
/// any byte of their data or in how many there are have something else fed for them.
pub proof fn law_all_of_the_contents_count(a: Contents, b: Contents)
    requires
        fed(a) == fed(b),
    ensures
        a == b,
{
    assert(fed(a)[0] == fed(b)[0] && fed(a)[3] == fed(b)[3]);
    assert(fed(a)[0] == encode_utf8(a.mime) && fed(b)[0] == encode_utf8(b.mime));
    encode_utf8_decode_utf8(a.mime);
    encode_utf8_decode_utf8(b.mime);
    assert(a =~= b);
}

/// The pieces that are fed to a hasher, one behind the other.
pub open spec fn run_together(pieces: Seq<Seq<u8>>) -> Seq<u8>
    decreases pieces.len(),
{
    if pieces.len() == 0 {
        seq![]
    } else {
        run_together(pieces.drop_last()) + pieces.last()
    }
}

/// That holds of the bytes that are fed, too, wherever one piece ends and the next begins: what
/// comes before the first byte that no text holds is the type, eight bytes follow that count the
/// data, and the rest is the data.
pub proof fn law_fed_bytes_determine_the_contents(a: Contents, b: Contents)
    requires
        run_together(fed(a)) == run_together(fed(b)),
    ensures
        a == b,
{
    lemma_run_together(a);
    lemma_run_together(b);
    let x = encode_utf8(a.mime);
    let y = encode_utf8(b.mime);
    let all = run_together(fed(a));
    lemma_text_has_no_mark(a.mime);
    lemma_text_has_no_mark(b.mime);
    if x.len() < y.len() {
        assert(all[x.len() as int] == 0xff);
        assert(all[x.len() as int] == y[x.len() as int]);
        assert(y.contains(0xff));
    }
    if y.len() < x.len() {
        assert(all[y.len() as int] == 0xff);
        assert(all[y.len() as int] == x[y.len() as int]);
        assert(x.contains(0xff));
    }
    assert(x =~= all.take(x.len() as int));
    assert(y =~= all.take(x.len() as int));
    assert(a.data =~= all.skip(x.len() as int + 9));
    assert(b.data =~= all.skip(x.len() as int + 9));
    encode_utf8_decode_utf8(a.mime);
    encode_utf8_decode_utf8(b.mime);
    assert(a =~= b);
}

proof fn lemma_run_together(contents: Contents)
    ensures
        ({
            let all = run_together(fed(contents));
            let text = encode_utf8(contents.mime);
            &&& all == text + seq![0xffu8] + le_bytes(contents.data.len(), 8) + contents.data
            &&& le_bytes(contents.data.len(), 8).len() == 8
        }),
{
    let pieces = fed(contents);
    reveal_with_fuel(run_together, 5);
    crate::message::lemma_le_size(contents.data.len(), 8);
    assert(pieces.drop_last().drop_last().drop_last().drop_last() =~= seq![]);
    let text = encode_utf8(contents.mime);
    assert(run_together(pieces) =~= text + seq![0xffu8] + le_bytes(contents.data.len(), 8)
        + contents.data);
}

/// No text has a byte 0xff in it.
proof fn lemma_text_has_no_mark(text: Seq<char>)
    ensures
        !encode_utf8(text).contains(0xff),
    decreases text.len(),
{
    if text.len() > 0 {
        let first = encode_scalar(text[0] as u32);
        let rest = encode_utf8(text.drop_first());
        lemma_text_has_no_mark(text.drop_first());
        lemma_scalar_has_no_mark(text[0] as u32);
        if encode_utf8(text).contains(0xff) {
            let i = choose|i: int| 0 <= i < encode_utf8(text).len() && encode_utf8(text)[i] == 0xff;
            if i < first.len() {
                assert(first.contains(first[i]));
            } else {
                assert(rest[i - first.len()] == 0xff);
                assert(rest.contains(0xff));
            }
        }
    }
}

proof fn lemma_scalar_has_no_mark(scalar: u32)
    ensures
        !encode_scalar(scalar).contains(0xff),
{
    assert(leading_byte_width_1(scalar) != 0xff) by (bit_vector);
    assert(leading_byte_width_2(scalar) != 0xff) by (bit_vector);
    assert(leading_byte_width_3(scalar) != 0xff) by (bit_vector);
    assert(leading_byte_width_4(scalar) != 0xff) by (bit_vector);
    assert(last_continuation_byte(scalar) != 0xff) by (bit_vector);
    assert(second_last_continuation_byte(scalar) != 0xff) by (bit_vector);
    assert(third_last_continuation_byte(scalar) != 0xff) by (bit_vector);
}

/// Contents are remembered by what the standard hasher makes of what is fed to it, all of it.
pub proof fn law_digest_is_the_hash(contents: Contents)
    ensures
        digest(contents) == DefaultHasher::spec_finish(fed(contents)),
{
}

/// Contents are news exactly if nothing was seen yet or the last that was seen has another hash,
/// and what was seen last is what is remembered.
pub proof fn law_news_is_what_was_not_last(watcher: Watcher, contents: Contents, next: Contents)
    ensures
        watcher.news(contents) <==> watcher.last != Some(
            DefaultHasher::spec_finish(fed(contents)),
        ),
        (Watcher { last: None }).news(contents),
        watcher.noted(contents).last == Some(DefaultHasher::spec_finish(fed(contents))),
        watcher.noted(contents).noted(next) == (Watcher { last: None }).noted(next),
{
}

/// What another machine sends is taken if its type has no more than 255 bytes and its data no more
/// than four times 1024 times 1024.
pub proof fn law_what_is_taken(contents: Contents)
    ensures
        shareable(contents) <==> encode_utf8(contents.mime).len() <= 255 && contents.data.len()
            <= 4194304,
{
}

/// The code of a character, with capital letters of the ASCII range made small.
pub open spec fn small(c: char) -> int {
    if 65 <= c as int <= 90 {
        c as int + 32
    } else {
        c as int
    }
}

/// Whether two texts have the same letters, in whatever case, up to the length of the second.
pub open spec fn begins_like(text: Seq<char>, start: Seq<char>) -> bool {
    &&& text.len() >= start.len()
    &&& forall|i: int| 0 <= i < start.len() ==> small(#[trigger] text[i]) == small(start[i])
}

/// What the kinds are: an image in the usual format and plain text go by their types in any case,
/// an image that is spelled as usual by its beginning as it is, and any image and any text by their
/// beginnings in any case.
pub proof fn law_kinds(mime: Seq<char>)
    ensures
        Kind::Png.includes(mime) <==> mime.len() == 9 && begins_like(mime, "image/png"@),
        Kind::Utf8.includes(mime) <==> mime.len() == 24 && begins_like(
            mime,
            "text/plain;charset=utf-8"@,
        ),
        Kind::Plain.includes(mime) <==> mime.len() == 10 && begins_like(mime, "text/plain"@),
        Kind::Image.includes(mime) <==> mime.len() >= 6 && mime.take(6) == "image/"@,
        Kind::AnyImage.includes(mime) <==> begins_like(mime, "image/"@),
        Kind::Text.includes(mime) <==> begins_like(mime, "text/"@),
{
    reveal_strlit("image/png");
    reveal_strlit("text/plain;charset=utf-8");
    reveal_strlit("text/plain");
    reveal_strlit("image/");
    reveal_strlit("text/");
    assert forall|c: char| folded(c) == small(c) by {}
    lemma_begins(mime, "image/png"@);
    lemma_begins(mime, "text/plain;charset=utf-8"@);
    lemma_begins(mime, "text/plain"@);
    lemma_begins(mime, "image/"@);
    lemma_begins(mime, "text/"@);
}

proof fn lemma_begins(mime: Seq<char>, start: Seq<char>)
    ensures
        starts_folded(mime, start) <==> begins_like(mime, start),
        same_folded(mime, start) <==> mime.len() == start.len() && begins_like(mime, start),
{
    if mime.len() >= start.len() {
        let front = mime.take(start.len() as int);
        if same_folded(front, start) {
            assert forall|i: int| 0 <= i < start.len() implies small(#[trigger] mime[i]) == small(
                start[i],
            ) by {
                assert(folded(front[i]) == folded(start[i]));
            }
        }
        if begins_like(mime, start) {
            assert forall|i: int| 0 <= i < front.len() implies folded(#[trigger] front[i])
                == folded(start[i]) by {
                assert(small(mime[i]) == small(start[i]));
            }
        }
    }
    if same_folded(mime, start) {
        assert forall|i: int| 0 <= i < start.len() implies small(#[trigger] mime[i]) == small(
            start[i],
        ) by {
            assert(folded(mime[i]) == folded(start[i]));
        }
    }
    if mime.len() == start.len() && begins_like(mime, start) {
        assert forall|i: int| 0 <= i < mime.len() implies folded(#[trigger] mime[i]) == folded(
            start[i],
        ) by {
            assert(small(mime[i]) == small(start[i]));
        }
    }
}

/// Whether a type is the first of a kind.
pub open spec fn first_at(types: Seq<Seq<char>>, kind: Kind, i: int) -> bool {
    &&& 0 <= i < types.len()
    &&& kind.includes(types[i])
    &&& forall|j: int| 0 <= j < i ==> !kind.includes(#[trigger] types[j])
}

/// Whether no type is of a kind.
pub open spec fn none_is(types: Seq<Seq<char>>, kind: Kind) -> bool {
    forall|j: int| 0 <= j < types.len() ==> !kind.includes(#[trigger] types[j])
}

/// Which type is picked: the first image in the usual format; without one, the first image that is
/// spelled as usual; without one, the first plain text in UTF-8, else the first plain text, else
/// the first type, but where that is a text, the first image of any spelling in its place.
pub proof fn law_what_is_picked(types: Seq<Seq<char>>, i: int, image: int)
    ensures
        first_at(types, Kind::Png, i) ==> preferred(types) == Some(types[i]),
        none_is(types, Kind::Png) && first_at(types, Kind::Image, i) ==> preferred(types) == Some(
            types[i],
        ),
        none_is(types, Kind::Png) && none_is(types, Kind::Image) && (first_at(
            types,
            Kind::Utf8,
            i,
        ) || (none_is(types, Kind::Utf8) && first_at(types, Kind::Plain, i)) || (none_is(
            types,
            Kind::Utf8,
        ) && none_is(types, Kind::Plain) && i == 0 && types.len() > 0)) ==> {
            &&& none_is(types, Kind::AnyImage) || !Kind::Text.includes(types[i]) ==> preferred(
                types,
            ) == Some(types[i])
            &&& first_at(types, Kind::AnyImage, image) && Kind::Text.includes(types[i])
                ==> preferred(types) == Some(types[image])
        },
        types.len() == 0 ==> preferred(types) is None,
{
    lemma_first_at(types, Kind::Png, i);
    lemma_first_at(types, Kind::Image, i);
    lemma_first_at(types, Kind::Utf8, i);
    lemma_first_at(types, Kind::Plain, i);
    lemma_first_at(types, Kind::AnyImage, image);
}

proof fn lemma_first_at(types: Seq<Seq<char>>, kind: Kind, i: int)
    ensures
        first_at(types, kind, i) ==> first(types, kind) == Some(types[i]),
        none_is(types, kind) ==> first(types, kind) is None,
    decreases types.len(),
{
    if types.len() > 0 {
        let rest = types.skip(1);
        lemma_first_at(rest, kind, i - 1);
        if first_at(types, kind, i) && i > 0 {
            assert(!kind.includes(types[0]));
            assert forall|j: int| 0 <= j < i - 1 implies !kind.includes(#[trigger] rest[j]) by {
                assert(!kind.includes(types[j + 1]));
            }
            assert(rest[i - 1] == types[i]);
        }
        if none_is(types, kind) {
            assert(!kind.includes(types[0]));
            assert forall|j: int| 0 <= j < rest.len() implies !kind.includes(
                #[trigger] rest[j],
            ) by {
                assert(!kind.includes(types[j + 1]));
            }
        }
    }
}

/// Lines put back together, with a newline between each and the next.
pub open spec fn put_together(lines: Seq<Seq<char>>) -> Seq<char>
    decreases lines.len(),
{
    if lines.len() == 0 {
        seq![]
    } else if lines.len() == 1 {
        lines[0]
    } else {
        put_together(lines.drop_last()).push('\n') + lines.last()
    }
}

/// The lines of a text have no newline in them, and put together they are the text.
pub proof fn law_lines_are_the_text(text: Seq<char>)
    ensures
        lines(text).len() > 0,
        put_together(lines(text)) == text,
        forall|i: int| 0 <= i < lines(text).len() ==> !(#[trigger] lines(text)[i]).contains('\n'),
    decreases text.len(),
{
    if text.len() == 0 {
        assert(put_together(lines(text)) =~= text);
    } else {
        let before = lines(text.drop_last());
        let all = lines(text);
        let c = text.last();
        law_lines_are_the_text(text.drop_last());
        assert(text.drop_last().push(c) =~= text);
        if c == '\n' {
            assert(all.drop_last() =~= before);
            assert(put_together(all) =~= text);
            assert forall|i: int| 0 <= i < all.len() implies !(#[trigger] all[i]).contains(
                '\n',
            ) by {
                if i < before.len() {
                    assert(all[i] == before[i]);
                }
            }
        } else {
            assert(all.drop_last() =~= before.drop_last());
            assert(put_together(all) =~= put_together(before).push(c));
            assert forall|i: int| 0 <= i < all.len() implies !(#[trigger] all[i]).contains(
                '\n',
            ) by {
                assert(!before[i].contains('\n'));
                if i == before.len() - 1 && all[i].contains('\n') {
                    let k = choose|k: int| 0 <= k < all[i].len() && all[i][k] == '\n';
                    assert(before[i][k] == '\n');
                }
            }
        }
    }
}

/// Trimming takes white space off both ends, all of it, and nothing else.
pub proof fn law_trimming_takes_off_white_space(text: Seq<char>)
    ensures
        exists|from: int, to: int|
            #![trigger text.subrange(from, to)]
            0 <= from <= to <= text.len() && trimmed(text) == text.subrange(from, to) && (forall|
                i: int,
            |
                0 <= i < from || to <= i < text.len() ==> is_space(#[trigger] text[i])),
        trimmed(text).len() > 0 ==> !is_space(trimmed(text)[0]) && !is_space(trimmed(text).last()),
{
    let from = lemma_trimmed_front(text);
    let front = trimmed_front(text);
    let size = lemma_trimmed_back(front);
    let to = from + size;
    assert(trimmed(text) =~= text.subrange(from, to));
    assert forall|i: int| 0 <= i < from || to <= i < text.len() implies is_space(
        #[trigger] text[i],
    ) by {
        if to <= i {
            assert(front[i - from] == text[i]);
        }
    }
    if trimmed(text).len() > 0 {
        assert(trimmed(text)[0] == front[0]);
    }
}

proof fn lemma_trimmed_front(text: Seq<char>) -> (from: int)
    ensures
        0 <= from <= text.len(),
        trimmed_front(text) == text.skip(from),
        forall|i: int| 0 <= i < from ==> is_space(#[trigger] text[i]),
        trimmed_front(text).len() > 0 ==> !is_space(trimmed_front(text)[0]),
    decreases text.len(),
{
    if text.len() > 0 && is_space(text[0]) {
        let rest = text.skip(1);
        let from = lemma_trimmed_front(rest) + 1;
        assert(rest.skip(from - 1) =~= text.skip(from));
        assert forall|i: int| 0 <= i < from implies is_space(#[trigger] text[i]) by {
            if i > 0 {
                assert(is_space(rest[i - 1]));
            }
        }
        from
    } else {
        assert(text.skip(0) =~= text);
        0
    }
}

proof fn lemma_trimmed_back(text: Seq<char>) -> (to: int)
    ensures
        0 <= to <= text.len(),
        trimmed_back(text) == text.take(to),
        forall|i: int| to <= i < text.len() ==> is_space(#[trigger] text[i]),
        trimmed_back(text).len() > 0 ==> !is_space(trimmed_back(text).last()),
    decreases text.len(),
{
    if text.len() > 0 && is_space(text.last()) {
        let rest = text.drop_last();
        let to = lemma_trimmed_back(rest);
        assert(rest.take(to) =~= text.take(to));
        assert forall|i: int| to <= i < text.len() implies is_space(#[trigger] text[i]) by {
            if i < rest.len() {
                assert(is_space(rest[i]));
            }
        }
        to
    } else {
        assert(text.take(text.len() as int) =~= text);
        text.len() as int
    }
}

/// The types that a text reports are its lines that have a slash in them, trimmed and in order.
/// Adding a line adds its type behind the others, if it names one.
pub proof fn law_reported_types(text: Seq<char>, before: Seq<Seq<char>>, line: Seq<char>)
    ensures
        reported(text) == mimes(lines(text)),
        mimes(seq![]).len() == 0,
        mimes(before.push(line)) == if trimmed(line).contains('/') {
            mimes(before).push(trimmed(line))
        } else {
            mimes(before)
        },
{
    lemma_mimes_push(before, line);
    reveal(Seq::filter);
}

/// A command has the type of the contents in place of each `{type}`, as the one word that the
/// shell makes of it.
pub proof fn law_commands_name_the_type(command: Seq<char>, mime: Seq<char>)
    ensures
        with_type(command, mime) == replaced(command, "{type}"@, quoted(mime)),
{
}

/// What is wrong with a command is told in words.
pub proof fn law_command_errors_say_so(status: String)
    ensures
        CommandError::TimedOut.text() == "Clipboard command timed out"@,
        CommandError::Failed(status).text() == "Clipboard command failed: "@ + status@,
{
}

/// Contents are told by their type and their bytes.
pub proof fn law_contents_are_what_they_hold(data: Data)
    ensures
        data@.mime == data.mime@,
        data@.data == data.data@,
        data_view(Some(data)) == Some(data@),
        data_view(None) is None,
{
}

/// The clipboard is read once a second, a command has five seconds, and what is shared has its
/// limits.
pub proof fn law_clipboard_limits()
    ensures
        POLL_INTERVAL == 1000,
        COMMAND_TIMEOUT == 5000,
        MAX_SIZE == 4194304,
        MAX_MIME_LENGTH == 255,
{
}

} // verus!
