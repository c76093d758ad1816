//! What a run is asked to do: the tape, the command, and for `create` the
//! inputs, each `PATH` or `PATH:BLOCKSIZE`.

use crate::result::Error;
use vstd::prelude::*;
use vstd::string::*;

verus! {

/// The block size of an input that names none, when no other default is given.
pub const MKTAPE_BLOCK_SIZE_DEFAULT: usize = 1024;

/// True of the ten decimal digits.
pub open spec fn is_digit(c: char) -> bool {
    '0' <= c && c <= '9'
}

/// The number that a decimal digit stands for.
pub open spec fn digit_value(c: char) -> nat {
    (c as int - '0' as int) as nat
}

/// The number that a run of decimal digits writes.
pub open spec fn decimal_value(digits: Seq<char>) -> nat
    decreases digits.len(),
{
    if digits.len() == 0 {
        0
    } else {
        decimal_value(digits.drop_last()) * 10 + digit_value(digits.last())
    }
}

/// The digits of a block size: the text itself, without one leading `+`.
pub open spec fn unsigned_part(text: Seq<char>) -> Seq<char> {
    if text.len() > 0 && text[0] == '+' {
        text.skip(1)
    } else {
        text
    }
}

/// True where `digits` holds decimal digits only.
pub open spec fn all_digits(digits: Seq<char>) -> bool {
    forall|i: int| 0 <= i < digits.len() ==> is_digit(#[trigger] digits[i])
}

/// The block size that `text` writes: one or more decimal digits, after at
/// most one `+`, whose value is positive and fits a `usize`.
pub open spec fn block_size_of(text: Seq<char>) -> Option<nat> {
    let digits = unsigned_part(text);
    if digits.len() > 0 && all_digits(digits) && 0 < decimal_value(digits) <= usize::MAX {
        Some(decimal_value(digits))
    } else {
        None
    }
}

/// The place of the last `:` in `token`, or -1 where it has none.
pub open spec fn last_colon(token: Seq<char>) -> int
    decreases token.len(),
{
    if token.len() == 0 {
        -1
    } else if token.last() == ':' {
        token.len() - 1
    } else {
        last_colon(token.drop_last())
    }
}

/// The path and block size that `token` resolves to, given the default
/// block size `fallback` as text, if one was supplied. A token with a `:`
/// parts at its last one into path and block size; one without is a path
/// and gets the default. `None` where the path is empty or a block size, in
/// the token or in `fallback`, is not a positive integer.
pub open spec fn resolve(token: Seq<char>, fallback: Option<Seq<char>>) -> Option<
    (Seq<char>, nat),
> {
    let default_size = match fallback {
        Some(text) => block_size_of(text),
        None => Some(MKTAPE_BLOCK_SIZE_DEFAULT as nat),
    };
    let split = last_colon(token);
    if default_size is None {
        None
    } else if split < 0 {
        if token.len() == 0 {
            None
        } else {
            Some((token, default_size.unwrap()))
        }
    } else if split == 0 {
        None
    } else {
        match block_size_of(token.skip(split + 1)) {
            Some(size) => Some((token.take(split), size)),
            None => None,
        }
    }
}

/// `last_colon` is the place of a `:` after which no other `:` stands, and
/// is -1 exactly where the token holds none.
pub proof fn lemma_last_colon(token: Seq<char>)
    ensures
        -1 <= last_colon(token) < token.len(),
        last_colon(token) >= 0 ==> token[last_colon(token)] == ':',
        forall|i: int| last_colon(token) < i < token.len() ==> token[i] != ':',
    decreases token.len(),
{
    if token.len() > 0 && token.last() != ':' {
        lemma_last_colon(token.drop_last());
        assert forall|i: int| last_colon(token) < i < token.len() implies token[i] != ':' by {
            if i < token.len() - 1 {
                assert(token.drop_last()[i] == token[i]);
            }
        }
    }
}

/// A prefix of a run of digits writes no greater number than the whole run.
pub proof fn lemma_prefix_value(digits: Seq<char>, n: int)
    requires
        0 <= n <= digits.len(),
    ensures
        decimal_value(digits.take(n)) <= decimal_value(digits),
    decreases digits.len(),
{
    if n == digits.len() {
        assert(digits.take(n) =~= digits);
    } else {
        lemma_prefix_value(digits.drop_last(), n);
        assert(digits.drop_last().take(n) =~= digits.take(n));
    }
}

fn digit_of(c: char) -> (d: Option<usize>)
    ensures
        d == if is_digit(c) {
            Some(digit_value(c) as usize)
        } else {
            None
        },
{
    match c {
        '0' => Some(0),
        '1' => Some(1),
        '2' => Some(2),
        '3' => Some(3),
        '4' => Some(4),
        '5' => Some(5),
        '6' => Some(6),
        '7' => Some(7),
        '8' => Some(8),
        '9' => Some(9),
        _ => None,
    }
}

/// Reads a block size: a positive decimal integer.
pub fn parse_block_size(text: &str) -> (size: Option<usize>)
    ensures
        match block_size_of(text@) {
            Some(n) => size == Some(n as usize),
            None => size is None,
        },
{
    let len: usize = text.unicode_len();
    let start: usize = if len > 0 && text.get_char(0) == '+' {
        1
    } else {
        0
    };
    let ghost digits = unsigned_part(text@);
    if start == len {
        return None;
    }
    let mut value: usize = 0;
    let mut i: usize = start;
    while i < len
        invariant
            start <= i <= len,
            len == text@.len(),
            digits == text@.skip(start as int),
            digits == unsigned_part(text@),
            all_digits(digits.take(i - start)),
            value == decimal_value(digits.take(i - start)),
        decreases len - i,
    {
        let c = text.get_char(i);
        let ghost seen = digits.take(i - start);
        let ghost next = digits.take(i - start + 1);
        proof {
            assert(next.drop_last() =~= seen);
            assert(next.last() == c);
            assert(decimal_value(next) == decimal_value(seen) * 10 + digit_value(c));
        }
        match digit_of(c) {
            None => {
                assert(!is_digit(digits[i - start]));
                return None;
            },
            Some(d) => {
                if value > (usize::MAX - d) / 10 {
                    proof {
                        lemma_prefix_value(digits, i - start + 1);
                    }
                    return None;
                }
                value = value * 10 + d;
                assert forall|j: int| 0 <= j < next.len() implies is_digit(#[trigger] next[j]) by {
                    if j < seen.len() {
                        assert(next[j] == seen[j]);
                    }
                }
            },
        }
        i = i + 1;
    }
    assert(digits.take(len - start) =~= digits);
    if value == 0 {
        None
    } else {
        Some(value)
    }
}

fn find_last_colon(token: &str) -> (place: Option<usize>)
    ensures
        match place {
            Some(k) => last_colon(token@) == k,
            None => last_colon(token@) == -1,
        },
{
    let len: usize = token.unicode_len();
    let mut i: usize = len;
    assert(token@.take(len as int) =~= token@);
    while i > 0
        invariant
            i <= len,
            len == token@.len(),
            last_colon(token@) == last_colon(token@.take(i as int)),
        decreases i,
    {
        let c = token.get_char(i - 1);
        proof {
            let head = token@.take(i as int);
            assert(head.last() == c);
            assert(head.drop_last() =~= token@.take(i - 1));
        }
        if c == ':' {
            return Some(i - 1);
        }
        i = i - 1;
    }
    None
}

/// One input of `create`: a file and the block size of its records.
#[derive(Debug, PartialEq, Eq)]
pub struct InputFile {
    pub path: String,
    pub block_size: usize,
}

impl View for InputFile {
    type V = (Seq<char>, nat);

    open spec fn view(&self) -> (Seq<char>, nat) {
        (self.path@, self.block_size as nat)
    }
}

/// The text behind an optional default, where there is one.
pub open spec fn text_of(fallback: Option<&str>) -> Option<Seq<char>> {
    match fallback {
        Some(text) => Some(text@),
        None => None,
    }
}

impl InputFile {
    /// A block size of zero frames nothing: every input must have a positive one.
    pub open spec fn well_formed(&self) -> bool {
        self.block_size > 0
    }

    /// Resolves `PATH` or `PATH:BLOCKSIZE`. The block size is what follows
    /// the last `:`, so a path may hold colons. Without a `:` the input
    /// gets `fallback`, or 1024 where there is none. An empty path is an
    /// error, and so is a block size that is not a positive integer,
    /// wherever it stands: after the last `:`, also where nothing follows
    /// it, or in `fallback`, also where the token has a block size of its
    /// own.
    pub fn from_str(item: &str, fallback: Option<&str>) -> (r: Result<InputFile, Error>)
        ensures
            match resolve(item@, text_of(fallback)) {
                Some(found) => r matches Ok(input) && input@ == found && input.well_formed(),
                None => r == Err::<InputFile, Error>(Error::InvalidInputSpec),
            },
    {
        let default_size: usize = match fallback {
            Some(text) => match parse_block_size(text) {
                Some(size) => size,
                None => {
                    return Err(Error::InvalidInputSpec);
                },
            },
            None => MKTAPE_BLOCK_SIZE_DEFAULT,
        };
        let len: usize = item.unicode_len();
        proof {
            lemma_last_colon(item@);
        }
        match find_last_colon(item) {
            None => {
                if len == 0 {
                    Err(Error::InvalidInputSpec)
                } else {
                    Ok(InputFile { path: String::from_str(item), block_size: default_size })
                }
            },
            Some(split) => {
                if split == 0 {
                    return Err(Error::InvalidInputSpec);
                }
                let suffix = item.substring_char(split + 1, len);
                let prefix = item.substring_char(0, split);
                assert(suffix@ =~= item@.skip(split + 1));
                assert(prefix@ =~= item@.take(split as int));
                match parse_block_size(suffix) {
                    Some(size) => Ok(
                        InputFile { path: String::from_str(prefix), block_size: size },
                    ),
                    None => Err(Error::InvalidInputSpec),
                }
            },
        }
    }
}

/// An input that names no block size gets the default handed in, and 1024
/// where none is handed in.
pub proof fn lemma_default_block_size(token: Seq<char>, fallback: Option<Seq<char>>)
    requires
        token.len() > 0,
        last_colon(token) < 0,
    ensures
        fallback is None ==> resolve(token, fallback) == Some((token, 1024nat)),
        fallback matches Some(text) ==> (match block_size_of(text) {
            Some(size) => resolve(token, fallback) == Some((token, size)),
            None => resolve(token, fallback) is None,
        }),
{
}

/// A block size after the last `:` that is not a positive integer makes
/// the whole input invalid, whatever the default.
pub proof fn lemma_bad_suffix_rejected(token: Seq<char>, fallback: Option<Seq<char>>)
    requires
        last_colon(token) >= 0,
        block_size_of(token.skip(last_colon(token) + 1)) is None,
    ensures
        resolve(token, fallback) is None,
{
}

/// With no `:` in `tail`, the last `:` of `path`, `:`, `tail` is the one
/// written between them.
pub proof fn lemma_last_colon_joined(path: Seq<char>, tail: Seq<char>)
    requires
        forall|i: int| 0 <= i < tail.len() ==> tail[i] != ':',
    ensures
        last_colon(path.push(':') + tail) == path.len(),
    decreases tail.len(),
{
    let joined = path.push(':') + tail;
    if tail.len() == 0 {
        assert(joined =~= path.push(':'));
    } else {
        assert(joined.last() == tail.last());
        assert(joined.drop_last() =~= path.push(':') + tail.drop_last());
        lemma_last_colon_joined(path, tail.drop_last());
    }
}

/// A path joined to a block size by `:` resolves to that path and that
/// block size, also where the path holds colons of its own.
pub proof fn lemma_resolve_joined(path: Seq<char>, size: Seq<char>, fallback: Option<Seq<char>>)
    requires
        path.len() > 0,
        block_size_of(size) is Some,
        fallback matches Some(text) ==> block_size_of(text) is Some,
    ensures
        resolve(path.push(':') + size, fallback) == Some((path, block_size_of(size).unwrap())),
{
    let joined = path.push(':') + size;
    assert forall|i: int| 0 <= i < size.len() implies size[i] != ':' by {
        let digits = unsigned_part(size);
        if size[0] == '+' {
            if i > 0 {
                assert(is_digit(digits[i - 1]));
            }
        } else {
            assert(is_digit(digits[i]));
        }
    }
    lemma_last_colon_joined(path, size);
    assert(joined.skip(path.len() as int + 1) =~= size);
    assert(joined.take(path.len() as int) =~= path);
}

/// The words of a command line: what stands between its spaces.
pub open spec fn split_words(line: Seq<char>) -> Seq<Seq<char>>
    decreases line.len(),
{
    if line.len() == 0 {
        seq![Seq::<char>::empty()]
    } else {
        let before = split_words(line.drop_last());
        if line.last() == ' ' {
            before.push(Seq::<char>::empty())
        } else {
            before.drop_last().push(before.last().push(line.last()))
        }
    }
}

/// Each string's text, in order.
pub open spec fn texts(words: Seq<String>) -> Seq<Seq<char>> {
    Seq::new(words.len(), |i: int| words[i]@)
}

/// Splits a command line at its spaces.
pub fn words_of(line: &str) -> (words: Vec<String>)
    ensures
        texts(words@) == split_words(line@),
{
    let len: usize = line.unicode_len();
    let mut words: Vec<String> = Vec::new();
    let mut start: usize = 0;
    let mut i: usize = 0;
    assert(line@.take(0) =~= Seq::<char>::empty());
    assert(texts(words@).push(line@.subrange(0, 0)) =~= seq![Seq::<char>::empty()]);
    while i < len
        invariant
            start <= i <= len,
            len == line@.len(),
            texts(words@).push(line@.subrange(start as int, i as int)) == split_words(
                line@.take(i as int),
            ),
        decreases len - i,
    {
        let c = line.get_char(i);
        let ghost earlier = texts(words@);
        let ghost current = line@.subrange(start as int, i as int);
        proof {
            let head = line@.take(i + 1);
            assert(head.last() == c);
            assert(head.drop_last() =~= line@.take(i as int));
            assert(earlier.push(current).drop_last() =~= earlier);
        }
        if c == ' ' {
            let word = String::from_str(line.substring_char(start, i));
            words.push(word);
            start = i + 1;
            assert(texts(words@) =~= earlier.push(current));
            assert(line@.subrange(start as int, i + 1) =~= Seq::<char>::empty());
        } else {
            assert(line@.subrange(start as int, i + 1) =~= current.push(c));
        }
        i = i + 1;
    }
    let ghost earlier = texts(words@);
    let last = String::from_str(line.substring_char(start, len));
    words.push(last);
    assert(line@.take(len as int) =~= line@);
    assert(texts(words@) =~= earlier.push(line@.subrange(start as int, len as int)));
    words
}

/// The two kinds of tape file.
#[derive(Clone, Copy, Debug, PartialEq, Eq)]
pub enum TapeFormat {
    Tap,
    Backup,
}

/// The tape file to be used.
#[derive(Debug, PartialEq, Eq)]
pub struct TapeFile {
    pub format: TapeFormat,
    pub path: String,
}

/// What to do with the tape.
#[derive(Debug, PartialEq, Eq)]
pub enum Command {
    /// Create a tape image from a set of input files.
    Create { inputs: Vec<InputFile> },
    /// List the contents of an existing tape image.
    List,
    /// Extract the contents of an existing tape image into a folder.
    Extract { target: String },
}

/// A whole request: the tape and the command.
#[derive(Debug, PartialEq, Eq)]
pub struct Args {
    pub tape: TapeFile,
    pub command: Command,
}

/// A command, as text and numbers.
pub enum CommandView {
    Create { inputs: Seq<(Seq<char>, nat)> },
    List,
    Extract { target: Seq<char> },
}

/// A request, as text and numbers.
pub struct ArgsView {
    pub format: TapeFormat,
    pub tape: Seq<char>,
    pub command: CommandView,
}

/// Each input as path and block size, in order.
pub open spec fn input_views(inputs: Seq<InputFile>) -> Seq<(Seq<char>, nat)> {
    Seq::new(inputs.len(), |i: int| inputs[i]@)
}

impl View for Command {
    type V = CommandView;

    open spec fn view(&self) -> CommandView {
        match self {
            Command::Create { inputs } => CommandView::Create { inputs: input_views(inputs@) },
            Command::List => CommandView::List,
            Command::Extract { target } => CommandView::Extract { target: target@ },
        }
    }
}

impl View for Args {
    type V = ArgsView;

    open spec fn view(&self) -> ArgsView {
        ArgsView { format: self.tape.format, tape: self.tape.path@, command: self.command@ }
    }
}

/// All of `tokens` resolved, in order; `None` where one of them does not resolve.
pub open spec fn resolve_all(tokens: Seq<Seq<char>>, fallback: Option<Seq<char>>) -> Option<
    Seq<(Seq<char>, nat)>,
> {
    if forall|i: int| 0 <= i < tokens.len() ==> resolve(#[trigger] tokens[i], fallback) is Some {
        Some(Seq::new(tokens.len(), |i: int| resolve(tokens[i], fallback).unwrap()))
    } else {
        None
    }
}

/// The command that `word` names, with the words that follow it.
pub open spec fn command_of(
    word: Seq<char>,
    operands: Seq<Seq<char>>,
    fallback: Option<Seq<char>>,
) -> Result<CommandView, Error> {
    if word == "create"@ {
        if operands.len() == 0 {
            Err(Error::InvalidArgsCount)
        } else {
            match resolve_all(operands, fallback) {
                Some(inputs) => Ok(CommandView::Create { inputs }),
                None => Err(Error::InvalidInputSpec),
            }
        }
    } else if word == "list"@ {
        if operands.len() == 0 {
            Ok(CommandView::List)
        } else {
            Err(Error::InvalidArgsCount)
        }
    } else if word == "extract"@ {
        if operands.len() == 1 {
            Ok(CommandView::Extract { target: operands[0] })
        } else {
            Err(Error::InvalidArgsCount)
        }
    } else {
        Err(Error::NotImplemented)
    }
}

/// The request that the words of a command line make: the program's name,
/// the tape, the command, and what the command takes.
pub open spec fn parse(words: Seq<Seq<char>>, fallback: Option<Seq<char>>) -> Result<
    ArgsView,
    Error,
> {
    if words.len() < 3 {
        Err(Error::InvalidArgsCount)
    } else {
        match command_of(words[2], words.skip(3), fallback) {
            Ok(command) => Ok(ArgsView { format: TapeFormat::Tap, tape: words[1], command }),
            Err(e) => Err(e),
        }
    }
}

impl Command {
    /// Every input of `create` has a positive block size.
    pub open spec fn well_formed(&self) -> bool {
        match self {
            Command::Create { inputs } => forall|i: int|
                0 <= i < inputs@.len() ==> (#[trigger] inputs@[i]).well_formed(),
            _ => true,
        }
    }
}

impl Args {
    /// Every input of the request has a positive block size.
    pub open spec fn well_formed(&self) -> bool {
        self.command.well_formed()
    }

    /// Reads a request from the words of a command line. `fallback` is the
    /// default block size as text, where the caller has one.
    pub fn from(args: Vec<String>, fallback: Option<&str>) -> (r: Result<Args, Error>)
        ensures
            match parse(texts(args@), text_of(fallback)) {
                Ok(request) => r matches Ok(a) && a@ == request && a.well_formed(),
                Err(e) => r == Err::<Args, Error>(e),
            },
    {
        let len: usize = args.len();
        if len < 3 {
            return Err(Error::InvalidArgsCount);
        }
        let ghost words = texts(args@);
        let ghost operands = words.skip(3);
        let create = String::from_str("create");
        let list = String::from_str("list");
        let extract = String::from_str("extract");
        let command = if args[2] == create {
            if len == 3 {
                return Err(Error::InvalidArgsCount);
            }
            let mut inputs: Vec<InputFile> = Vec::new();
            let mut i: usize = 3;
            while i < len
                invariant
                    3 <= i <= len,
                    3 < len == args@.len(),
                    args@[2]@ == "create"@,
                    words == texts(args@),
                    operands == words.skip(3),
                    inputs@.len() == i - 3,
                    forall|j: int|
                        0 <= j < i - 3 ==> resolve(#[trigger] operands[j], text_of(fallback))
                            == Some(inputs@[j]@),
                    forall|j: int| 0 <= j < i - 3 ==> (#[trigger] inputs@[j]).well_formed(),
                decreases len - i,
            {
                assert(operands[i - 3] == args@[i as int]@);
                match InputFile::from_str(args[i].as_str(), fallback) {
                    Ok(input) => {
                        inputs.push(input);
                    },
                    Err(_) => {
                        assert(resolve(operands[i - 3], text_of(fallback)) is None);
                        return Err(Error::InvalidInputSpec);
                    },
                }
                i = i + 1;
            }
            assert(input_views(inputs@) =~= resolve_all(operands, text_of(fallback)).unwrap());
            Command::Create { inputs }
        } else if args[2] == list {
            if len != 3 {
                return Err(Error::InvalidArgsCount);
            }
            Command::List
        } else if args[2] == extract {
            if len != 4 {
                return Err(Error::InvalidArgsCount);
            }
            assert(operands[0] == args@[3]@);
            Command::Extract { target: args[3].clone() }
        } else {
            return Err(Error::NotImplemented);
        };
        Ok(Args { tape: TapeFile { format: TapeFormat::Tap, path: args[1].clone() }, command })
    }

    /// Reads a request from a command line, whose words are parted by
    /// single spaces.
    pub fn try_from(args: &str, fallback: Option<&str>) -> (r: Result<Args, Error>)
        ensures
            match parse(split_words(args@), text_of(fallback)) {
                Ok(request) => r matches Ok(a) && a@ == request && a.well_formed(),
                Err(e) => r == Err::<Args, Error>(e),
            },
    {
        Args::from(words_of(args), fallback)
    }
}

} // verus!
