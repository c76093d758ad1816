//! The commands. The library touches no file: the caller creates the tape,
//! reads the inputs and hands in how that went, and writes what comes back.

use crate::args::{Args, Command, InputFile};
use crate::frame::{
    body_len, count_records, file_len, file_size, lemma_body_len_prefix, lemma_file_image_len,
    lemma_tape_len, record_count, tape_body, tape_image, tape_len, write_file,
};
use crate::result::Error;
use vstd::prelude::*;
use vstd::string::*;

verus! {

/// How reading one input went: its bytes, or the message of the failure.
pub type Source = Result<Vec<u8>, String>;

/// The message of the first read that failed, if one did.
pub open spec fn first_failure(sources: Seq<Source>) -> Option<Seq<char>>
    decreases sources.len(),
{
    if sources.len() == 0 {
        None
    } else {
        match first_failure(sources.drop_last()) {
            Some(message) => Some(message),
            None => match sources.last() {
                Err(message) => Some(message@),
                Ok(_) => None,
            },
        }
    }
}

/// Each input's content with its block size, in order.
pub open spec fn files_of(inputs: Seq<InputFile>, sources: Seq<Source>) -> Seq<(Seq<u8>, nat)> {
    Seq::new(
        inputs.len(),
        |i: int|
            (
                match sources[i] {
                    Ok(bytes) => bytes@,
                    Err(_) => Seq::empty(),
                },
                inputs[i].block_size as nat,
            ),
    )
}

/// A failure among the first reads is the failure of the whole run.
pub proof fn lemma_first_failure_prefix(sources: Seq<Source>, n: int)
    requires
        0 <= n <= sources.len(),
        first_failure(sources.take(n)) is Some,
    ensures
        first_failure(sources) == first_failure(sources.take(n)),
    decreases sources.len(),
{
    if n == sources.len() {
        assert(sources.take(n) =~= sources);
    } else {
        assert(sources.drop_last().take(n) =~= sources.take(n));
        lemma_first_failure_prefix(sources.drop_last(), n);
    }
}

/// True where the tape's name ends in `.tap`.
pub open spec fn has_tap_extension(path: Seq<char>) -> bool {
    path.len() >= 4 && path.subrange(path.len() - 4, path.len() as int) == seq!['.', 't', 'a', 'p']
}

/// What is wrong with a request before any file is touched, if anything:
/// `create` without inputs; under the strict policy a tape whose name does
/// not end in `.tap`; a command that is not supported yet.
pub open spec fn rejection(args: Args, strict: bool) -> Option<Error> {
    if args.command matches Command::Create { inputs } && inputs@.len() == 0 {
        Some(Error::InvalidArgsCount)
    } else if strict && !has_tap_extension(args.tape.path@) {
        Some(Error::InvalidTapeFilename)
    } else if !(args.command is Create) {
        Some(Error::NotImplemented)
    } else {
        None
    }
}

/// The inputs of a request; none where it does not create a tape.
pub open spec fn inputs_of(args: Args) -> Seq<InputFile> {
    match args.command {
        Command::Create { inputs } => inputs@,
        _ => Seq::empty(),
    }
}

/// What the caller must hand in for a run to be carried out: the outcome of
/// every read up to the first that failed, and, where all went well, an
/// image that fits in memory.
pub open spec fn run_ready(
    inputs: Seq<InputFile>,
    sink: Result<(), String>,
    sources: Seq<Source>,
) -> bool {
    &&& forall|i: int| 0 <= i < inputs.len() ==> (#[trigger] inputs[i]).well_formed()
    &&& sources.len() <= inputs.len()
    &&& (sink is Ok && first_failure(sources) is None) ==> {
        &&& sources.len() == inputs.len()
        &&& tape_len(files_of(inputs, sources)) <= usize::MAX
    }
}

/// The result of a run that the request allows: the first failure, of
/// creating the tape or of reading an input, or else the image.
pub open spec fn run_result(
    inputs: Seq<InputFile>,
    sink: Result<(), String>,
    sources: Seq<Source>,
    r: Result<Vec<u8>, Error>,
) -> bool {
    match sink {
        Err(message) => r matches Err(Error::Io(text)) && text@ == message@,
        Ok(_) => match first_failure(sources) {
            Some(message) => r matches Err(Error::Io(text)) && text@ == message,
            None => r matches Ok(image) && image@ == tape_image(files_of(inputs, sources)),
        },
    }
}

/// Decides whether a run can be carried out on what the caller hands in.
pub fn is_ready(
    inputs: &Vec<InputFile>,
    sink: &Result<(), String>,
    sources: &Vec<Source>,
) -> (ready: bool)
    ensures
        ready == run_ready(inputs@, *sink, sources@),
{
    let mut i: usize = 0;
    while i < inputs.len()
        invariant
            i <= inputs@.len(),
            forall|j: int| 0 <= j < i ==> (#[trigger] inputs@[j]).well_formed(),
        decreases inputs@.len() - i,
    {
        if inputs[i].block_size == 0 {
            assert(!inputs@[i as int].well_formed());
            return false;
        }
        i = i + 1;
    }
    if sources.len() > inputs.len() {
        return false;
    }
    if sink.is_err() {
        return true;
    }
    let mut n: usize = 0;
    assert(sources@.take(0) =~= Seq::<Source>::empty());
    while n < sources.len()
        invariant
            n <= sources@.len(),
            sources@.len() <= inputs@.len(),
            sink is Ok,
            forall|j: int| 0 <= j < inputs@.len() ==> (#[trigger] inputs@[j]).well_formed(),
            first_failure(sources@.take(n as int)) is None,
        decreases sources@.len() - n,
    {
        proof {
            let head = sources@.take(n + 1);
            assert(head.drop_last() =~= sources@.take(n as int));
            assert(head.last() == sources@[n as int]);
        }
        if sources[n].is_err() {
            proof {
                lemma_failure_found(sources@, n as int);
            }
            return true;
        }
        n = n + 1;
    }
    assert(sources@.take(sources@.len() as int) =~= sources@);
    if sources.len() != inputs.len() {
        return false;
    }
    let ghost files = files_of(inputs@, sources@);
    let mut total: usize = 0;
    let mut k: usize = 0;
    assert(files.take(0) =~= Seq::<(Seq<u8>, nat)>::empty());
    while k < inputs.len()
        invariant
            k <= inputs@.len(),
            sources@.len() == inputs@.len(),
            sink is Ok,
            first_failure(sources@) is None,
            forall|j: int| 0 <= j < inputs@.len() ==> (#[trigger] inputs@[j]).well_formed(),
            files == files_of(inputs@, sources@),
            total == body_len(files.take(k as int)),
        decreases inputs@.len() - k,
    {
        proof {
            let head = files.take(k + 1);
            assert(head.drop_last() =~= files.take(k as int));
            assert(head.last() == files[k as int]);
            lemma_body_len_prefix(files, k + 1);
            assert(inputs@[k as int].well_formed());
        }
        let len: usize = match &sources[k] {
            Ok(bytes) => bytes.len(),
            Err(_) => 0,
        };
        let size = match file_size(len, inputs[k].block_size) {
            Some(size) => size,
            None => {
                return false;
            },
        };
        total = match total.checked_add(size) {
            Some(sum) => sum,
            None => {
                return false;
            },
        };
        k = k + 1;
    }
    assert(files.take(inputs@.len() as int) =~= files);
    total.checked_add(4).is_some()
}

/// Checks the tape's name under the strict policy.
pub fn check_tape_filename(path: &str) -> (r: Result<(), Error>)
    ensures
        r == if has_tap_extension(path@) {
            Ok::<(), Error>(())
        } else {
            Err::<(), Error>(Error::InvalidTapeFilename)
        },
{
    let len: usize = path.unicode_len();
    if len < 4 {
        return Err(Error::InvalidTapeFilename);
    }
    let ghost tail = path@.subrange(len - 4, len as int);
    let ghost wanted = seq!['.', 't', 'a', 'p'];
    if path.get_char(len - 4) == '.' && path.get_char(len - 3) == 't' && path.get_char(len - 2)
        == 'a' && path.get_char(len - 1) == 'p' {
        assert(tail =~= wanted);
        Ok(())
    } else {
        assert(tail[0] == path@[len - 4] && tail[1] == path@[len - 3] && tail[2] == path@[len
            - 2] && tail[3] == path@[len - 1]);
        assert(wanted[0] == '.' && wanted[1] == 't' && wanted[2] == 'a' && wanted[3] == 'p');
        Err(Error::InvalidTapeFilename)
    }
}

/// Checks a request before any file is touched.
pub fn validate(args: &Args, strict: bool) -> (r: Result<(), Error>)
    ensures
        match rejection(*args, strict) {
            Some(e) => r == Err::<(), Error>(e),
            None => r == Ok::<(), Error>(()),
        },
{
    match &args.command {
        Command::Create { inputs } => {
            if inputs.len() == 0 {
                return Err(Error::InvalidArgsCount);
            }
        },
        _ => {},
    }
    if strict {
        match check_tape_filename(args.tape.path.as_str()) {
            Err(_) => {
                return Err(Error::InvalidTapeFilename);
            },
            Ok(_) => {},
        }
    }
    match &args.command {
        Command::Create { .. } => Ok(()),
        _ => Err(Error::NotImplemented),
    }
}

/// Builds the image of a tape that holds `inputs`, in their order: for each
/// the records of its content and an end-of-file marker, and one
/// end-of-tape marker at the end. Nothing is built where there is no input,
/// where the tape could not be created (`sink`), or where a read failed:
/// the first of these, in this order, is the error.
pub fn create(
    inputs: &Vec<InputFile>,
    sink: &Result<(), String>,
    sources: &Vec<Source>,
) -> (r: Result<Vec<u8>, Error>)
    requires
        run_ready(inputs@, *sink, sources@),
    ensures
        inputs@.len() == 0 ==> r == Err::<Vec<u8>, Error>(Error::InvalidArgsCount),
        inputs@.len() > 0 ==> run_result(inputs@, *sink, sources@, r),
        r matches Ok(image) ==> image@.len() == tape_len(files_of(inputs@, sources@)),
{
    if inputs.len() == 0 {
        return Err(Error::InvalidArgsCount);
    }
    match sink {
        Err(message) => {
            return Err(Error::Io(message.clone()));
        },
        Ok(_) => {},
    }
    let mut i: usize = 0;
    assert(sources@.take(0) =~= Seq::<Source>::empty());
    while i < sources.len()
        invariant
            i <= sources@.len(),
            inputs@.len() > 0,
            sink is Ok,
            first_failure(sources@.take(i as int)) is None,
        decreases sources@.len() - i,
    {
        proof {
            let head = sources@.take(i + 1);
            assert(head.drop_last() =~= sources@.take(i as int));
            assert(head.last() == sources@[i as int]);
        }
        match &sources[i] {
            Err(message) => {
                proof {
                    assert(first_failure(sources@.take(i + 1)) == Some(message@));
                    lemma_first_failure_prefix(sources@, i + 1);
                }
                return Err(Error::Io(message.clone()));
            },
            Ok(_) => {},
        }
        i = i + 1;
    }
    assert(sources@.take(sources@.len() as int) =~= sources@);
    let ghost files = files_of(inputs@, sources@);
    let mut image: Vec<u8> = Vec::new();
    let mut k: usize = 0;
    assert(files.take(0) =~= Seq::<(Seq<u8>, nat)>::empty());
    while k < inputs.len()
        invariant
            k <= inputs@.len(),
            run_ready(inputs@, *sink, sources@),
            sink is Ok,
            first_failure(sources@) is None,
            files == files_of(inputs@, sources@),
            image@ == tape_body(files.take(k as int)),
            image@.len() == body_len(files.take(k as int)),
        decreases inputs@.len() - k,
    {
        proof {
            let head = files.take(k + 1);
            assert(head.drop_last() =~= files.take(k as int));
            assert(head.last() == files[k as int]);
            lemma_body_len_prefix(files, k + 1);
            assert(inputs@[k as int].well_formed());
            lemma_file_image_len(files[k as int].0, files[k as int].1);
        }
        match &sources[k] {
            Ok(bytes) => {
                write_file(&mut image, bytes.as_slice(), inputs[k].block_size);
            },
            Err(_) => {
                proof {
                    lemma_failure_found(sources@, k as int);
                }
            },
        }
        k = k + 1;
    }
    assert(files.take(inputs@.len() as int) =~= files);
    image.push(0xffu8);
    image.push(0xffu8);
    image.push(0xffu8);
    image.push(0xffu8);
    assert(image@ =~= tape_image(files));
    proof {
        assert forall|j: int| 0 <= j < files.len() implies (#[trigger] files[j]).1 > 0 by {
            assert(inputs@[j].well_formed());
        }
        lemma_tape_len(files);
    }
    Ok(image)
}

/// A read that failed is a failure of the run.
pub proof fn lemma_failure_found(sources: Seq<Source>, i: int)
    requires
        0 <= i < sources.len(),
        sources[i] is Err,
    ensures
        first_failure(sources) is Some,
    decreases sources.len(),
{
    if i < sources.len() - 1 {
        lemma_failure_found(sources.drop_last(), i);
    }
}

/// What a run reports of one input.
#[derive(Clone, Copy, Debug, PartialEq, Eq)]
pub struct Report {
    /// The bytes that the input's records hold, padding included.
    pub bytes: usize,
    /// The number of its records.
    pub records: usize,
    /// The block size that each record declares.
    pub block_size: usize,
}

/// The report of an input whose content is `len` bytes long.
pub fn report(input: &InputFile, len: usize) -> (r: Report)
    requires
        input.well_formed(),
        file_len(len as nat, input.block_size as nat) <= usize::MAX,
    ensures
        r.records == record_count(len as nat, input.block_size as nat),
        r.bytes == r.records * input.block_size,
        r.block_size == input.block_size,
{
    let records: usize = count_records(len, input.block_size);
    assert(records * input.block_size <= records * (input.block_size + 8)) by (nonlinear_arith);
    Report { bytes: records * input.block_size, records, block_size: input.block_size }
}

/// Listing a tape is not supported yet.
pub fn list(_args: &Args) -> (r: Result<Vec<u8>, Error>)
    ensures
        r == Err::<Vec<u8>, Error>(Error::NotImplemented),
{
    Err(Error::NotImplemented)
}

/// Extracting from a tape is not supported yet.
pub fn extract(_args: &Args) -> (r: Result<Vec<u8>, Error>)
    ensures
        r == Err::<Vec<u8>, Error>(Error::NotImplemented),
{
    Err(Error::NotImplemented)
}

/// Carries out a request. `sink` says how creating the tape went and
/// `sources` how reading each input went, in the inputs' order and up to the
/// first failure. What is wrong with the request itself comes first (the
/// tape's name is not checked here), then the failure to create the tape,
/// then the first failed read; without any of these the result is the image
/// to write.
pub fn mktape(
    args: &Args,
    sink: &Result<(), String>,
    sources: &Vec<Source>,
) -> (r: Result<Vec<u8>, Error>)
    requires
        args.command is Create ==> run_ready(inputs_of(*args), *sink, sources@),
    ensures
        match rejection(*args, false) {
            Some(e) => r == Err::<Vec<u8>, Error>(e),
            None => run_result(inputs_of(*args), *sink, sources@, r),
        },
        r matches Ok(image) ==> image@.len() == tape_len(files_of(inputs_of(*args), sources@)),
{
    match &args.command {
        Command::Create { inputs } => create(inputs, sink, sources),
        Command::List => list(args),
        Command::Extract { .. } => extract(args),
    }
}

} // verus!
