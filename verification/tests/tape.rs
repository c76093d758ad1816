use mktape::args::{Args, Command, InputFile, TapeFile, TapeFormat};
use mktape::frame::{count_records, encode_file, file_size, write_file};
use mktape::mktape::{
    check_tape_filename, create, extract, is_ready, list, mktape, report, validate, Report, Source,
};
use mktape::result::Error;

fn input(path: &str, block_size: usize) -> InputFile {
    InputFile { path: path.to_string(), block_size }
}

fn request(tape: &str, command: Command) -> Args {
    Args { tape: TapeFile { format: TapeFormat::Tap, path: tape.to_string() }, command }
}

fn not_found() -> String {
    std::io::Error::from(std::io::ErrorKind::NotFound).to_string()
}

#[test]
fn error_when_cant_open_tap_file() {
    let args = "mktape ./pathdoesntexist/outfile.tap create infile1.txt";
    let args = Args::try_from(&args, None).expect("Expected successful parse");
    assert_eq!(args.tape.path, "./pathdoesntexist/outfile.tap");
    let sink: Result<(), String> = Err(not_found());
    let sources: Vec<Source> = Vec::new();
    assert!(match mktape(&args, &sink, &sources) {
        Err(Error::Io(_)) => true,
        _ => false,
    });
}

#[test]
fn error_when_cant_open_input_file() {
    let args = "mktape outfile.tap create infile1.txt";
    let args = Args::try_from(&args, None).expect("Expected successful parse");
    let inputs = match &args.command {
        Command::Create { inputs } => inputs,
        other => panic!("error_when_cant_open_input_file::unexpected command: {:?}", other),
    };
    assert_eq!(inputs[0].path, "infile1.txt");
    let sources: Vec<Source> = vec![Err(not_found())];
    assert!(match mktape(&args, &Ok(()), &sources) {
        Err(Error::Io(_)) => true,
        other => panic!("error_when_cant_open_input_file::unexpected error: {:?}", other),
    });
}

#[test]
fn one_full_block() {
    let content: Vec<u8> = (0..512u32).map(|i| (i % 251) as u8).collect();
    let args = request("out.tap", Command::Create { inputs: vec![input("f", 512)] });
    let image = mktape(&args, &Ok(()), &vec![Ok(content.clone())]).expect("image");
    assert_eq!(image.len(), 528);
    assert_eq!(&image[0..4], &[0x00, 0x02, 0x00, 0x00]);
    assert_eq!(&image[4..516], &content[..]);
    assert_eq!(&image[516..520], &[0x00, 0x02, 0x00, 0x00]);
    assert_eq!(&image[520..524], &[0x00; 4]);
    assert_eq!(&image[524..528], &[0xff; 4]);
}

#[test]
fn empty_file_then_short_file() {
    let data: Vec<u8> = vec![1, 2, 3, 4, 5, 6, 7, 8, 9, 10];
    let args = request(
        "out.tap",
        Command::Create { inputs: vec![input("empty", 1024), input("ten", 1024)] },
    );
    let image = mktape(&args, &Ok(()), &vec![Ok(Vec::new()), Ok(data.clone())]).expect("image");
    let mut expected: Vec<u8> = Vec::new();
    expected.extend_from_slice(&[0, 0, 0, 0]);
    expected.extend_from_slice(&1024u32.to_le_bytes());
    expected.extend_from_slice(&data);
    expected.extend_from_slice(&[0u8; 1014]);
    expected.extend_from_slice(&1024u32.to_le_bytes());
    expected.extend_from_slice(&[0, 0, 0, 0]);
    expected.extend_from_slice(&[0xff, 0xff, 0xff, 0xff]);
    assert_eq!(image.len(), 4 + 1032 + 4 + 4);
    assert_eq!(image, expected);
}

#[test]
fn record_count_is_rounded_up() {
    let cases = [
        (0usize, 7usize, 0usize),
        (1, 7, 1),
        (6, 7, 1),
        (7, 7, 1),
        (8, 7, 2),
        (14, 7, 2),
        (15, 7, 3),
        (5, 1, 5),
    ];
    for (len, block, count) in cases {
        let content: Vec<u8> = vec![0xab; len];
        let mut out: Vec<u8> = vec![9, 9];
        let written = write_file(&mut out, &content, block);
        assert_eq!(written, count);
        assert_eq!(out.len(), 2 + count * (block + 8) + 4);
        assert_eq!(&out[..2], &[9, 9]);
        assert_eq!(encode_file(&content, block), out[2..].to_vec());
    }
}

#[test]
fn every_record_carries_the_block_size() {
    let content: Vec<u8> = (1..=10u8).collect();
    let image = encode_file(&content, 4);
    assert_eq!(image.len(), 3 * 12 + 4);
    for k in 0..3 {
        let record = &image[k * 12..(k + 1) * 12];
        assert_eq!(&record[0..4], &[4, 0, 0, 0]);
        assert_eq!(&record[8..12], &[4, 0, 0, 0]);
    }
    assert_eq!(&image[4..8], &[1, 2, 3, 4]);
    assert_eq!(&image[16..20], &[5, 6, 7, 8]);
    assert_eq!(&image[28..32], &[9, 10, 0, 0]);
    assert_eq!(&image[36..40], &[0, 0, 0, 0]);
}

#[test]
fn marker_is_little_endian() {
    let image = encode_file(&[7u8], 0x0102_0304);
    assert_eq!(&image[0..4], &[0x04, 0x03, 0x02, 0x01]);
    assert_eq!(&image[0..4], &0x0102_0304u32.to_le_bytes());
    assert_eq!(image[4], 7);
    assert_eq!(&image[image.len() - 8..image.len() - 4], &[0x04, 0x03, 0x02, 0x01]);
    let image = encode_file(&[7u8], 10240);
    assert_eq!(&image[0..4], &10240u32.to_le_bytes());
}

#[test]
fn image_length_is_the_sum_of_its_parts() {
    let inputs = vec![input("a", 3), input("b", 512), input("c", 1)];
    let contents: Vec<Vec<u8>> = vec![vec![1; 10], vec![2; 1025], vec![]];
    let sources: Vec<Source> = contents.iter().cloned().map(Ok).collect();
    let image = create(&inputs, &Ok(()), &sources).expect("image");
    assert_eq!(image.len(), (4 * (3 + 8) + 4) + (3 * (512 + 8) + 4) + (0 * (1 + 8) + 4) + 4);
}

#[test]
fn swapping_inputs_swaps_their_records() {
    let a = encode_file(&[1, 2, 3], 2);
    let b = encode_file(&[4, 5, 6, 7, 8], 4);
    let first: Source = Ok(vec![1, 2, 3]);
    let second: Source = Ok(vec![4, 5, 6, 7, 8]);
    let ab = create(
        &vec![input("a", 2), input("b", 4)],
        &Ok(()),
        &vec![first.clone(), second.clone()],
    )
    .expect("image");
    let ba = create(&vec![input("b", 4), input("a", 2)], &Ok(()), &vec![second, first])
        .expect("image");
    assert_eq!(ab, [a.clone(), b.clone(), vec![0xff; 4]].concat());
    assert_eq!(ba, [b, a, vec![0xff; 4]].concat());
}

#[test]
fn no_inputs_is_an_error_before_any_file() {
    let args = request("out.tap", Command::Create { inputs: vec![] });
    assert_eq!(validate(&args, false), Err(Error::InvalidArgsCount));
    assert_eq!(validate(&args, true), Err(Error::InvalidArgsCount));
    assert_eq!(mktape(&args, &Ok(()), &vec![]), Err(Error::InvalidArgsCount));
    assert_eq!(
        mktape(&args, &Err("no such directory".to_string()), &vec![]),
        Err(Error::InvalidArgsCount)
    );
    assert_eq!(create(&vec![], &Ok(()), &vec![]), Err(Error::InvalidArgsCount));
}

#[test]
fn tape_name_under_the_strict_policy() {
    assert_eq!(check_tape_filename("outfile.tap"), Ok(()));
    assert_eq!(check_tape_filename(".tap"), Ok(()));
    assert_eq!(check_tape_filename("outfile.tape"), Err(Error::InvalidTapeFilename));
    assert_eq!(check_tape_filename("outfile"), Err(Error::InvalidTapeFilename));
    assert_eq!(check_tape_filename("tap"), Err(Error::InvalidTapeFilename));
    assert_eq!(check_tape_filename("outfile.TAP"), Err(Error::InvalidTapeFilename));
    let args = request("outfile.bin", Command::Create { inputs: vec![input("f", 1024)] });
    assert_eq!(validate(&args, true), Err(Error::InvalidTapeFilename));
    assert_eq!(validate(&args, false), Ok(()));
    let args = request("outfile.tap", Command::Create { inputs: vec![input("f", 1024)] });
    assert_eq!(validate(&args, true), Ok(()));
}

#[test]
fn list_and_extract_are_not_implemented() {
    let listing = request("out.tap", Command::List);
    let extracting = request("out.tap", Command::Extract { target: "dir".to_string() });
    assert_eq!(list(&listing), Err(Error::NotImplemented));
    assert_eq!(extract(&extracting), Err(Error::NotImplemented));
    assert_eq!(mktape(&listing, &Ok(()), &vec![]), Err(Error::NotImplemented));
    assert_eq!(mktape(&extracting, &Ok(()), &vec![]), Err(Error::NotImplemented));
    assert_eq!(validate(&listing, false), Err(Error::NotImplemented));
    assert_eq!(validate(&extracting, true), Err(Error::NotImplemented));
}

#[test]
fn first_failure_is_reported() {
    let inputs = vec![input("a", 4), input("b", 4), input("c", 4)];
    let sources: Vec<Source> = vec![Ok(vec![1]), Err("b: not found".to_string())];
    assert_eq!(create(&inputs, &Ok(()), &sources), Err(Error::Io("b: not found".to_string())));
    let sources: Vec<Source> = vec![Err("a: denied".to_string())];
    assert_eq!(
        create(&inputs, &Err("tape: read-only".to_string()), &sources),
        Err(Error::Io("tape: read-only".to_string()))
    );
    assert_eq!(Error::io("x".to_string()), Error::Io("x".to_string()));
}

#[test]
fn sizes_are_computed_without_overflow() {
    assert_eq!(count_records(0, 512), 0);
    assert_eq!(count_records(1, 512), 1);
    assert_eq!(count_records(512, 512), 1);
    assert_eq!(count_records(513, 512), 2);
    assert_eq!(count_records(usize::MAX, 1), usize::MAX);
    assert_eq!(count_records(usize::MAX, usize::MAX), 1);
    assert_eq!(file_size(0, 512), Some(4));
    assert_eq!(file_size(0, usize::MAX), Some(4));
    assert_eq!(file_size(512, 512), Some(524));
    assert_eq!(file_size(10, 1024), Some(1036));
    assert_eq!(file_size(1, usize::MAX), None);
    assert_eq!(file_size(1, usize::MAX - 11), None);
    assert_eq!(file_size(1, usize::MAX - 12), Some(usize::MAX));
    assert_eq!(file_size(usize::MAX, 1), None);
}

#[test]
fn readiness_of_a_run() {
    let inputs = vec![input("a", 4), input("b", 4)];
    let both: Vec<Source> = vec![Ok(vec![1]), Ok(vec![2])];
    let one: Vec<Source> = vec![Ok(vec![1])];
    let failed: Vec<Source> = vec![Err("a: denied".to_string())];
    let three: Vec<Source> = vec![Ok(vec![1]), Ok(vec![2]), Ok(vec![3])];
    assert!(is_ready(&inputs, &Ok(()), &both));
    assert!(!is_ready(&inputs, &Ok(()), &one));
    assert!(is_ready(&inputs, &Ok(()), &failed));
    assert!(is_ready(&inputs, &Err("tape".to_string()), &one));
    assert!(!is_ready(&inputs, &Ok(()), &three));
    assert!(!is_ready(&vec![input("a", 0)], &Ok(()), &vec![Ok(vec![1])]));
    assert!(!is_ready(&vec![input("a", usize::MAX)], &Ok(()), &vec![Ok(vec![1])]));
    assert!(is_ready(&vec![input("a", usize::MAX)], &Ok(()), &vec![Ok(vec![])]));
}

#[test]
fn report_counts_padded_bytes() {
    assert_eq!(report(&input("f", 512), 512), Report { bytes: 512, records: 1, block_size: 512 });
    assert_eq!(report(&input("f", 1024), 10), Report { bytes: 1024, records: 1, block_size: 1024 });
    assert_eq!(report(&input("f", 512), 1025), Report { bytes: 1536, records: 3, block_size: 512 });
    assert_eq!(report(&input("f", 512), 0), Report { bytes: 0, records: 0, block_size: 512 });
}
