//! The record layout of a tape image, as sequences of bytes, and the code
//! that writes it.

use vstd::prelude::*;

verus! {

/// The four bytes that bracket every record: the block size, low byte first.
/// Only the low 32 bits of the block size are written.
pub open spec fn marker(block_size: nat) -> Seq<u8> {
    seq![
        (block_size % 256) as u8,
        (block_size / 256 % 256) as u8,
        (block_size / 65536 % 256) as u8,
        (block_size / 16777216 % 256) as u8,
    ]
}

/// The marker that closes the records of one input.
pub open spec fn end_of_file() -> Seq<u8> {
    seq![0u8, 0u8, 0u8, 0u8]
}

/// The marker that closes the image.
pub open spec fn end_of_tape() -> Seq<u8> {
    seq![0xffu8, 0xffu8, 0xffu8, 0xffu8]
}

/// `n` padding bytes.
pub open spec fn zeros(n: nat) -> Seq<u8> {
    Seq::new(n, |i: int| 0u8)
}

/// The number of records that `len` bytes take at the given block size:
/// `len / block_size`, rounded up.
pub open spec fn record_count(len: nat, block_size: nat) -> nat {
    if block_size == 0 {
        0
    } else {
        ((len + block_size - 1) / (block_size as int)) as nat
    }
}

/// The `k`-th run of `block_size` bytes of `content`; the last one may be shorter.
pub open spec fn chunk(content: Seq<u8>, block_size: nat, k: nat) -> Seq<u8> {
    let start: int = (k * block_size) as int;
    let end: int = if start + block_size <= content.len() {
        start + block_size
    } else {
        content.len() as int
    };
    content.subrange(start, end)
}

/// One record: marker, data, padding up to the block size, marker again.
pub open spec fn record(data: Seq<u8>, block_size: nat) -> Seq<u8> {
    marker(block_size) + data + zeros((block_size - data.len()) as nat) + marker(block_size)
}

/// The first `k` records of `content`.
pub open spec fn records(content: Seq<u8>, block_size: nat, k: nat) -> Seq<u8>
    decreases k,
{
    if k == 0 {
        Seq::empty()
    } else {
        records(content, block_size, (k - 1) as nat) + record(
            chunk(content, block_size, (k - 1) as nat),
            block_size,
        )
    }
}

/// What one input contributes to the image: all its records, then the
/// end-of-file marker.
pub open spec fn file_image(content: Seq<u8>, block_size: nat) -> Seq<u8> {
    records(content, block_size, record_count(content.len(), block_size)) + end_of_file()
}

/// The length of `file_image` for `len` bytes of content.
pub open spec fn file_len(len: nat, block_size: nat) -> nat {
    record_count(len, block_size) * (block_size + 8) + 4
}

/// `k` full blocks lie strictly below `len`, and one more reaches it: then
/// `len` bytes take `k + 1` records.
pub proof fn lemma_count_from_bounds(len: nat, block_size: nat, k: nat)
    requires
        block_size > 0,
        k * block_size < len <= (k + 1) * block_size,
    ensures
        record_count(len, block_size) == k + 1,
{
    let x = (len + block_size - 1) as int;
    let d = block_size as int;
    let q = k as int + 1;
    let rem = len - 1 - k * d;
    assert(q * d == k * d + d) by (nonlinear_arith)
        requires
            q == k + 1,
    ;
    vstd::arithmetic::div_mod::lemma_fundamental_div_mod_converse(x, d, q, rem);
}

/// Empty content takes no record.
pub proof fn lemma_count_of_nothing(block_size: nat)
    ensures
        record_count(0, block_size) == 0,
{
    if block_size > 0 {
        let d = block_size as int;
        vstd::arithmetic::div_mod::lemma_fundamental_div_mod_converse(d - 1, d, 0, d - 1);
    }
}

/// The record count is `len / block_size` rounded up: the least number of
/// blocks that hold `len` bytes.
pub proof fn lemma_count_is_ceiling(len: nat, block_size: nat)
    requires
        block_size > 0,
    ensures
        record_count(len, block_size) * block_size >= len,
        len > 0 ==> (record_count(len, block_size) - 1) * block_size < len,
        len == 0 <==> record_count(len, block_size) == 0,
{
    let x = (len + block_size - 1) as int;
    let d = block_size as int;
    vstd::arithmetic::div_mod::lemma_fundamental_div_mod(x, d);
    vstd::arithmetic::div_mod::lemma_mod_bound(x, d);
    assert((x / d) * d == d * (x / d)) by (nonlinear_arith);
    assert((x / d - 1) * d == d * (x / d) - d) by (nonlinear_arith);
    lemma_count_of_nothing(block_size);
    if len > 0 && x / d <= 0 {
        assert(d * (x / d) <= 0) by (nonlinear_arith)
            requires
                x / d <= 0,
                d > 0,
        ;
    }
}

/// The first `k` records take `k * (block_size + 8)` bytes.
pub proof fn lemma_records_len(content: Seq<u8>, block_size: nat, k: nat)
    requires
        block_size > 0,
        k <= record_count(content.len(), block_size),
    ensures
        records(content, block_size, k).len() == k * (block_size + 8),
    decreases k,
{
    if k > 0 {
        let j = (k - 1) as nat;
        lemma_records_len(content, block_size, j);
        lemma_chunk_len(content, block_size, j);
        assert(record(chunk(content, block_size, j), block_size).len() == block_size + 8);
        assert(k * (block_size + 8) == j * (block_size + 8) + (block_size + 8))
            by (nonlinear_arith)
            requires
                k == j + 1,
        ;
        assert(records(content, block_size, k) == records(content, block_size, j) + record(
            chunk(content, block_size, j),
            block_size,
        ));
    } else {
        assert(k * (block_size + 8) == 0) by (nonlinear_arith)
            requires
                k == 0,
        ;
    }
}

/// Every chunk below the record count holds between 1 and `block_size` bytes.
pub proof fn lemma_chunk_len(content: Seq<u8>, block_size: nat, k: nat)
    requires
        block_size > 0,
        k < record_count(content.len(), block_size),
    ensures
        k * block_size < content.len(),
        1 <= chunk(content, block_size, k).len() <= block_size,
{
    let x = (content.len() + block_size - 1) as int;
    let d = block_size as int;
    vstd::arithmetic::div_mod::lemma_fundamental_div_mod(x, d);
    vstd::arithmetic::div_mod::lemma_mod_bound(x, d);
    assert(k * d <= (x / d - 1) * d) by (nonlinear_arith)
        requires
            k <= x / d - 1,
            d > 0,
    ;
    assert((x / d - 1) * d == d * (x / d) - d) by (nonlinear_arith);
}

fn push_marker(out: &mut Vec<u8>, block_size: usize)
    ensures
        final(out)@ == old(out)@ + marker(block_size as nat),
{
    out.push((block_size % 256) as u8);
    out.push((block_size / 256 % 256) as u8);
    out.push((block_size / 65536 % 256) as u8);
    out.push((block_size / 16777216 % 256) as u8);
    assert(out@ =~= old(out)@ + marker(block_size as nat));
}

/// Appends to `out` the records of `content` and the end-of-file marker, and
/// returns the number of records written.
pub fn write_file(out: &mut Vec<u8>, content: &[u8], block_size: usize) -> (count: usize)
    requires
        block_size > 0,
        old(out)@.len() + file_len(content@.len(), block_size as nat) <= usize::MAX,
    ensures
        final(out)@ == old(out)@ + file_image(content@, block_size as nat),
        final(out)@.len() == old(out)@.len() + count * (block_size + 8) + 4,
        count == record_count(content@.len(), block_size as nat),
{
    let len: usize = content.len();
    let mut pos: usize = 0;
    let mut count: usize = 0;
    proof {
        lemma_count_of_nothing(block_size as nat);
    }
    while pos < len
        invariant
            block_size > 0,
            len == content@.len(),
            pos <= len,
            count <= pos,
            pos < len ==> pos == count * block_size,
            pos == len ==> count == record_count(len as nat, block_size as nat),
            out@ == old(out)@ + records(content@, block_size as nat, count as nat),
        decreases len - pos,
    {
        let take: usize = if len - pos < block_size {
            len - pos
        } else {
            block_size
        };
        let ghost before = out@;
        push_marker(out, block_size);
        let mut i: usize = 0;
        while i < take
            invariant
                i <= take,
                pos + take <= len,
                len == content@.len(),
                out@ == before + marker(block_size as nat) + content@.subrange(
                    pos as int,
                    pos + i,
                ),
            decreases take - i,
        {
            out.push(content[pos + i]);
            i = i + 1;
            assert(out@ =~= before + marker(block_size as nat) + content@.subrange(
                pos as int,
                pos + i,
            ));
        }
        let mut pad: usize = 0;
        while pad < block_size - take
            invariant
                take <= block_size,
                pad <= block_size - take,
                pos + take <= len,
                len == content@.len(),
                out@ == before + marker(block_size as nat) + content@.subrange(
                    pos as int,
                    pos + take,
                ) + zeros(pad as nat),
            decreases block_size - take - pad,
        {
            out.push(0u8);
            pad = pad + 1;
            assert(out@ =~= before + marker(block_size as nat) + content@.subrange(
                pos as int,
                pos + take,
            ) + zeros(pad as nat));
        }
        push_marker(out, block_size);
        proof {
            let b = block_size as nat;
            let k = count as nat;
            assert(content@.subrange(pos as int, pos + take) == chunk(content@, b, k));
            assert(records(content@, b, k + 1) == records(content@, b, k) + record(
                chunk(content@, b, k),
                b,
            ));
            assert(out@ =~= old(out)@ + records(content@, b, k + 1));
            assert((k + 1) * b == k * b + b) by (nonlinear_arith);
            if pos + take == len {
                lemma_count_from_bounds(len as nat, b, k);
            }
        }
        pos = pos + take;
        count = count + 1;
    }
    out.push(0u8);
    out.push(0u8);
    out.push(0u8);
    out.push(0u8);
    assert(out@ =~= old(out)@ + file_image(content@, block_size as nat));
    proof {
        lemma_file_image_len(content@, block_size as nat);
    }
    count
}

/// The records of `content` at the given block size, closed by the
/// end-of-file marker.
pub fn encode_file(content: &[u8], block_size: usize) -> (image: Vec<u8>)
    requires
        block_size > 0,
        file_len(content@.len(), block_size as nat) <= usize::MAX,
    ensures
        image@ == file_image(content@, block_size as nat),
        image@.len() == file_len(content@.len(), block_size as nat),
{
    let mut image: Vec<u8> = Vec::new();
    write_file(&mut image, content, block_size);
    assert(image@ =~= file_image(content@, block_size as nat));
    image
}

/// The number of records that `len` bytes take: `len / block_size`, rounded up.
pub fn count_records(len: usize, block_size: usize) -> (count: usize)
    requires
        block_size > 0,
    ensures
        count == record_count(len as nat, block_size as nat),
{
    let full: usize = len / block_size;
    let rest: usize = len % block_size;
    proof {
        vstd::arithmetic::div_mod::lemma_fundamental_div_mod(len as int, block_size as int);
        vstd::arithmetic::div_mod::lemma_mod_bound(len as int, block_size as int);
        assert(full * block_size >= full) by (nonlinear_arith)
            requires
                block_size >= 1,
        ;
        assert(block_size * full == full * block_size) by (nonlinear_arith);
        assert((full + 1) * block_size == full * block_size + block_size) by (nonlinear_arith);
    }
    if rest == 0 {
        proof {
            if full == 0 {
                assert(full * block_size == 0) by (nonlinear_arith)
                    requires
                        full == 0,
                ;
                lemma_count_of_nothing(block_size as nat);
            } else {
                assert((full - 1) * block_size == full * block_size - block_size)
                    by (nonlinear_arith);
                lemma_count_from_bounds(len as nat, block_size as nat, (full - 1) as nat);
            }
        }
        full
    } else {
        proof {
            lemma_count_from_bounds(len as nat, block_size as nat, full as nat);
        }
        full + 1
    }
}

/// The number of bytes that a file of `len` bytes takes on the tape, where
/// a `usize` can hold it.
pub fn file_size(len: usize, block_size: usize) -> (size: Option<usize>)
    requires
        block_size > 0,
    ensures
        size == if file_len(len as nat, block_size as nat) <= usize::MAX {
            Some(file_len(len as nat, block_size as nat) as usize)
        } else {
            None
        },
{
    let count: usize = count_records(len, block_size);
    if count == 0 {
        assert(count * (block_size + 8) == 0) by (nonlinear_arith)
            requires
                count == 0,
        ;
        return Some(4);
    }
    assert(count * (block_size + 8) >= block_size + 8) by (nonlinear_arith)
        requires
            count >= 1,
    ;
    match block_size.checked_add(8) {
        None => None,
        Some(width) => match count.checked_mul(width) {
            None => None,
            Some(all) => all.checked_add(4),
        },
    }
}

/// An empty file puts no record on the tape, only its end-of-file marker.
pub proof fn lemma_empty_file(block_size: nat)
    ensures
        file_image(Seq::empty(), block_size) == end_of_file(),
{
    lemma_count_of_nothing(block_size);
    assert(file_image(Seq::empty(), block_size) =~= end_of_file());
}

/// The number of records can be read back from the length of a file's
/// part of the image.
pub proof fn lemma_records_counted(content: Seq<u8>, block_size: nat)
    requires
        block_size > 0,
    ensures
        file_image(content, block_size).len() >= 4,
        (file_image(content, block_size).len() - 4) / (block_size + 8) as int == record_count(
            content.len(),
            block_size,
        ),
        (file_image(content, block_size).len() - 4) % (block_size + 8) as int == 0,
{
    let n = record_count(content.len(), block_size);
    lemma_records_len(content, block_size, n);
    vstd::arithmetic::div_mod::lemma_fundamental_div_mod_converse(
        (n * (block_size + 8)) as int,
        (block_size + 8) as int,
        n as int,
        0,
    );
}

/// The records and end-of-file markers of all `files`, each a content with
/// its block size, in the order given.
pub open spec fn tape_body(files: Seq<(Seq<u8>, nat)>) -> Seq<u8>
    decreases files.len(),
{
    if files.len() == 0 {
        Seq::empty()
    } else {
        tape_body(files.drop_last()) + file_image(files.last().0, files.last().1)
    }
}

/// The whole image: every file in order, then the end-of-tape marker.
pub open spec fn tape_image(files: Seq<(Seq<u8>, nat)>) -> Seq<u8> {
    tape_body(files) + end_of_tape()
}

/// The sum of `file_len` over `files`.
pub open spec fn body_len(files: Seq<(Seq<u8>, nat)>) -> nat
    decreases files.len(),
{
    if files.len() == 0 {
        0
    } else {
        body_len(files.drop_last()) + file_len(files.last().0.len(), files.last().1)
    }
}

/// The length of the whole image.
pub open spec fn tape_len(files: Seq<(Seq<u8>, nat)>) -> nat {
    body_len(files) + 4
}

/// Every file has a positive block size.
pub open spec fn positive_sizes(files: Seq<(Seq<u8>, nat)>) -> bool {
    forall|i: int| 0 <= i < files.len() ==> (#[trigger] files[i]).1 > 0
}

/// One file's part of the image has one record of `block_size + 8` bytes
/// for each `block_size` bytes of content, begun or full, and 4 bytes more.
pub proof fn lemma_file_image_len(content: Seq<u8>, block_size: nat)
    requires
        block_size > 0,
    ensures
        file_image(content, block_size).len() == file_len(content.len(), block_size),
{
    lemma_records_len(content, block_size, record_count(content.len(), block_size));
}

/// The image is as long as its parts together: for each file its records
/// and 4 bytes, and 4 bytes at the end.
pub proof fn lemma_tape_len(files: Seq<(Seq<u8>, nat)>)
    requires
        positive_sizes(files),
    ensures
        tape_body(files).len() == body_len(files),
        tape_image(files).len() == tape_len(files),
    decreases files.len(),
{
    if files.len() > 0 {
        let rest = files.drop_last();
        assert forall|i: int| 0 <= i < rest.len() implies (#[trigger] rest[i]).1 > 0 by {
            assert(rest[i] == files[i]);
        }
        lemma_tape_len(rest);
        lemma_file_image_len(files.last().0, files.last().1);
    }
}

/// The first `n` files take no more room than all of them.
pub proof fn lemma_body_len_prefix(files: Seq<(Seq<u8>, nat)>, n: int)
    requires
        0 <= n <= files.len(),
    ensures
        body_len(files.take(n)) <= body_len(files),
    decreases files.len(),
{
    if n == files.len() {
        assert(files.take(n) =~= files);
    } else {
        lemma_body_len_prefix(files.drop_last(), n);
        assert(files.drop_last().take(n) =~= files.take(n));
    }
}

/// Where the `k`-th record of a file begins, counted from the file's first byte on the tape.
pub open spec fn record_start(k: nat, block_size: nat) -> int {
    (k * (block_size + 8)) as int
}

/// Within the first `n` records, the `k`-th one stands at `k * (block_size + 8)`.
proof fn lemma_record_in_prefix(content: Seq<u8>, block_size: nat, k: nat, n: nat)
    requires
        block_size > 0,
        k < n <= record_count(content.len(), block_size),
    ensures
        record_start((k + 1) as nat, block_size) <= record_start(n, block_size),
        records(content, block_size, n).subrange(
            record_start(k, block_size),
            record_start((k + 1) as nat, block_size),
        ) == record(chunk(content, block_size, k), block_size),
    decreases n,
{
    let w = (block_size + 8) as int;
    let m = (n - 1) as nat;
    let from = record_start(k, block_size);
    let to = record_start((k + 1) as nat, block_size);
    lemma_records_len(content, block_size, m);
    lemma_records_len(content, block_size, n);
    lemma_chunk_len(content, block_size, m);
    assert((k + 1) * w == k * w + w) by (nonlinear_arith);
    assert(n * w == m * w + w) by (nonlinear_arith)
        requires
            n == m + 1,
    ;
    assert(to == from + w);
    assert(records(content, block_size, n) == records(content, block_size, m) + record(
        chunk(content, block_size, m),
        block_size,
    ));
    if k == m {
        assert(records(content, block_size, n).subrange(from, to) =~= record(
            chunk(content, block_size, k),
            block_size,
        ));
    } else {
        lemma_record_in_prefix(content, block_size, k, m);
        assert(records(content, block_size, n).subrange(from, to) =~= records(
            content,
            block_size,
            m,
        ).subrange(from, to));
    }
}

/// A record is `block_size + 8` bytes long, and begins and ends with the marker.
pub proof fn lemma_record_shape(data: Seq<u8>, block_size: nat)
    requires
        data.len() <= block_size,
    ensures
        record(data, block_size).len() == block_size + 8,
        record(data, block_size).take(4) == marker(block_size),
        record(data, block_size).subrange(4, data.len() as int + 4) == data,
        record(data, block_size).subrange(data.len() as int + 4, block_size as int + 4) == zeros(
            (block_size - data.len()) as nat,
        ),
        record(data, block_size).skip(block_size as int + 4) == marker(block_size),
{
    let r = record(data, block_size);
    assert(r.take(4) =~= marker(block_size));
    assert(r.subrange(4, data.len() as int + 4) =~= data);
    assert(r.subrange(data.len() as int + 4, block_size as int + 4) =~= zeros(
        (block_size - data.len()) as nat,
    ));
    assert(r.skip(block_size as int + 4) =~= marker(block_size));
}

/// One file's part of the image is `record_count` records of
/// `block_size + 8` bytes each, the `k`-th of them the record of the `k`-th
/// chunk of the content, and the end-of-file marker after the last.
pub proof fn lemma_record_layout(content: Seq<u8>, block_size: nat, k: nat)
    requires
        block_size > 0,
        k < record_count(content.len(), block_size),
    ensures
        0 <= record_start(k, block_size),
        record_start((k + 1) as nat, block_size) == record_start(k, block_size) + block_size + 8,
        record_start((k + 1) as nat, block_size) <= file_image(content, block_size).len() - 4,
        chunk(content, block_size, k).len() <= block_size,
        file_image(content, block_size).subrange(
            record_start(k, block_size),
            record_start((k + 1) as nat, block_size),
        ) == record(chunk(content, block_size, k), block_size),
        file_image(content, block_size).skip(file_image(content, block_size).len() - 4)
            == end_of_file(),
{
    let n = record_count(content.len(), block_size);
    let from = record_start(k, block_size);
    let to = record_start((k + 1) as nat, block_size);
    let all = records(content, block_size, n);
    lemma_record_in_prefix(content, block_size, k, n);
    lemma_records_len(content, block_size, n);
    lemma_chunk_len(content, block_size, k);
    assert(to == from + block_size + 8) by (nonlinear_arith)
        requires
            from == k * (block_size + 8),
            to == (k + 1) * (block_size + 8),
    ;
    assert(0 <= from <= to <= all.len());
    assert((all + end_of_file()).subrange(from, to) =~= all.subrange(from, to));
    assert((all + end_of_file()).skip(all.len() as int) =~= end_of_file());
}

/// A block size below 2^32 can be read back from its marker.
pub proof fn lemma_marker_value(block_size: nat)
    requires
        block_size < 0x1_0000_0000,
    ensures
        marker(block_size).len() == 4,
        block_size == marker(block_size)[0] + 256 * marker(block_size)[1] + 65536 * marker(
            block_size,
        )[2] + 16777216 * marker(block_size)[3],
{
}

/// `items` taken in the order that `order` gives.
pub open spec fn rearranged<A>(items: Seq<A>, order: Seq<int>) -> Seq<A> {
    Seq::new(order.len(), |i: int| items[order[i]])
}

/// Each file's part of the image, in order.
pub open spec fn groups(files: Seq<(Seq<u8>, nat)>) -> Seq<Seq<u8>> {
    Seq::new(files.len(), |i: int| file_image(files[i].0, files[i].1))
}

/// All `parts`, one after the other.
pub open spec fn joined(parts: Seq<Seq<u8>>) -> Seq<u8>
    decreases parts.len(),
{
    if parts.len() == 0 {
        Seq::empty()
    } else {
        joined(parts.drop_last()) + parts.last()
    }
}

/// The image holds each file's part whole, in the order of the files.
pub proof fn lemma_body_is_joined_groups(files: Seq<(Seq<u8>, nat)>)
    ensures
        tape_body(files) == joined(groups(files)),
    decreases files.len(),
{
    if files.len() > 0 {
        lemma_body_is_joined_groups(files.drop_last());
        assert(groups(files).drop_last() =~= groups(files.drop_last()));
    }
}

/// Rearranging the files rearranges their parts of the image in the same
/// way and changes nothing else: the image of the rearranged files is the
/// files' own parts, taken in the new order, and the end-of-tape marker.
pub proof fn lemma_order_preserved(files: Seq<(Seq<u8>, nat)>, order: Seq<int>)
    requires
        forall|i: int| 0 <= i < order.len() ==> 0 <= #[trigger] order[i] < files.len(),
    ensures
        groups(rearranged(files, order)) == rearranged(groups(files), order),
        tape_image(rearranged(files, order)) == joined(rearranged(groups(files), order))
            + end_of_tape(),
{
    assert(groups(rearranged(files, order)) =~= rearranged(groups(files), order));
    lemma_body_is_joined_groups(rearranged(files, order));
}

} // verus!
